//! A map from paths to values kept as a vector of pairs in ascending path
//! order, each path once: what an ordered map gives when it is walked.

use vstd::prelude::*;
use crate::text::{lemma_seq_lt_irrefl, lemma_seq_lt_total, lemma_seq_lt_trans, seq_lt, str_eq, str_lt};

verus! {

/// The paths, in order.
pub open spec fn path_keys<V>(f: Seq<(String, V)>) -> Seq<Seq<char>> {
    f.map_values(|e: (String, V)| e.0@)
}

/// Paths ascend strictly: each occurs once.
pub open spec fn paths_ascending<V>(f: Seq<(String, V)>) -> bool {
    forall|i: int, j: int| 0 <= i < j < f.len() ==> seq_lt((#[trigger] f[i]).0@, (#[trigger] f[j]).0@)
}

/// The value at `path` (the last entry for it).
pub open spec fn path_get<V>(f: Seq<(String, V)>, path: Seq<char>) -> Option<V>
    decreases f.len(),
{
    if f.len() == 0 {
        None
    } else if f.last().0@ == path {
        Some(f.last().1)
    } else {
        path_get(f.drop_last(), path)
    }
}

/// With ascending paths, the value at a path is the one at its entry, and
/// a path without an entry has none.
pub proof fn lemma_path_get<V>(f: Seq<(String, V)>, path: Seq<char>)
    requires
        paths_ascending(f),
    ensures
        forall|k: int| 0 <= k < f.len() && (#[trigger] f[k]).0@ == path ==> path_get(f, path) == Some(f[k].1),
        (forall|k: int| 0 <= k < f.len() ==> (#[trigger] f[k]).0@ != path) ==> path_get(f, path) is None,
    decreases f.len(),
{
    if f.len() > 0 {
        let g = f.drop_last();
        assert(paths_ascending(g)) by {
            assert forall|i: int, j: int| 0 <= i < j < g.len() implies seq_lt(
                (#[trigger] g[i]).0@,
                (#[trigger] g[j]).0@,
            ) by {
                assert(g[i] == f[i] && g[j] == f[j]);
            }
        }
        lemma_path_get(g, path);
        assert forall|k: int| 0 <= k < f.len() && (#[trigger] f[k]).0@ == path implies path_get(f, path)
            == Some(f[k].1) by {
            if k < f.len() - 1 {
                assert(seq_lt(f[k].0@, f[f.len() - 1].0@));
                lemma_seq_lt_irrefl(path);
                assert(g[k] == f[k]);
            }
        }
        if forall|k: int| 0 <= k < f.len() ==> (#[trigger] f[k]).0@ != path {
            assert(f[f.len() - 1].0@ != path);
            assert forall|k: int| 0 <= k < g.len() implies (#[trigger] g[k]).0@ != path by {
                assert(g[k] == f[k]);
            }
        }
    }
}

/// Where `path` belongs: after every smaller path.
fn path_slot<V>(f: &Vec<(String, V)>, path: &str) -> (i: usize)
    ensures
        i <= f.len(),
        forall|k: int| 0 <= k < i ==> seq_lt((#[trigger] f@[k]).0@, path@),
        i < f.len() ==> !seq_lt(f@[i as int].0@, path@),
{
    let mut i: usize = 0;
    while i < f.len()
        invariant
            i <= f.len(),
            forall|k: int| 0 <= k < i ==> seq_lt((#[trigger] f@[k]).0@, path@),
        decreases f.len() - i,
    {
        if !str_lt(f[i].0.as_str(), path) {
            return i;
        }
        i += 1;
    }
    i
}

/// Puts `value` at `path`, replacing what was there; paths stay ascending.
pub fn path_put<V>(f: &mut Vec<(String, V)>, path: &str, value: V)
    requires
        paths_ascending(old(f)@),
    ensures
        paths_ascending(final(f)@),
        forall|p: Seq<char>|
            path_keys(final(f)@).contains(p) <==> (path_keys(old(f)@).contains(p) || p == path@),
        path_get(final(f)@, path@) == Some(value),
        forall|other: Seq<char>| other != path@ ==> path_get(final(f)@, other) == path_get(old(f)@, other),
{
    let ghost f0 = f@;
    let i = path_slot(f, path);
    let present = i < f.len() && str_eq(f[i].0.as_str(), path);
    if present {
        f.set(i, (String::from_str(path), value));
    } else {
        f.insert(i, (String::from_str(path), value));
    }
    proof {
        let g = f@;
        lemma_seq_lt_irrefl(path@);
        if present {
            assert(g =~= f0.update(i as int, g[i as int]));
            assert forall|a: int, b: int| 0 <= a < b < g.len() implies seq_lt(
                (#[trigger] g[a]).0@,
                (#[trigger] g[b]).0@,
            ) by {
                assert(g[a].0@ == f0[a].0@);
                assert(g[b].0@ == f0[b].0@);
            }
            assert forall|p: Seq<char>|
                path_keys(g).contains(p) <==> (path_keys(f0).contains(p) || p == path@) by {
                if path_keys(g).contains(p) {
                    let k = choose|k: int| 0 <= k < path_keys(g).len() && path_keys(g)[k] == p;
                    assert(path_keys(f0)[k] == p);
                }
                if path_keys(f0).contains(p) {
                    let k = choose|k: int| 0 <= k < path_keys(f0).len() && path_keys(f0)[k] == p;
                    assert(path_keys(g)[k] == p);
                }
                if p == path@ {
                    assert(path_keys(g)[i as int] == p);
                }
            }
        } else {
            assert(g =~= f0.insert(i as int, g[i as int]));
            if i < f0.len() {
                lemma_seq_lt_total(f0[i as int].0@, path@);
                assert(seq_lt(path@, f0[i as int].0@));
            }
            assert forall|a: int, b: int| 0 <= a < b < g.len() implies seq_lt(
                (#[trigger] g[a]).0@,
                (#[trigger] g[b]).0@,
            ) by {
                if b < i {
                    assert(g[a] == f0[a] && g[b] == f0[b]);
                } else if b == i {
                    assert(g[a] == f0[a]);
                } else if a == i {
                    assert(g[b] == f0[b - 1]);
                    if b - 1 > i {
                        assert(seq_lt(f0[i as int].0@, f0[b - 1].0@));
                        lemma_seq_lt_trans(path@, f0[i as int].0@, f0[b - 1].0@);
                    }
                } else if a < i {
                    assert(g[a] == f0[a] && g[b] == f0[b - 1]);
                    assert(seq_lt(f0[a].0@, path@));
                    assert(seq_lt(path@, f0[b - 1].0@)) by {
                        if b - 1 > i {
                            assert(seq_lt(f0[i as int].0@, f0[b - 1].0@));
                            lemma_seq_lt_trans(path@, f0[i as int].0@, f0[b - 1].0@);
                        }
                    }
                    lemma_seq_lt_trans(f0[a].0@, path@, f0[b - 1].0@);
                } else {
                    assert(g[a] == f0[a - 1] && g[b] == f0[b - 1]);
                }
            }
            assert forall|p: Seq<char>|
                path_keys(g).contains(p) <==> (path_keys(f0).contains(p) || p == path@) by {
                if path_keys(g).contains(p) {
                    let k = choose|k: int| 0 <= k < path_keys(g).len() && path_keys(g)[k] == p;
                    if k < i {
                        assert(path_keys(f0)[k] == p);
                    } else if k > i {
                        assert(path_keys(f0)[k - 1] == p);
                    }
                }
                if path_keys(f0).contains(p) {
                    let k = choose|k: int| 0 <= k < path_keys(f0).len() && path_keys(f0)[k] == p;
                    if k < i {
                        assert(path_keys(g)[k] == p);
                    } else {
                        assert(path_keys(g)[k + 1] == p);
                    }
                }
                if p == path@ {
                    assert(path_keys(g)[i as int] == p);
                }
            }
        }
        assert(paths_ascending(g));
        lemma_path_get(g, path@);
        assert(g[i as int].0@ == path@);
        assert forall|other: Seq<char>| other != path@ implies path_get(g, other) == path_get(
            f0,
            other,
        ) by {
            lemma_path_get(g, other);
            lemma_path_get(f0, other);
            if exists|k: int| 0 <= k < f0.len() && (#[trigger] f0[k]).0@ == other {
                let k = choose|k: int| 0 <= k < f0.len() && (#[trigger] f0[k]).0@ == other;
                if present || k < i {
                    assert(g[k] == f0[k]);
                } else {
                    assert(g[k + 1] == f0[k]);
                }
            } else {
                assert forall|k: int| 0 <= k < g.len() implies (#[trigger] g[k]).0@ != other by {
                    if k != i {
                        if present || k < i {
                            assert(g[k] == f0[k]);
                        } else {
                            assert(g[k] == f0[k - 1]);
                        }
                    }
                }
            }
        }
    }
}

} // verus!
