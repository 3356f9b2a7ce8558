//! Minimal reader for the UIBuilder XML subset the pages use: one element =
//! tag + attributes + children (or leaf text, which is skipped).

use vstd::prelude::*;
use vstd::string::StringSliceAdditionalSpecFns;
use crate::keymap::{string_from_utf8_lossy, utf8_lossy};
use crate::text::{chars_of, copy_range, find_char, find_char_in, string_of};

verus! {

/// An element as values: its attributes (name, value) in order and its
/// child elements.
pub struct ElV {
    pub attrs: Seq<(Seq<char>, Seq<char>)>,
    pub children: Seq<ElV>,
}

/// One element of a page.
pub struct El {
    pub attrs: Vec<(String, String)>,
    pub children: Vec<El>,
}

pub open spec fn empty_el() -> ElV {
    ElV { attrs: Seq::empty(), children: Seq::empty() }
}

pub open spec fn el_view(e: El) -> ElV
    decreases e,
{
    ElV {
        attrs: e.attrs@.map_values(|p: (String, String)| (p.0@, p.1@)),
        children: Seq::new(
            e.children@.len(),
            |i: int|
                if 0 <= i < e.children@.len() {
                    el_view(e.children@[i])
                } else {
                    empty_el()
                },
        ),
    }
}

pub open spec fn els_view(v: Seq<El>) -> Seq<ElV> {
    v.map_values(|e: El| el_view(e))
}

/// `u8::is_ascii_whitespace`.
pub open spec fn is_ascii_ws(c: u8) -> bool {
    c == 32 || c == 9 || c == 10 || c == 12 || c == 13
}

/// `u8::is_ascii_alphanumeric`.
pub open spec fn is_alnum(c: u8) -> bool {
    (48 <= c <= 57) || (65 <= c <= 90) || (97 <= c <= 122)
}

/// First index from `p` that is not ASCII white space.
pub open spec fn skip_ws(b: Seq<u8>, p: int) -> int
    decreases b.len() - p,
{
    if 0 <= p < b.len() && is_ascii_ws(b[p]) {
        skip_ws(b, p + 1)
    } else {
        p
    }
}

/// First index from `p` that is not alphanumeric (nor `_` when
/// `underscore`).
pub open spec fn skip_name(b: Seq<u8>, p: int, underscore: bool) -> int
    decreases b.len() - p,
{
    if 0 <= p < b.len() && (is_alnum(b[p]) || (underscore && b[p] == 95)) {
        skip_name(b, p + 1, underscore)
    } else {
        p
    }
}

/// First index from `p` holding `c`.
pub open spec fn find_byte(b: Seq<u8>, p: int, c: u8) -> Option<int>
    decreases b.len() - p,
{
    if p < 0 || p >= b.len() {
        None
    } else if b[p] == c {
        Some(p)
    } else {
        find_byte(b, p + 1, c)
    }
}

pub proof fn lemma_skip_ws(b: Seq<u8>, p: int)
    ensures
        skip_ws(b, p) >= p,
        p <= b.len() ==> skip_ws(b, p) <= b.len(),
        p > b.len() ==> skip_ws(b, p) == p,
    decreases b.len() - p,
{
    if 0 <= p < b.len() && is_ascii_ws(b[p]) {
        lemma_skip_ws(b, p + 1);
    }
}

pub proof fn lemma_skip_name(b: Seq<u8>, p: int, u: bool)
    ensures
        skip_name(b, p, u) >= p,
        p <= b.len() ==> skip_name(b, p, u) <= b.len(),
        p > b.len() ==> skip_name(b, p, u) == p,
    decreases b.len() - p,
{
    if 0 <= p < b.len() && (is_alnum(b[p]) || (u && b[p] == 95)) {
        lemma_skip_name(b, p + 1, u);
    }
}

pub proof fn lemma_find_byte(b: Seq<u8>, p: int, c: u8)
    ensures
        find_byte(b, p, c) matches Some(q) ==> p <= q < b.len() && b[q] == c,
    decreases b.len() - p,
{
    if 0 <= p < b.len() && b[p] != c {
        lemma_find_byte(b, p + 1, c);
    }
}

/// The attributes of a tag from `p` (`name='value'` pairs, up to `/`, `>`,
/// the end or anything else), and where reading stopped.
pub open spec fn attrs_spec(b: Seq<u8>, p: int) -> (Seq<(Seq<char>, Seq<char>)>, int)
    decreases b.len() + 2 - p,
{
    if p < 0 || p > b.len() + 1 {
        (Seq::empty(), p)
    } else {
        let p1 = skip_ws(b, p);
        if p1 >= b.len() || b[p1] == 47 || b[p1] == 62 {
            (Seq::empty(), p1)
        } else {
            let ke = skip_name(b, p1, true);
            let p2 = skip_ws(b, ke);
            let p3 = if p2 < b.len() && b[p2] == 61 {
                p2 + 1
            } else {
                p2
            };
            let p4 = skip_ws(b, p3);
            if p4 < b.len() && b[p4] == 39 {
                let ve = match find_byte(b, p4 + 1, 39) {
                    Some(q) => q,
                    None => b.len() as int,
                };
                proof {
                    lemma_skip_ws(b, p);
                    lemma_skip_name(b, p1, true);
                    lemma_skip_ws(b, ke);
                    lemma_skip_ws(b, p3);
                    lemma_find_byte(b, p4 + 1, 39);
                }
                let rest = attrs_spec(b, ve + 1);
                (
                    seq![(utf8_lossy(b.subrange(p1, ke)), utf8_lossy(b.subrange(p4 + 1, ve)))]
                        + rest.0,
                    rest.1,
                )
            } else {
                (Seq::empty(), p4)
            }
        }
    }
}

/// The elements from `pos` on, after `acc`, up to the closing tag of their
/// parent or the end, and where reading stopped; `None` where the reader
/// would index past the end of the text (a truncated page).
pub open spec fn children_acc(b: Seq<u8>, pos: int, acc: Seq<ElV>) -> Option<(Seq<ElV>, int)>
    decreases b.len() + 2 - pos,
{
    if pos < 0 || pos > b.len() {
        None
    } else {
        match find_byte(b, pos, 60) {
            None => Some((acc, pos)),
            Some(lt) => {
                proof {
                    lemma_find_byte(b, pos, 60);
                }
                if lt + 1 < b.len() && b[lt + 1] == 47 {
                    Some(
                        (
                            acc,
                            match find_byte(b, lt, 62) {
                                Some(g) => g + 1,
                                None => b.len() as int,
                            },
                        ),
                    )
                } else {
                    let p0 = skip_name(b, lt + 1, false);
                    let ap = attrs_spec(b, p0);
                    let p = ap.1;
                    if p <= pos || p > b.len() + 1 {
                        None
                    } else if p < b.len() && b[p] == 47 {
                        children_acc(b, p + 2, acc.push(ElV { attrs: ap.0, children: Seq::empty() }))
                    } else {
                        match children_acc(b, p + 1, Seq::empty()) {
                            None => None,
                            Some((kids, q)) => if q <= pos || q > b.len() + 2 {
                                None
                            } else {
                                children_acc(b, q, acc.push(ElV { attrs: ap.0, children: kids }))
                            },
                        }
                    }
                }
            },
        }
    }
}

proof fn lemma_attrs_bounds(b: Seq<u8>, p: int)
    requires
        0 <= p <= b.len() + 1,
    ensures
        p <= attrs_spec(b, p).1 <= b.len() + 1,
    decreases b.len() + 2 - p,
{
    let p1 = skip_ws(b, p);
    lemma_skip_ws(b, p);
    if !(p1 >= b.len() || b[p1] == 47 || b[p1] == 62) {
        let ke = skip_name(b, p1, true);
        lemma_skip_name(b, p1, true);
        let p2 = skip_ws(b, ke);
        lemma_skip_ws(b, ke);
        let p3 = if p2 < b.len() && b[p2] == 61 {
            p2 + 1
        } else {
            p2
        };
        lemma_skip_ws(b, p3);
        let p4 = skip_ws(b, p3);
        if p4 < b.len() && b[p4] == 39 {
            lemma_find_byte(b, p4 + 1, 39);
            let ve = match find_byte(b, p4 + 1, 39) {
                Some(q) => q,
                None => b.len() as int,
            };
            lemma_attrs_bounds(b, ve + 1);
        }
    }
}

/// Reading the elements from `pos` never moves backwards and stops within
/// the text: the guards in `children_acc` against a position that goes
/// back or past the end are never taken, so it reads exactly as a plain
/// recursive descent does.
pub proof fn lemma_children_forward(b: Seq<u8>, pos: int, acc: Seq<ElV>)
    ensures
        children_acc(b, pos, acc) matches Some((_, q)) ==> pos <= q <= b.len(),
        0 <= pos <= b.len() ==> match find_byte(b, pos, 60) {
            Some(lt) => !(lt + 1 < b.len() && b[lt + 1] == 47) ==> {
                let p = attrs_spec(b, skip_name(b, lt + 1, false)).1;
                &&& pos < p <= b.len() + 1
                &&& (!(p < b.len() && b[p] == 47) ==> (children_acc(b, p + 1, Seq::empty()) matches Some((_, q)) ==> pos < q <= b.len()))
            },
            None => true,
        },
    decreases b.len() + 2 - pos,
{
    if 0 <= pos <= b.len() {
        lemma_find_byte(b, pos, 60);
        if let Some(lt) = find_byte(b, pos, 60) {
            if lt + 1 < b.len() && b[lt + 1] == 47 {
                lemma_find_byte(b, lt, 62);
            } else {
                let p0 = skip_name(b, lt + 1, false);
                lemma_skip_name(b, lt + 1, false);
                lemma_attrs_bounds(b, p0);
                let ap = attrs_spec(b, p0);
                let p = ap.1;
                if p < b.len() && b[p] == 47 {
                    lemma_children_forward(b, p + 2, acc.push(ElV { attrs: ap.0, children: Seq::empty() }));
                } else {
                    lemma_children_forward(b, p + 1, Seq::empty());
                    if let Some((kids, q)) = children_acc(b, p + 1, Seq::empty()) {
                        lemma_children_forward(b, q, acc.push(ElV { attrs: ap.0, children: kids }));
                    }
                }
            }
        }
    }
}

/// What reading `src` gives: its top-level elements; `None` for a text the
/// reader cannot take (see `children_acc`).
pub open spec fn parse_spec(src: Seq<char>) -> Option<Seq<ElV>> {
    match children_acc(vstd::utf8::encode_utf8(src), 0, Seq::empty()) {
        Some((els, _)) => Some(els),
        None => None,
    }
}

fn skip_ws_exec(b: &[u8], p0: usize) -> (p: usize)
    ensures
        p == skip_ws(b@, p0 as int),
{
    let mut p = p0;
    while p < b.len() && (b[p] == 32 || b[p] == 9 || b[p] == 10 || b[p] == 12 || b[p] == 13)
        invariant
            p0 <= p,
            skip_ws(b@, p0 as int) == skip_ws(b@, p as int),
        decreases b.len() - p,
    {
        p += 1;
    }
    p
}

fn is_alnum_exec(c: u8) -> (r: bool)
    ensures
        r == is_alnum(c),
{
    (48 <= c && c <= 57) || (65 <= c && c <= 90) || (97 <= c && c <= 122)
}

fn skip_name_exec(b: &[u8], p0: usize, underscore: bool) -> (p: usize)
    ensures
        p == skip_name(b@, p0 as int, underscore),
{
    let mut p = p0;
    while p < b.len() && (is_alnum_exec(b[p]) || (underscore && b[p] == 95))
        invariant
            p0 <= p,
            skip_name(b@, p0 as int, underscore) == skip_name(b@, p as int, underscore),
        decreases b.len() - p,
    {
        p += 1;
    }
    p
}

fn find_byte_exec(b: &[u8], p0: usize, c: u8) -> (r: Option<usize>)
    ensures
        match r {
            Some(q) => find_byte(b@, p0 as int, c) == Some(q as int),
            None => find_byte(b@, p0 as int, c) is None,
        },
{
    let mut p = p0;
    while p < b.len()
        invariant
            p0 <= p,
            find_byte(b@, p0 as int, c) == find_byte(b@, p as int, c),
        decreases b.len() - p,
    {
        if b[p] == c {
            return Some(p);
        }
        p += 1;
    }
    None
}

fn attrs_exec(b: &[u8], p0: usize) -> (r: (Vec<(String, String)>, usize))
    requires
        p0 <= b.len() + 1,
        b.len() <= isize::MAX,
    ensures
        (r.0@.map_values(|p: (String, String)| (p.0@, p.1@)), r.1 as int) == attrs_spec(
            b@,
            p0 as int,
        ),
{
    let mut out: Vec<(String, String)> = Vec::new();
    let mut p = p0;
    loop
        invariant
            p <= b.len() + 1,
            b.len() <= isize::MAX,
            attrs_spec(b@, p0 as int) == (
                out@.map_values(|q: (String, String)| (q.0@, q.1@)) + attrs_spec(b@, p as int).0,
                attrs_spec(b@, p as int).1,
            ),
        decreases b.len() + 2 - p,
    {
        let ghost ov = out@.map_values(|q: (String, String)| (q.0@, q.1@));
        proof {
            lemma_skip_ws(b@, p as int);
        }
        let p1 = skip_ws_exec(b, p);
        if p1 >= b.len() || b[p1] == 47 || b[p1] == 62 {
            assert(ov + Seq::<(Seq<char>, Seq<char>)>::empty() =~= ov);
            return (out, p1);
        }
        let ke = skip_name_exec(b, p1, true);
        proof {
            lemma_skip_name(b@, p1 as int, true);
            lemma_skip_ws(b@, ke as int);
        }
        let p2 = skip_ws_exec(b, ke);
        let p3 = if p2 < b.len() && b[p2] == 61 {
            p2 + 1
        } else {
            p2
        };
        proof {
            lemma_skip_ws(b@, p3 as int);
        }
        let p4 = skip_ws_exec(b, p3);
        if p4 < b.len() && b[p4] == 39 {
            let ve = match find_byte_exec(b, p4 + 1, 39) {
                Some(q) => q,
                None => b.len(),
            };
            proof {
                lemma_find_byte(b@, p4 + 1, 39);
            }
            let ks = &b[p1..ke];
            let vs = &b[p4 + 1..ve];
            let key = string_from_utf8_lossy(ks);
            let val = string_from_utf8_lossy(vs);
            out.push((key, val));
            let ghost item = (
                utf8_lossy(b@.subrange(p1 as int, ke as int)),
                utf8_lossy(b@.subrange(p4 + 1, ve as int)),
            );
            assert(out@.map_values(|q: (String, String)| (q.0@, q.1@)) =~= ov.push(item));
            assert(ov.push(item) + attrs_spec(b@, ve + 1).0 =~= ov + (seq![item] + attrs_spec(
                b@,
                ve + 1,
            ).0));
            p = ve + 1;
        } else {
            assert(ov + Seq::<(Seq<char>, Seq<char>)>::empty() =~= ov);
            return (out, p4);
        }
    }
}

/// Reads the elements from `pos0` on (see `children_acc`); `None` where the
/// text is truncated so that the reader would index past its end.
fn children_exec(b: &[u8], pos0: usize) -> (r: Option<(Vec<El>, usize)>)
    requires
        pos0 <= b.len() + 2,
        b.len() <= isize::MAX,
    ensures
        match r {
            Some((els, q)) => children_acc(b@, pos0 as int, Seq::empty()) == Some(
                (els_view(els@), q as int),
            ),
            None => children_acc(b@, pos0 as int, Seq::empty()) is None,
        },
    decreases b.len() + 2 - pos0,
{
    let mut out: Vec<El> = Vec::new();
    let mut pos = pos0;
    assert(els_view(out@) =~= Seq::<ElV>::empty());
    loop
        invariant
            pos0 <= pos <= b.len() + 2,
            b.len() <= isize::MAX,
            children_acc(b@, pos0 as int, Seq::empty()) == children_acc(
                b@,
                pos as int,
                els_view(out@),
            ),
        decreases b.len() + 2 - pos,
    {
        if pos > b.len() {
            return None;
        }
        let lt = match find_byte_exec(b, pos, 60) {
            None => return Some((out, pos)),
            Some(lt) => lt,
        };
        proof {
            lemma_find_byte(b@, pos as int, 60);
        }
        if lt + 1 < b.len() && b[lt + 1] == 47 {
            let gt = match find_byte_exec(b, lt, 62) {
                Some(g) => {
                    proof {
                        lemma_find_byte(b@, lt as int, 62);
                    }
                    g + 1
                },
                None => b.len(),
            };
            return Some((out, gt));
        }
        let p0 = skip_name_exec(b, lt + 1, false);
        proof {
            lemma_skip_name(b@, lt + 1, false);
        }
        let (attrs, p) = attrs_exec(b, p0);
        let ghost ov = els_view(out@);
        if p <= pos || p > b.len() + 1 {
            return None;
        }
        if p < b.len() && b[p] == 47 {
            let el = El { attrs, children: Vec::new() };
            proof {
                assert(el_view(el).attrs == attrs_spec(b@, p0 as int).0);
                assert(el_view(el).children =~= Seq::<ElV>::empty());
            }
            out.push(el);
            assert(els_view(out@) =~= ov.push(
                ElV { attrs: attrs_spec(b@, p0 as int).0, children: Seq::empty() },
            ));
            pos = p + 2;
        } else {
            match children_exec(b, p + 1) {
                None => return None,
                Some((kids, q)) => {
                    if q <= pos || q > b.len() + 2 {
                        return None;
                    }
                    let el = El { attrs, children: kids };
                    proof {
                        assert(el_view(el).attrs == attrs_spec(b@, p0 as int).0);
                        assert(el_view(el).children =~= els_view(kids@));
                    }
                    out.push(el);
                    assert(els_view(out@) =~= ov.push(
                        ElV { attrs: attrs_spec(b@, p0 as int).0, children: els_view(kids@) },
                    ));
                    pos = q;
                },
            }
        }
    }
}

/// The top-level elements of a page (see `parse_spec`), for a page the
/// reader can take (not cut short inside a tag).
pub fn parse(src: &str) -> (r: Vec<El>)
    requires
        src.spec_bytes().len() <= isize::MAX,
        parse_spec(src@) is Some,
    ensures
        parse_spec(src@) == Some(els_view(r@)),
{
    match parse_checked(src) {
        Some(els) => els,
        None => Vec::new(),
    }
}

/// `parse` for any text: `None` for a page cut short inside a tag.
pub fn parse_checked(src: &str) -> (r: Option<Vec<El>>)
    requires
        src.spec_bytes().len() <= isize::MAX,
    ensures
        match r {
            Some(els) => parse_spec(src@) == Some(els_view(els@)),
            None => parse_spec(src@) is None,
        },
{
    let b = src.as_bytes();
    match children_exec(b, 0) {
        Some((els, _)) => Some(els),
        None => None,
    }
}

/// The value of the first attribute named `k`.
pub open spec fn attr_get(a: Seq<(Seq<char>, Seq<char>)>, k: Seq<char>) -> Option<Seq<char>>
    decreases a.len(),
{
    if a.len() == 0 {
        None
    } else if a[0].0 == k {
        Some(a[0].1)
    } else {
        attr_get(a.drop_first(), k)
    }
}

/// An element's `Name` ("" without one).
pub open spec fn el_name(v: ElV) -> Seq<char> {
    match attr_get(v.attrs, "Name"@) {
        Some(n) => n,
        None => Seq::empty(),
    }
}

/// The index of the first element of `kids` named `name`.
pub open spec fn named_index(kids: Seq<ElV>, name: Seq<char>) -> Option<int>
    decreases kids.len(),
{
    if kids.len() == 0 {
        None
    } else if el_name(kids[0]) == name {
        Some(0)
    } else {
        match named_index(kids.drop_first(), name) {
            Some(i) => Some(i + 1),
            None => None,
        }
    }
}

/// The first child named `name`.
pub open spec fn el_child(v: ElV, name: Seq<char>) -> Option<ElV> {
    match named_index(v.children, name) {
        Some(i) => Some(v.children[i]),
        None => None,
    }
}

/// `str::split(c)`: the pieces between the `c`s.
pub open spec fn split_all(s: Seq<char>, c: char) -> Seq<Seq<char>>
    decreases s.len(),
{
    match find_char(s, c) {
        Some(i) => if 0 <= i < s.len() {
            seq![s.take(i)] + split_all(s.skip(i + 1), c)
        } else {
            seq![s]
        },
        None => seq![s],
    }
}

/// The element reached from `v` through the children named by `parts`.
pub open spec fn el_path(v: ElV, parts: Seq<Seq<char>>) -> Option<ElV>
    decreases parts.len(),
{
    if parts.len() == 0 {
        Some(v)
    } else {
        match el_child(v, parts[0]) {
            Some(c) => el_path(c, parts.drop_first()),
            None => None,
        }
    }
}

/// The first element named `name` under `kids`, depth first, each element
/// before its descendants.
pub open spec fn find_in(kids: Seq<ElV>, name: Seq<char>) -> Option<ElV>
    decreases kids,
{
    if kids.len() == 0 {
        None
    } else {
        let c = kids[0];
        if el_name(c) == name {
            Some(c)
        } else {
            match find_in(c.children, name) {
                Some(r) => Some(r),
                None => find_in(kids.subrange(1, kids.len() as int), name),
            }
        }
    }
}

proof fn lemma_el_view_children(e: El)
    ensures
        el_view(e).children =~= els_view(e.children@),
{
}

impl El {
    /// The value of the attribute `k`.
    pub fn get(&self, k: &str) -> (r: Option<&str>)
        ensures
            match r {
                Some(v) => attr_get(el_view(*self).attrs, k@) == Some(v@),
                None => attr_get(el_view(*self).attrs, k@) is None,
            },
    {
        let ghost a = el_view(*self).attrs;
        let mut i: usize = 0;
        assert(a.skip(0) =~= a);
        while i < self.attrs.len()
            invariant
                i <= self.attrs.len(),
                a == el_view(*self).attrs,
                a.len() == self.attrs.len(),
                attr_get(a, k@) == attr_get(a.skip(i as int), k@),
            decreases self.attrs.len() - i,
        {
            assert(a.skip(i as int)[0] == (self.attrs@[i as int].0@, self.attrs@[i as int].1@));
            assert(a.skip(i as int).drop_first() =~= a.skip(i + 1));
            if crate::text::str_eq(self.attrs[i].0.as_str(), k) {
                return Some(self.attrs[i].1.as_str());
            }
            i += 1;
        }
        None
    }

    /// The element's `Name` ("" without one).
    pub fn name(&self) -> (r: &str)
        ensures
            r@ == el_name(el_view(*self)),
    {
        proof {
            reveal_strlit("");
        }
        match self.get("Name") {
            Some(n) => n,
            None => "",
        }
    }

    /// The first child named `name`.
    pub fn child(&self, name: &str) -> (r: Option<&El>)
        ensures
            match r {
                Some(c) => el_child(el_view(*self), name@) == Some(el_view(*c)),
                None => el_child(el_view(*self), name@) is None,
            },
    {
        let ghost kids = el_view(*self).children;
        proof {
            lemma_el_view_children(*self);
        }
        let mut i: usize = 0;
        assert(kids.skip(0) =~= kids);
        while i < self.children.len()
            invariant
                i <= self.children.len(),
                kids == els_view(self.children@),
                kids == el_view(*self).children,
                named_index(kids, name@) == match named_index(kids.skip(i as int), name@) {
                    Some(j) => Some(j + i),
                    None => None,
                },
            decreases self.children.len() - i,
        {
            assert(kids.skip(i as int)[0] == el_view(self.children@[i as int]));
            assert(kids.skip(i as int).drop_first() =~= kids.skip(i + 1));
            if crate::text::str_eq(self.children[i].name(), name) {
                proof {
                    assert(el_name(kids.skip(i as int)[0]) == name@);
                    assert(named_index(kids.skip(i as int), name@) == Some(0int));
                    assert(named_index(kids, name@) == Some(i as int));
                    assert(kids[i as int] == el_view(self.children@[i as int]));
                }
                let c = &self.children[i];
                assert(el_child(el_view(*self), name@) == Some(el_view(*c)));
                return Some(c);
            }
            i += 1;
        }
        None
    }

    /// The element reached through the children named by the `.`-separated
    /// parts of `p`.
    pub fn path(&self, p: &str) -> (r: Option<&El>)
        ensures
            match r {
                Some(c) => el_path(el_view(*self), split_all(p@, '.')) == Some(el_view(*c)),
                None => el_path(el_view(*self), split_all(p@, '.')) is None,
            },
    {
        let v = chars_of(p);
        let mut cur: &El = self;
        let mut lo: usize = 0;
        let ghost parts = split_all(p@, '.');
        assert(v@.skip(0) =~= v@);
        loop
            invariant
                lo <= v.len(),
                v@ == p@,
                parts == split_all(p@, '.'),
                el_path(el_view(*self), parts) == el_path(el_view(*cur), split_all(v@.skip(lo as int), '.')),
            decreases v.len() - lo,
        {
            let ghost rest = v@.skip(lo as int);
            assert(v@.subrange(lo as int, v.len() as int) =~= rest);
            let dot = find_char_in(v.as_slice(), lo, v.len(), '.');
            let hi = match dot {
                Some(d) => d,
                None => v.len(),
            };
            let part = string_of(copy_range(v.as_slice(), lo, hi).as_slice());
            proof {
                assert(v@.subrange(lo as int, hi as int) =~= rest.take(hi - lo));
                if dot is None {
                    assert(rest.take(hi - lo) =~= rest);
                    assert(split_all(rest, '.') =~= seq![rest]);
                } else {
                    let k = hi - lo;
                    assert(find_char(rest, '.') == Some(k));
                    assert(split_all(rest, '.') =~= seq![rest.take(k)] + split_all(rest.skip(k + 1), '.'));
                    assert((seq![rest.take(k)] + split_all(rest.skip(k + 1), '.')).drop_first() =~= split_all(rest.skip(k + 1), '.'));
                }
                assert(split_all(rest, '.')[0] == part@);
            }
            let ghost oc = el_view(*cur);
            match cur.child(part.as_str()) {
                None => return None,
                Some(c) => {
                    cur = c;
                },
            }
            match dot {
                None => {
                    assert(split_all(rest, '.').drop_first() =~= Seq::<Seq<char>>::empty());
                    assert(el_path(el_view(*cur), Seq::<Seq<char>>::empty()) == Some(el_view(*cur)));
                    assert(el_path(oc, split_all(rest, '.')) == Some(el_view(*cur)));
                    return Some(cur);
                },
                Some(d) => {
                    assert(rest.skip(d - lo + 1) =~= v@.skip(d + 1));
                    lo = d + 1;
                },
            }
        }
    }

    /// The first element named `name` under this one, depth first.
    pub fn find(&self, name: &str) -> (r: Option<&El>)
        ensures
            match r {
                Some(c) => find_in(el_view(*self).children, name@) == Some(el_view(*c)),
                None => find_in(el_view(*self).children, name@) is None,
            },
        decreases self,
    {
        let ghost kids = el_view(*self).children;
        proof {
            lemma_el_view_children(*self);
        }
        let mut i: usize = 0;
        assert(kids.subrange(0, kids.len() as int) =~= kids);
        while i < self.children.len()
            invariant
                i <= self.children.len(),
                kids == els_view(self.children@),
                kids == el_view(*self).children,
                find_in(kids, name@) == find_in(kids.subrange(i as int, kids.len() as int), name@),
            decreases self.children.len() - i,
        {
            let ghost t = kids.subrange(i as int, kids.len() as int);
            assert(t[0] == el_view(self.children@[i as int]));
            assert(t.subrange(1, t.len() as int) =~= kids.subrange(i + 1, kids.len() as int));
            let c = &self.children[i];
            if crate::text::str_eq(c.name(), name) {
                return Some(c);
            }
            match c.find(name) {
                Some(r) => {
                    return Some(r);
                },
                None => {},
            }
            i += 1;
        }
        None
    }
}

} // verus!
