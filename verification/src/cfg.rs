//! The client's effective config: `client.cfg` and everything it
//! `.include`s, in order, later files overriding earlier ones (that is how the
//! client resolves them: options.cfg is the launcher's, custom.cfg the
//! user's); and single values out of the per-character / per-machine options
//! files (IFF).  Reading the files is the caller's: this module decides what
//! the text and bytes say.

use vstd::prelude::*;
use vstd::string::{StringExecFns, StringSliceAdditionalSpecFns};
use crate::iff::{be32, chunk_bounds, form_tag, is_tag, le32, min, read_be32, read_le32, span, tag_eq};
use crate::text::{
    chars_of, copy_range, dec, find_char, find_char_in, lemma_find_char_found, is_ws, lower, lower_range, parse_u32,
    lemma_lower_forgets_case, upper,
    parse_u32_range, push_dec, split_once, string_of, trim, trim_bounds,
};

verus! {

/// `str::lines`: split at `\n`; a line ended by `\n` also loses one `\r`
/// before it; a final empty line is not a line.
pub open spec fn lines(s: Seq<char>) -> Seq<Seq<char>>
    decreases s.len(),
{
    if s.len() == 0 {
        Seq::empty()
    } else {
        match find_char(s, '\n') {
            Some(i) => {
                proof {
                    lemma_find_char_found(s, '\n');
                }
                seq![strip_cr(s.take(i))] + lines(s.skip(i + 1))
            },
            None => seq![s],
        }
    }
}

/// Drops one trailing `\r`.
pub open spec fn strip_cr(s: Seq<char>) -> Seq<char> {
    if s.len() > 0 && s.last() == '\r' {
        s.drop_last()
    } else {
        s
    }
}

/// `str::trim_start_matches(c)`.
pub open spec fn trim_start_c(s: Seq<char>, c: char) -> Seq<char>
    decreases s.len(),
{
    if s.len() > 0 && s[0] == c {
        trim_start_c(s.drop_first(), c)
    } else {
        s
    }
}

/// `str::trim_end_matches(c)`.
pub open spec fn trim_end_c(s: Seq<char>, c: char) -> Seq<char>
    decreases s.len(),
{
    if s.len() > 0 && s.last() == c {
        trim_end_c(s.drop_last(), c)
    } else {
        s
    }
}

/// `str::trim_matches('"')`.
pub open spec fn trim_quotes(s: Seq<char>) -> Seq<char> {
    trim_end_c(trim_start_c(s, '"'), '"')
}

/// One setting or include out of a config file.
pub ghost enum CfgEntry {
    Include(Seq<char>),
    Value(Seq<char>, Seq<char>, Seq<char>),
}

/// What one line says, given the section it is in: an entry, if any, and
/// the section after it.  Blank lines and `#` / `//` comments say nothing;
/// `.include "file"` includes (quotes optional); `[Section]` starts a
/// section; `key=value` sets a value (section and key lower-cased, the value
/// trimmed and unquoted).
pub open spec fn cfg_line(line: Seq<char>, section: Seq<char>) -> (Option<CfgEntry>, Seq<char>) {
    let l = trim(line);
    if l.len() == 0 || l[0] == '#' || (l.len() >= 2 && l[0] == '/' && l[1] == '/') {
        (None, section)
    } else if l.len() >= 8 && l.take(8) == ".include"@ {
        let inc = trim(trim_quotes(trim(l.skip(8))));
        if inc.len() > 0 {
            (Some(CfgEntry::Include(inc)), section)
        } else {
            (None, section)
        }
    } else if l[0] == '[' && l.last() == ']' {
        (None, lower(trim(l.subrange(1, l.len() - 1))))
    } else {
        match split_once(l, '=') {
            Some((k, v)) => (
                Some(CfgEntry::Value(section, lower(trim(k)), trim_quotes(trim(v)))),
                section,
            ),
            None => (None, section),
        }
    }
}

/// The entries of consecutive lines, starting in `section`.
pub open spec fn scan_lines(ls: Seq<Seq<char>>, section: Seq<char>) -> Seq<CfgEntry>
    decreases ls.len(),
{
    if ls.len() == 0 {
        Seq::empty()
    } else {
        let (e, next) = cfg_line(ls[0], section);
        (match e {
            Some(x) => seq![x],
            None => Seq::empty(),
        }) + scan_lines(ls.drop_first(), next)
    }
}

/// The entries of a config file, in order (each file starts outside any section).
pub open spec fn scan_spec(text: Seq<char>) -> Seq<CfgEntry> {
    scan_lines(lines(text), Seq::empty())
}

/// One setting or include out of a config file.
#[derive(Clone, Debug)]
pub enum CfgLine {
    /// `.include <file>`
    Include(String),
    /// `key=value` in a section (section and key lower-cased)
    Value(String, String, String),
}

impl CfgLine {
    pub open spec fn entry(&self) -> CfgEntry {
        match self {
            CfgLine::Include(f) => CfgEntry::Include(f@),
            CfgLine::Value(s, k, v) => CfgEntry::Value(s@, k@, v@),
        }
    }
}

/// Bounds of `v[lo..hi]` with leading and trailing `c` removed.
fn trim_c_bounds(v: &[char], lo: usize, hi: usize, c: char) -> (r: (usize, usize))
    requires
        lo <= hi <= v.len(),
    ensures
        lo <= r.0 <= r.1 <= hi,
        v@.subrange(r.0 as int, r.1 as int) == trim_end_c(
            trim_start_c(v@.subrange(lo as int, hi as int), c),
            c,
        ),
{
    let ghost s = v@.subrange(lo as int, hi as int);
    let mut a = lo;
    while a < hi && v[a] == c
        invariant
            lo <= a <= hi <= v.len(),
            s == v@.subrange(lo as int, hi as int),
            trim_start_c(s, c) == trim_start_c(v@.subrange(a as int, hi as int), c),
        decreases hi - a,
    {
        assert(v@.subrange(a as int, hi as int).drop_first() =~= v@.subrange(a + 1, hi as int));
        a += 1;
    }
    assert(trim_start_c(v@.subrange(a as int, hi as int), c) == v@.subrange(a as int, hi as int));
    let mut b = hi;
    while b > a && v[b - 1] == c
        invariant
            lo <= a <= b <= hi <= v.len(),
            trim_end_c(v@.subrange(a as int, hi as int), c) == trim_end_c(
                v@.subrange(a as int, b as int),
                c,
            ),
        decreases b - a,
    {
        assert(v@.subrange(a as int, b as int).drop_last() =~= v@.subrange(a as int, b - 1));
        b -= 1;
    }
    (a, b)
}

/// The entry of the line `v[lo..hi]`, and the section after it.
fn scan_line(v: &[char], lo: usize, hi: usize, section: &Vec<char>) -> (r: (
    Option<CfgLine>,
    Vec<char>,
))
    requires
        lo <= hi <= v.len(),
    ensures
        (match r.0 {
            Some(x) => Some(x.entry()),
            None => None,
        }) == cfg_line(v@.subrange(lo as int, hi as int), section@).0,
        r.1@ == cfg_line(v@.subrange(lo as int, hi as int), section@).1,
{
    let ghost line = v@.subrange(lo as int, hi as int);
    let (a, b) = trim_bounds(v, lo, hi);
    let ghost l = v@.subrange(a as int, b as int);
    assert(l == trim(line));
    if a == b || v[a] == '#' || (b - a >= 2 && v[a] == '/' && v[a + 1] == '/') {
        return (None, copy_range(section.as_slice(), 0, section.len()));
    }
    let inc = chars_of(".include");
    proof {
        reveal_strlit(".include");
    }
    if b - a >= 8 && v[a] == inc[0] && v[a + 1] == inc[1] && v[a + 2] == inc[2] && v[a + 3]
        == inc[3] && v[a + 4] == inc[4] && v[a + 5] == inc[5] && v[a + 6] == inc[6] && v[a + 7]
        == inc[7] {
        assert(l.take(8) =~= ".include"@);
        assert(l.skip(8) =~= v@.subrange(a + 8, b as int));
        let (c1, c2) = trim_bounds(v, a + 8, b);
        let (q1, q2) = trim_c_bounds(v, c1, c2, '"');
        let (f1, f2) = trim_bounds(v, q1, q2);
        let sec = copy_range(section.as_slice(), 0, section.len());
        assert(section@.subrange(0, section.len() as int) =~= section@);
        if f1 < f2 {
            let name = string_of(copy_range(v, f1, f2).as_slice());
            return (Some(CfgLine::Include(name)), sec);
        } else {
            return (None, sec);
        }
    }
    if b - a >= 8 {
        assert(l.take(8) != ".include"@) by {
            if l.take(8) == ".include"@ {
                assert(l.take(8)[0] == inc@[0]);
                assert(l.take(8)[1] == inc@[1]);
                assert(l.take(8)[2] == inc@[2]);
                assert(l.take(8)[3] == inc@[3]);
                assert(l.take(8)[4] == inc@[4]);
                assert(l.take(8)[5] == inc@[5]);
                assert(l.take(8)[6] == inc@[6]);
                assert(l.take(8)[7] == inc@[7]);
            }
        }
    }
    if v[a] == '[' && v[b - 1] == ']' {
        assert(l.subrange(1, l.len() - 1) =~= v@.subrange(a + 1, b - 1));
        let (s1, s2) = trim_bounds(v, a + 1, b - 1);
        let sec = lower_range(v, s1, s2);
        return (None, sec);
    }
    let sec = copy_range(section.as_slice(), 0, section.len());
    assert(section@.subrange(0, section.len() as int) =~= section@);
    match find_char_in(v, a, b, '=') {
        None => (None, sec),
        Some(e) => {
            assert(l.take(e - a) =~= v@.subrange(a as int, e as int));
            assert(l.skip(e - a + 1) =~= v@.subrange(e + 1, b as int));
            let (k1, k2) = trim_bounds(v, a, e);
            let key = lower_range(v, k1, k2);
            let (w1, w2) = trim_bounds(v, e + 1, b);
            let (x1, x2) = trim_c_bounds(v, w1, w2, '"');
            let value = copy_range(v, x1, x2);
            let line_out = CfgLine::Value(
                string_of(sec.as_slice()),
                string_of(key.as_slice()),
                string_of(value.as_slice()),
            );
            (Some(line_out), sec)
        },
    }
}

/// The settings and includes of a config file, in order.
pub fn scan_cfg(text: &str) -> (r: Vec<CfgLine>)
    ensures
        r@.map_values(|l: CfgLine| l.entry()) == scan_spec(text@),
{
    let v = chars_of(text);
    let n = v.len();
    let mut pos: usize = 0;
    let mut section: Vec<char> = Vec::new();
    let mut out: Vec<CfgLine> = Vec::new();
    let ghost mut acc: Seq<CfgEntry> = Seq::empty();
    assert(v@.subrange(0, n as int) =~= v@);
    assert(scan_spec(text@) == acc + scan_lines(lines(v@.subrange(0, n as int)), section@));
    while pos < n
        invariant
            n == v.len(),
            v@ == text@,
            pos <= n,
            out@.map_values(|l: CfgLine| l.entry()) == acc,
            scan_spec(text@) == acc + scan_lines(lines(v@.subrange(pos as int, n as int)), section@),
        decreases n - pos,
    {
        let ghost rest = v@.subrange(pos as int, n as int);
        proof {
            lemma_find_char_found(rest, '\n');
        }
        let (lo, hi, next) = match find_char_in(v.as_slice(), pos, n, '\n') {
            Some(i) => {
                assert(rest.take(i - pos) =~= v@.subrange(pos as int, i as int));
                assert(rest.skip(i - pos + 1) =~= v@.subrange(i + 1, n as int));
                if i > pos && v[i - 1] == '\r' {
                    assert(strip_cr(rest.take(i - pos)) =~= v@.subrange(pos as int, i - 1));
                    (pos, i - 1, i + 1)
                } else {
                    assert(strip_cr(rest.take(i - pos)) =~= v@.subrange(pos as int, i as int));
                    (pos, i, i + 1)
                }
            },
            None => {
                assert(v@.subrange(n as int, n as int) =~= Seq::<char>::empty());
                (pos, n, n)
            },
        };
        assert(lines(rest) == seq![v@.subrange(lo as int, hi as int)] + lines(
            v@.subrange(next as int, n as int),
        ));
        let ghost ls = lines(rest);
        assert(ls[0] == v@.subrange(lo as int, hi as int));
        assert(ls.drop_first() =~= lines(v@.subrange(next as int, n as int)));
        let (entry, next_section) = scan_line(v.as_slice(), lo, hi, &section);
        let ghost e_seq = match cfg_line(ls[0], section@).0 {
            Some(x) => seq![x],
            None => Seq::<CfgEntry>::empty(),
        };
        match entry {
            Some(x) => {
                out.push(x);
                proof {
                    acc = acc + e_seq;
                }
            },
            None => {
                assert(acc + e_seq =~= acc);
            },
        }
        assert(out@.map_values(|l: CfgLine| l.entry()) =~= acc);
        proof {
            assert(scan_lines(ls, section@) == e_seq + scan_lines(ls.drop_first(), next_section@));
        }
        assert(scan_spec(text@) == acc + scan_lines(
            lines(v@.subrange(next as int, n as int)),
            next_section@,
        ));
        section = next_section;
        pos = next;
    }
    assert(v@.subrange(n as int, n as int) =~= Seq::<char>::empty());
    assert(acc + Seq::<CfgEntry>::empty() =~= acc);
    out
}

/// The abstract config: (section, key, value) triples, one per key.
pub type CfgView = Seq<(Seq<char>, Seq<char>, Seq<char>)>;

/// The value stored for `(section, key)`.
pub open spec fn cfg_lookup(m: CfgView, section: Seq<char>, key: Seq<char>) -> Option<Seq<char>>
    decreases m.len(),
{
    if m.len() == 0 {
        None
    } else if m[0].0 == section && m[0].1 == key {
        Some(m[0].2)
    } else {
        cfg_lookup(m.drop_first(), section, key)
    }
}

/// Storing `value` under `(section, key)`: replaces an earlier value in
/// place, else appends.
pub open spec fn cfg_set(m: CfgView, section: Seq<char>, key: Seq<char>, value: Seq<char>) -> CfgView
    decreases m.len(),
{
    if m.len() == 0 {
        seq![(section, key, value)]
    } else if m[0].0 == section && m[0].1 == key {
        m.update(0, (section, key, value))
    } else {
        seq![m[0]] + cfg_set(m.drop_first(), section, key, value)
    }
}

/// The config after the settings among `es`, in order (includes are the
/// reader's business and skipped here).
pub open spec fn cfg_apply(m: CfgView, es: Seq<CfgEntry>) -> CfgView
    decreases es.len(),
{
    if es.len() == 0 {
        m
    } else {
        let m2 = match es[0] {
            CfgEntry::Value(s, k, v) => cfg_set(m, s, k, v),
            CfgEntry::Include(_) => m,
        };
        cfg_apply(m2, es.drop_first())
    }
}

/// The client's effective config: (section, key) -> value, both lower-cased.
#[derive(Debug)]
pub struct ClientCfg {
    values: Vec<(String, String, String)>,
}

impl View for ClientCfg {
    type V = CfgView;

    closed spec fn view(&self) -> CfgView {
        self.values@.map_values(|e: (String, String, String)| (e.0@, e.1@, e.2@))
    }
}

/// Looking up what was just stored gives it back; other keys keep their values.
pub proof fn lemma_cfg_set_get(
    m: CfgView,
    section: Seq<char>,
    key: Seq<char>,
    value: Seq<char>,
    s2: Seq<char>,
    k2: Seq<char>,
)
    ensures
        cfg_lookup(cfg_set(m, section, key, value), section, key) == Some(value),
        (s2, k2) != (section, key) ==> cfg_lookup(cfg_set(m, section, key, value), s2, k2)
            == cfg_lookup(m, s2, k2),
    decreases m.len(),
{
    if m.len() == 0 {
        let r = cfg_set(m, section, key, value);
        assert(r.drop_first() =~= m);
        assert(r[0] == (section, key, value));
        if (s2, k2) != (section, key) {
            assert(!(s2 == section && k2 == key));
        }
    } else {
        let r = cfg_set(m, section, key, value);
        if m[0].0 == section && m[0].1 == key {
            assert(r.drop_first() =~= m.drop_first());
            assert(r[0] == (section, key, value));
            if (s2, k2) != (section, key) {
                assert(!(s2 == section && k2 == key));
            }
        } else {
            lemma_cfg_set_get(m.drop_first(), section, key, value, s2, k2);
            assert(r.drop_first() =~= cfg_set(m.drop_first(), section, key, value));
            assert(r[0] == m[0]);
        }
    }
}

/// The last assignment to `(section, key)` among `es`, if any.
pub open spec fn last_value(es: Seq<CfgEntry>, section: Seq<char>, key: Seq<char>) -> Option<
    Seq<char>,
>
    decreases es.len(),
{
    if es.len() == 0 {
        None
    } else {
        match last_value(es.drop_first(), section, key) {
            Some(v) => Some(v),
            None => match es[0] {
                CfgEntry::Value(s, k, v) => if s == section && k == key {
                    Some(v)
                } else {
                    None
                },
                CfgEntry::Include(_) => None,
            },
        }
    }
}

/// Later settings override earlier ones: after applying `es`, a key holds
/// its last assignment in `es`, or what it held before when `es` never sets it.
/// Lookups ignore ASCII case: asking with the section upper-cased and the
/// key lower-cased finds what asking with the names as given finds.
pub proof fn lemma_cfg_lookup_ignores_case(m: CfgView, section: Seq<char>, key: Seq<char>)
    ensures
        cfg_lookup(m, lower(upper(section)), lower(lower(key))) == cfg_lookup(m, lower(section), lower(key)),
{
    lemma_lower_forgets_case(section);
    lemma_lower_forgets_case(key);
}

pub proof fn lemma_cfg_last_wins(m: CfgView, es: Seq<CfgEntry>, section: Seq<char>, key: Seq<char>)
    ensures
        cfg_lookup(cfg_apply(m, es), section, key) == match last_value(es, section, key) {
            Some(v) => Some(v),
            None => cfg_lookup(m, section, key),
        },
    decreases es.len(),
{
    if es.len() > 0 {
        let m2 = match es[0] {
            CfgEntry::Value(s, k, v) => cfg_set(m, s, k, v),
            CfgEntry::Include(_) => m,
        };
        lemma_cfg_last_wins(m2, es.drop_first(), section, key);
        match es[0] {
            CfgEntry::Value(s, k, v) => {
                lemma_cfg_set_get(m, s, k, v, section, key);
            },
            CfgEntry::Include(_) => {},
        }
    }
}

fn string_eq(a: &String, b: &str) -> (r: bool)
    ensures
        r == (a@ == b@),
{
    crate::text::str_eq(a.as_str(), b)
}

impl ClientCfg {
    /// An empty config.
    pub fn new() -> (c: ClientCfg)
        ensures
            c@ == Seq::<(Seq<char>, Seq<char>, Seq<char>)>::empty(),
    {
        let c = ClientCfg { values: Vec::new() };
        assert(c@ =~= Seq::<(Seq<char>, Seq<char>, Seq<char>)>::empty());
        c
    }

    /// Stores a value (section and key as given: `scan_cfg` lower-cases them).
    pub fn set(&mut self, section: &str, key: &str, value: &str)
        ensures
            final(self)@ == cfg_set(old(self)@, section@, key@, value@),
    {
        let n = self.values.len();
        let mut i: usize = 0;
        assert(self@.skip(0) =~= self@);
        assert(self@.take(0) + self@ =~= self@);
        while i < n
            invariant
                n == self.values.len(),
                self@ == old(self)@,
                i <= n,
                cfg_set(self@, section@, key@, value@) == self@.take(i as int) + cfg_set(
                    self@.skip(i as int),
                    section@,
                    key@,
                    value@,
                ),
            decreases n - i,
        {
            let ghost m = self@;
            let ghost rest = m.skip(i as int);
            assert(rest[0] == m[i as int]);
            if string_eq(&self.values[i].0, section) && string_eq(&self.values[i].1, key) {
                let ghost before = self@;
                self.values.set(i, (String::from_str(section), String::from_str(key), String::from_str(value)));
                assert(cfg_set(rest, section@, key@, value@) == rest.update(0, (section@, key@, value@)));
                assert(self@ =~= before.take(i as int) + rest.update(0, (section@, key@, value@)));
                return ;
            }
            assert(rest.drop_first() =~= m.skip(i + 1));
            assert(m.take(i as int) + (seq![rest[0]] + cfg_set(m.skip(i + 1), section@, key@, value@))
                =~= m.take(i + 1) + cfg_set(m.skip(i + 1), section@, key@, value@));
            i += 1;
        }
        let ghost before = self@;
        assert(before.skip(n as int) =~= Seq::<(Seq<char>, Seq<char>, Seq<char>)>::empty());
        assert(before.take(n as int) =~= before);
        self.values.push((String::from_str(section), String::from_str(key), String::from_str(value)));
        assert(self@ =~= before + seq![(section@, key@, value@)]);
    }

    /// The value of `key` in `section` (both matched case-insensitively).
    pub fn get(&self, section: &str, key: &str) -> (r: Option<&str>)
        ensures
            match r {
                Some(v) => cfg_lookup(self@, lower(section@), lower(key@)) == Some(v@),
                None => cfg_lookup(self@, lower(section@), lower(key@)) is None,
            },
    {
        let sv = chars_of(section);
        let kv = chars_of(key);
        let sl = string_of(lower_range(sv.as_slice(), 0, sv.len()).as_slice());
        let kl = string_of(lower_range(kv.as_slice(), 0, kv.len()).as_slice());
        assert(sv@.subrange(0, sv.len() as int) =~= sv@);
        assert(kv@.subrange(0, kv.len() as int) =~= kv@);
        assert(sl@ == lower(section@));
        assert(kl@ == lower(key@));
        let n = self.values.len();
        let mut i: usize = 0;
        assert(self@.skip(0) =~= self@);
        while i < n
            invariant
                n == self.values.len(),
                i <= n,
                sl@ == lower(section@),
                kl@ == lower(key@),
                cfg_lookup(self@, sl@, kl@) == cfg_lookup(self@.skip(i as int), sl@, kl@),
            decreases n - i,
        {
            let ghost rest = self@.skip(i as int);
            assert(rest[0] == self@[i as int]);
            if string_eq(&self.values[i].0, sl.as_str()) && string_eq(&self.values[i].1, kl.as_str()) {
                assert(self@[i as int] == (
                    self.values@[i as int].0@,
                    self.values@[i as int].1@,
                    self.values@[i as int].2@,
                ));
                assert(rest[0].0 == sl@ && rest[0].1 == kl@);
                assert(cfg_lookup(rest, sl@, kl@) == Some(rest[0].2));
                let r = self.values[i].2.as_str();
                assert(r@ == rest[0].2);
                return Some(r);
            }
            assert(rest.drop_first() =~= self@.skip(i + 1));
            i += 1;
        }
        None
    }

    /// screenWidth x screenHeight, if both set (and at least 320 x 240).
    pub fn resolution(&self) -> (r: Option<(u32, u32)>)
        ensures
            r == resolution_spec(self@),
    {
        proof {
            lemma_lower_lit();
        }
        let w = match self.get("ClientGraphics", "screenWidth") {
            Some(s) => match parse_trimmed_u32(s) {
                Some(w) => w,
                None => {
                    return None;
                },
            },
            None => {
                return None;
            },
        };
        let h = match self.get("ClientGraphics", "screenHeight") {
            Some(s) => match parse_trimmed_u32(s) {
                Some(h) => h,
                None => {
                    return None;
                },
            },
            None => {
                return None;
            },
        };
        if w >= 320 && h >= 240 {
            Some((w, h))
        } else {
            None
        }
    }

    /// borderlessWindow=1 (or "true"): the client ignores screenWidth/Height
    /// and uses the desktop.
    pub fn borderless(&self) -> (b: bool)
        ensures
            b == (cfg_lookup(self@, "clientgraphics"@, "borderlesswindow"@) == Some("1"@)
                || cfg_lookup(self@, "clientgraphics"@, "borderlesswindow"@) == Some("true"@)),
    {
        proof {
            lemma_lower_lit();
        }
        match self.get("ClientGraphics", "borderlessWindow") {
            Some(v) => crate::text::str_eq(v, "1") || crate::text::str_eq(v, "true"),
            None => false,
        }
    }
}

proof fn lemma_lower_lit()
    ensures
        lower("ClientGraphics"@) == "clientgraphics"@,
        lower("screenWidth"@) == "screenwidth"@,
        lower("screenHeight"@) == "screenheight"@,
        lower("borderlessWindow"@) == "borderlesswindow"@,
{
    reveal_strlit("ClientGraphics");
    reveal_strlit("clientgraphics");
    reveal_strlit("screenWidth");
    reveal_strlit("screenwidth");
    reveal_strlit("screenHeight");
    reveal_strlit("screenheight");
    reveal_strlit("borderlessWindow");
    reveal_strlit("borderlesswindow");
    assert(lower("ClientGraphics"@) =~= "clientgraphics"@);
    assert(lower("screenWidth"@) =~= "screenwidth"@);
    assert(lower("screenHeight"@) =~= "screenheight"@);
    assert(lower("borderlessWindow"@) =~= "borderlesswindow"@);
}

/// `s.trim().parse::<u32>()`.
fn parse_trimmed_u32(s: &str) -> (r: Option<u32>)
    ensures
        r == parse_u32(trim(s@)),
{
    let v = chars_of(s);
    let (a, b) = trim_bounds(v.as_slice(), 0, v.len());
    assert(v@.subrange(0, v.len() as int) =~= v@);
    parse_u32_range(v.as_slice(), a, b)
}

/// `ClientCfg::resolution`: both sizes parse as `u32` (after trimming) and
/// are at least 320 x 240.
pub open spec fn resolution_spec(m: CfgView) -> Option<(u32, u32)> {
    match cfg_lookup(m, "clientgraphics"@, "screenwidth"@) {
        Some(ws) => match parse_u32(trim(ws)) {
            Some(w) => match cfg_lookup(m, "clientgraphics"@, "screenheight"@) {
                Some(hs) => match parse_u32(trim(hs)) {
                    Some(h) => if w >= 320 && h >= 240 {
                        Some((w, h))
                    } else {
                        None
                    },
                    None => None,
                },
                None => None,
            },
            None => None,
        },
        None => None,
    }
}

/// The files a config chain has opened, to stop include cycles and runaway
/// chains.
pub struct IncludeGuard {
    seen: Vec<String>,
}

impl View for IncludeGuard {
    type V = Seq<Seq<char>>;

    closed spec fn view(&self) -> Seq<Seq<char>> {
        self.seen@.map_values(|s: String| s@)
    }
}

impl IncludeGuard {
    pub fn new() -> (g: IncludeGuard)
        ensures
            g@ == Seq::<Seq<char>>::empty(),
    {
        let g = IncludeGuard { seen: Vec::new() };
        assert(g@ =~= Seq::<Seq<char>>::empty());
        g
    }

    /// Whether to read the file `name`: not when its lower-cased name was
    /// read before, nor once more than 32 files were; otherwise it is
    /// recorded and read.
    pub fn enter(&mut self, name: &str) -> (ok: bool)
        ensures
            ok == !(old(self)@.contains(lower(name@)) || old(self)@.len() > 32),
            final(self)@ == (if ok {
                old(self)@.push(lower(name@))
            } else {
                old(self)@
            }),
    {
        let nv = chars_of(name);
        let key = string_of(lower_range(nv.as_slice(), 0, nv.len()).as_slice());
        assert(nv@.subrange(0, nv.len() as int) =~= nv@);
        assert(key@ == lower(name@));
        let n = self.seen.len();
        let mut i: usize = 0;
        while i < n
            invariant
                n == self.seen.len(),
                self@ == old(self)@,
                key@ == lower(name@),
                i <= n,
                forall|j: int| 0 <= j < i ==> self@[j] != key@,
            decreases n - i,
        {
            if string_eq(&self.seen[i], key.as_str()) {
                assert(self@[i as int] == key@);
                assert(old(self)@[i as int] == lower(name@));
                return false;
            }
            assert(self@[i as int] != key@);
            i += 1;
        }
        if n > 32 {
            return false;
        }
        let ghost before = self@;
        self.seen.push(key);
        assert(self@ =~= before.push(lower(name@)));
        true
    }
}

/// `"INT "`
pub open spec fn int_tag() -> Seq<u8> {
    seq![73u8, 78u8, 84u8, 32u8]
}

/// `"BOOL"`
pub open spec fn bool_tag() -> Seq<u8> {
    seq![66u8, 79u8, 79u8, 76u8]
}

/// Bytes without their trailing NULs.
pub open spec fn strip_nuls(s: Seq<u8>) -> Seq<u8>
    decreases s.len(),
{
    if s.len() > 0 && s.last() == 0 {
        strip_nuls(s.drop_last())
    } else {
        s
    }
}

/// Index of the last NUL.
pub open spec fn last_nul(s: Seq<u8>) -> Option<int>
    decreases s.len(),
{
    if s.len() == 0 {
        None
    } else if s.last() == 0 {
        Some(s.len() - 1)
    } else {
        last_nul(s.drop_last())
    }
}

/// The last two NUL-separated parts of `tail` (section, key), when it has
/// at least two.
pub open spec fn leaf_names(tail: Seq<u8>) -> Option<(Seq<u8>, Seq<u8>)> {
    match last_nul(tail) {
        Some(j) => {
            let before = tail.take(j);
            let sec = match last_nul(before) {
                Some(i) => before.skip(i + 1),
                None => before,
            };
            Some((sec, tail.skip(j + 1)))
        },
        None => None,
    }
}

/// `u8::to_ascii_lowercase`.
pub open spec fn lower_byte(b: u8) -> u8 {
    if 65 <= b <= 90 {
        (b + 32) as u8
    } else {
        b
    }
}

/// `<[u8]>::eq_ignore_ascii_case`.
pub open spec fn eq_ignore_case(a: Seq<u8>, b: Seq<u8>) -> bool {
    a.len() == b.len() && forall|i: int| 0 <= i < a.len() ==> lower_byte(#[trigger] a[i]) == lower_byte(b[i])
}

/// Whether a leaf's body (value of `width` bytes, then `section\0key\0`,
/// NUL-padded) names `section` / `key` (ASCII case ignored).
pub open spec fn leaf_matches(body: Seq<u8>, width: int, section: Seq<u8>, key: Seq<u8>) -> bool {
    match leaf_names(strip_nuls(body.skip(width))) {
        Some((s, k)) => eq_ignore_case(s, section) && eq_ignore_case(k, key),
        None => false,
    }
}

/// The outcome of looking a value up in an options file.
pub ghost enum OptFind {
    /// the body of the first matching leaf
    Found(Seq<u8>),
    Absent,
    /// a matching-tag leaf whose declared value runs past its container:
    /// the reader faults there
    Fault,
}

/// The first leaf tagged `tag` (value `width` bytes) that names
/// `section` / `key`, in document order, among the chunks of `d[off..end]`
/// and the `FORM`s nested in them.
pub open spec fn opt_walk(
    d: Seq<u8>,
    off: int,
    end: int,
    tag: Seq<u8>,
    width: int,
    section: Seq<u8>,
    key: Seq<u8>,
) -> OptFind
    decreases span(off, end),
{
    if off < 0 || off + 8 > end || end > d.len() {
        OptFind::Absent
    } else {
        let size = be32(d, off + 4);
        let body_end = min(off + 8 + size, end);
        let here = if is_tag(d, off, form_tag()) {
            opt_walk(d, off + 12, body_end, tag, width, section, key)
        } else if is_tag(d, off, tag) && size >= width {
            let body = d.subrange(off + 8, body_end);
            if body.len() < width {
                OptFind::Fault
            } else if leaf_matches(body, width, section, key) {
                OptFind::Found(body)
            } else {
                OptFind::Absent
            }
        } else {
            OptFind::Absent
        };
        match here {
            OptFind::Absent => opt_walk(d, off + 8 + size, end, tag, width, section, key),
            _ => here,
        }
    }
}

enum Lookup {
    Found(usize, usize),
    Absent,
    Fault,
}

impl Lookup {
    spec fn find(self, d: Seq<u8>) -> OptFind {
        match self {
            Lookup::Found(a, b) => OptFind::Found(d.subrange(a as int, b as int)),
            Lookup::Absent => OptFind::Absent,
            Lookup::Fault => OptFind::Fault,
        }
    }
}

/// The index of the last NUL in `d[lo..hi]`.
fn last_nul_in(d: &[u8], lo: usize, hi: usize) -> (r: Option<usize>)
    requires
        lo <= hi <= d.len(),
    ensures
        match r {
            Some(j) => lo <= j < hi && last_nul(d@.subrange(lo as int, hi as int)) == Some(j - lo),
            None => last_nul(d@.subrange(lo as int, hi as int)) is None,
        },
{
    let mut k = hi;
    while k > lo
        invariant
            lo <= k <= hi <= d.len(),
            last_nul(d@.subrange(lo as int, hi as int)) == last_nul(d@.subrange(lo as int, k as int)),
        decreases k - lo,
    {
        if d[k - 1] == 0 {
            return Some(k - 1);
        }
        assert(d@.subrange(lo as int, k as int).drop_last() =~= d@.subrange(lo as int, k - 1));
        k -= 1;
    }
    None
}

fn lower_byte_exec(b: u8) -> (r: u8)
    ensures
        r == lower_byte(b),
{
    if 65 <= b && b <= 90 {
        b + 32
    } else {
        b
    }
}

/// Whether `d[lo..hi]` equals `w`, ASCII case ignored.
fn eq_ignore_case_exec(d: &[u8], lo: usize, hi: usize, w: &[u8]) -> (r: bool)
    requires
        lo <= hi <= d.len(),
    ensures
        r == eq_ignore_case(d@.subrange(lo as int, hi as int), w@),
{
    if hi - lo != w.len() {
        return false;
    }
    let mut i: usize = 0;
    while i < w.len()
        invariant
            hi - lo == w.len(),
            lo <= hi <= d.len(),
            i <= w.len(),
            forall|k: int| 0 <= k < i ==> lower_byte(d@[lo + k]) == lower_byte(w@[k]),
        decreases w.len() - i,
    {
        if lower_byte_exec(d[lo + i]) != lower_byte_exec(w[i]) {
            assert(d@.subrange(lo as int, hi as int)[i as int] == d@[lo + i]);
            return false;
        }
        i += 1;
    }
    assert forall|k: int| 0 <= k < hi - lo implies lower_byte(
        #[trigger] d@.subrange(lo as int, hi as int)[k],
    ) == lower_byte(w@[k]) by {
        assert(d@.subrange(lo as int, hi as int)[k] == d@[lo + k]);
    }
    true
}

/// Whether the leaf body `d[bs..be]` (value `width` bytes) names
/// `section` / `key`.
fn leaf_matches_exec(d: &[u8], bs: usize, be: usize, width: usize, section: &[u8], key: &[u8]) -> (r:
    bool)
    requires
        bs + width <= be <= d.len(),
    ensures
        r == leaf_matches(d@.subrange(bs as int, be as int), width as int, section@, key@),
{
    let ghost body = d@.subrange(bs as int, be as int);
    let t0 = bs + width;
    assert(body.skip(width as int) =~= d@.subrange(t0 as int, be as int));
    let mut t = be;
    while t > t0 && d[t - 1] == 0
        invariant
            t0 <= t <= be <= d.len(),
            strip_nuls(d@.subrange(t0 as int, be as int)) == strip_nuls(d@.subrange(t0 as int, t as int)),
        decreases t - t0,
    {
        assert(d@.subrange(t0 as int, t as int).drop_last() =~= d@.subrange(t0 as int, t - 1));
        t -= 1;
    }
    let ghost tail = d@.subrange(t0 as int, t as int);
    assert(strip_nuls(tail) == tail);
    match last_nul_in(d, t0, t) {
        None => false,
        Some(j) => {
            assert(tail.take(j - t0) =~= d@.subrange(t0 as int, j as int));
            assert(tail.skip(j - t0 + 1) =~= d@.subrange(j + 1, t as int));
            let sec_start = match last_nul_in(d, t0, j) {
                Some(i) => {
                    assert(d@.subrange(t0 as int, j as int).skip(i - t0 + 1) =~= d@.subrange(
                        i + 1,
                        j as int,
                    ));
                    i + 1
                },
                None => t0,
            };
            eq_ignore_case_exec(d, sec_start, j, section) && eq_ignore_case_exec(d, j + 1, t, key)
        },
    }
}

/// The first leaf tagged `tag` naming `section` / `key` in the chunks of `d[off0..end]`.
fn opt_walk_exec(
    d: &[u8],
    off0: usize,
    end: usize,
    tag: [u8; 4],
    width: usize,
    section: &[u8],
    key: &[u8],
) -> (r: Lookup)
    requires
        end <= d.len(),
        width <= 4,
    ensures
        r.find(d@) == opt_walk(d@, off0 as int, end as int, tag@, width as int, section@, key@),
        r matches Lookup::Found(a, b) ==> a + width <= b <= d.len(),
    decreases span(off0 as int, end as int),
{
    if off0 > end {
        return Lookup::Absent;
    }
    let mut off = off0;
    while end - off >= 8
        invariant
            off0 <= off <= end <= d.len(),
            width <= 4,
            opt_walk(d@, off0 as int, end as int, tag@, width as int, section@, key@) == opt_walk(
                d@,
                off as int,
                end as int,
                tag@,
                width as int,
                section@,
                key@,
            ),
        decreases end - off,
    {
        let size = read_be32(d, off + 4);
        let (body_end, next) = chunk_bounds(d, off, end);
        assert(opt_walk(d@, next as int, end as int, tag@, width as int, section@, key@) == opt_walk(
            d@,
            off + 8 + be32(d@, off + 4),
            end as int,
            tag@,
            width as int,
            section@,
            key@,
        ));
        if tag_eq(d, off, [70u8, 79u8, 82u8, 77u8]) {
            if body_end - off >= 12 {
                let r = opt_walk_exec(d, off + 12, body_end, tag, width, section, key);
                match r {
                    Lookup::Absent => {},
                    _ => {
                        return r;
                    },
                }
            } else {
                assert(opt_walk(d@, off + 12, body_end as int, tag@, width as int, section@, key@)
                    == OptFind::Absent);
            }
        } else if tag_eq(d, off, tag) && size as usize >= width {
            if body_end - (off + 8) < width {
                return Lookup::Fault;
            }
            if leaf_matches_exec(d, off + 8, body_end, width, section, key) {
                return Lookup::Found(off + 8, body_end);
            }
        }
        off = next;
    }
    Lookup::Absent
}

/// The value `read_opt_int` reports for a lookup.
pub open spec fn opt_int_value(f: OptFind) -> Option<i32> {
    match f {
        OptFind::Found(body) => Some(((le32(body, 0)) as u32) as i32),
        _ => None,
    }
}

/// The value `read_opt_bool` reports for a lookup.
pub open spec fn opt_bool_value(f: OptFind) -> Option<bool> {
    match f {
        OptFind::Found(body) => Some(body[0] != 0),
        _ => None,
    }
}

/// Looking an `INT ` preference up in an options file's bytes.
pub open spec fn opt_int_find(d: Seq<u8>, section: &str, key: &str) -> OptFind {
    opt_walk(d, 0, d.len() as int, int_tag(), 4, section.spec_bytes(), key.spec_bytes())
}

/// Looking a `BOOL` preference up in an options file's bytes.
pub open spec fn opt_bool_find(d: Seq<u8>, section: &str, key: &str) -> OptFind {
    opt_walk(d, 0, d.len() as int, bool_tag(), 1, section.spec_bytes(), key.spec_bytes())
}

fn int_lookup(d: &[u8], section: &str, key: &str) -> (r: Option<Option<i32>>)
    ensures
        r is None <==> opt_int_find(d@, section, key) is Fault,
        r matches Some(v) ==> v == opt_int_value(opt_int_find(d@, section, key)),
{
    match opt_walk_exec(d, 0, d.len(), [73u8, 78u8, 84u8, 32u8], 4, section.as_bytes(), key.as_bytes()) {
        Lookup::Found(a, b) => {
            assert(le32(d@.subrange(a as int, b as int), 0) == le32(d@, a as int));
            Some(Some(read_le32(d, a) as i32))
        },
        Lookup::Absent => Some(None),
        Lookup::Fault => None,
    }
}

fn bool_lookup(d: &[u8], section: &str, key: &str) -> (r: Option<Option<bool>>)
    ensures
        r is None <==> opt_bool_find(d@, section, key) is Fault,
        r matches Some(v) ==> v == opt_bool_value(opt_bool_find(d@, section, key)),
{
    match opt_walk_exec(d, 0, d.len(), [66u8, 79u8, 79u8, 76u8], 1, section.as_bytes(), key.as_bytes()) {
        Lookup::Found(a, b) => {
            assert(d@.subrange(a as int, b as int)[0] == d@[a as int]);
            Some(Some(d[a] != 0))
        },
        Lookup::Absent => Some(None),
        Lookup::Fault => None,
    }
}

/// One `INT ` value out of an options file's bytes (`profiles/<user>/<cluster>/<id>.opt`
/// or `local_machine_options.iff`).  It is an IFF: FORM chunks (big-endian
/// sizes) holding `INT `/`FLT `/`BOOL`/... leaves whose body is the value
/// followed by `section\0key\0`.  Only preferences the player changed are
/// stored, so `None` means "default".
pub fn read_opt_int(d: &[u8], section: &str, key: &str) -> (r: Option<i32>)
    requires
        !(opt_int_find(d@, section, key) is Fault),
    ensures
        r == opt_int_value(opt_int_find(d@, section, key)),
{
    match int_lookup(d, section, key) {
        Some(v) => v,
        None => None,
    }
}

/// `read_opt_int` for any bytes: `None` exactly where the lookup faults.
pub fn read_opt_int_checked(d: &[u8], section: &str, key: &str) -> (r: Option<Option<i32>>)
    ensures
        r is None <==> opt_int_find(d@, section, key) is Fault,
        r matches Some(v) ==> v == opt_int_value(opt_int_find(d@, section, key)),
{
    int_lookup(d, section, key)
}

/// A `BOOL` value out of an options file's bytes (`BOOL` leaf: one byte then
/// `section\0key\0`).
pub fn read_opt_bool(d: &[u8], section: &str, key: &str) -> (r: Option<bool>)
    requires
        !(opt_bool_find(d@, section, key) is Fault),
    ensures
        r == opt_bool_value(opt_bool_find(d@, section, key)),
{
    match bool_lookup(d, section, key) {
        Some(v) => v,
        None => None,
    }
}

/// `read_opt_bool` for any bytes: `None` exactly where the lookup faults.
pub fn read_opt_bool_checked(d: &[u8], section: &str, key: &str) -> (r: Option<Option<bool>>)
    ensures
        r is None <==> opt_bool_find(d@, section, key) is Fault,
        r matches Some(v) ==> v == opt_bool_value(opt_bool_find(d@, section, key)),
{
    bool_lookup(d, section, key)
}

/// The buff icon size the client compiles in when a character has never
/// touched Options > Interface > Buff Icon (CuiPreferences default).
pub open spec fn default_buff_icon_size() -> u32 {
    22
}

/// A stored icon size counts only inside the slider's range, 5..=120.
pub open spec fn icon_ok(v: Option<i32>) -> Option<u32> {
    match v {
        Some(x) => if 5 <= x <= 120 {
            Some(x as u32)
        } else {
            None
        },
        None => None,
    }
}

pub open spec fn icon_value(b: Seq<u8>, key: &str) -> Option<u32> {
    icon_ok(opt_int_value(opt_int_find(b, "ClientUserInterface", key)))
}

pub open spec fn icon_faults(b: Seq<u8>, key: &str) -> bool {
    opt_int_find(b, "ClientUserInterface", key) is Fault
}

/// The status-window icon size a character file holds (none when unreadable).
pub open spec fn status_of(f: Option<Seq<u8>>) -> Option<u32> {
    match f {
        Some(b) => icon_value(b, "buffIconSizeStatus"),
        None => None,
    }
}

/// `i` holds the largest value, and no earlier entry holds as much.
pub open spec fn is_first_max(vals: Seq<Option<u32>>, i: int) -> bool {
    &&& 0 <= i < vals.len()
    &&& vals[i] is Some
    &&& forall|j: int| 0 <= j < vals.len() && vals[j] is Some ==> vals[j].unwrap() <= vals[i].unwrap()
    &&& forall|j: int| 0 <= j < i && vals[j] is Some ==> vals[j].unwrap() < vals[i].unwrap()
}

pub open spec fn first_max(vals: Seq<Option<u32>>) -> Option<int> {
    if exists|i: int| is_first_max(vals, i) {
        Some(choose|i: int| is_first_max(vals, i))
    } else {
        None
    }
}

/// What the machine-wide file says: status, pet and group sizes (with the
/// defaults for those it lacks), when it holds any of them.
pub open spec fn lmo_sizes(lmo: Option<Seq<u8>>) -> Option<(u32, u32, u32, Seq<char>)> {
    match lmo {
        Some(b) => {
            let st = icon_value(b, "buffIconSizeStatus");
            let pet = icon_value(b, "buffIconSizePet");
            let group = icon_value(b, "buffIconSizeGroup");
            if st is Some || pet is Some || group is Some {
                Some(
                    (
                        if st is Some { st.unwrap() } else { default_buff_icon_size() },
                        if pet is Some { pet.unwrap() } else { 16u32 },
                        if group is Some { group.unwrap() } else { 16u32 },
                        "local_machine_options.iff"@,
                    ),
                )
            } else {
                None
            }
        },
        None => None,
    }
}

/// Buff icon sizes the client actually uses: the machine-wide
/// `local_machine_options.iff` (`lmo`) when it holds any, else the largest
/// per-character status size (the first character holding it), else the
/// defaults; nothing without any character file.  `opts` holds each
/// character options file's name and bytes (none when unreadable).
pub open spec fn icon_sizes_spec(lmo: Option<Seq<u8>>, opts: Seq<(Seq<char>, Option<Seq<u8>>)>) -> Option<
    (u32, u32, u32, Seq<char>),
> {
    if lmo_sizes(lmo) is Some {
        lmo_sizes(lmo)
    } else if opts.len() == 0 {
        None
    } else {
        let vals = opts.map_values(|o: (Seq<char>, Option<Seq<u8>>)| status_of(o.1));
        let n = dec(opts.len());
        match first_max(vals) {
            Some(i) => Some(
                (
                    vals[i].unwrap(),
                    16u32,
                    16u32,
                    "largest of "@ + n + " characters, set by "@ + opts[i].0,
                ),
            ),
            None => Some(
                (
                    default_buff_icon_size(),
                    16u32,
                    16u32,
                    "client defaults; nothing saved for "@ + n + " characters"@,
                ),
            ),
        }
    }
}

/// Whether `buff_icon_sizes` would fault reading one of the files it reads.
pub open spec fn icon_sizes_fault(lmo: Option<Seq<u8>>, opts: Seq<(Seq<char>, Option<Seq<u8>>)>) -> bool {
    ||| lmo matches Some(b) && (icon_faults(b, "buffIconSizeStatus") || icon_faults(
        b,
        "buffIconSizePet",
    ) || icon_faults(b, "buffIconSizeGroup"))
    ||| lmo_sizes(lmo) is None && exists|i: int| 0 <= i < opts.len() && entry_faults(#[trigger] opts[i])
}

/// Whether reading a character file's status size faults.
pub open spec fn entry_faults(o: (Seq<char>, Option<Seq<u8>>)) -> bool {
    match o.1 {
        Some(b) => icon_faults(b, "buffIconSizeStatus"),
        None => false,
    }
}

pub open spec fn opts_view(opts: Seq<(String, Option<Vec<u8>>)>) -> Seq<(Seq<char>, Option<Seq<u8>>)> {
    opts.map_values(
        |o: (String, Option<Vec<u8>>)|
            (
                o.0@,
                match o.1 {
                    Some(b) => Some(b@),
                    None => None,
                },
            ),
    )
}

pub open spec fn opt_bytes(o: Option<Vec<u8>>) -> Option<Seq<u8>> {
    match o {
        Some(b) => Some(b@),
        None => None,
    }
}

fn icon_size(d: &[u8], key: &str) -> (r: Option<Option<u32>>)
    ensures
        r is None <==> icon_faults(d@, key),
        r matches Some(v) ==> v == icon_value(d@, key),
{
    match int_lookup(d, "ClientUserInterface", key) {
        None => None,
        Some(Some(v)) => {
            if 5 <= v && v <= 120 {
                Some(Some(v as u32))
            } else {
                Some(None)
            }
        },
        Some(None) => Some(None),
    }
}

proof fn lemma_first_max_unique(vals: Seq<Option<u32>>, i: int)
    requires
        is_first_max(vals, i),
    ensures
        first_max(vals) == Some(i),
{
    let c = choose|c: int| is_first_max(vals, c);
    if c < i {
        assert(vals[c].unwrap() < vals[i].unwrap());
        assert(vals[c].unwrap() >= vals[i].unwrap());
    }
    if c > i {
        assert(vals[i].unwrap() < vals[c].unwrap());
        assert(vals[i].unwrap() >= vals[c].unwrap());
    }
}

fn icon_sizes_core(lmo: &Option<Vec<u8>>, opts: &Vec<(String, Option<Vec<u8>>)>) -> (r: Option<
    Option<(u32, u32, u32, String)>,
>)
    ensures
        r is None <==> icon_sizes_fault(opt_bytes(*lmo), opts_view(opts@)),
        r matches Some(v) ==> match v {
            Some(t) => icon_sizes_spec(opt_bytes(*lmo), opts_view(opts@)) == Some((t.0, t.1, t.2, t.3@)),
            None => icon_sizes_spec(opt_bytes(*lmo), opts_view(opts@)) is None,
        },
{
    let ghost ov = opts_view(opts@);
    match lmo {
        Some(b) => {
            let st = icon_size(b.as_slice(), "buffIconSizeStatus");
            let pet = icon_size(b.as_slice(), "buffIconSizePet");
            let group = icon_size(b.as_slice(), "buffIconSizeGroup");
            match (st, pet, group) {
                (Some(st), Some(pet), Some(group)) => {
                    if st.is_some() || pet.is_some() || group.is_some() {
                        let s = match st { Some(v) => v, None => 22 };
                        let p = match pet { Some(v) => v, None => 16 };
                        let g = match group { Some(v) => v, None => 16 };
                        return Some(Some((s, p, g, String::from_str("local_machine_options.iff"))));
                    }
                },
                _ => {
                    return None;
                },
            }
        },
        None => {},
    }
    assert(lmo_sizes(opt_bytes(*lmo)) is None);
    let n = opts.len();
    if n == 0 {
        return Some(None);
    }
    let ghost vals = ov.map_values(|o: (Seq<char>, Option<Seq<u8>>)| status_of(o.1));
    let mut best: Option<(u32, usize)> = None;
    let mut i: usize = 0;
    while i < n
        invariant
            n == opts.len(),
            i <= n,
            ov == opts_view(opts@),
            vals == ov.map_values(|o: (Seq<char>, Option<Seq<u8>>)| status_of(o.1)),
            vals.len() == n,
            lmo_sizes(opt_bytes(*lmo)) is None,
            forall|j: int| 0 <= j < i ==> !entry_faults(#[trigger] ov[j]),
            match best {
                Some((v, k)) => k < i && is_first_max(vals.take(i as int), k as int) && vals[k as int] == Some(v),
                None => forall|j: int| 0 <= j < i ==> (#[trigger] vals[j]) is None,
            },
        decreases n - i,
    {
        let ghost pre = vals.take(i as int);
        let ghost post = vals.take(i + 1);
        assert(ov[i as int].1 == opt_bytes(opts@[i as int].1));
        let v: Option<u32> = match &opts[i].1 {
            Some(b) => match icon_size(b.as_slice(), "buffIconSizeStatus") {
                Some(v) => v,
                None => {
                    assert(entry_faults(ov[i as int]));
                    assert(icon_sizes_fault(opt_bytes(*lmo), ov));
                    return None;
                },
            },
            None => None,
        };
        assert(v == vals[i as int]);
        match v {
            Some(x) => {
                match best {
                    Some((b, k)) => {
                        if x > b {
                            best = Some((x, i));
                            assert forall|j: int| 0 <= j < post.len() && post[j] is Some implies post[j].unwrap() <= post[i as int].unwrap() by {
                                if j < i {
                                    assert(post[j] == pre[j]);
                                }
                            }
                            assert forall|j: int| 0 <= j < i && post[j] is Some implies post[j].unwrap() < post[i as int].unwrap() by {
                                assert(post[j] == pre[j]);
                            }
                            assert(is_first_max(post, i as int));
                        } else {
                            assert forall|j: int| 0 <= j < post.len() && post[j] is Some implies post[j].unwrap() <= post[k as int].unwrap() by {
                                if j < i {
                                    assert(post[j] == pre[j]);
                                }
                            }
                            assert forall|j: int| 0 <= j < k && post[j] is Some implies post[j].unwrap() < post[k as int].unwrap() by {
                                assert(post[j] == pre[j]);
                            }
                            assert(post[k as int] == pre[k as int]);
                            assert(is_first_max(post, k as int));
                        }
                    },
                    None => {
                        best = Some((x, i));
                        assert forall|j: int| 0 <= j < post.len() && post[j] is Some implies post[j].unwrap() <= post[i as int].unwrap() by {
                            if j < i {
                                assert(post[j] == vals[j]);
                            }
                        }
                        assert(is_first_max(post, i as int));
                    },
                }
            },
            None => {
                match best {
                    Some((b, k)) => {
                        assert forall|j: int| 0 <= j < post.len() && post[j] is Some implies post[j].unwrap() <= post[k as int].unwrap() by {
                            if j < i {
                                assert(post[j] == pre[j]);
                            }
                        }
                        assert forall|j: int| 0 <= j < k && post[j] is Some implies post[j].unwrap() < post[k as int].unwrap() by {
                            assert(post[j] == pre[j]);
                        }
                        assert(post[k as int] == pre[k as int]);
                        assert(is_first_max(post, k as int));
                    },
                    None => {},
                }
            },
        }
        i += 1;
    }
    assert(vals.take(n as int) =~= vals);
    assert(!icon_sizes_fault(opt_bytes(*lmo), ov)) by {
        if exists|j: int| 0 <= j < ov.len() && entry_faults(#[trigger] ov[j]) {
            let j = choose|j: int| 0 <= j < ov.len() && entry_faults(#[trigger] ov[j]);
            assert(!entry_faults(ov[j]));
        }
    }
    let mut msg: Vec<char> = Vec::new();
    match best {
        Some((v, k)) => {
            proof {
                lemma_first_max_unique(vals, k as int);
            }
            let mut m = String::from_str("largest of ");
            push_dec(&mut msg, n as u64);
            m.append(string_of(msg.as_slice()).as_str());
            m.append(" characters, set by ");
            m.append(opts[k].0.as_str());
            assert(ov[k as int].0 == opts@[k as int].0@);
            Some(Some((v, 16, 16, m)))
        },
        None => {
            assert(first_max(vals) is None) by {
                if exists|c: int| is_first_max(vals, c) {
                    let c = choose|c: int| is_first_max(vals, c);
                    assert(vals[c] is Some);
                }
            }
            let mut m = String::from_str("client defaults; nothing saved for ");
            push_dec(&mut msg, n as u64);
            m.append(string_of(msg.as_slice()).as_str());
            m.append(" characters");
            Some(Some((22, 16, 16, m)))
        },
    }
}

/// Buff icon sizes the client actually uses: (status, pet, group, where it
/// came from).  The Options > Interface sliders are machine-wide:
/// `local_machine_options.iff` (`lmo`, its bytes when it is a readable
/// file) holds `buffIconSizeStatus` / `Pet` / `Group`.  Falls back to the
/// largest per-character value (`opts`: each `.opt` file's stem and bytes),
/// then the defaults.
pub fn buff_icon_sizes(lmo: &Option<Vec<u8>>, opts: &Vec<(String, Option<Vec<u8>>)>) -> (r: Option<
    (u32, u32, u32, String),
>)
    requires
        !icon_sizes_fault(opt_bytes(*lmo), opts_view(opts@)),
    ensures
        match r {
            Some(t) => icon_sizes_spec(opt_bytes(*lmo), opts_view(opts@)) == Some((t.0, t.1, t.2, t.3@)),
            None => icon_sizes_spec(opt_bytes(*lmo), opts_view(opts@)) is None,
        },
{
    match icon_sizes_core(lmo, opts) {
        Some(r) => r,
        None => None,
    }
}

/// `buff_icon_sizes` for any files: `None` exactly where reading one of them
/// faults.
pub fn buff_icon_sizes_checked(lmo: &Option<Vec<u8>>, opts: &Vec<(String, Option<Vec<u8>>)>) -> (r: Option<
    Option<(u32, u32, u32, String)>,
>)
    ensures
        r is None <==> icon_sizes_fault(opt_bytes(*lmo), opts_view(opts@)),
        r matches Some(v) ==> match v {
            Some(t) => icon_sizes_spec(opt_bytes(*lmo), opts_view(opts@)) == Some((t.0, t.1, t.2, t.3@)),
            None => icon_sizes_spec(opt_bytes(*lmo), opts_view(opts@)) is None,
        },
{
    icon_sizes_core(lmo, opts)
}

/// Options > Interface > double toolbar (`useDoubleToolbar` in the bytes of
/// local_machine_options.iff).
pub fn use_double_toolbar(lmo: &[u8]) -> (r: Option<bool>)
    requires
        !(opt_bool_find(lmo@, "ClientUserInterface", "useDoubleToolbar") is Fault),
    ensures
        r == opt_bool_value(opt_bool_find(lmo@, "ClientUserInterface", "useDoubleToolbar")),
{
    read_opt_bool(lmo, "ClientUserInterface", "useDoubleToolbar")
}

/// Lines still to take in the files being read: each file's entries and the
/// index of the next one.
pub open spec fn lines_left(stack: Seq<(Seq<CfgEntry>, int)>) -> int
    decreases stack.len(),
{
    if stack.len() == 0 {
        0
    } else {
        let top = stack.last();
        lines_left(stack.drop_last()) + if top.1 < top.0.len() {
            top.0.len() - top.1
        } else {
            0
        }
    }
}

pub proof fn lemma_lines_left_nonneg(stack: Seq<(Seq<CfgEntry>, int)>)
    ensures
        lines_left(stack) >= 0,
    decreases stack.len(),
{
    if stack.len() > 0 {
        lemma_lines_left_nonneg(stack.drop_last());
    }
}

/// Whether the include guard lets `name` be read after `seen`.
pub open spec fn guard_ok(seen: Seq<Seq<char>>, name: Seq<char>) -> bool {
    !(seen.contains(lower(name)) || seen.len() > 32)
}

/// Reading on from where a config chain stands (the values so far, the
/// files opened, the files being read, innermost last): values are stored
/// in order, a file done is left for the one that included it, and an
/// include the guard lets through stops the walk with that file to read
/// next (`None` once everything is read).
pub open spec fn cfg_advance(
    cfg: CfgView,
    seen: Seq<Seq<char>>,
    stack: Seq<(Seq<CfgEntry>, int)>,
) -> (CfgView, Seq<Seq<char>>, Seq<(Seq<CfgEntry>, int)>, Option<Seq<char>>)
    decreases lines_left(stack), stack.len(),
{
    if stack.len() == 0 {
        (cfg, seen, stack, None)
    } else {
        let top = stack.last();
        proof {
            lemma_lines_left_nonneg(stack.drop_last());
        }
        if top.1 < 0 || top.1 >= top.0.len() {
            cfg_advance(cfg, seen, stack.drop_last())
        } else {
            let st2 = stack.drop_last().push((top.0, top.1 + 1));
            proof {
                assert(st2.drop_last() =~= stack.drop_last());
            }
            match top.0[top.1] {
                CfgEntry::Value(sec, k, v) => cfg_advance(cfg_set(cfg, sec, k, v), seen, st2),
                CfgEntry::Include(f) => if guard_ok(seen, f) {
                    (cfg, seen.push(lower(f)), st2, Some(f))
                } else {
                    cfg_advance(cfg, seen, st2)
                },
            }
        }
    }
}

/// No name occurs twice.
pub open spec fn no_repeats(s: Seq<Seq<char>>) -> bool {
    forall|i: int, j: int| 0 <= i < j < s.len() ==> #[trigger] s[i] != #[trigger] s[j]
}

/// A config chain opens each file (by its lower-cased name) at most once and
/// no more than 33 files in all, however the files include one another.
pub proof fn lemma_chain_opens_once(
    cfg: CfgView,
    seen: Seq<Seq<char>>,
    stack: Seq<(Seq<CfgEntry>, int)>,
)
    requires
        no_repeats(seen),
        seen.len() <= 33,
    ensures
        no_repeats(cfg_advance(cfg, seen, stack).1),
        cfg_advance(cfg, seen, stack).1.len() <= 33,
    decreases lines_left(stack), stack.len(),
{
    if stack.len() > 0 {
        let top = stack.last();
        lemma_lines_left_nonneg(stack.drop_last());
        if top.1 < 0 || top.1 >= top.0.len() {
            lemma_chain_opens_once(cfg, seen, stack.drop_last());
        } else {
            let st2 = stack.drop_last().push((top.0, top.1 + 1));
            assert(st2.drop_last() =~= stack.drop_last());
            match top.0[top.1] {
                CfgEntry::Value(sec, k, v) => {
                    lemma_chain_opens_once(cfg_set(cfg, sec, k, v), seen, st2);
                },
                CfgEntry::Include(f) => {
                    if guard_ok(seen, f) {
                        let s2 = seen.push(lower(f));
                        assert forall|i: int, j: int| 0 <= i < j < s2.len() implies #[trigger] s2[i]
                            != #[trigger] s2[j] by {
                            if j == seen.len() {
                                assert(seen[i] != lower(f)) by {
                                    if seen[i] == lower(f) {
                                        assert(seen.contains(lower(f)));
                                    }
                                }
                            }
                        }
                    } else {
                        lemma_chain_opens_once(cfg, seen, st2);
                    }
                },
            }
        }
    }
}

/// Reading the client's effective config one file at a time: `client.cfg`
/// and everything it `.include`s, in order, later values overriding earlier
/// ones.  The caller reads the file `next_file` names and hands its text (or
/// `None` when it cannot be read) to `feed`, until there is none.
pub struct CfgLoad {
    cfg: ClientCfg,
    guard: IncludeGuard,
    stack: Vec<(Vec<CfgLine>, usize)>,
    pending: Option<String>,
}

pub open spec fn entries_of(ls: Seq<CfgLine>) -> Seq<CfgEntry> {
    ls.map_values(|l: CfgLine| l.entry())
}

pub open spec fn stack_view(st: Seq<(Vec<CfgLine>, usize)>) -> Seq<(Seq<CfgEntry>, int)> {
    st.map_values(|e: (Vec<CfgLine>, usize)| (entries_of(e.0@), e.1 as int))
}

impl CfgLoad {
    /// The values read so far.
    pub closed spec fn values(&self) -> CfgView {
        self.cfg@
    }

    /// The files opened so far (lower-cased).
    pub closed spec fn opened(&self) -> Seq<Seq<char>> {
        self.guard@
    }

    /// The files being read, innermost last.
    pub closed spec fn reading(&self) -> Seq<(Seq<CfgEntry>, int)> {
        stack_view(self.stack@)
    }

    /// The file to read next.
    pub closed spec fn wanted(&self) -> Option<Seq<char>> {
        match self.pending {
            Some(p) => Some(p@),
            None => None,
        }
    }

    /// Starts with `client.cfg` to read.
    pub fn new() -> (l: CfgLoad)
        ensures
            l.values() == Seq::<(Seq<char>, Seq<char>, Seq<char>)>::empty(),
            l.opened() == seq![lower("client.cfg"@)],
            l.reading() == Seq::<(Seq<CfgEntry>, int)>::empty(),
            l.wanted() == Some("client.cfg"@),
    {
        let mut guard = IncludeGuard::new();
        let _ = guard.enter("client.cfg");
        let l = CfgLoad {
            cfg: ClientCfg::new(),
            guard,
            stack: Vec::new(),
            pending: Some(String::from_str("client.cfg")),
        };
        assert(l.reading() =~= Seq::<(Seq<CfgEntry>, int)>::empty());
        assert(l.opened() =~= seq![lower("client.cfg"@)]);
        l
    }

    /// The file to read next, if any.
    pub fn next_file(&self) -> (r: Option<&str>)
        ensures
            match r {
                Some(f) => self.wanted() == Some(f@),
                None => self.wanted() is None,
            },
    {
        match &self.pending {
            Some(p) => Some(p.as_str()),
            None => None,
        }
    }

    /// Takes the text of the file `next_file` named (`None`: it could not be
    /// read) and reads on (see `cfg_advance`) to the next file to read.
    pub fn feed(&mut self, text: Option<&str>)
        ensures
            ({
                let st = match text {
                    Some(t) => old(self).reading().push((scan_spec(t@), 0)),
                    None => old(self).reading(),
                };
                let r = cfg_advance(old(self).values(), old(self).opened(), st);
                &&& final(self).values() == r.0
                &&& final(self).opened() == r.1
                &&& final(self).reading() == r.2
                &&& final(self).wanted() == r.3
            }),
    {
        let ghost st0 = match text {
            Some(t) => old(self).reading().push((scan_spec(t@), 0)),
            None => old(self).reading(),
        };
        let ghost want = cfg_advance(old(self).values(), old(self).opened(), st0);
        match text {
            Some(t) => {
                let ls = scan_cfg(t);
                let ghost before = stack_view(self.stack@);
                self.stack.push((ls, 0));
                assert(stack_view(self.stack@) =~= before.push((scan_spec(t@), 0)));
            },
            None => {},
        }
        self.pending = None;
        loop
            invariant
                self.pending is None,
                cfg_advance(self.cfg@, self.guard@, stack_view(self.stack@)) == want,
                want == cfg_advance(old(self).values(), old(self).opened(), st0),
                st0 == match text {
                    Some(t) => old(self).reading().push((scan_spec(t@), 0)),
                    None => old(self).reading(),
                },
            decreases lines_left(stack_view(self.stack@)), self.stack.len(),
        {
            proof {
                lemma_lines_left_nonneg(stack_view(self.stack@));
            }
            if self.stack.len() == 0 {
                assert(stack_view(self.stack@) =~= Seq::<(Seq<CfgEntry>, int)>::empty());
                return;
            }
            let ghost sv = stack_view(self.stack@);
            let ghost g0 = self.guard@;
            let ghost c0 = self.cfg@;
            let (ls, i) = self.stack.pop().unwrap();
            proof {
                assert(stack_view(self.stack@) =~= sv.drop_last());
                assert(sv.last() == (entries_of(ls@), i as int));
                lemma_lines_left_nonneg(sv.drop_last());
            }
            if i >= ls.len() {
                continue;
            }
            assert(entries_of(ls@)[i as int] == ls@[i as int].entry());
            let ghost rest = stack_view(self.stack@);
            let inc = match &ls[i] {
                CfgLine::Value(sec, k, v) => {
                    self.cfg.set(sec.as_str(), k.as_str(), v.as_str());
                    None
                },
                CfgLine::Include(f) => Some(f.clone()),
            };
            self.stack.push((ls, i + 1));
            assert(stack_view(self.stack@) =~= rest.push((entries_of(ls@), i + 1)));
            assert(rest.push((entries_of(ls@), i + 1)).drop_last() =~= rest);
            match inc {
                None => {},
                Some(f) => {
                    if self.guard.enter(f.as_str()) {
                        self.pending = Some(f);
                        assert(cfg_advance(c0, g0, sv) == (
                            c0,
                            g0.push(lower(f@)),
                            stack_view(self.stack@),
                            Some(f@),
                        ));
                        return;
                    }
                },
            }
        }
    }

    /// The config read.
    pub fn finish(self) -> (c: ClientCfg)
        ensures
            c@ == self.values(),
    {
        self.cfg
    }
}

} // verus!
