//! Character-level helpers shared by the parsers: whitespace trimming as
//! `str::trim` does it, ASCII case folding, and decimal number formatting
//! and parsing.

use vstd::prelude::*;

verus! {

/// Unicode `White_Space`, the set `char::is_whitespace` (and so `str::trim`) uses.
pub open spec fn is_ws(c: char) -> bool {
    let u = c as u32;
    ||| 0x09 <= u <= 0x0D
    ||| u == 0x20
    ||| u == 0x85
    ||| u == 0xA0
    ||| u == 0x1680
    ||| 0x2000 <= u <= 0x200A
    ||| u == 0x2028
    ||| u == 0x2029
    ||| u == 0x202F
    ||| u == 0x205F
    ||| u == 0x3000
}

pub fn is_ws_exec(c: char) -> (b: bool)
    ensures
        b == is_ws(c),
{
    let u = c as u32;
    (0x09 <= u && u <= 0x0D) || u == 0x20 || u == 0x85 || u == 0xA0 || u == 0x1680 || (0x2000
        <= u && u <= 0x200A) || u == 0x2028 || u == 0x2029 || u == 0x202F || u == 0x205F || u
        == 0x3000
}

/// The characters of a string, as a vector.
pub fn chars_of(s: &str) -> (v: Vec<char>)
    ensures
        v@ == s@,
{
    let mut v: Vec<char> = Vec::new();
    for c in it: s.chars()
        invariant
            v@ == it.seq().take(it.index() as int),
    {
        v.push(c);
    }
    v
}

/// `String::push`: appends one character.
#[verifier::external_body]
pub(crate) fn push_char(s: &mut String, c: char)
    ensures
        final(s)@ == old(s)@.push(c),
{
    s.push(c)
}

/// The string whose characters are `v`.
pub fn string_of(v: &[char]) -> (s: String)
    ensures
        s@ == v@,
{
    let mut s = String::new();
    let mut i: usize = 0;
    while i < v.len()
        invariant
            i <= v.len(),
            s@ == v@.take(i as int),
        decreases v.len() - i,
    {
        push_char(&mut s, v[i]);
        i += 1;
        assert(s@ == v@.take(i as int));
    }
    assert(v@.take(v.len() as int) == v@);
    s
}


/// `str::trim_start`: drops leading whitespace.
pub open spec fn trim_start(s: Seq<char>) -> Seq<char>
    decreases s.len(),
{
    if s.len() > 0 && is_ws(s[0]) {
        trim_start(s.drop_first())
    } else {
        s
    }
}

/// `str::trim_end`: drops trailing whitespace.
pub open spec fn trim_end(s: Seq<char>) -> Seq<char>
    decreases s.len(),
{
    if s.len() > 0 && is_ws(s.last()) {
        trim_end(s.drop_last())
    } else {
        s
    }
}

/// `str::trim`.
pub open spec fn trim(s: Seq<char>) -> Seq<char> {
    trim_end(trim_start(s))
}

proof fn lemma_trim_start_at(s: Seq<char>, i: int)
    requires
        0 <= i <= s.len(),
        forall|k: int| 0 <= k < i ==> is_ws(#[trigger] s[k]),
    ensures
        trim_start(s) == trim_start(s.subrange(i, s.len() as int)),
    decreases i,
{
    if i > 0 {
        assert(s.drop_first().subrange(i - 1, s.drop_first().len() as int) =~= s.subrange(
            i,
            s.len() as int,
        ));
        lemma_trim_start_at(s.drop_first(), i - 1);
    } else {
        assert(s.subrange(0, s.len() as int) =~= s);
    }
}

proof fn lemma_trim_end_at(s: Seq<char>, j: int)
    requires
        0 <= j <= s.len(),
        forall|k: int| j <= k < s.len() ==> is_ws(#[trigger] s[k]),
    ensures
        trim_end(s) == trim_end(s.subrange(0, j)),
    decreases s.len() - j,
{
    if j < s.len() {
        assert(s.drop_last().subrange(0, j) =~= s.subrange(0, j));
        lemma_trim_end_at(s.drop_last(), j);
    } else {
        assert(s.subrange(0, j) =~= s);
    }
}

/// Bounds `(a, b)` such that `v[a..b]` is `v` trimmed.
pub fn trim_bounds(v: &[char], lo: usize, hi: usize) -> (r: (usize, usize))
    requires
        lo <= hi <= v.len(),
    ensures
        lo <= r.0 <= r.1 <= hi,
        v@.subrange(r.0 as int, r.1 as int) == trim(v@.subrange(lo as int, hi as int)),
{
    let ghost s = v@.subrange(lo as int, hi as int);
    let mut a = lo;
    while a < hi && is_ws_exec(v[a])
        invariant
            lo <= a <= hi <= v.len(),
            s == v@.subrange(lo as int, hi as int),
            forall|k: int| lo <= k < a ==> is_ws(#[trigger] v@[k]),
        decreases hi - a,
    {
        a += 1;
    }
    proof {
        assert forall|k: int| 0 <= k < a - lo implies is_ws(#[trigger] s[k]) by {
            assert(s[k] == v@[lo + k]);
        }
        lemma_trim_start_at(s, a - lo);
        assert(s.subrange(a - lo, s.len() as int) =~= v@.subrange(a as int, hi as int));
    }
    let ghost t = v@.subrange(a as int, hi as int);
    assert(trim_start(s) == trim_start(t));
    assert(a == hi || !is_ws(t[0]));
    if a < hi {
        assert(trim_start(t) == t);
    } else {
        assert(t.len() == 0);
    }
    let mut b = hi;
    while b > a && is_ws_exec(v[b - 1])
        invariant
            lo <= a <= b <= hi <= v.len(),
            forall|k: int| b <= k < hi ==> is_ws(#[trigger] v@[k]),
        decreases b - a,
    {
        b -= 1;
    }
    proof {
        assert forall|k: int| b - a <= k < t.len() implies is_ws(#[trigger] t[k]) by {
            assert(t[k] == v@[a + k]);
        }
        lemma_trim_end_at(t, b - a);
        let u = t.subrange(0, b - a);
        assert(u =~= v@.subrange(a as int, b as int));
        if b > a {
            assert(trim_end(u) == u);
        } else {
            assert(u.len() == 0);
        }
    }
    (a, b)
}

/// `char::to_ascii_lowercase`.
pub open spec fn lower_char(c: char) -> char {
    if 'A' <= c <= 'Z' {
        ((c as u32) + 32) as char
    } else {
        c
    }
}

/// `str::to_ascii_lowercase`.
pub open spec fn lower(s: Seq<char>) -> Seq<char> {
    s.map_values(|c: char| lower_char(c))
}

pub open spec fn upper_char(c: char) -> char {
    if 'a' <= c <= 'z' {
        ((c as u32) - 32) as char
    } else {
        c
    }
}

/// `str::to_ascii_uppercase`.
pub open spec fn upper(s: Seq<char>) -> Seq<char> {
    s.map_values(|c: char| upper_char(c))
}

/// Lowering forgets an earlier change of ASCII case.
pub proof fn lemma_lower_forgets_case(s: Seq<char>)
    ensures
        lower(upper(s)) == lower(s),
        lower(lower(s)) == lower(s),
{
    assert forall|i: int| 0 <= i < s.len() implies #[trigger] lower(upper(s))[i] == lower(s)[i] by {
        let c = s[i];
        if 'a' <= c <= 'z' {
            assert(((((c as u32) - 32) as char) as u32) == (c as u32) - 32);
            assert(((((c as u32) - 32) as char as u32 + 32) as char) == c);
        }
    }
    assert forall|i: int| 0 <= i < s.len() implies #[trigger] lower(lower(s))[i] == lower(s)[i] by {
        let c = s[i];
        if 'A' <= c <= 'Z' {
            assert(((((c as u32) + 32) as char) as u32) == (c as u32) + 32);
        }
    }
    assert(lower(upper(s)) =~= lower(s));
    assert(lower(lower(s)) =~= lower(s));
}

pub fn lower_char_exec(c: char) -> (r: char)
    ensures
        r == lower_char(c),
{
    if 'A' <= c && c <= 'Z' {
        ((c as u8) + 32) as char
    } else {
        c
    }
}

/// `v[lo..hi]`, ASCII-lowercased.
pub fn lower_range(v: &[char], lo: usize, hi: usize) -> (r: Vec<char>)
    requires
        lo <= hi <= v.len(),
    ensures
        r@ == lower(v@.subrange(lo as int, hi as int)),
{
    let mut r: Vec<char> = Vec::new();
    let mut i = lo;
    while i < hi
        invariant
            lo <= i <= hi <= v.len(),
            r@ == lower(v@.subrange(lo as int, i as int)),
        decreases hi - i,
    {
        r.push(lower_char_exec(v[i]));
        i += 1;
        assert(r@ =~= lower(v@.subrange(lo as int, i as int)));
    }
    r
}

/// `v[lo..hi]` as a vector.
pub fn copy_range(v: &[char], lo: usize, hi: usize) -> (r: Vec<char>)
    requires
        lo <= hi <= v.len(),
    ensures
        r@ == v@.subrange(lo as int, hi as int),
{
    let mut r: Vec<char> = Vec::new();
    let mut i = lo;
    while i < hi
        invariant
            lo <= i <= hi <= v.len(),
            r@ == v@.subrange(lo as int, i as int),
        decreases hi - i,
    {
        r.push(v[i]);
        i += 1;
        assert(r@ =~= v@.subrange(lo as int, i as int));
    }
    r
}

/// Whether two character sequences are equal.
pub fn chars_eq(a: &[char], b: &[char]) -> (r: bool)
    ensures
        r == (a@ == b@),
{
    if a.len() != b.len() {
        return false;
    }
    let mut i: usize = 0;
    while i < a.len()
        invariant
            a.len() == b.len(),
            i <= a.len(),
            forall|k: int| 0 <= k < i ==> a@[k] == b@[k],
        decreases a.len() - i,
    {
        if a[i] != b[i] {
            return false;
        }
        i += 1;
    }
    assert(a@ =~= b@);
    true
}

/// Whether `a` and `b` are equal.
pub fn str_eq(a: &str, b: &str) -> (r: bool)
    ensures
        r == (a@ == b@),
{
    let va = chars_of(a);
    let vb = chars_of(b);
    chars_eq(&va, &vb)
}

/// Decimal digit `d` (0..=9) as a character.
pub open spec fn digit_char(d: int) -> char {
    ((d + 48) as u32) as char
}

/// The decimal representation of `n`, as `{}` formats an unsigned integer.
pub open spec fn dec(n: nat) -> Seq<char>
    decreases n,
{
    if n < 10 {
        seq![digit_char(n as int)]
    } else {
        dec(n / 10).push(digit_char((n % 10) as int))
    }
}

/// `{:0w}` on a non-negative number: zero-padded to at least `w` characters.
pub open spec fn dec_pad(n: nat, w: nat) -> Seq<char> {
    let d = dec(n);
    if d.len() < w {
        Seq::new((w - d.len()) as nat, |i: int| '0') + d
    } else {
        d
    }
}

/// Appends the decimal representation of `n`.
pub fn push_dec(out: &mut Vec<char>, n: u64)
    ensures
        final(out)@ == old(out)@ + dec(n as nat),
    decreases n,
{
    if n >= 10 {
        push_dec(out, n / 10);
    }
    let d = (n % 10) as u8;
    out.push((d + 48) as char);
    assert(out@ =~= old(out)@ + dec(n as nat));
}

pub proof fn lemma_dec_len(n: nat)
    ensures
        1 <= dec(n).len(),
        n < 10 <==> dec(n).len() == 1,
        n < 100 ==> dec(n).len() <= 2,
    decreases n,
{
    if n >= 10 {
        lemma_dec_len(n / 10);
    }
}

/// Appends `n` zero-padded to at least `w` digits.
pub fn push_dec_pad(out: &mut Vec<char>, n: u64, w: usize)
    requires
        w <= 20,
    ensures
        final(out)@ == old(out)@ + dec_pad(n as nat, w as nat),
{
    let mut d: Vec<char> = Vec::new();
    push_dec(&mut d, n);
    assert(d@ =~= dec(n as nat));
    let mut k = d.len();
    let ghost start = out@;
    while k < w
        invariant
            d@ == dec(n as nat),
            d.len() <= k,
            k <= w || d.len() >= w,
            d.len() >= w ==> k == d.len(),
            out@ == start + Seq::new((k - d.len()) as nat, |i: int| '0'),
        decreases w - k,
    {
        out.push('0');
        k += 1;
        assert(out@ =~= start + Seq::new((k - d.len()) as nat, |i: int| '0'));
    }
    let mut i: usize = 0;
    let ghost mid = out@;
    while i < d.len()
        invariant
            i <= d.len(),
            out@ == mid + d@.take(i as int),
        decreases d.len() - i,
    {
        out.push(d[i]);
        i += 1;
        assert(out@ =~= mid + d@.take(i as int));
    }
    assert(d@.take(d.len() as int) =~= d@);
    if d.len() < w {
        assert(out@ =~= start + dec_pad(n as nat, w as nat));
    } else {
        assert(k == d.len());
        assert(Seq::new((k - d.len()) as nat, |i: int| '0') =~= Seq::<char>::empty());
        assert(out@ =~= start + dec_pad(n as nat, w as nat));
    }
}

/// Whether `c` is an ASCII decimal digit.
pub open spec fn is_digit(c: char) -> bool {
    '0' <= c <= '9'
}

/// The value of a run of decimal digits.
pub open spec fn digits_value(s: Seq<char>) -> int
    decreases s.len(),
{
    if s.len() == 0 {
        0
    } else {
        digits_value(s.drop_last()) * 10 + (s.last() as int - 48)
    }
}

pub open spec fn all_digits(s: Seq<char>) -> bool {
    forall|i: int| 0 <= i < s.len() ==> is_digit(#[trigger] s[i])
}

/// The digits after an optional leading `+`, as `u32::from_str` reads them.
pub open spec fn unsigned_digits(s: Seq<char>) -> Seq<char> {
    if s.len() > 0 && s[0] == '+' {
        s.drop_first()
    } else {
        s
    }
}

/// `s.parse::<u32>()`: an optional `+`, then one or more ASCII digits whose value fits.
pub open spec fn parse_u32(s: Seq<char>) -> Option<u32> {
    let d = unsigned_digits(s);
    if d.len() > 0 && all_digits(d) && digits_value(d) <= u32::MAX {
        Some(digits_value(d) as u32)
    } else {
        None
    }
}

/// `s.parse::<i32>()`: an optional sign, then one or more ASCII digits whose
/// signed value fits.
pub open spec fn parse_i32(s: Seq<char>) -> Option<i32> {
    if s.len() > 0 && s[0] == '-' {
        let d = s.drop_first();
        if d.len() > 0 && all_digits(d) && digits_value(d) <= 0x8000_0000 {
            Some((-digits_value(d)) as i32)
        } else {
            None
        }
    } else {
        let d = unsigned_digits(s);
        if d.len() > 0 && all_digits(d) && digits_value(d) <= i32::MAX {
            Some(digits_value(d) as i32)
        } else {
            None
        }
    }
}

proof fn lemma_digits_value_step(s: Seq<char>, i: int)
    requires
        0 <= i < s.len(),
    ensures
        digits_value(s.subrange(0, i + 1)) == digits_value(s.subrange(0, i)) * 10 + (s[i] as int
            - 48),
{
    assert(s.subrange(0, i + 1).drop_last() =~= s.subrange(0, i));
}

proof fn lemma_digits_value_nonneg(s: Seq<char>)
    requires
        all_digits(s),
    ensures
        digits_value(s) >= 0,
    decreases s.len(),
{
    if s.len() > 0 {
        assert(all_digits(s.drop_last())) by {
            assert forall|i: int| 0 <= i < s.drop_last().len() implies is_digit(
                #[trigger] s.drop_last()[i],
            ) by {
                assert(s.drop_last()[i] == s[i]);
            }
        }
        lemma_digits_value_nonneg(s.drop_last());
    }
}

/// Reads the digits of `v[lo..hi]`: `None` when one is not a digit or the
/// value exceeds `limit`.
fn read_digits(v: &[char], lo: usize, hi: usize, limit: u64) -> (r: Option<u64>)
    requires
        lo <= hi <= v.len(),
        limit <= u32::MAX + 1,
    ensures
        ({
            let d = v@.subrange(lo as int, hi as int);
            match r {
                Some(x) => all_digits(d) && digits_value(d) <= limit && x == digits_value(d),
                None => !all_digits(d) || digits_value(d) > limit,
            }
        }),
{
    let ghost d = v@.subrange(lo as int, hi as int);
    let mut acc: u64 = 0;
    let mut i = lo;
    while i < hi
        invariant
            lo <= i <= hi <= v.len(),
            limit <= u32::MAX + 1,
            d == v@.subrange(lo as int, hi as int),
            all_digits(d.subrange(0, i - lo)),
            acc == digits_value(d.subrange(0, i - lo)),
            acc <= limit,
        decreases hi - i,
    {
        let c = v[i];
        if !('0' <= c && c <= '9') {
            proof {
                assert(!is_digit(d[i - lo]));
            }
            return None;
        }
        proof {
            lemma_digits_value_step(d, i - lo);
        }
        let nacc = acc * 10 + ((c as u32) - 48) as u64;
        if nacc > limit {
            proof {
                // a longer run only grows
                assert(all_digits(d.subrange(0, i - lo + 1))) by {
                    assert forall|k: int| 0 <= k < i - lo + 1 implies is_digit(
                        #[trigger] d.subrange(0, i - lo + 1)[k],
                    ) by {
                        if k < i - lo {
                            assert(d.subrange(0, i - lo + 1)[k] == d.subrange(0, i - lo)[k]);
                        }
                    }
                }
                lemma_prefix_value_grows(d, i - lo + 1);
            }
            return None;
        }
        acc = nacc;
        i += 1;
        proof {
            assert forall|k: int| 0 <= k < i - lo implies is_digit(
                #[trigger] d.subrange(0, i - lo)[k],
            ) by {
                if k < i - lo - 1 {
                    assert(d.subrange(0, i - lo)[k] == d.subrange(0, i - lo - 1)[k]);
                }
            }
        }
    }
    assert(d.subrange(0, hi - lo) =~= d);
    Some(acc)
}

/// A digit run is worth at least any of its digit-only prefixes.
proof fn lemma_prefix_value_grows(d: Seq<char>, n: int)
    requires
        0 <= n <= d.len(),
        all_digits(d.subrange(0, n)),
    ensures
        all_digits(d) ==> digits_value(d) >= digits_value(d.subrange(0, n)),
    decreases d.len() - n,
{
    if n < d.len() && all_digits(d) {
        assert(all_digits(d.subrange(0, n + 1))) by {
            assert forall|k: int| 0 <= k < n + 1 implies is_digit(#[trigger] d.subrange(0, n + 1)[k]) by {
                assert(d.subrange(0, n + 1)[k] == d[k]);
            }
        }
        lemma_digits_value_step(d, n);
        lemma_digits_value_nonneg(d.subrange(0, n));
        lemma_prefix_value_grows(d, n + 1);
    } else if n == d.len() {
        assert(d.subrange(0, n) =~= d);
    }
}

/// `v[lo..hi].parse::<u32>()`.
pub fn parse_u32_range(v: &[char], lo: usize, hi: usize) -> (r: Option<u32>)
    requires
        lo <= hi <= v.len(),
    ensures
        r == parse_u32(v@.subrange(lo as int, hi as int)),
{
    let ghost s = v@.subrange(lo as int, hi as int);
    let mut start = lo;
    if lo < hi && v[lo] == '+' {
        start = lo + 1;
        assert(unsigned_digits(s) =~= v@.subrange(start as int, hi as int));
    } else {
        assert(unsigned_digits(s) =~= v@.subrange(start as int, hi as int));
    }
    if start == hi {
        return None;
    }
    match read_digits(v, start, hi, 0xFFFF_FFFF) {
        Some(x) => Some(x as u32),
        None => None,
    }
}

/// `v[lo..hi].parse::<i32>()`.
pub fn parse_i32_range(v: &[char], lo: usize, hi: usize) -> (r: Option<i32>)
    requires
        lo <= hi <= v.len(),
    ensures
        r == parse_i32(v@.subrange(lo as int, hi as int)),
{
    let ghost s = v@.subrange(lo as int, hi as int);
    if lo < hi && v[lo] == '-' {
        assert(s.drop_first() =~= v@.subrange(lo + 1, hi as int));
        if lo + 1 == hi {
            return None;
        }
        match read_digits(v, lo + 1, hi, 0x8000_0000) {
            Some(x) => {
                let r = (0 - (x as i64)) as i32;
                Some(r)
            },
            None => None,
        }
    } else {
        let mut start = lo;
        if lo < hi && v[lo] == '+' {
            start = lo + 1;
        }
        assert(unsigned_digits(s) =~= v@.subrange(start as int, hi as int));
        if start == hi {
            return None;
        }
        match read_digits(v, start, hi, 0x7FFF_FFFF) {
            Some(x) => Some(x as i32),
            None => None,
        }
    }
}

/// Index of the first `c` in `s`.
pub open spec fn find_char(s: Seq<char>, c: char) -> Option<int>
    decreases s.len(),
{
    if s.len() == 0 {
        None
    } else if s[0] == c {
        Some(0)
    } else {
        match find_char(s.drop_first(), c) {
            Some(i) => Some(i + 1),
            None => None,
        }
    }
}

pub proof fn lemma_find_char(s: Seq<char>, c: char, i: int)
    requires
        0 <= i <= s.len(),
        forall|k: int| 0 <= k < i ==> s[k] != c,
    ensures
        i < s.len() && s[i] == c ==> find_char(s, c) == Some(i),
        i == s.len() ==> find_char(s, c) is None,
    decreases i,
{
    if i > 0 {
        lemma_find_char(s.drop_first(), c, i - 1);
    }
}

pub proof fn lemma_find_char_found(s: Seq<char>, c: char)
    ensures
        find_char(s, c) matches Some(i) ==> 0 <= i < s.len() && s[i] == c && forall|k: int|
            0 <= k < i ==> s[k] != c,
        find_char(s, c) is None ==> forall|k: int| 0 <= k < s.len() ==> s[k] != c,
    decreases s.len(),
{
    if s.len() > 0 {
        lemma_find_char_found(s.drop_first(), c);
        if s[0] != c {
            assert forall|k: int| 0 < k < s.len() implies s[k] == s.drop_first()[k - 1] by {}
        }
    }
}

/// `str::split_once(c)`: the text before and after the first `c`.
pub open spec fn split_once(s: Seq<char>, c: char) -> Option<(Seq<char>, Seq<char>)> {
    match find_char(s, c) {
        Some(i) => Some((s.take(i), s.skip(i + 1))),
        None => None,
    }
}

/// The first `c` in `v[lo..hi]`, as an index into `v`.
pub fn find_char_in(v: &[char], lo: usize, hi: usize, c: char) -> (r: Option<usize>)
    requires
        lo <= hi <= v.len(),
    ensures
        match r {
            Some(i) => lo <= i < hi && find_char(v@.subrange(lo as int, hi as int), c) == Some(
                i - lo,
            ),
            None => find_char(v@.subrange(lo as int, hi as int), c) is None,
        },
{
    let ghost s = v@.subrange(lo as int, hi as int);
    let mut i = lo;
    while i < hi
        invariant
            lo <= i <= hi <= v.len(),
            s == v@.subrange(lo as int, hi as int),
            forall|k: int| 0 <= k < i - lo ==> s[k] != c,
        decreases hi - i,
    {
        if v[i] == c {
            proof {
                lemma_find_char(s, c, i - lo);
            }
            return Some(i);
        }
        i += 1;
    }
    proof {
        lemma_find_char(s, c, i - lo);
    }
    None
}

/// `dec(n)` is a run of digits worth `n`.
pub proof fn lemma_dec_digits(n: nat)
    ensures
        dec(n).len() > 0,
        all_digits(dec(n)),
        digits_value(dec(n)) == n,
    decreases n,
{
    let s = dec(n);
    if n < 10 {
        assert(digit_char(n as int) as int == n + 48);
        assert(s.drop_last() =~= Seq::<char>::empty());
        assert(digits_value(s.drop_last()) == 0);
        assert(s.last() == digit_char(n as int));
        assert(digits_value(s) == digits_value(s.drop_last()) * 10 + (s.last() as int - 48));
    } else {
        lemma_dec_digits(n / 10);
        assert(digit_char((n % 10) as int) as int == n % 10 + 48);
        assert(s.drop_last() =~= dec(n / 10));
        assert(s.last() == digit_char((n % 10) as int));
        assert(digits_value(s) == digits_value(s.drop_last()) * 10 + (s.last() as int - 48));
        assert(n == (n / 10) * 10 + n % 10);
        assert forall|i: int| 0 <= i < s.len() implies is_digit(#[trigger] s[i]) by {
            if i < s.len() - 1 {
                assert(s[i] == dec(n / 10)[i]);
            }
        }
    }
}

/// A whole number as `{}` writes it (`-` first when negative) reads back
/// with `parse_i32`, and is its own trimmed form.
pub proof fn lemma_int_text(t: Seq<char>, v: int)
    requires
        (0 <= v <= i32::MAX && t == dec(v as nat)) || (-0x8000_0000 <= v < 0 && t == seq!['-'] + dec(
            (-v) as nat,
        )),
    ensures
        t.len() > 0,
        !is_ws(t[0]) && !is_ws(t.last()),
        trim(t) == t,
        parse_i32(t) == Some(v as i32),
        forall|k: int| 0 <= k < t.len() ==> #[trigger] t[k] != ',',
{
    if v >= 0 {
        lemma_dec_digits(v as nat);
        assert(is_digit(t[0]));
        assert(is_digit(t[t.len() - 1]));
        assert(!is_ws(t[0]) && !is_ws(t.last()));
        assert(unsigned_digits(t) == t);
        assert forall|k: int| 0 <= k < t.len() implies #[trigger] t[k] != ',' by {
            assert(is_digit(t[k]));
        }
    } else {
        let d = dec((-v) as nat);
        lemma_dec_digits((-v) as nat);
        assert(t.drop_first() =~= d);
        assert(is_digit(d[d.len() - 1]));
        assert(t.last() == d[d.len() - 1]);
        assert(!is_ws(t[0]) && !is_ws(t.last()));
        assert forall|k: int| 0 <= k < t.len() implies #[trigger] t[k] != ',' by {
            if k > 0 {
                assert(t[k] == d[k - 1]);
                assert(is_digit(d[k - 1]));
            }
        }
    }
    assert(trim_start(t) == t);
    assert(trim_end(t) == t);
}

/// `x` written with `signed_pad` at width 1 is `{}`'s text for it.
pub proof fn lemma_signed_pad_1(x: int)
    ensures
        x >= 0 ==> signed_pad(x, 1) == dec(x as nat),
        x < 0 ==> signed_pad(x, 1) == seq!['-'] + dec((-x) as nat),
{
    if x >= 0 {
        lemma_dec_len(x as nat);
    } else {
        lemma_dec_len((-x) as nat);
    }
}

/// Splitting `a,b` at its first comma, when `a` holds none.
pub proof fn lemma_split_comma(a: Seq<char>, b: Seq<char>)
    requires
        forall|k: int| 0 <= k < a.len() ==> #[trigger] a[k] != ',',
    ensures
        split_once(a + ","@ + b, ',') == Some((a, b)),
{
    reveal_strlit(",");
    let s = a + ","@ + b;
    assert forall|k: int| 0 <= k < a.len() implies s[k] != ',' by {
        assert(s[k] == a[k]);
    }
    lemma_find_char(s, ',', a.len() as int);
    assert(s.take(a.len() as int) =~= a);
    assert(s.skip(a.len() as int + 1) =~= b);
}

/// `{:0w}` on a signed number: the sign counts toward the width.
pub open spec fn signed_pad(x: int, w: nat) -> Seq<char> {
    if x >= 0 {
        dec_pad(x as nat, w)
    } else {
        seq!['-'] + dec_pad((-x) as nat, if w > 0 { (w - 1) as nat } else { 0 })
    }
}

/// Appends `x` formatted as `{:0w}`.
pub fn push_signed_pad(out: &mut Vec<char>, x: i64, w: usize)
    requires
        1 <= w <= 20,
        x > i64::MIN,
    ensures
        final(out)@ == old(out)@ + signed_pad(x as int, w as nat),
{
    if x >= 0 {
        push_dec_pad(out, x as u64, w);
    } else {
        out.push('-');
        push_dec_pad(out, (-x) as u64, w - 1);
        assert(out@ =~= old(out)@ + signed_pad(x as int, w as nat));
    }
}

/// Lexicographic order of character sequences (by code point, which is the
/// byte order of their UTF-8 encodings, as `str`'s `Ord` compares).
pub open spec fn seq_lt(a: Seq<char>, b: Seq<char>) -> bool
    decreases a.len(),
{
    if a.len() == 0 {
        b.len() > 0
    } else if b.len() == 0 {
        false
    } else if a[0] != b[0] {
        (a[0] as int) < (b[0] as int)
    } else {
        seq_lt(a.drop_first(), b.drop_first())
    }
}

pub proof fn lemma_seq_lt_trans(a: Seq<char>, b: Seq<char>, c: Seq<char>)
    requires
        seq_lt(a, b),
        seq_lt(b, c),
    ensures
        seq_lt(a, c),
    decreases a.len(),
{
    if a.len() > 0 && b.len() > 0 && c.len() > 0 && a[0] == b[0] && b[0] == c[0] {
        lemma_seq_lt_trans(a.drop_first(), b.drop_first(), c.drop_first());
    }
}

pub proof fn lemma_seq_lt_irrefl(a: Seq<char>)
    ensures
        !seq_lt(a, a),
    decreases a.len(),
{
    if a.len() > 0 {
        lemma_seq_lt_irrefl(a.drop_first());
    }
}

pub proof fn lemma_seq_lt_total(a: Seq<char>, b: Seq<char>)
    ensures
        a == b || seq_lt(a, b) || seq_lt(b, a),
        !(seq_lt(a, b) && seq_lt(b, a)),
        !seq_lt(a, a),
    decreases a.len(),
{
    lemma_seq_lt_irrefl(a);
    if a.len() > 0 && b.len() > 0 {
        lemma_seq_lt_total(a.drop_first(), b.drop_first());
        if a[0] == b[0] && a.drop_first() == b.drop_first() {
            assert forall|i: int| 0 <= i < a.len() implies a[i] == b[i] by {
                if i > 0 {
                    assert(a[i] == a.drop_first()[i - 1]);
                    assert(b[i] == b.drop_first()[i - 1]);
                }
            }
            assert(a =~= b);
        }
    } else if a.len() == 0 && b.len() == 0 {
        assert(a =~= b);
    }
}

/// `a < b` in `str` order.
pub fn str_lt(a: &str, b: &str) -> (r: bool)
    ensures
        r == seq_lt(a@, b@),
{
    let va = chars_of(a);
    let vb = chars_of(b);
    let mut i: usize = 0;
    assert(va@.skip(0) =~= va@);
    assert(vb@.skip(0) =~= vb@);
    while i < va.len() && i < vb.len() && va[i] == vb[i]
        invariant
            i <= va.len(),
            i <= vb.len(),
            va@ == a@,
            vb@ == b@,
            seq_lt(a@, b@) == seq_lt(va@.skip(i as int), vb@.skip(i as int)),
        decreases va.len() - i,
    {
        assert(va@.skip(i as int).drop_first() =~= va@.skip(i + 1));
        assert(vb@.skip(i as int).drop_first() =~= vb@.skip(i + 1));
        i += 1;
    }
    if i == va.len() {
        i < vb.len()
    } else if i == vb.len() {
        false
    } else {
        va[i] < vb[i]
    }
}

/// Bytes `c` takes in UTF-8.
pub open spec fn char_width(c: char) -> int {
    let u = c as u32;
    if u < 0x80 {
        1
    } else if u < 0x800 {
        2
    } else if u < 0x10000 {
        3
    } else {
        4
    }
}

/// `char_width` is the length of the character's UTF-8 encoding.
pub proof fn lemma_char_width(c: char)
    ensures
        char_width(c) == vstd::utf8::encode_scalar(c as u32).len(),
{
    vstd::utf8::char_is_scalar(c);
}

/// `s`'s UTF-8 encoding is its first character's encoding, then the rest's.
proof fn lemma_encode_first(s: Seq<char>)
    requires
        s.len() > 0,
    ensures
        vstd::utf8::encode_utf8(s) == vstd::utf8::encode_scalar(s[0] as u32) + vstd::utf8::encode_utf8(
            s.drop_first(),
        ),
{
}

/// The index of the character that starts at byte `b` of `s`'s UTF-8
/// encoding (`s.len()` for the end); `None` when `b` falls inside a
/// character or outside the text.
pub open spec fn char_index_of_byte(s: Seq<char>, b: int) -> Option<int>
    decreases s.len(),
{
    if b == 0 {
        Some(0)
    } else if s.len() == 0 || b < char_width(s[0]) {
        None
    } else {
        match char_index_of_byte(s.drop_first(), b - char_width(s[0])) {
            Some(k) => Some(k + 1),
            None => None,
        }
    }
}

pub proof fn lemma_char_index_of_byte_bound(s: Seq<char>, b: int)
    ensures
        char_index_of_byte(s, b) matches Some(k) ==> 0 <= k <= s.len(),
    decreases s.len(),
{
    if b != 0 && s.len() > 0 && b >= char_width(s[0]) {
        lemma_char_index_of_byte_bound(s.drop_first(), b - char_width(s[0]));
    }
}

/// An offset on a character boundary of `s`'s UTF-8 encoding starts a
/// character (or is the end).
pub proof fn lemma_boundary_has_index(s: Seq<char>, b: int)
    requires
        vstd::utf8::is_char_boundary(vstd::utf8::encode_utf8(s), b),
    ensures
        char_index_of_byte(s, b) is Some,
    decreases s.len(),
{
    let bytes = vstd::utf8::encode_utf8(s);
    vstd::utf8::encode_utf8_valid_utf8(s);
    if b != 0 {
        if s.len() == 0 {
            assert(bytes.len() == 0);
        } else {
            vstd::utf8::encode_utf8_first_scalar(s);
            lemma_char_width(s[0]);
            lemma_encode_first(s);
            let w = char_width(s[0]);
            let rest = vstd::utf8::encode_utf8(s.drop_first());
            assert(vstd::utf8::pop_first_scalar(bytes) =~= rest);
            assert(vstd::utf8::is_char_boundary(rest, b - w));
            if b - w >= 0 {
                lemma_boundary_has_index(s.drop_first(), b - w);
            }
        }
    }
}

/// Later offsets start later characters.
pub proof fn lemma_char_index_monotone(s: Seq<char>, a: int, b: int)
    requires
        0 <= a <= b,
        char_index_of_byte(s, a) is Some,
        char_index_of_byte(s, b) is Some,
    ensures
        char_index_of_byte(s, a).unwrap() <= char_index_of_byte(s, b).unwrap(),
    decreases s.len(),
{
    lemma_char_index_of_byte_bound(s, b);
    if a != 0 {
        let w = char_width(s[0]);
        lemma_char_index_monotone(s.drop_first(), a - w, b - w);
    }
}

fn char_width_exec(c: char) -> (w: usize)
    ensures
        w == char_width(c),
{
    let u = c as u32;
    if u < 0x80 {
        1
    } else if u < 0x800 {
        2
    } else if u < 0x10000 {
        3
    } else {
        4
    }
}

/// The character index of byte offset `b` (see `char_index_of_byte`).
pub fn byte_to_char(s: &[char], b: usize) -> (r: Option<usize>)
    ensures
        match r {
            Some(k) => char_index_of_byte(s@, b as int) == Some(k as int) && k <= s.len(),
            None => char_index_of_byte(s@, b as int) is None,
        },
{
    let mut k: usize = 0;
    let mut acc: usize = 0;
    assert(s@.skip(0) =~= s@);
    while acc < b
        invariant
            k <= s.len(),
            acc <= b,
            char_index_of_byte(s@, b as int) == match char_index_of_byte(
                s@.skip(k as int),
                b - acc,
            ) {
                Some(j) => Some(j + k),
                None => None,
            },
        decreases b - acc,
    {
        if k == s.len() {
            return None;
        }
        let w = char_width_exec(s[k]);
        assert(s@.skip(k as int)[0] == s@[k as int]);
        if b - acc < w {
            return None;
        }
        assert(s@.skip(k as int).drop_first() =~= s@.skip(k + 1));
        acc += w;
        k += 1;
    }
    Some(k)
}

/// The last `c` in `s`.
pub open spec fn rfind_char(s: Seq<char>, c: char) -> Option<int>
    decreases s.len(),
{
    if s.len() == 0 {
        None
    } else if s.last() == c {
        Some(s.len() - 1)
    } else {
        rfind_char(s.drop_last(), c)
    }
}

/// The last `c` in `v[..hi]`.
pub fn rfind_char_in(v: &[char], hi: usize, c: char) -> (r: Option<usize>)
    requires
        hi <= v.len(),
    ensures
        match r {
            Some(i) => rfind_char(v@.take(hi as int), c) == Some(i as int) && i < hi,
            None => rfind_char(v@.take(hi as int), c) is None,
        },
{
    let mut i = hi;
    while i > 0
        invariant
            i <= hi <= v.len(),
            rfind_char(v@.take(hi as int), c) == rfind_char(v@.take(i as int), c),
        decreases i,
    {
        assert(v@.take(i as int).drop_last() =~= v@.take(i - 1));
        if v[i - 1] == c {
            return Some(i - 1);
        }
        i -= 1;
    }
    None
}

/// Whether every character of `v[lo..hi]` is white space.
pub fn all_ws_in(v: &[char], lo: usize, hi: usize) -> (r: bool)
    requires
        lo <= hi <= v.len(),
    ensures
        r == (forall|k: int| lo <= k < hi ==> is_ws(#[trigger] v@[k])),
{
    let mut i = lo;
    while i < hi
        invariant
            lo <= i <= hi <= v.len(),
            forall|k: int| lo <= k < i ==> is_ws(#[trigger] v@[k]),
        decreases hi - i,
    {
        if !is_ws_exec(v[i]) {
            return false;
        }
        i += 1;
    }
    true
}

/// Appends the characters of `s`.
pub fn append_chars(v: &mut Vec<char>, s: &str)
    ensures
        final(v)@ == old(v)@ + s@,
{
    let w = chars_of(s);
    let mut i: usize = 0;
    let ghost start = v@;
    while i < w.len()
        invariant
            i <= w.len(),
            w@ == s@,
            v@ == start + w@.take(i as int),
        decreases w.len() - i,
    {
        v.push(w[i]);
        i += 1;
        assert(v@ =~= start + w@.take(i as int));
    }
    assert(w@.take(w.len() as int) =~= w@);
}

/// Appends the characters of `w`.
pub fn append_slice(v: &mut Vec<char>, w: &[char])
    ensures
        final(v)@ == old(v)@ + w@,
{
    let mut i: usize = 0;
    let ghost start = v@;
    while i < w.len()
        invariant
            i <= w.len(),
            v@ == start + w@.take(i as int),
        decreases w.len() - i,
    {
        v.push(w[i]);
        i += 1;
        assert(v@ =~= start + w@.take(i as int));
    }
    assert(w@.take(w.len() as int) =~= w@);
}

/// `to` before, between and after the characters of `s` (what `str::replace`
/// does with an empty pattern).
pub open spec fn interleave(s: Seq<char>, to: Seq<char>) -> Seq<char>
    decreases s.len(),
{
    if s.len() == 0 {
        to
    } else {
        to + seq![s[0]] + interleave(s.drop_first(), to)
    }
}

/// `str::replace(from, to)`: every non-overlapping `from`, left to right,
/// replaced by `to`.
pub open spec fn replace_spec(s: Seq<char>, from: Seq<char>, to: Seq<char>) -> Seq<char>
    decreases s.len(),
{
    if from.len() == 0 {
        interleave(s, to)
    } else if s.len() < from.len() {
        s
    } else if s.take(from.len() as int) == from {
        to + replace_spec(s.skip(from.len() as int), from, to)
    } else {
        seq![s[0]] + replace_spec(s.drop_first(), from, to)
    }
}

/// Whether `from` occurs in `s` at `i`.
pub fn matches_at(s: &[char], i: usize, from: &[char]) -> (r: bool)
    requires
        i <= s.len(),
    ensures
        r == (from.len() <= s.len() - i && s@.skip(i as int).take(from.len() as int) == from@),
{
    if from.len() > s.len() - i {
        return false;
    }
    let mut k: usize = 0;
    while k < from.len()
        invariant
            k <= from.len() <= s.len() - i,
            forall|j: int| 0 <= j < k ==> s@[i + j] == from@[j],
        decreases from.len() - k,
    {
        if s[i + k] != from[k] {
            assert(s@.skip(i as int).take(from.len() as int)[k as int] != from@[k as int]);
            return false;
        }
        k += 1;
    }
    assert(s@.skip(i as int).take(from.len() as int) =~= from@);
    true
}

/// `str::replace` on character vectors.
pub fn replace_chars(s: &[char], from: &[char], to: &[char]) -> (r: Vec<char>)
    ensures
        r@ == replace_spec(s@, from@, to@),
{
    let mut out: Vec<char> = Vec::new();
    let mut i: usize = 0;
    assert(s@.skip(0) =~= s@);
    if from.len() == 0 {
        while i < s.len()
            invariant
                i <= s.len(),
                from@.len() == 0,
                replace_spec(s@, from@, to@) == out@ + interleave(s@.skip(i as int), to@),
            decreases s.len() - i,
        {
            assert(s@.skip(i as int).drop_first() =~= s@.skip(i + 1));
            append_slice(&mut out, to);
            out.push(s[i]);
            i += 1;
        }
        append_slice(&mut out, to);
        return out;
    }
    while i < s.len()
        invariant
            i <= s.len(),
            from@.len() > 0,
            replace_spec(s@, from@, to@) == out@ + replace_spec(s@.skip(i as int), from@, to@),
        decreases s.len() - i,
    {
        if matches_at(s, i, from) {
            assert(s@.skip(i as int).skip(from.len() as int) =~= s@.skip(i + from.len()));
            append_slice(&mut out, to);
            i += from.len();
        } else {
            proof {
                let t = s@.skip(i as int);
                assert(t.drop_first() =~= s@.skip(i + 1));
                if t.len() < from@.len() {
                    assert(replace_spec(t, from@, to@) == t);
                    assert(replace_spec(t.drop_first(), from@, to@) == t.drop_first());
                    assert(t =~= seq![t[0]] + t.drop_first());
                }
            }
            out.push(s[i]);
            i += 1;
        }
    }
    assert(replace_spec(s@.skip(i as int), from@, to@) =~= Seq::<char>::empty());
    out
}

} // verus!
