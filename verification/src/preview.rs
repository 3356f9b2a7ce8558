//! The display sizes the preview offers and how it reads a "WxH" size, the
//! palette it draws with, and the profession names it lists.

use vstd::prelude::*;
use crate::settings::{profession_table, professions, Rgb};
use crate::text::{
    chars_of, find_char_in, lower, lower_range, parse_u32, parse_u32_range, replace_chars,
    replace_spec, split_once, str_eq,
};

verus! {

/// Common display resolutions, up to 8K: label, width, height.
pub open spec fn resolution_table() -> Seq<(Seq<char>, u32, u32)> {
    seq![
        ("1280 x 720  (16:9)"@, 1280u32, 720u32),
        ("1366 x 768  (16:9)"@, 1366u32, 768u32),
        ("1600 x 900  (16:9)"@, 1600u32, 900u32),
        ("1920 x 1080  (16:9)"@, 1920u32, 1080u32),
        ("1920 x 1200  (16:10)"@, 1920u32, 1200u32),
        ("2560 x 1080  (21:9)"@, 2560u32, 1080u32),
        ("2560 x 1440  (16:9)"@, 2560u32, 1440u32),
        ("2560 x 1600  (16:10)"@, 2560u32, 1600u32),
        ("3440 x 1440  (21:9)"@, 3440u32, 1440u32),
        ("3840 x 1600  (24:10)"@, 3840u32, 1600u32),
        ("3840 x 2160  (16:9, 4K)"@, 3840u32, 2160u32),
        ("5120 x 1440  (32:9)"@, 5120u32, 1440u32),
        ("5120 x 2880  (16:9, 5K)"@, 5120u32, 2880u32),
        ("7680 x 4320  (16:9, 8K)"@, 7680u32, 4320u32),
    ]
}

/// Common display resolutions, up to 8K.
pub fn resolutions() -> (t: [(&'static str, u32, u32); 14])
    ensures
        forall|i: int|
            0 <= i < 14 ==> (t@[i].0@, t@[i].1, t@[i].2) == #[trigger] resolution_table()[i],
{
    [
        ("1280 x 720  (16:9)", 1280, 720),
        ("1366 x 768  (16:9)", 1366, 768),
        ("1600 x 900  (16:9)", 1600, 900),
        ("1920 x 1080  (16:9)", 1920, 1080),
        ("1920 x 1200  (16:10)", 1920, 1200),
        ("2560 x 1080  (21:9)", 2560, 1080),
        ("2560 x 1440  (16:9)", 2560, 1440),
        ("2560 x 1600  (16:10)", 2560, 1600),
        ("3440 x 1440  (21:9)", 3440, 1440),
        ("3840 x 1600  (24:10)", 3840, 1600),
        ("3840 x 2160  (16:9, 4K)", 3840, 2160),
        ("5120 x 1440  (32:9)", 5120, 1440),
        ("5120 x 2880  (16:9, 5K)", 5120, 2880),
        ("7680 x 4320  (16:9, 8K)", 7680, 4320),
    ]
}

/// A "WxH" size: spaces dropped, case ignored, two decimal numbers around
/// an `x`, at least 320 x 240.
pub open spec fn parse_resolution_spec(s: Seq<char>) -> Option<(u32, u32)> {
    let key = lower(replace_spec(s, seq![' '], Seq::empty()));
    match split_once(key, 'x') {
        Some((a, b)) => match (parse_u32(a), parse_u32(b)) {
            (Some(w), Some(h)) => if w >= 320 && h >= 240 {
                Some((w, h))
            } else {
                None
            },
            _ => None,
        },
        None => None,
    }
}

/// Parses a "WxH" string (see `parse_resolution_spec`).
pub fn parse_resolution(s: &str) -> (r: Option<(u32, u32)>)
    ensures
        r == parse_resolution_spec(s@),
{
    let v = chars_of(s);
    let sp: [char; 1] = [' '];
    let none: [char; 0] = [];
    assert(sp@ =~= seq![' ']);
    assert(none@ =~= Seq::<char>::empty());
    let nospace = replace_chars(v.as_slice(), &sp, &none);
    let key = lower_range(nospace.as_slice(), 0, nospace.len());
    proof {
        assert(nospace@.subrange(0, nospace@.len() as int) =~= nospace@);
        assert(key@.subrange(0, key@.len() as int) =~= key@);
    }
    let x = match find_char_in(key.as_slice(), 0, key.len(), 'x') {
        Some(x) => x,
        None => return None,
    };
    proof {
        assert(key@.take(x as int) =~= key@.subrange(0, x as int));
        assert(key@.skip(x + 1) =~= key@.subrange(x + 1, key@.len() as int));
    }
    let w = parse_u32_range(key.as_slice(), 0, x);
    let h = parse_u32_range(key.as_slice(), x + 1, key.len());
    match (w, h) {
        (Some(w), Some(h)) => if w >= 320 && h >= 240 {
            Some((w, h))
        } else {
            None
        },
        _ => None,
    }
}

/// Index into `resolutions()` for a "WxH" string; `None` when it is not a
/// listed size.
pub fn resolution_index(s: &str) -> (r: Option<usize>)
    ensures
        match parse_resolution_spec(s@) {
            Some((w, h)) => match r {
                Some(i) => i < 14 && resolution_table()[i as int].1 == w && resolution_table()[i as int].2
                    == h && forall|j: int|
                    0 <= j < i ==> !(#[trigger] resolution_table()[j].1 == w
                        && resolution_table()[j].2 == h),
                None => forall|j: int|
                    0 <= j < 14 ==> !(#[trigger] resolution_table()[j].1 == w
                        && resolution_table()[j].2 == h),
            },
            None => r is None,
        },
{
    let (w, h) = match parse_resolution(s) {
        Some(p) => p,
        None => return None,
    };
    let t = resolutions();
    let mut i: usize = 0;
    while i < 14
        invariant
            i <= 14,
            parse_resolution_spec(s@) == Some((w, h)),
            forall|k: int|
                0 <= k < 14 ==> (t@[k].0@, t@[k].1, t@[k].2) == #[trigger] resolution_table()[k],
            forall|j: int|
                0 <= j < i ==> !(#[trigger] resolution_table()[j].1 == w
                    && resolution_table()[j].2 == h),
        decreases 14 - i,
    {
        assert((t@[i as int].0@, t@[i as int].1, t@[i as int].2) == resolution_table()[i as int]);
        if t[i].1 == w && t[i].2 == h {
            return Some(i);
        }
        i += 1;
    }
    None
}

/// The display name of a profession key ("Green (default)" for one that is
/// not a preset).
pub open spec fn class_label_spec(key: Seq<char>) -> Seq<char> {
    if exists|i: int| 0 <= i < 10 && profession_table()[i].0 == key {
        profession_table()[choose|i: int| 0 <= i < 10 && profession_table()[i].0 == key].1
    } else {
        "Green (default)"@
    }
}

pub proof fn lemma_profession_keys_distinct()
    ensures
        forall|i: int, j: int|
            0 <= i < j < 10 ==> #[trigger] profession_table()[i].0 != #[trigger] profession_table()[j].0,
{
    assert forall|i: int, j: int| 0 <= i < j < 10 implies #[trigger] profession_table()[i].0
        != #[trigger] profession_table()[j].0 by {
        reveal_strlit("mando");
        reveal_strlit("officer");
        reveal_strlit("jedi");
        reveal_strlit("spy");
        reveal_strlit("bh");
        reveal_strlit("medic");
        reveal_strlit("smuggler");
        reveal_strlit("ent");
        reveal_strlit("trader");
        reveal_strlit("green");
        let a = profession_table()[i].0;
        let b = profession_table()[j].0;
        assert(a.len() != b.len() || a[0] != b[0] || a[1] != b[1]);
    }
}

/// The display name of a profession key.
pub fn class_label(key: &str) -> (r: &'static str)
    ensures
        r@ == class_label_spec(key@),
{
    let t = professions();
    let mut i: usize = 0;
    while i < 10
        invariant
            i <= 10,
            forall|k: int|
                0 <= k < 10 ==> (t@[k].0@, t@[k].1@, t@[k].2) == #[trigger] profession_table()[k],
            forall|k: int| 0 <= k < i ==> profession_table()[k].0 != key@,
        decreases 10 - i,
    {
        assert((t@[i as int].0@, t@[i as int].1@, t@[i as int].2) == profession_table()[i as int]);
        if str_eq(t[i].0, key) {
            proof {
                lemma_profession_keys_distinct();
                let c = choose|j: int| 0 <= j < 10 && profession_table()[j].0 == key@;
                if c != i {
                    if c < i {
                        assert(profession_table()[c].0 != profession_table()[i as int].0);
                    } else {
                        assert(profession_table()[i as int].0 != profession_table()[c].0);
                    }
                }
            }
            return t[i].1;
        }
        i += 1;
    }
    "Green (default)"
}

/// Colours the preview draws with, derived from the settings.
#[derive(Clone, Copy, Debug)]
pub struct Palette {
    pub health: Rgb,
    pub health_bg: Rgb,
    pub target: Rgb,
    pub target_bg: Rgb,
    pub power: Rgb,
    pub power_bg: Rgb,
    pub role_colors: bool,
    /// class colour shown in the player bar when role colours are on
    pub role_fill: Rgb,
}

} // verus!
