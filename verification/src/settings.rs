//! Colours, profession presets and the user settings the installer reads.
//! The float-valued settings (backdrop / class-colour multipliers, UI scale)
//! and their scaling are not held here.

use vstd::prelude::*;
use vstd::string::StringExecFns;
use crate::text::{
    chars_eq, chars_of, digit_char, find_char_in, is_ws, lower, lower_range, parse_i32,
    parse_i32_range, split_once, str_eq, string_of, trim, trim_bounds, trim_end, trim_start,
    dec, lemma_int_text, lemma_split_comma,
};

verus! {

/// An sRGB colour.
#[derive(Clone, Copy, Debug, PartialEq, Eq, Structural)]
pub struct Rgb(pub u8, pub u8, pub u8);

/// Upper-case hex digit for `n` in `0..16`.
pub open spec fn hex_digit(n: int) -> char {
    if n < 10 {
        digit_char(n)
    } else {
        ((n - 10 + 65) as u32) as char
    }
}

/// Two upper-case hex digits for a byte.
pub open spec fn hex2(b: u8) -> Seq<char> {
    seq![hex_digit((b / 16) as int), hex_digit((b % 16) as int)]
}

/// `#RRGGBB`, upper case.
pub open spec fn rgb_hex(c: Rgb) -> Seq<char> {
    seq!['#'] + hex2(c.0) + hex2(c.1) + hex2(c.2)
}

/// Whether `c` is an ASCII hex digit.
pub open spec fn is_hex_char(c: char) -> bool {
    ('0' <= c <= '9') || ('a' <= c <= 'f') || ('A' <= c <= 'F')
}

/// The value of a hex digit.
pub open spec fn hex_value(c: char) -> int {
    if '0' <= c <= '9' {
        c as int - 48
    } else if 'a' <= c <= 'f' {
        c as int - 87
    } else {
        c as int - 55
    }
}

/// What `Rgb::parse` accepts: after trimming, `#` and exactly six hex digits
/// (either case).
pub open spec fn rgb_parse(s: Seq<char>) -> Option<Rgb> {
    let t = trim(s);
    if t.len() == 7 && t[0] == '#' && (forall|i: int| 1 <= i < 7 ==> is_hex_char(#[trigger] t[i])) {
        Some(
            Rgb(
                (hex_value(t[1]) * 16 + hex_value(t[2])) as u8,
                (hex_value(t[3]) * 16 + hex_value(t[4])) as u8,
                (hex_value(t[5]) * 16 + hex_value(t[6])) as u8,
            ),
        )
    } else {
        None
    }
}

fn hex_digit_exec(n: u8) -> (c: char)
    requires
        n < 16,
    ensures
        c == hex_digit(n as int),
{
    if n < 10 {
        (n + 48) as char
    } else {
        (n - 10 + 65) as char
    }
}

fn hex_value_exec(c: char) -> (v: u8)
    requires
        is_hex_char(c),
    ensures
        v == hex_value(c),
        0 <= hex_value(c) < 16,
{
    if '0' <= c && c <= '9' {
        (c as u8) - 48
    } else if 'a' <= c && c <= 'f' {
        (c as u8) - 87
    } else {
        (c as u8) - 55
    }
}

fn is_hex_char_exec(c: char) -> (b: bool)
    ensures
        b == is_hex_char(c),
{
    ('0' <= c && c <= '9') || ('a' <= c && c <= 'f') || ('A' <= c && c <= 'F')
}

/// Appends the two hex digits of `b`.
fn push_hex2(out: &mut Vec<char>, b: u8)
    ensures
        final(out)@ == old(out)@ + hex2(b),
{
    out.push(hex_digit_exec(b / 16));
    out.push(hex_digit_exec(b % 16));
    assert(out@ =~= old(out)@ + hex2(b));
}

impl Rgb {
    /// `#RRGGBB`, upper-case hex.
    pub fn hex(self) -> (s: String)
        ensures
            s@ == rgb_hex(self),
    {
        let mut v: Vec<char> = Vec::new();
        v.push('#');
        push_hex2(&mut v, self.0);
        push_hex2(&mut v, self.1);
        push_hex2(&mut v, self.2);
        assert(v@ =~= rgb_hex(self));
        string_of(&v)
    }

    /// `#RRGGBB` (surrounding whitespace ignored, hex digits in either case).
    pub fn parse(s: &str) -> (r: Option<Rgb>)
        ensures
            r == rgb_parse(s@),
    {
        let v = chars_of(s);
        let (a, b) = trim_bounds(&v, 0, v.len());
        assert(v@.subrange(0, v.len() as int) =~= v@);
        let ghost t = v@.subrange(a as int, b as int);
        if b - a != 7 || v[a] != '#' {
            return None;
        }
        assert(t[0] == v@[a as int]);
        let mut i: usize = 1;
        while i < 7
            invariant
                b - a == 7,
                a <= b <= v.len(),
                t == v@.subrange(a as int, b as int),
                t == trim(s@),
                t[0] == '#',
                1 <= i <= 7,
                forall|k: int| 1 <= k < i ==> is_hex_char(#[trigger] t[k]),
            decreases 7 - i,
        {
            if !is_hex_char_exec(v[a + i]) {
                assert(t[i as int] == v@[a + i]);
                return None;
            }
            i += 1;
        }
        let r = hex_value_exec(v[a + 1]) * 16 + hex_value_exec(v[a + 2]);
        let g = hex_value_exec(v[a + 3]) * 16 + hex_value_exec(v[a + 4]);
        let bl = hex_value_exec(v[a + 5]) * 16 + hex_value_exec(v[a + 6]);
        Some(Rgb(r, g, bl))
    }

    pub fn arr(self) -> (a: [u8; 3])
        ensures
            a@ == seq![self.0, self.1, self.2],
    {
        let a = [self.0, self.1, self.2];
        assert(a@ =~= seq![self.0, self.1, self.2]);
        a
    }

    pub fn from_arr(a: [u8; 3]) -> (c: Rgb)
        ensures
            c == Rgb(a@[0], a@[1], a@[2]),
    {
        Rgb(a[0], a[1], a[2])
    }
}

/// A colour taken apart into its three channels and put back together is
/// the same colour.
pub proof fn lemma_arr_roundtrip(c: Rgb, a: Seq<u8>)
    requires
        a == seq![c.0, c.1, c.2],
    ensures
        Rgb(a[0], a[1], a[2]) == c,
{
}

/// A colour's hex form parses back to the same colour.
pub proof fn lemma_hex_parse_roundtrip(c: Rgb)
    ensures
        rgb_parse(rgb_hex(c)) == Some(c),
{
    let s = rgb_hex(c);
    assert(s.len() == 7);
    assert(!is_ws(s[0]));
    assert(trim_start(s) == s);
    assert(!is_ws(s.last()));
    assert(trim_end(s) == s);
    assert(trim(s) == s);
    assert(forall|i: int| 1 <= i < 7 ==> is_hex_char(#[trigger] s[i]));
}

/// Profession presets (from colors.txt): canonical short name, display
/// name, colour.
pub open spec fn profession_table() -> Seq<(Seq<char>, Seq<char>, Rgb)> {
    seq![
        ("mando"@, "Commando"@, Rgb(0xC6, 0x9B, 0x6D)),
        ("officer"@, "Officer"@, Rgb(0xAB, 0xD4, 0x73)),
        ("jedi"@, "Jedi"@, Rgb(0x00, 0xB3, 0xFF)),
        ("spy"@, "Spy"@, Rgb(0xFF, 0xF5, 0x69)),
        ("bh"@, "Bounty Hunter"@, Rgb(0xC4, 0x1E, 0x3A)),
        ("medic"@, "Medic"@, Rgb(0x87, 0x87, 0xED)),
        ("smuggler"@, "Smuggler"@, Rgb(0xF4, 0x8C, 0xBA)),
        ("ent"@, "Entertainer"@, Rgb(0xFF, 0x88, 0x00)),
        ("trader"@, "Trader"@, Rgb(0x8F, 0x8F, 0x8F)),
        ("green"@, "Green (default)"@, Rgb(0x4A, 0xAB, 0x4D)),
    ]
}

/// The profession presets, in the order the picker lists them.
pub fn professions() -> (t: [(&'static str, &'static str, Rgb); 10])
    ensures
        forall|i: int|
            0 <= i < 10 ==> (t@[i].0@, t@[i].1@, t@[i].2) == #[trigger] profession_table()[i],
{
    let t = [
        ("mando", "Commando", Rgb(0xC6, 0x9B, 0x6D)),
        ("officer", "Officer", Rgb(0xAB, 0xD4, 0x73)),
        ("jedi", "Jedi", Rgb(0x00, 0xB3, 0xFF)),
        ("spy", "Spy", Rgb(0xFF, 0xF5, 0x69)),
        ("bh", "Bounty Hunter", Rgb(0xC4, 0x1E, 0x3A)),
        ("medic", "Medic", Rgb(0x87, 0x87, 0xED)),
        ("smuggler", "Smuggler", Rgb(0xF4, 0x8C, 0xBA)),
        ("ent", "Entertainer", Rgb(0xFF, 0x88, 0x00)),
        ("trader", "Trader", Rgb(0x8F, 0x8F, 0x8F)),
        ("green", "Green (default)", Rgb(0x4A, 0xAB, 0x4D)),
    ];
    t
}

/// The default (green) health colour.
pub open spec fn green() -> Rgb {
    Rgb(0x4A, 0xAB, 0x4D)
}

/// The canonical short name for an accepted spelling of a profession
/// (trimmed, case-insensitive); anything else is "green".
pub open spec fn canonical_spec(name: Seq<char>) -> Seq<char> {
    let t = lower(trim(name));
    if t == "mando"@ || t == "commando"@ {
        "mando"@
    } else if t == "officer"@ {
        "officer"@
    } else if t == "jedi"@ {
        "jedi"@
    } else if t == "spy"@ {
        "spy"@
    } else if t == "bh"@ || t == "bountyhunter"@ {
        "bh"@
    } else if t == "medic"@ {
        "medic"@
    } else if t == "smuggler"@ {
        "smuggler"@
    } else if t == "ent"@ || t == "entertainer"@ {
        "ent"@
    } else if t == "trader"@ {
        "trader"@
    } else {
        "green"@
    }
}

/// A word of lower-case ASCII letters is its own trimmed, lower-cased form.
proof fn lemma_plain_word(s: Seq<char>)
    requires
        s.len() > 0,
        forall|i: int| 0 <= i < s.len() ==> 'a' <= #[trigger] s[i] <= 'z',
    ensures
        lower(trim(s)) == s,
{
    assert('a' <= s[0] <= 'z');
    assert('a' <= s.last() <= 'z');
    assert(trim_start(s) == s);
    assert(trim_end(s) == s);
    assert(lower(s) =~= s);
}

/// A preset key is its own canonical spelling.
pub proof fn lemma_preset_key_canonical(j: int)
    requires
        0 <= j < 10,
    ensures
        canonical_spec(profession_table()[j].0) == profession_table()[j].0,
{
    reveal_strlit("mando");
    reveal_strlit("commando");
    reveal_strlit("officer");
    reveal_strlit("jedi");
    reveal_strlit("spy");
    reveal_strlit("bh");
    reveal_strlit("bountyhunter");
    reveal_strlit("medic");
    reveal_strlit("smuggler");
    reveal_strlit("ent");
    reveal_strlit("entertainer");
    reveal_strlit("trader");
    reveal_strlit("green");
    let k = profession_table()[j].0;
    lemma_plain_word(k);
}

/// Every result of `canonical_profession` is a preset key, and a preset
/// key is its own canonical spelling.
pub proof fn lemma_canonical_is_preset_key(name: Seq<char>)
    ensures
        exists|j: int| 0 <= j < 10 && #[trigger] profession_table()[j].0 == canonical_spec(name),
        canonical_spec(canonical_spec(name)) == canonical_spec(name),
{
    let c = canonical_spec(name);
    let j: int = if c == "mando"@ {
        0
    } else if c == "officer"@ {
        1
    } else if c == "jedi"@ {
        2
    } else if c == "spy"@ {
        3
    } else if c == "bh"@ {
        4
    } else if c == "medic"@ {
        5
    } else if c == "smuggler"@ {
        6
    } else if c == "ent"@ {
        7
    } else if c == "trader"@ {
        8
    } else {
        9
    };
    assert(profession_table()[j].0 == c);
    lemma_preset_key_canonical(j);
}

fn eq_lit(v: &Vec<char>, lit: &str) -> (b: bool)
    ensures
        b == (v@ == lit@),
{
    let w = chars_of(lit);
    chars_eq(v.as_slice(), w.as_slice())
}

/// Accepted spellings of each profession name.
pub fn canonical_profession(name: &str) -> (r: &'static str)
    ensures
        r@ == canonical_spec(name@),
{
    let v = chars_of(name);
    let (a, b) = trim_bounds(&v, 0, v.len());
    assert(v@.subrange(0, v.len() as int) =~= v@);
    let t = lower_range(&v, a, b);
    if eq_lit(&t, "mando") || eq_lit(&t, "commando") {
        "mando"
    } else if eq_lit(&t, "officer") {
        "officer"
    } else if eq_lit(&t, "jedi") {
        "jedi"
    } else if eq_lit(&t, "spy") {
        "spy"
    } else if eq_lit(&t, "bh") || eq_lit(&t, "bountyhunter") {
        "bh"
    } else if eq_lit(&t, "medic") {
        "medic"
    } else if eq_lit(&t, "smuggler") {
        "smuggler"
    } else if eq_lit(&t, "ent") || eq_lit(&t, "entertainer") {
        "ent"
    } else if eq_lit(&t, "trader") {
        "trader"
    } else {
        "green"
    }
}

/// The preset colour of a canonical profession key, green for any other key.
pub open spec fn profession_color(key: Seq<char>) -> Rgb {
    if key == "mando"@ {
        Rgb(0xC6, 0x9B, 0x6D)
    } else if key == "officer"@ {
        Rgb(0xAB, 0xD4, 0x73)
    } else if key == "jedi"@ {
        Rgb(0x00, 0xB3, 0xFF)
    } else if key == "spy"@ {
        Rgb(0xFF, 0xF5, 0x69)
    } else if key == "bh"@ {
        Rgb(0xC4, 0x1E, 0x3A)
    } else if key == "medic"@ {
        Rgb(0x87, 0x87, 0xED)
    } else if key == "smuggler"@ {
        Rgb(0xF4, 0x8C, 0xBA)
    } else if key == "ent"@ {
        Rgb(0xFF, 0x88, 0x00)
    } else if key == "trader"@ {
        Rgb(0x8F, 0x8F, 0x8F)
    } else {
        green()
    }
}

/// The preset colour of a profession key (green when the key is unknown).
pub fn profession_base(key: &str) -> (c: Rgb)
    ensures
        c == profession_color(key@),
{
    let t = professions();
    let mut i: usize = 0;
    while i < 10
        invariant
            i <= 10,
            forall|k: int|
                0 <= k < 10 ==> (t@[k].0@, t@[k].1@, t@[k].2) == #[trigger] profession_table()[k],
            forall|j: int| 0 <= j < i ==> key@ != (#[trigger] profession_table()[j]).0,
        decreases 10 - i,
    {
        if str_eq(key, t[i].0) {
            assert(profession_table()[i as int].0 == key@);
            return t[i].2;
        }
        i += 1;
    }
    assert(key@ != profession_table()[0].0 && key@ != profession_table()[1].0 && key@
        != profession_table()[2].0 && key@ != profession_table()[3].0 && key@
        != profession_table()[4].0 && key@ != profession_table()[5].0 && key@
        != profession_table()[6].0 && key@ != profession_table()[7].0 && key@
        != profession_table()[8].0);
    Rgb(0x4A, 0xAB, 0x4D)
}

/// `Settings::parse_loc`: "x,y" (whitespace around the whole and either
/// number ignored).
pub open spec fn parse_loc_spec(s: Seq<char>) -> Option<(i32, i32)> {
    match split_once(trim(s), ',') {
        Some((a, b)) => match parse_i32(trim(a)) {
            Some(x) => match parse_i32(trim(b)) {
                Some(y) => Some((x, y)),
                None => None,
            },
            None => None,
        },
        None => None,
    }
}

/// "x,y" written from two whole numbers as `{}` writes them reads back as
/// that point.
pub proof fn lemma_loc_text(xt: Seq<char>, x: int, yt: Seq<char>, y: int)
    requires
        (0 <= x <= i32::MAX && xt == dec(x as nat)) || (-0x8000_0000 <= x < 0 && xt == seq!['-'] + dec(
            (-x) as nat,
        )),
        (0 <= y <= i32::MAX && yt == dec(y as nat)) || (-0x8000_0000 <= y < 0 && yt == seq!['-'] + dec(
            (-y) as nat,
        )),
    ensures
        parse_loc_spec(xt + ","@ + yt) == Some((x as i32, y as i32)),
{
    lemma_int_text(xt, x);
    lemma_int_text(yt, y);
    let t = xt + ","@ + yt;
    assert(t[0] == xt[0]);
    assert(t.last() == yt.last());
    assert(trim_start(t) == t);
    assert(trim_end(t) == t);
    lemma_split_comma(xt, yt);
}

/// The user settings the installer and the preview read (the float-valued
/// ones are kept by the application).
#[derive(Clone, Debug)]
pub struct Settings {
    pub game_dir: String,
    /// "" = green default; otherwise a key from the profession presets
    pub profession: String,
    /// "" = use the profession colour; otherwise a #RRGGBB override
    pub health_color: String,
    pub target_health_color: String,
    pub power_color: String,
    pub buff_icon_size: u32,
    pub buff_columns: u32,
    pub buff_rows: u32,
    pub debuff_columns: u32,
    pub debuff_rows: u32,
    pub buff_location: String,
    /// "" = directly under the buff window
    pub debuff_location: String,
    pub role_colors: bool,
    pub inline_buffs: bool,
    /// preview only: the display the mockup shows, "WxH"
    pub preview_resolution: String,
    /// preview only: the client's buff icon sliders for the pet and group windows
    pub pet_icon_size: u32,
    pub group_icon_size: u32,
}

/// The settings `Settings::default` gives.
pub open spec fn is_default_settings(s: Settings) -> bool {
    &&& s.game_dir@ == "C:\\SWG Legends"@
    &&& s.profession@ == Seq::<char>::empty()
    &&& s.health_color@ == Seq::<char>::empty()
    &&& s.target_health_color@ == "#C74040"@
    &&& s.power_color@ == "#FFD200"@
    &&& s.buff_icon_size == 22
    &&& s.buff_columns == 12
    &&& s.buff_rows == 2
    &&& s.debuff_columns == 12
    &&& s.debuff_rows == 1
    &&& s.buff_location@ == "10,10"@
    &&& s.debuff_location@ == "567,760"@
    &&& s.role_colors
    &&& !s.inline_buffs
    &&& s.preview_resolution@ == "1920x1080"@
    &&& s.pet_icon_size == 16
    &&& s.group_icon_size == 16
}

impl Default for Settings {
    fn default() -> (s: Settings)
        ensures
            is_default_settings(s),
    {
        Settings {
            game_dir: String::from_str("C:\\SWG Legends"),
            profession: String::new(),
            health_color: String::new(),
            target_health_color: String::from_str("#C74040"),
            power_color: String::from_str("#FFD200"),
            buff_icon_size: 22,
            buff_columns: 12,
            buff_rows: 2,
            debuff_columns: 12,
            debuff_rows: 1,
            buff_location: String::from_str("10,10"),
            debuff_location: String::from_str("567,760"),
            role_colors: true,
            inline_buffs: false,
            preview_resolution: String::from_str("1920x1080"),
            pet_icon_size: 16,
            group_icon_size: 16,
        }
    }
}

/// `"<what> must be #RRGGBB, got '<value>'"`.
pub open spec fn colour_error(what: Seq<char>, value: Seq<char>) -> Seq<char> {
    what + " must be #RRGGBB, got '"@ + value + "'"@
}

/// `"location must be 'x,y', got '<value>'"`.
pub open spec fn location_error(value: Seq<char>) -> Seq<char> {
    "location must be 'x,y', got '"@ + value + "'"@
}

fn colour_error_exec(what: &str, value: &String) -> (e: String)
    ensures
        e@ == colour_error(what@, value@),
{
    let mut e = String::from_str(what);
    e.append(" must be #RRGGBB, got '");
    e.append(value.as_str());
    e.append("'");
    e
}

pub fn location_error_exec(value: &String) -> (e: String)
    ensures
        e@ == location_error(value@),
{
    let mut e = String::from_str("location must be 'x,y', got '");
    e.append(value.as_str());
    e.append("'");
    e
}

/// A `#RRGGBB` setting, or the error naming it.
pub open spec fn colour_setting(what: Seq<char>, value: Seq<char>) -> Result<Rgb, Seq<char>> {
    match rgb_parse(value) {
        Some(c) => Ok(c),
        None => Err(colour_error(what, value)),
    }
}

pub fn colour_setting_exec(what: &str, value: &String) -> (r: Result<Rgb, String>)
    ensures
        match r {
            Ok(c) => colour_setting(what@, value@) == Ok::<Rgb, Seq<char>>(c),
            Err(e) => colour_setting(what@, value@) == Err::<Rgb, Seq<char>>(e@),
        },
{
    match Rgb::parse(value.as_str()) {
        Some(c) => Ok(c),
        None => Err(colour_error_exec(what, value)),
    }
}

/// Where the debuff window goes when its location is left empty: the buff
/// window's x, and its y plus the buff grid's height plus 6.  `false` where
/// that arithmetic overflows.
pub open spec fn debuff_below_fits(s: Settings) -> bool {
    trim(s.debuff_location@).len() == 0 && parse_loc_spec(s.buff_location@) is Some ==> {
        let by = parse_loc_spec(s.buff_location@).unwrap().1;
        let grid = s.buff_rows * s.buff_icon_size;
        &&& grid <= u32::MAX
        &&& i32::MIN <= by + ((grid as u32) as i32) <= i32::MAX
        &&& by + ((grid as u32) as i32) + 6 <= i32::MAX
    }
}

/// `Settings::debuff_loc`.
pub open spec fn debuff_loc_spec(s: Settings) -> Result<(i32, i32), Seq<char>> {
    if trim(s.debuff_location@).len() == 0 {
        match parse_loc_spec(s.buff_location@) {
            Some((bx, by)) => Ok(
                (bx, (by + (((s.buff_rows * s.buff_icon_size) as u32) as i32) + 6) as i32),
            ),
            None => Err(location_error(s.buff_location@)),
        }
    } else {
        match parse_loc_spec(s.debuff_location@) {
            Some(p) => Ok(p),
            None => Err(location_error(s.debuff_location@)),
        }
    }
}

fn parse_loc_chars(v: &Vec<char>) -> (r: Option<(i32, i32)>)
    ensures
        r == parse_loc_spec(v@),
{
    let (a, b) = trim_bounds(v.as_slice(), 0, v.len());
    assert(v@.subrange(0, v.len() as int) =~= v@);
    let ghost t = v@.subrange(a as int, b as int);
    match find_char_in(v.as_slice(), a, b, ',') {
        None => None,
        Some(c) => {
            assert(t.take(c - a) =~= v@.subrange(a as int, c as int));
            assert(t.skip(c - a + 1) =~= v@.subrange(c + 1, b as int));
            let (a1, a2) = trim_bounds(v.as_slice(), a, c);
            let x = match parse_i32_range(v.as_slice(), a1, a2) {
                Some(x) => x,
                None => {
                    return None;
                },
            };
            let (b1, b2) = trim_bounds(v.as_slice(), c + 1, b);
            let y = match parse_i32_range(v.as_slice(), b1, b2) {
                Some(y) => y,
                None => {
                    return None;
                },
            };
            Some((x, y))
        },
    }
}

fn is_blank(v: &String) -> (b: bool)
    ensures
        b == (trim(v@).len() == 0),
{
    let c = chars_of(v.as_str());
    let (a, b) = trim_bounds(c.as_slice(), 0, c.len());
    assert(c@.subrange(0, c.len() as int) =~= c@);
    a == b
}

impl Settings {
    /// "x,y" as two integers.
    pub fn parse_loc(s: &str) -> (r: Option<(i32, i32)>)
        ensures
            r == parse_loc_spec(s@),
    {
        let v = chars_of(s);
        parse_loc_chars(&v)
    }

    /// Profession key actually in effect ("green" when unset).
    pub fn profession_key(&self) -> (k: &'static str)
        ensures
            k@ == (if self.profession@.len() == 0 {
                "green"@
            } else {
                canonical_spec(self.profession@)
            }),
    {
        if self.profession.as_str().is_empty() {
            "green"
        } else {
            canonical_profession(self.profession.as_str())
        }
    }

    /// The static player health colour: the override when one is set, else
    /// `class_color`, the palette colour of `profession_key()` after the
    /// class-colour multiplier (which the caller applies).
    pub fn health(&self, class_color: Rgb) -> (r: Result<Rgb, String>)
        ensures
            match r {
                Ok(c) => if self.health_color@.len() == 0 {
                    c == class_color
                } else {
                    rgb_parse(self.health_color@) == Some(c)
                },
                Err(e) => self.health_color@.len() != 0 && rgb_parse(self.health_color@) is None
                    && e@ == colour_error("HealthColor"@, self.health_color@),
            },
    {
        if self.health_color.as_str().is_empty() {
            Ok(class_color)
        } else {
            colour_setting_exec("HealthColor", &self.health_color)
        }
    }

    pub fn target_health(&self) -> (r: Result<Rgb, String>)
        ensures
            match r {
                Ok(c) => rgb_parse(self.target_health_color@) == Some(c),
                Err(e) => rgb_parse(self.target_health_color@) is None && e@ == colour_error(
                    "TargetHealthColor"@,
                    self.target_health_color@,
                ),
            },
    {
        colour_setting_exec("TargetHealthColor", &self.target_health_color)
    }

    pub fn power(&self) -> (r: Result<Rgb, String>)
        ensures
            match r {
                Ok(c) => rgb_parse(self.power_color@) == Some(c),
                Err(e) => rgb_parse(self.power_color@) is None && e@ == colour_error(
                    "PowerColor"@,
                    self.power_color@,
                ),
            },
    {
        colour_setting_exec("PowerColor", &self.power_color)
    }

    /// Debuff window location, defaulting to just under the buff window.
    pub fn debuff_loc(&self) -> (r: Result<(i32, i32), String>)
        requires
            debuff_below_fits(*self),
        ensures
            match r {
                Ok(p) => debuff_loc_spec(*self) == Ok::<(i32, i32), Seq<char>>(p),
                Err(e) => debuff_loc_spec(*self) == Err::<(i32, i32), Seq<char>>(e@),
            },
    {
        if is_blank(&self.debuff_location) {
            let v = chars_of(self.buff_location.as_str());
            match parse_loc_chars(&v) {
                Some((bx, by)) => {
                    let grid = self.buff_rows * self.buff_icon_size;
                    Ok((bx, by + grid as i32 + 6))
                },
                None => Err(location_error_exec(&self.buff_location)),
            }
        } else {
            let v = chars_of(self.debuff_location.as_str());
            match parse_loc_chars(&v) {
                Some(p) => Ok(p),
                None => Err(location_error_exec(&self.debuff_location)),
            }
        }
    }
}


/// What the health colour setting gives: the class colour when unset.
pub open spec fn health_spec(s: Settings, class_color: Rgb) -> Result<Rgb, Seq<char>> {
    if s.health_color@.len() == 0 {
        Ok(class_color)
    } else {
        colour_setting("HealthColor"@, s.health_color@)
    }
}

/// The colours and window locations a render is made from.
#[derive(Clone, Copy, Debug)]
pub struct RenderColours {
    pub health: Rgb,
    pub target: Rgb,
    pub power: Rgb,
    pub buffs: (i32, i32),
    pub debuffs: (i32, i32),
    pub ab_backdrop: Rgb,
    pub ab_key: Rgb,
}

/// The checks a render makes of the settings before it writes anything, in
/// its order: the health, target health and power colours, the buff and
/// debuff window locations, then the action bar backdrop and key colours;
/// the first that fails gives the error.
pub open spec fn render_colours_spec(
    s: Settings,
    class_color: Rgb,
    ab_backdrop: Seq<char>,
    ab_key: Seq<char>,
) -> Result<RenderColours, Seq<char>> {
    match (health_spec(s, class_color), colour_setting("TargetHealthColor"@, s.target_health_color@)) {
        (Err(e), _) => Err(e),
        (Ok(_), Err(e)) => Err(e),
        (Ok(health), Ok(target)) => match colour_setting("PowerColor"@, s.power_color@) {
            Err(e) => Err(e),
            Ok(power) => match parse_loc_spec(s.buff_location@) {
                None => Err(location_error(s.buff_location@)),
                Some(buffs) => match debuff_loc_spec(s) {
                    Err(e) => Err(e),
                    Ok(debuffs) => match colour_setting("ActionBarBackdropColor"@, ab_backdrop) {
                        Err(e) => Err(e),
                        Ok(ab_backdrop) => match colour_setting("ActionBarKeyColor"@, ab_key) {
                            Err(e) => Err(e),
                            Ok(ab_key) => Ok(
                                RenderColours { health, target, power, buffs, debuffs, ab_backdrop, ab_key },
                            ),
                        },
                    },
                },
            },
        },
    }
}

/// Checks the settings as a render does, in its order (see
/// `render_colours_spec`), with the action bar backdrop and key colours
/// given as text.  The debuff window's default spot is computed only once
/// the colours are good, so only then must it fit.
pub fn render_colours(s: &Settings, class_color: Rgb, ab_backdrop: &String, ab_key: &String) -> (r: Result<
    RenderColours,
    String,
>)
    requires
        health_spec(*s, class_color) is Ok && colour_setting("TargetHealthColor"@, s.target_health_color@) is Ok
            && colour_setting("PowerColor"@, s.power_color@) is Ok ==> debuff_below_fits(*s),
    ensures
        match r {
            Ok(c) => render_colours_spec(*s, class_color, ab_backdrop@, ab_key@) == Ok::<
                RenderColours,
                Seq<char>,
            >(c),
            Err(e) => render_colours_spec(*s, class_color, ab_backdrop@, ab_key@) == Err::<
                RenderColours,
                Seq<char>,
            >(e@),
        },
{
    let health = s.health(class_color)?;
    let target = s.target_health()?;
    let power = s.power()?;
    let buffs = match Settings::parse_loc(s.buff_location.as_str()) {
        None => return Err(location_error_exec(&s.buff_location)),
        Some(b) => b,
    };
    let debuffs = s.debuff_loc()?;
    let ab_backdrop = colour_setting_exec("ActionBarBackdropColor", ab_backdrop)?;
    let ab_key = colour_setting_exec("ActionBarKeyColor", ab_key)?;
    Ok(RenderColours { health, target, power, buffs, debuffs, ab_backdrop, ab_key })
}

} // verus!
