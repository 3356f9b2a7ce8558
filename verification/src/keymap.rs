//! A character's input map (`profiles/<user>/<cluster>/<id>.inp`, an IFF
//! `IMAP`/`0006` form): the keys bound to toolbar slots, so the pages can
//! carry labels for the slots the client does not label itself (the double
//! toolbar's top row, slots 12-23, and the pet bar).
//!
//! `SHFT`/`KEY ` records map modifier scancodes to bits (Alt 1, Ctrl 2,
//! Shift 4); each `MAP ` form's `INFO` chunk starts with the modifier state its
//! bindings need; `KEYS`/`DATA` records are `scancode, 0, 0, 0, "CMD_...\0"`,
//! `MOSB`/`DATA` records `button u32 LE, "CMD_...\0"`.

use vstd::prelude::*;
use vstd::string::StringExecFns;
use vstd::utf8::{decode_utf8, valid_utf8};
use crate::iff::{be32, chunk_bounds, form_tag, is_tag, le32, min, read_be32, read_le32, span, tag_eq};
use crate::text::{
    all_digits, chars_eq, chars_of, copy_range, dec, dec_pad, find_char, find_char_in, is_digit, lower,
    lower_range, push_dec, push_dec_pad, push_signed_pad, signed_pad, split_once, str_eq,
    string_of, trim, trim_bounds, append_chars, seq_lt, str_lt, lemma_seq_lt_total, lemma_seq_lt_trans,
};

verus! {

/// What `String::from_utf8_lossy` makes of some bytes.
pub uninterp spec fn utf8_lossy(b: Seq<u8>) -> Seq<char>;

/// `String::from_utf8_lossy`: the bytes decoded as UTF-8, invalid sequences
/// replaced by U+FFFD.  The contract states the result for valid UTF-8 and
/// names it otherwise.
#[verifier::external_body]
pub(crate) fn string_from_utf8_lossy(b: &[u8]) -> (s: String)
    ensures
        s@ == utf8_lossy(b@),
        valid_utf8(b@) ==> s@ == decode_utf8(b@),
{
    String::from_utf8_lossy(b).into_owned()
}

pub open spec fn map_tag() -> Seq<u8> {
    seq![77u8, 65u8, 80u8, 32u8]
}

pub open spec fn cmds_tag() -> Seq<u8> {
    seq![67u8, 77u8, 68u8, 83u8]
}

pub open spec fn shft_tag() -> Seq<u8> {
    seq![83u8, 72u8, 70u8, 84u8]
}

pub open spec fn info_tag() -> Seq<u8> {
    seq![73u8, 78u8, 70u8, 79u8]
}

pub open spec fn keys_tag() -> Seq<u8> {
    seq![75u8, 69u8, 89u8, 83u8]
}

pub open spec fn mosb_tag() -> Seq<u8> {
    seq![77u8, 79u8, 83u8, 66u8]
}

pub open spec fn data_tag() -> Seq<u8> {
    seq![68u8, 65u8, 84u8, 65u8]
}

pub open spec fn imap_tag() -> Seq<u8> {
    seq![73u8, 77u8, 65u8, 80u8]
}

/// `u8::count_ones`.
pub open spec fn popcount(x: nat) -> nat
    decreases x,
{
    if x == 0 {
        0
    } else {
        (x % 2) + popcount(x / 2)
    }
}

proof fn lemma_popcount_bound(x: nat, k: nat)
    requires
        x < pow2(k),
    ensures
        popcount(x) <= k,
    decreases k,
{
    if k > 0 && x > 0 {
        lemma_popcount_bound(x / 2, (k - 1) as nat);
    }
}

pub open spec fn pow2(k: nat) -> nat
    decreases k,
{
    if k == 0 {
        1
    } else {
        2 * pow2((k - 1) as nat)
    }
}

fn count_ones(x: u8) -> (n: u8)
    ensures
        n == popcount(x as nat),
        n <= 8,
{
    proof {
        reveal_with_fuel(pow2, 9);
        assert(pow2(8) == 256);
        lemma_popcount_bound(x as nat, 8);
    }
    let mut y = x;
    let mut n: u8 = 0;
    while y > 0
        invariant
            n + popcount(y as nat) == popcount(x as nat),
            popcount(x as nat) <= 8,
        decreases y,
    {
        n = n + y % 2;
        y = y / 2;
    }
    n
}

/// The modifier prefix of a map's state: `C` (Ctrl 2), `S` (Shift 4), `A` (Alt 1).
pub open spec fn mod_prefix_spec(state: u8) -> Seq<char> {
    (if state & 2 != 0 {
        seq!['C']
    } else {
        Seq::empty()
    }) + (if state & 4 != 0 {
        seq!['S']
    } else {
        Seq::empty()
    }) + (if state & 1 != 0 {
        seq!['A']
    } else {
        Seq::empty()
    })
}

fn mod_prefix(state: u8) -> (s: Vec<char>)
    ensures
        s@ == mod_prefix_spec(state),
{
    let mut s: Vec<char> = Vec::new();
    if state & 2 != 0 {
        s.push('C');
    }
    if state & 4 != 0 {
        s.push('S');
    }
    if state & 1 != 0 {
        s.push('A');
    }
    assert(s@ =~= mod_prefix_spec(state));
    s
}

/// Short label for a DirectInput scancode.
pub open spec fn key_name_spec(sc: u8) -> Option<Seq<char>> {
    if 0x02 <= sc <= 0x0A {
        Some(seq![((sc - 2 + 49) as u32) as char])
    } else {
        match sc {
            0x0B => Some("0"@),
            0x0C => Some("-"@),
            0x0D => Some("="@),
            0x0E => Some("BS"@),
            0x0F => Some("Tab"@),
            0x10 => Some("Q"@),
            0x11 => Some("W"@),
            0x12 => Some("E"@),
            0x13 => Some("R"@),
            0x14 => Some("T"@),
            0x15 => Some("Y"@),
            0x16 => Some("U"@),
            0x17 => Some("I"@),
            0x18 => Some("O"@),
            0x19 => Some("P"@),
            0x1A => Some("["@),
            0x1B => Some("]"@),
            0x1C => Some("Ent"@),
            0x1E => Some("A"@),
            0x1F => Some("S"@),
            0x20 => Some("D"@),
            0x21 => Some("F"@),
            0x22 => Some("G"@),
            0x23 => Some("H"@),
            0x24 => Some("J"@),
            0x25 => Some("K"@),
            0x26 => Some("L"@),
            0x27 => Some(";"@),
            0x28 => Some("Ap"@),
            0x29 => Some("`"@),
            0x2B => Some("\\"@),
            0x2C => Some("Z"@),
            0x2D => Some("X"@),
            0x2E => Some("C"@),
            0x2F => Some("V"@),
            0x30 => Some("B"@),
            0x31 => Some("N"@),
            0x32 => Some("M"@),
            0x33 => Some(","@),
            0x34 => Some("."@),
            0x35 => Some("/"@),
            0x37 => Some("N*"@),
            0x39 => Some("Spc"@),
            0x3A => Some("Caps"@),
            0x3B => Some("F1"@),
            0x3C => Some("F2"@),
            0x3D => Some("F3"@),
            0x3E => Some("F4"@),
            0x3F => Some("F5"@),
            0x40 => Some("F6"@),
            0x41 => Some("F7"@),
            0x42 => Some("F8"@),
            0x43 => Some("F9"@),
            0x44 => Some("F10"@),
            0x57 => Some("F11"@),
            0x58 => Some("F12"@),
            0x47 => Some("N7"@),
            0x48 => Some("N8"@),
            0x49 => Some("N9"@),
            0x4A => Some("N-"@),
            0x4B => Some("N4"@),
            0x4C => Some("N5"@),
            0x4D => Some("N6"@),
            0x4E => Some("N+"@),
            0x4F => Some("N1"@),
            0x50 => Some("N2"@),
            0x51 => Some("N3"@),
            0x52 => Some("N0"@),
            0x53 => Some("N."@),
            0x9C => Some("NEnt"@),
            0xB5 => Some("N/"@),
            0xC7 => Some("Home"@),
            0xC8 => Some("Up"@),
            0xC9 => Some("PgUp"@),
            0xCB => Some("Left"@),
            0xCD => Some("Right"@),
            0xCF => Some("End"@),
            0xD0 => Some("Down"@),
            0xD1 => Some("PgDn"@),
            0xD2 => Some("Ins"@),
            0xD3 => Some("Del"@),
            _ => None,
        }
    }
}

/// The scancode a label stands for: a label is told apart from every
/// other by its length, first and last character.
spec fn key_code(l: Seq<char>) -> Option<u8> {
    let n = l.len();
    let f = l[0];
    let z = l[l.len() - 1];
    if n == 0 {
        None
    } else if n == 1 && '1' <= f <= '9' {
        Some((f as int - 49 + 2) as u8)
    } else if n == 1 && f == '0' && z == '0' {
        Some(0x0Bu8)
    } else if n == 1 && f == '-' && z == '-' {
        Some(0x0Cu8)
    } else if n == 1 && f == '=' && z == '=' {
        Some(0x0Du8)
    } else if n == 2 && f == 'B' && z == 'S' {
        Some(0x0Eu8)
    } else if n == 3 && f == 'T' && z == 'b' {
        Some(0x0Fu8)
    } else if n == 1 && f == 'Q' && z == 'Q' {
        Some(0x10u8)
    } else if n == 1 && f == 'W' && z == 'W' {
        Some(0x11u8)
    } else if n == 1 && f == 'E' && z == 'E' {
        Some(0x12u8)
    } else if n == 1 && f == 'R' && z == 'R' {
        Some(0x13u8)
    } else if n == 1 && f == 'T' && z == 'T' {
        Some(0x14u8)
    } else if n == 1 && f == 'Y' && z == 'Y' {
        Some(0x15u8)
    } else if n == 1 && f == 'U' && z == 'U' {
        Some(0x16u8)
    } else if n == 1 && f == 'I' && z == 'I' {
        Some(0x17u8)
    } else if n == 1 && f == 'O' && z == 'O' {
        Some(0x18u8)
    } else if n == 1 && f == 'P' && z == 'P' {
        Some(0x19u8)
    } else if n == 1 && f == '[' && z == '[' {
        Some(0x1Au8)
    } else if n == 1 && f == ']' && z == ']' {
        Some(0x1Bu8)
    } else if n == 3 && f == 'E' && z == 't' {
        Some(0x1Cu8)
    } else if n == 1 && f == 'A' && z == 'A' {
        Some(0x1Eu8)
    } else if n == 1 && f == 'S' && z == 'S' {
        Some(0x1Fu8)
    } else if n == 1 && f == 'D' && z == 'D' {
        Some(0x20u8)
    } else if n == 1 && f == 'F' && z == 'F' {
        Some(0x21u8)
    } else if n == 1 && f == 'G' && z == 'G' {
        Some(0x22u8)
    } else if n == 1 && f == 'H' && z == 'H' {
        Some(0x23u8)
    } else if n == 1 && f == 'J' && z == 'J' {
        Some(0x24u8)
    } else if n == 1 && f == 'K' && z == 'K' {
        Some(0x25u8)
    } else if n == 1 && f == 'L' && z == 'L' {
        Some(0x26u8)
    } else if n == 1 && f == ';' && z == ';' {
        Some(0x27u8)
    } else if n == 2 && f == 'A' && z == 'p' {
        Some(0x28u8)
    } else if n == 1 && f == '`' && z == '`' {
        Some(0x29u8)
    } else if n == 1 && f == '\\' && z == '\\' {
        Some(0x2Bu8)
    } else if n == 1 && f == 'Z' && z == 'Z' {
        Some(0x2Cu8)
    } else if n == 1 && f == 'X' && z == 'X' {
        Some(0x2Du8)
    } else if n == 1 && f == 'C' && z == 'C' {
        Some(0x2Eu8)
    } else if n == 1 && f == 'V' && z == 'V' {
        Some(0x2Fu8)
    } else if n == 1 && f == 'B' && z == 'B' {
        Some(0x30u8)
    } else if n == 1 && f == 'N' && z == 'N' {
        Some(0x31u8)
    } else if n == 1 && f == 'M' && z == 'M' {
        Some(0x32u8)
    } else if n == 1 && f == ',' && z == ',' {
        Some(0x33u8)
    } else if n == 1 && f == '.' && z == '.' {
        Some(0x34u8)
    } else if n == 1 && f == '/' && z == '/' {
        Some(0x35u8)
    } else if n == 2 && f == 'N' && z == '*' {
        Some(0x37u8)
    } else if n == 3 && f == 'S' && z == 'c' {
        Some(0x39u8)
    } else if n == 4 && f == 'C' && z == 's' {
        Some(0x3Au8)
    } else if n == 2 && f == 'F' && z == '1' {
        Some(0x3Bu8)
    } else if n == 2 && f == 'F' && z == '2' {
        Some(0x3Cu8)
    } else if n == 2 && f == 'F' && z == '3' {
        Some(0x3Du8)
    } else if n == 2 && f == 'F' && z == '4' {
        Some(0x3Eu8)
    } else if n == 2 && f == 'F' && z == '5' {
        Some(0x3Fu8)
    } else if n == 2 && f == 'F' && z == '6' {
        Some(0x40u8)
    } else if n == 2 && f == 'F' && z == '7' {
        Some(0x41u8)
    } else if n == 2 && f == 'F' && z == '8' {
        Some(0x42u8)
    } else if n == 2 && f == 'F' && z == '9' {
        Some(0x43u8)
    } else if n == 3 && f == 'F' && z == '0' {
        Some(0x44u8)
    } else if n == 3 && f == 'F' && z == '1' {
        Some(0x57u8)
    } else if n == 3 && f == 'F' && z == '2' {
        Some(0x58u8)
    } else if n == 2 && f == 'N' && z == '7' {
        Some(0x47u8)
    } else if n == 2 && f == 'N' && z == '8' {
        Some(0x48u8)
    } else if n == 2 && f == 'N' && z == '9' {
        Some(0x49u8)
    } else if n == 2 && f == 'N' && z == '-' {
        Some(0x4Au8)
    } else if n == 2 && f == 'N' && z == '4' {
        Some(0x4Bu8)
    } else if n == 2 && f == 'N' && z == '5' {
        Some(0x4Cu8)
    } else if n == 2 && f == 'N' && z == '6' {
        Some(0x4Du8)
    } else if n == 2 && f == 'N' && z == '+' {
        Some(0x4Eu8)
    } else if n == 2 && f == 'N' && z == '1' {
        Some(0x4Fu8)
    } else if n == 2 && f == 'N' && z == '2' {
        Some(0x50u8)
    } else if n == 2 && f == 'N' && z == '3' {
        Some(0x51u8)
    } else if n == 2 && f == 'N' && z == '0' {
        Some(0x52u8)
    } else if n == 2 && f == 'N' && z == '.' {
        Some(0x53u8)
    } else if n == 4 && f == 'N' && z == 't' {
        Some(0x9Cu8)
    } else if n == 2 && f == 'N' && z == '/' {
        Some(0xB5u8)
    } else if n == 4 && f == 'H' && z == 'e' {
        Some(0xC7u8)
    } else if n == 2 && f == 'U' && z == 'p' {
        Some(0xC8u8)
    } else if n == 4 && f == 'P' && z == 'p' {
        Some(0xC9u8)
    } else if n == 4 && f == 'L' && z == 't' {
        Some(0xCBu8)
    } else if n == 5 && f == 'R' && z == 't' {
        Some(0xCDu8)
    } else if n == 3 && f == 'E' && z == 'd' {
        Some(0xCFu8)
    } else if n == 4 && f == 'D' && z == 'n' {
        Some(0xD0u8)
    } else if n == 4 && f == 'P' && z == 'n' {
        Some(0xD1u8)
    } else if n == 3 && f == 'I' && z == 's' {
        Some(0xD2u8)
    } else if n == 3 && f == 'D' && z == 'l' {
        Some(0xD3u8)
    } else {
        None
    }
}

/// `key_code` undoes `key_name_spec`.
proof fn lemma_key_code(sc: u8)
    ensures
        key_name_spec(sc) matches Some(l) ==> key_code(l) == Some(sc),
{
    reveal_strlit("0");
    reveal_strlit("-");
    reveal_strlit("=");
    reveal_strlit("BS");
    reveal_strlit("Tab");
    reveal_strlit("Q");
    reveal_strlit("W");
    reveal_strlit("E");
    reveal_strlit("R");
    reveal_strlit("T");
    reveal_strlit("Y");
    reveal_strlit("U");
    reveal_strlit("I");
    reveal_strlit("O");
    reveal_strlit("P");
    reveal_strlit("[");
    reveal_strlit("]");
    reveal_strlit("Ent");
    reveal_strlit("A");
    reveal_strlit("S");
    reveal_strlit("D");
    reveal_strlit("F");
    reveal_strlit("G");
    reveal_strlit("H");
    reveal_strlit("J");
    reveal_strlit("K");
    reveal_strlit("L");
    reveal_strlit(";");
    reveal_strlit("Ap");
    reveal_strlit("`");
    reveal_strlit("\\");
    reveal_strlit("Z");
    reveal_strlit("X");
    reveal_strlit("C");
    reveal_strlit("V");
    reveal_strlit("B");
    reveal_strlit("N");
    reveal_strlit("M");
    reveal_strlit(",");
    reveal_strlit(".");
    reveal_strlit("/");
    reveal_strlit("N*");
    reveal_strlit("Spc");
    reveal_strlit("Caps");
    reveal_strlit("F1");
    reveal_strlit("F2");
    reveal_strlit("F3");
    reveal_strlit("F4");
    reveal_strlit("F5");
    reveal_strlit("F6");
    reveal_strlit("F7");
    reveal_strlit("F8");
    reveal_strlit("F9");
    reveal_strlit("F10");
    reveal_strlit("F11");
    reveal_strlit("F12");
    reveal_strlit("N7");
    reveal_strlit("N8");
    reveal_strlit("N9");
    reveal_strlit("N-");
    reveal_strlit("N4");
    reveal_strlit("N5");
    reveal_strlit("N6");
    reveal_strlit("N+");
    reveal_strlit("N1");
    reveal_strlit("N2");
    reveal_strlit("N3");
    reveal_strlit("N0");
    reveal_strlit("N.");
    reveal_strlit("NEnt");
    reveal_strlit("N/");
    reveal_strlit("Home");
    reveal_strlit("Up");
    reveal_strlit("PgUp");
    reveal_strlit("Left");
    reveal_strlit("Right");
    reveal_strlit("End");
    reveal_strlit("Down");
    reveal_strlit("PgDn");
    reveal_strlit("Ins");
    reveal_strlit("Del");
    if 0x02 <= sc <= 0x0A {
        let c = ((sc - 2 + 49) as u32) as char;
        assert(c as int == sc - 2 + 49) by {
            vstd::utf8::char_u32_cast(c, (sc - 2 + 49) as u32);
        }
    }
}

/// Distinct scancodes get distinct key labels.
pub proof fn lemma_key_name_distinct(a: u8, b: u8)
    requires
        key_name_spec(a) is Some,
        key_name_spec(a) == key_name_spec(b),
    ensures
        a == b,
{
    lemma_key_code(a);
    lemma_key_code(b);
}

fn lit(s: &str) -> (r: Option<String>)
    ensures
        r is Some,
        r.unwrap()@ == s@,
{
    Some(String::from_str(s))
}

/// Short label for a DirectInput scancode.
pub fn key_name(sc: u8) -> (r: Option<String>)
    ensures
        match r {
            Some(s) => key_name_spec(sc) == Some(s@),
            None => key_name_spec(sc) is None,
        },
{
    if 0x02 <= sc && sc <= 0x0A {
        let c = (sc - 2 + 49) as char;
        let v = vec![c];
        let s = string_of(v.as_slice());
        assert(s@ =~= seq![((sc - 2 + 49) as u32) as char]);
        return Some(s);
    }
    let r = match sc {
        0x0B => lit("0"),
        0x0C => lit("-"),
        0x0D => lit("="),
        0x0E => lit("BS"),
        0x0F => lit("Tab"),
        0x10 => lit("Q"),
        0x11 => lit("W"),
        0x12 => lit("E"),
        0x13 => lit("R"),
        0x14 => lit("T"),
        0x15 => lit("Y"),
        0x16 => lit("U"),
        0x17 => lit("I"),
        0x18 => lit("O"),
        0x19 => lit("P"),
        0x1A => lit("["),
        0x1B => lit("]"),
        0x1C => lit("Ent"),
        0x1E => lit("A"),
        0x1F => lit("S"),
        0x20 => lit("D"),
        0x21 => lit("F"),
        0x22 => lit("G"),
        0x23 => lit("H"),
        0x24 => lit("J"),
        0x25 => lit("K"),
        0x26 => lit("L"),
        0x27 => lit(";"),
        0x28 => lit("Ap"),
        0x29 => lit("`"),
        0x2B => lit("\\"),
        0x2C => lit("Z"),
        0x2D => lit("X"),
        0x2E => lit("C"),
        0x2F => lit("V"),
        0x30 => lit("B"),
        0x31 => lit("N"),
        0x32 => lit("M"),
        0x33 => lit(","),
        0x34 => lit("."),
        0x35 => lit("/"),
        0x37 => lit("N*"),
        0x39 => lit("Spc"),
        0x3A => lit("Caps"),
        0x3B => lit("F1"),
        0x3C => lit("F2"),
        0x3D => lit("F3"),
        0x3E => lit("F4"),
        0x3F => lit("F5"),
        0x40 => lit("F6"),
        0x41 => lit("F7"),
        0x42 => lit("F8"),
        0x43 => lit("F9"),
        0x44 => lit("F10"),
        0x57 => lit("F11"),
        0x58 => lit("F12"),
        0x47 => lit("N7"),
        0x48 => lit("N8"),
        0x49 => lit("N9"),
        0x4A => lit("N-"),
        0x4B => lit("N4"),
        0x4C => lit("N5"),
        0x4D => lit("N6"),
        0x4E => lit("N+"),
        0x4F => lit("N1"),
        0x50 => lit("N2"),
        0x51 => lit("N3"),
        0x52 => lit("N0"),
        0x53 => lit("N."),
        0x9C => lit("NEnt"),
        0xB5 => lit("N/"),
        0xC7 => lit("Home"),
        0xC8 => lit("Up"),
        0xC9 => lit("PgUp"),
        0xCB => lit("Left"),
        0xCD => lit("Right"),
        0xCF => lit("End"),
        0xD0 => lit("Down"),
        0xD1 => lit("PgDn"),
        0xD2 => lit("Ins"),
        0xD3 => lit("Del"),
        _ => None,
    };
    r
}

/// One binding found in the map: command bytes, rank, label.
pub type Add = (Seq<u8>, u8, Seq<char>);

/// The abstract keymap: command -> labels with their ranks, in the order
/// the commands were first seen.
pub type KmView = Seq<(Seq<char>, Seq<(u8, Seq<char>)>)>;

/// Bytes up to the first NUL.
pub open spec fn until_nul(s: Seq<u8>) -> Seq<u8>
    decreases s.len(),
{
    if s.len() == 0 {
        s
    } else if s[0] == 0 {
        Seq::empty()
    } else {
        seq![s[0]] + until_nul(s.drop_first())
    }
}

/// The binding a `DATA` record yields; `true` when the reader would
/// overflow computing the mouse button number.
pub open spec fn record_adds(rec: Seq<u8>, mouse: bool, st: u8) -> (Seq<Add>, bool) {
    let cmd = until_nul(rec.skip(4));
    if mouse {
        let b = le32(rec, 0);
        if b == u32::MAX {
            (Seq::empty(), true)
        } else {
            (
                seq![
                    (
                        cmd,
                        (8 + popcount(st as nat)) as u8,
                        mod_prefix_spec(st) + seq!['M'] + dec((b + 1) as nat),
                    ),
                ],
                false,
            )
        }
    } else {
        match key_name_spec(rec[0]) {
            Some(k) => (seq![(cmd, popcount(st as nat) as u8, mod_prefix_spec(st) + k)], false),
            None => (Seq::empty(), false),
        }
    }
}

/// The place of a modifier letter in a prefix: Ctrl, Shift, Alt.
pub open spec fn modifier_place(c: char) -> int {
    if c == 'C' {
        0
    } else if c == 'S' {
        1
    } else {
        2
    }
}

/// The letters of a modifier prefix: `C` exactly when the Ctrl bit (2) of
/// the map state is set, `S` exactly for Shift (4), `A` exactly for Alt (1),
/// nothing else, each once and in that order.
pub open spec fn names_modifiers(p: Seq<char>, st: u8) -> bool {
    &&& (p.contains('C') <==> st & 2 != 0)
    &&& (p.contains('S') <==> st & 4 != 0)
    &&& (p.contains('A') <==> st & 1 != 0)
    &&& forall|i: int| 0 <= i < p.len() ==> (#[trigger] p[i] == 'C' || p[i] == 'S' || p[i] == 'A')
    &&& forall|i: int, j: int|
        0 <= i < j < p.len() ==> modifier_place(#[trigger] p[i]) < modifier_place(#[trigger] p[j])
}

/// A binding's label is its modifiers, then the key's name (or `M` and the
/// mouse button counted from 1): a key read in a map of state 2 (Ctrl) is
/// labelled `C` and its name, of state 1 (Alt) `A` and its name.
pub proof fn lemma_record_label(rec: Seq<u8>, mouse: bool, st: u8)
    ensures
        record_adds(rec, mouse, st).0.len() == 1 ==> ({
            let l = record_adds(rec, mouse, st).0[0].2;
            let name = if mouse {
                seq!['M'] + dec((le32(rec, 0) + 1) as nat)
            } else {
                key_name_spec(rec[0]).unwrap()
            };
            exists|p: Seq<char>| l == p + name && #[trigger] names_modifiers(p, st)
        }),
{
    let p = mod_prefix_spec(st);
    let c: Seq<char> = if st & 2 != 0 {
        seq!['C']
    } else {
        Seq::empty()
    };
    let sh: Seq<char> = if st & 4 != 0 {
        seq!['S']
    } else {
        Seq::empty()
    };
    let a: Seq<char> = if st & 1 != 0 {
        seq!['A']
    } else {
        Seq::empty()
    };
    assert(p == c + sh + a);
    assert forall|i: int| 0 <= i < p.len() implies (#[trigger] p[i] == 'C' || p[i] == 'S' || p[i] == 'A') by {
        if i < c.len() {
            assert(p[i] == c[i]);
        } else if i < c.len() + sh.len() {
            assert(p[i] == sh[i - c.len()]);
        } else {
            assert(p[i] == a[i - c.len() - sh.len()]);
        }
    }
    if st & 2 != 0 {
        assert(p[0] == 'C');
    } else {
        assert forall|i: int| 0 <= i < p.len() implies p[i] != 'C' by {
            if i < sh.len() {
                assert(p[i] == sh[i]);
            } else {
                assert(p[i] == a[i - sh.len()]);
            }
        }
    }
    if st & 4 != 0 {
        assert(p[c.len() as int] == 'S');
    } else {
        assert forall|i: int| 0 <= i < p.len() implies p[i] != 'S' by {
            if i < c.len() {
                assert(p[i] == c[i]);
            } else {
                assert(p[i] == a[i - c.len()]);
            }
        }
    }
    if st & 1 != 0 {
        assert(p[(c.len() + sh.len()) as int] == 'A');
    } else {
        assert forall|i: int| 0 <= i < p.len() implies p[i] != 'A' by {
            if i < c.len() {
                assert(p[i] == c[i]);
            } else {
                assert(p[i] == sh[i - c.len()]);
            }
        }
    }
    assert forall|i: int, j: int| 0 <= i < j < p.len() implies modifier_place(#[trigger] p[i])
        < modifier_place(#[trigger] p[j]) by {
        if i < c.len() {
            assert(p[i] == 'C');
            if j < c.len() + sh.len() {
                assert(p[j] == sh[j - c.len()]);
            } else {
                assert(p[j] == a[j - c.len() - sh.len()]);
            }
        } else if i < c.len() + sh.len() {
            assert(p[i] == 'S');
            assert(j >= c.len() + sh.len());
            assert(p[j] == a[j - c.len() - sh.len()]);
        } else {
            assert(p[i] == a[i - c.len() - sh.len()]);
            assert(false);
        }
    }
    assert(names_modifiers(p, st));
}

/// Labels rank best first: with the same modifiers a key ranks strictly
/// before a mouse button, and with fewer modifiers a binding ranks
/// strictly before one of the same kind with more.
pub proof fn lemma_record_ranks(rec: Seq<u8>, rec2: Seq<u8>, mouse: bool, st: u8, st2: u8)
    ensures
        record_adds(rec, false, st).0.len() == 1 && record_adds(rec2, true, st).0.len() == 1 ==> record_adds(
            rec,
            false,
            st,
        ).0[0].1 < record_adds(rec2, true, st).0[0].1,
        record_adds(rec, mouse, st).0.len() == 1 && record_adds(rec2, mouse, st2).0.len() == 1 && popcount(
            st as nat,
        ) < popcount(st2 as nat) ==> record_adds(rec, mouse, st).0[0].1 < record_adds(rec2, mouse, st2).0[0].1,
{
    reveal_with_fuel(pow2, 9);
    assert(pow2(8) == 256);
    lemma_popcount_bound(st as nat, 8);
    lemma_popcount_bound(st2 as nat, 8);
}

/// The bindings of the `DATA` records in `d[o..end]`.
pub open spec fn records_spec(d: Seq<u8>, o: int, end: int, mouse: bool, st: u8) -> (
    Seq<Add>,
    bool,
)
    decreases span(o, end),
{
    if o < 0 || o + 8 > end || end > d.len() {
        (Seq::empty(), false)
    } else {
        let sz = be32(d, o + 4);
        let rec = d.subrange(o + 8, min(o + 8 + sz, end));
        let here = if is_tag(d, o, data_tag()) && rec.len() > 4 {
            record_adds(rec, mouse, st)
        } else {
            (Seq::empty(), false)
        };
        if here.1 {
            here
        } else {
            let rest = records_spec(d, o + 8 + sz, end, mouse, st);
            (here.0 + rest.0, rest.1)
        }
    }
}

/// The modifier state a `MAP ` form's `INFO` chunk starts with (0 without
/// one); `None` when the chunk's first byte lies past the data.
pub open spec fn map_state_spec(d: Seq<u8>, off: int, end: int) -> Option<u8>
    decreases span(off, end),
{
    if off < 0 || off + 8 > end || end > d.len() {
        Some(0)
    } else {
        let size = be32(d, off + 4);
        if is_tag(d, off, info_tag()) && size >= 1 {
            if off + 8 < d.len() {
                Some(d[off + 8])
            } else {
                None
            }
        } else {
            map_state_spec(d, off + 8 + size, end)
        }
    }
}

/// The bindings of the `KEYS` / `MOSB` forms among the chunks of `d[off..end]`.
pub open spec fn walk_map_spec(d: Seq<u8>, off: int, end: int, st: u8) -> (Seq<Add>, bool)
    decreases span(off, end),
{
    if off < 0 || off + 8 > end || end > d.len() {
        (Seq::empty(), false)
    } else {
        let size = be32(d, off + 4);
        let body = off + 8;
        let body_end = min(body + size, end);
        let here = if is_tag(d, off, form_tag()) && body + 4 <= body_end && (is_tag(
            d,
            body,
            keys_tag(),
        ) || is_tag(d, body, mosb_tag())) {
            records_spec(d, body + 4, body_end, is_tag(d, body, mosb_tag()), st)
        } else {
            (Seq::empty(), false)
        };
        if here.1 {
            here
        } else {
            let rest = walk_map_spec(d, body + size, end, st);
            (here.0 + rest.0, rest.1)
        }
    }
}

/// The bindings of every `MAP ` form nested in the chunks of `d[off..end]`
/// (`CMDS` and `SHFT` forms skipped); the flag is set when reading would fault.
pub open spec fn walk_spec(d: Seq<u8>, off: int, end: int) -> (Seq<Add>, bool)
    decreases span(off, end),
{
    if off < 0 || off + 8 > end || end > d.len() {
        (Seq::empty(), false)
    } else {
        let size = be32(d, off + 4);
        let body = off + 8;
        let body_end = min(body + size, end);
        let here = if is_tag(d, off, form_tag()) && body + 4 <= body_end {
            if is_tag(d, body, map_tag()) {
                match map_state_spec(d, body + 4, body_end) {
                    None => (Seq::empty(), true),
                    Some(st) => walk_map_spec(d, body + 4, body_end, st),
                }
            } else if is_tag(d, body, cmds_tag()) || is_tag(d, body, shft_tag()) {
                (Seq::empty(), false)
            } else {
                walk_spec(d, body + 4, body_end)
            }
        } else {
            (Seq::empty(), false)
        };
        if here.1 {
            here
        } else {
            let rest = walk_spec(d, body + size, end);
            (here.0 + rest.0, rest.1)
        }
    }
}

/// `i` is the first entry for `cmd`.
pub open spec fn is_first_key(m: KmView, cmd: Seq<char>, i: int) -> bool {
    0 <= i < m.len() && m[i].0 == cmd && forall|j: int| 0 <= j < i ==> m[j].0 != cmd
}

/// The entry for `cmd`, if any.
pub open spec fn km_find(m: KmView, cmd: Seq<char>) -> Option<int> {
    if exists|i: int| is_first_key(m, cmd, i) {
        Some(choose|i: int| is_first_key(m, cmd, i))
    } else {
        None
    }
}

pub open spec fn has_label(l: Seq<(u8, Seq<char>)>, label: Seq<char>) -> bool {
    exists|j: int| 0 <= j < l.len() && l[j].1 == label
}

/// `l` with `(rank, label)` placed after every entry of equal or lower rank
/// and before the first of higher rank: where a stable sort by rank puts it.
pub open spec fn insert_ranked(l: Seq<(u8, Seq<char>)>, rank: u8, label: Seq<char>) -> Seq<
    (u8, Seq<char>),
>
    decreases l.len(),
{
    if l.len() == 0 {
        seq![(rank, label)]
    } else if l[0].0 > rank {
        seq![(rank, label)] + l
    } else {
        seq![l[0]] + insert_ranked(l.drop_first(), rank, label)
    }
}

/// Adding a binding: a label the command already has is ignored; otherwise
/// it joins the command's labels in rank order.
pub open spec fn km_add(m: KmView, cmd: Seq<char>, rank: u8, label: Seq<char>) -> KmView {
    match km_find(m, cmd) {
        Some(i) => if has_label(m[i].1, label) {
            m
        } else {
            m.update(i, (cmd, insert_ranked(m[i].1, rank, label)))
        },
        None => m.push((cmd, seq![(rank, label)])),
    }
}

/// The keymap after the bindings `adds`, in order.
pub open spec fn km_apply(m: KmView, adds: Seq<Add>) -> KmView
    decreases adds.len(),
{
    if adds.len() == 0 {
        m
    } else {
        km_apply(km_add(m, utf8_lossy(adds[0].0), adds[0].1, adds[0].2), adds.drop_first())
    }
}

pub proof fn lemma_km_apply_concat(m: KmView, a: Seq<Add>, b: Seq<Add>)
    ensures
        km_apply(m, a + b) == km_apply(km_apply(m, a), b),
    decreases a.len(),
{
    if a.len() > 0 {
        assert((a + b).drop_first() =~= a.drop_first() + b);
        lemma_km_apply_concat(
            km_add(m, utf8_lossy(a[0].0), a[0].1, a[0].2),
            a.drop_first(),
            b,
        );
    } else {
        assert(a + b =~= b);
    }
}

/// The label for a command: its best-ranked one, empty when unbound.
pub open spec fn label_spec(m: KmView, cmd: Seq<char>) -> Seq<char> {
    match km_find(m, cmd) {
        Some(i) => if m[i].1.len() > 0 {
            m[i].1[0].1
        } else {
            Seq::empty()
        },
        None => Seq::empty(),
    }
}

/// Whether the file starts with `FORM <size> IMAP` and is at least 20 bytes.
pub open spec fn imap_header_ok(d: Seq<u8>) -> bool {
    d.len() >= 20 && is_tag(d, 0, form_tag()) && is_tag(d, 8, imap_tag())
}

/// Whether reading the map would fault (an `INFO` chunk whose first byte is
/// past the end of the file, or a mouse button number of `u32::MAX`).
pub open spec fn keymap_faults(d: Seq<u8>) -> bool {
    imap_header_ok(d) && walk_spec(d, 0, d.len() as int).1
}

/// The command -> labels map, best first (no modifier before modified, keys
/// before mouse).
pub struct Keymap {
    bindings: Vec<(String, Vec<(u8, String)>)>,
}

impl View for Keymap {
    type V = KmView;

    closed spec fn view(&self) -> KmView {
        self.bindings@.map_values(
            |e: (String, Vec<(u8, String)>)|
                (e.0@, e.1@.map_values(|p: (u8, String)| (p.0, p.1@))),
        )
    }
}

proof fn lemma_insert_ranked_at(l: Seq<(u8, Seq<char>)>, rank: u8, label: Seq<char>, p: int)
    requires
        0 <= p <= l.len(),
        forall|k: int| 0 <= k < p ==> (#[trigger] l[k]).0 <= rank,
        p == l.len() || l[p].0 > rank,
    ensures
        insert_ranked(l, rank, label) == l.take(p) + seq![(rank, label)] + l.skip(p),
    decreases p,
{
    if p == 0 {
        if l.len() == 0 {
            assert(l.take(0) + seq![(rank, label)] + l.skip(0) =~= seq![(rank, label)]);
        } else {
            assert(l.take(0) + seq![(rank, label)] + l.skip(0) =~= seq![(rank, label)] + l);
        }
    } else {
        let t = l.drop_first();
        assert forall|k: int| 0 <= k < p - 1 implies (#[trigger] t[k]).0 <= rank by {
            assert(t[k] == l[k + 1]);
        }
        if p - 1 < t.len() {
            assert(t[p - 1] == l[p]);
        }
        lemma_insert_ranked_at(t, rank, label, p - 1);
        assert(l.take(p) + seq![(rank, label)] + l.skip(p) =~= seq![l[0]] + (t.take(p - 1)
            + seq![(rank, label)] + t.skip(p - 1)));
    }
}

/// Where a label of `rank` goes: after every entry of equal or lower rank.
fn rank_pos(l: &Vec<(u8, String)>, rank: u8) -> (p: usize)
    ensures
        p <= l.len(),
        forall|k: int| 0 <= k < p ==> (#[trigger] l@[k]).0 <= rank,
        p == l.len() || l@[p as int].0 > rank,
{
    let mut p: usize = 0;
    while p < l.len() && l[p].0 <= rank
        invariant
            p <= l.len(),
            forall|k: int| 0 <= k < p ==> (#[trigger] l@[k]).0 <= rank,
        decreases l.len() - p,
    {
        p += 1;
    }
    p
}

fn contains_label(l: &Vec<(u8, String)>, label: &String) -> (b: bool)
    ensures
        b == has_label(l@.map_values(|p: (u8, String)| (p.0, p.1@)), label@),
{
    let ghost m = l@.map_values(|p: (u8, String)| (p.0, p.1@));
    let mut j: usize = 0;
    while j < l.len()
        invariant
            j <= l.len(),
            m == l@.map_values(|p: (u8, String)| (p.0, p.1@)),
            forall|k: int| 0 <= k < j ==> (#[trigger] m[k]).1 != label@,
        decreases l.len() - j,
    {
        if l[j].1 == *label {
            assert(m[j as int].1 == label@);
            return true;
        }
        j += 1;
    }
    false
}

impl Keymap {
    /// A keymap with no bindings.
    pub fn new() -> (km: Keymap)
        ensures
            km@ == Seq::<(Seq<char>, Seq<(u8, Seq<char>)>)>::empty(),
    {
        let km = Keymap { bindings: Vec::new() };
        assert(km@ =~= Seq::<(Seq<char>, Seq<(u8, Seq<char>)>)>::empty());
        km
    }

    fn find(&self, cmd: &str) -> (r: Option<usize>)
        ensures
            match r {
                Some(i) => i < self.bindings.len() && km_find(self@, cmd@) == Some(i as int),
                None => km_find(self@, cmd@) is None,
            },
    {
        let mut i: usize = 0;
        while i < self.bindings.len()
            invariant
                i <= self.bindings.len(),
                forall|j: int| 0 <= j < i ==> (#[trigger] self@[j]).0 != cmd@,
            decreases self.bindings.len() - i,
        {
            if crate::text::str_eq(self.bindings[i].0.as_str(), cmd) {
                proof {
                    assert(self@[i as int].0 == cmd@);
                    assert(is_first_key(self@, cmd@, i as int));
                    let c = choose|c: int| is_first_key(self@, cmd@, c);
                    if c < i {
                        assert(self@[c].0 != cmd@);
                    }
                    if c > i {
                        assert(self@[i as int].0 != cmd@);
                    }
                }
                return Some(i);
            }
            assert(self@[i as int].0 != cmd@);
            i += 1;
        }
        proof {
            if exists|c: int| is_first_key(self@, cmd@, c) {
                let c = choose|c: int| is_first_key(self@, cmd@, c);
                assert(self@[c].0 != cmd@);
            }
        }
        None
    }

    /// The label for a command ("" when unbound): `4`, `S4` (Shift), `C4`
    /// (Ctrl), `A4` (Alt), `M4` (mouse button 4).
    pub fn label(&self, cmd: &str) -> (s: String)
        ensures
            s@ == label_spec(self@, cmd@),
    {
        match self.find(cmd) {
            Some(i) => {
                if self.bindings[i].1.len() > 0 {
                    assert(self@[i as int].1[0] == (
                        self.bindings@[i as int].1@[0].0,
                        self.bindings@[i as int].1@[0].1@,
                    ));
                    self.bindings[i].1[0].1.clone()
                } else {
                    String::new()
                }
            },
            None => String::new(),
        }
    }

    fn add(&mut self, cmd: String, rank: u8, label: String)
        ensures
            final(self)@ == km_add(old(self)@, cmd@, rank, label@),
    {
        match self.find(cmd.as_str()) {
            None => {
                let ghost cv = cmd@;
                let ghost lv = label@;
                let mut l: Vec<(u8, String)> = Vec::new();
                l.push((rank, label));
                assert(l@.map_values(|p: (u8, String)| (p.0, p.1@)) =~= seq![(rank, lv)]);
                self.bindings.push((cmd, l));
                assert(self@ =~= old(self)@.push((cv, seq![(rank, lv)])));
            },
            Some(i) => {
                let ghost old_list = old(self)@[i as int].1;
                if contains_label(&self.bindings[i].1, &label) {
                    return ;
                }
                let (k, mut l) = self.bindings.remove(i);
                assert(l@.map_values(|p: (u8, String)| (p.0, p.1@)) =~= old_list);
                let p = rank_pos(&l, rank);
                proof {
                    assert forall|q: int| 0 <= q < p implies (#[trigger] old_list[q]).0 <= rank by {
                        assert(old_list[q].0 == l@[q].0);
                    }
                    if p < l.len() {
                        assert(old_list[p as int].0 == l@[p as int].0);
                    }
                    lemma_insert_ranked_at(old_list, rank, label@, p as int);
                }
                let ghost label_v = label@;
                l.insert(p, (rank, label));
                assert(l@.map_values(|p: (u8, String)| (p.0, p.1@)) =~= old_list.take(p as int)
                    + seq![(rank, label_v)] + old_list.skip(p as int));
                self.bindings.insert(i, (k, l));
                assert(self@ =~= old(self)@.update(
                    i as int,
                    (cmd@, insert_ranked(old_list, rank, label_v)),
                ));
            },
        }
    }
}

proof fn lemma_until_nul(s: Seq<u8>, k: int)
    requires
        0 <= k <= s.len(),
        forall|i: int| 0 <= i < k ==> s[i] != 0,
        k == s.len() || s[k] == 0,
    ensures
        until_nul(s) == s.take(k),
    decreases k,
{
    if k == 0 {
        if s.len() == 0 {
            assert(s.take(0) =~= s);
        } else {
            assert(s.take(0) =~= Seq::<u8>::empty());
        }
    } else {
        lemma_until_nul(s.drop_first(), k - 1);
        assert(s.take(k) =~= seq![s[0]] + s.drop_first().take(k - 1));
    }
}


/// Applies the `DATA` record `d[a..b]`; `true` where the reader faults.
fn record(d: &[u8], a: usize, b: usize, mouse: bool, st: u8, km: &mut Keymap) -> (fault: bool)
    requires
        a + 4 < b <= d.len(),
    ensures
        fault == record_adds(d@.subrange(a as int, b as int), mouse, st).1,
        !fault ==> final(km)@ == km_apply(
            old(km)@,
            record_adds(d@.subrange(a as int, b as int), mouse, st).0,
        ),
{
    let ghost rec = d@.subrange(a as int, b as int);
    let mut q = a + 4;
    while q < b && d[q] != 0
        invariant
            a + 4 <= q <= b <= d.len(),
            forall|i: int| a + 4 <= i < q ==> d@[i] != 0,
        decreases b - q,
    {
        q += 1;
    }
    proof {
        let t = rec.skip(4);
        assert forall|i: int| 0 <= i < q - a - 4 implies t[i] != 0 by {
            assert(t[i] == d@[a + 4 + i]);
        }
        if q < b {
            assert(t[q - a - 4] == d@[q as int]);
        }
        lemma_until_nul(t, q - a - 4);
        assert(t.take(q - a - 4) =~= d@.subrange(a + 4, q as int));
    }
    let cmd = string_from_utf8_lossy(&d[a + 4..q]);
    let ghost cmd_bytes = d@.subrange(a + 4, q as int);
    let ghost cmd_view = cmd@;
    let mut lab = mod_prefix(st);
    let n = count_ones(st);
    if mouse {
        let bn = read_le32(d, a);
        assert(le32(rec, 0) == le32(d@, a as int));
        if bn == 0xFFFF_FFFF {
            return true;
        }
        lab.push('M');
        push_dec(&mut lab, bn as u64 + 1);
        let ls = string_of(lab.as_slice());
        km.add(cmd, 8 + n, ls);
        proof {
            let adds = record_adds(rec, mouse, st).0;
            assert(adds[0].0 == cmd_bytes);
            assert(adds[0].2 == mod_prefix_spec(st) + seq!['M'] + dec((bn + 1) as nat));
            assert(adds.drop_first() =~= Seq::<Add>::empty());
            let m1 = km_add(old(km)@, utf8_lossy(adds[0].0), adds[0].1, adds[0].2);
            assert(km_apply(old(km)@, adds) == km_apply(m1, adds.drop_first()));
            assert(km_apply(m1, adds.drop_first()) == m1);
            assert(ls@ == adds[0].2);
            assert(adds[0].1 == 8 + n);
            assert(utf8_lossy(cmd_bytes) == cmd_view);
            assert(km@ == m1);
        }
    } else {
        assert(rec[0] == d@[a as int]);
        match key_name(d[a]) {
            Some(k) => {
                append_chars(&mut lab, k.as_str());
                let ls = string_of(lab.as_slice());
                km.add(cmd, n, ls);
                proof {
                    let adds = record_adds(rec, mouse, st).0;
                    assert(adds[0].0 == cmd_bytes);
                    assert(adds.drop_first() =~= Seq::<Add>::empty());
                    let m1 = km_add(old(km)@, utf8_lossy(adds[0].0), adds[0].1, adds[0].2);
                    assert(km_apply(old(km)@, adds) == km_apply(m1, adds.drop_first()));
                    assert(km_apply(m1, adds.drop_first()) == m1);
                }
            },
            None => {
                assert(record_adds(rec, mouse, st).0 =~= Seq::<Add>::empty());
                assert(km_apply(old(km)@, Seq::<Add>::empty()) == old(km)@);
            },
        }
    }
    false
}

/// Applies every `DATA` record among the chunks of `d[o0..end]`.
fn records(d: &[u8], o0: usize, end: usize, mouse: bool, st: u8, km: &mut Keymap) -> (fault:
    bool)
    requires
        o0 <= end <= d.len(),
    ensures
        fault == records_spec(d@, o0 as int, end as int, mouse, st).1,
        !fault ==> final(km)@ == km_apply(
            old(km)@,
            records_spec(d@, o0 as int, end as int, mouse, st).0,
        ),
{
    let ghost km0 = km@;
    let ghost total = records_spec(d@, o0 as int, end as int, mouse, st);
    let ghost mut acc: Seq<Add> = Seq::empty();
    let mut o = o0;
    assert(total.0 =~= acc + total.0);
    while end - o >= 8
        invariant
            o0 <= o <= end <= d.len(),
            total == records_spec(d@, o0 as int, end as int, mouse, st),
            total.0 == acc + records_spec(d@, o as int, end as int, mouse, st).0,
            total.1 == records_spec(d@, o as int, end as int, mouse, st).1,
            km@ == km_apply(km0, acc),
        decreases end - o,
    {
        let (rec_end, next) = chunk_bounds(d, o, end);
        let ghost here_spec = if is_tag(d@, o as int, data_tag()) && rec_end - (o + 8) > 4 {
            record_adds(d@.subrange(o + 8, rec_end as int), mouse, st)
        } else {
            (Seq::<Add>::empty(), false)
        };
        let ghost rest = records_spec(d@, o + 8 + be32(d@, o + 4), end as int, mouse, st);
        assert(records_spec(d@, next as int, end as int, mouse, st) == rest);
        let ghost acc_before = acc;
        if tag_eq(d, o, [68u8, 65u8, 84u8, 65u8]) && rec_end - (o + 8) > 4 {
            let f = record(d, o + 8, rec_end, mouse, st, km);
            if f {
                return true;
            }
            proof {
                lemma_km_apply_concat(km0, acc, here_spec.0);
                acc = acc + here_spec.0;
            }
        } else {
            assert(here_spec.0 + rest.0 =~= rest.0);
        }
        proof {
            assert(acc_before + (here_spec.0 + rest.0) =~= (acc_before + here_spec.0) + rest.0);
            assert(here_spec.0 + rest.0 =~= rest.0 || here_spec.0.len() > 0);
        }
        o = next;
    }
    assert(acc + Seq::<Add>::empty() =~= acc);
    false
}

/// The modifier state of a `MAP ` form (its `INFO` chunk's first byte);
/// `None` where the reader faults.
fn map_state(d: &[u8], off0: usize, end: usize) -> (r: Option<u8>)
    requires
        off0 <= end <= d.len(),
    ensures
        r == map_state_spec(d@, off0 as int, end as int),
{
    let mut off = off0;
    while end - off >= 8
        invariant
            off0 <= off <= end <= d.len(),
            map_state_spec(d@, off0 as int, end as int) == map_state_spec(
                d@,
                off as int,
                end as int,
            ),
        decreases end - off,
    {
        let size = read_be32(d, off + 4);
        if tag_eq(d, off, [73u8, 78u8, 70u8, 79u8]) && size >= 1 {
            if off + 8 < d.len() {
                return Some(d[off + 8]);
            } else {
                return None;
            }
        }
        let (_, next) = chunk_bounds(d, off, end);
        assert(map_state_spec(d@, next as int, end as int) == map_state_spec(
            d@,
            off + 8 + be32(d@, off + 4),
            end as int,
        ));
        off = next;
    }
    Some(0)
}

/// Applies the `KEYS` / `MOSB` forms among the chunks of `d[off0..end]`.
fn walk_map(d: &[u8], off0: usize, end: usize, st: u8, km: &mut Keymap) -> (fault: bool)
    requires
        off0 <= end <= d.len(),
    ensures
        fault == walk_map_spec(d@, off0 as int, end as int, st).1,
        !fault ==> final(km)@ == km_apply(
            old(km)@,
            walk_map_spec(d@, off0 as int, end as int, st).0,
        ),
{
    let ghost km0 = km@;
    let ghost total = walk_map_spec(d@, off0 as int, end as int, st);
    let ghost mut acc: Seq<Add> = Seq::empty();
    let mut off = off0;
    assert(total.0 =~= acc + total.0);
    while end - off >= 8
        invariant
            off0 <= off <= end <= d.len(),
            total == walk_map_spec(d@, off0 as int, end as int, st),
            total.0 == acc + walk_map_spec(d@, off as int, end as int, st).0,
            total.1 == walk_map_spec(d@, off as int, end as int, st).1,
            km@ == km_apply(km0, acc),
        decreases end - off,
    {
        let (body_end, next) = chunk_bounds(d, off, end);
        let body = off + 8;
        let ghost here_spec = if is_tag(d@, off as int, form_tag()) && body + 4 <= body_end && (
        is_tag(d@, body as int, keys_tag()) || is_tag(d@, body as int, mosb_tag())) {
            records_spec(
                d@,
                body + 4,
                body_end as int,
                is_tag(d@, body as int, mosb_tag()),
                st,
            )
        } else {
            (Seq::<Add>::empty(), false)
        };
        let ghost rest = walk_map_spec(d@, off + 8 + be32(d@, off + 4), end as int, st);
        assert(walk_map_spec(d@, next as int, end as int, st) == rest);
        let ghost acc_before = acc;
        let mut taken = false;
        if tag_eq(d, off, [70u8, 79u8, 82u8, 77u8]) && body_end - body >= 4 {
            let mouse = tag_eq(d, body, [77u8, 79u8, 83u8, 66u8]);
            if tag_eq(d, body, [75u8, 69u8, 89u8, 83u8]) || mouse {
                taken = true;
                let f = records(d, body + 4, body_end, mouse, st, km);
                if f {
                    return true;
                }
                proof {
                    lemma_km_apply_concat(km0, acc, here_spec.0);
                    acc = acc + here_spec.0;
                }
            }
        }
        proof {
            if !taken {
                assert(here_spec.0 + rest.0 =~= rest.0);
            }
            assert(acc_before + (here_spec.0 + rest.0) =~= (acc_before + here_spec.0) + rest.0);
        }
        off = next;
    }
    assert(acc + Seq::<Add>::empty() =~= acc);
    false
}

/// Applies every `MAP ` form nested in the chunks of `d[off0..end]`.
fn walk(d: &[u8], off0: usize, end: usize, km: &mut Keymap) -> (fault: bool)
    requires
        off0 <= end <= d.len(),
    ensures
        fault == walk_spec(d@, off0 as int, end as int).1,
        !fault ==> final(km)@ == km_apply(old(km)@, walk_spec(d@, off0 as int, end as int).0),
    decreases end - off0,
{
    let ghost km0 = km@;
    let ghost total = walk_spec(d@, off0 as int, end as int);
    let ghost mut acc: Seq<Add> = Seq::empty();
    let mut off = off0;
    assert(total.0 =~= acc + total.0);
    while end - off >= 8
        invariant
            off0 <= off <= end <= d.len(),
            total == walk_spec(d@, off0 as int, end as int),
            total.0 == acc + walk_spec(d@, off as int, end as int).0,
            total.1 == walk_spec(d@, off as int, end as int).1,
            km@ == km_apply(km0, acc),
        decreases end - off,
    {
        let (body_end, next) = chunk_bounds(d, off, end);
        let body = off + 8;
        let ghost here_spec = if is_tag(d@, off as int, form_tag()) && body + 4 <= body_end {
            if is_tag(d@, body as int, map_tag()) {
                match map_state_spec(d@, body + 4, body_end as int) {
                    None => (Seq::<Add>::empty(), true),
                    Some(st) => walk_map_spec(d@, body + 4, body_end as int, st),
                }
            } else if is_tag(d@, body as int, cmds_tag()) || is_tag(d@, body as int, shft_tag()) {
                (Seq::<Add>::empty(), false)
            } else {
                walk_spec(d@, body + 4, body_end as int)
            }
        } else {
            (Seq::<Add>::empty(), false)
        };
        let ghost rest = walk_spec(d@, off + 8 + be32(d@, off + 4), end as int);
        assert(walk_spec(d@, next as int, end as int) == rest);
        let ghost acc_before = acc;
        let mut taken = false;
        if tag_eq(d, off, [70u8, 79u8, 82u8, 77u8]) && body_end - body >= 4 {
            if tag_eq(d, body, [77u8, 65u8, 80u8, 32u8]) {
                match map_state(d, body + 4, body_end) {
                    None => {
                        return true;
                    },
                    Some(st) => {
                        taken = true;
                        let f = walk_map(d, body + 4, body_end, st, km);
                        if f {
                            return true;
                        }
                    },
                }
            } else if tag_eq(d, body, [67u8, 77u8, 68u8, 83u8]) || tag_eq(
                d,
                body,
                [83u8, 72u8, 70u8, 84u8],
            ) {
            } else {
                taken = true;
                let f = walk(d, body + 4, body_end, km);
                if f {
                    return true;
                }
            }
        }
        proof {
            if taken {
                lemma_km_apply_concat(km0, acc, here_spec.0);
                acc = acc + here_spec.0;
            } else {
                assert(here_spec.0 + rest.0 =~= rest.0);
            }
            assert(acc_before + (here_spec.0 + rest.0) =~= (acc_before + here_spec.0) + rest.0);
        }
        off = next;
    }
    assert(acc + Seq::<Add>::empty() =~= acc);
    false
}

/// The keymap that reading the input map `d` builds: `None` where the
/// reader faults (see `keymap_faults`).
fn parse_map(d: &[u8]) -> (r: Option<Result<Keymap, String>>)
    ensures
        r is None <==> keymap_faults(d@),
        r matches Some(res) ==> match res {
            Ok(km) => imap_header_ok(d@) && km@ == km_apply(
                Seq::empty(),
                walk_spec(d@, 0, d@.len() as int).0,
            ),
            Err(e) => !imap_header_ok(d@) && e@ == "not an IMAP input map"@,
        },
{
    if d.len() < 20 || !tag_eq(d, 0, [70u8, 79u8, 82u8, 77u8]) || !tag_eq(
        d,
        8,
        [73u8, 77u8, 65u8, 80u8],
    ) {
        return Some(Err(String::from_str("not an IMAP input map")));
    }
    let mut km = Keymap::new();
    if walk(d, 0, d.len(), &mut km) {
        return None;
    }
    Some(Ok(km))
}

impl Keymap {
    /// Reads an input map.  `Err` when `d` is not an `IMAP` form.
    pub fn parse(d: &[u8]) -> (r: Result<Keymap, String>)
        requires
            !keymap_faults(d@),
        ensures
            match r {
                Ok(km) => imap_header_ok(d@) && km@ == km_apply(
                    Seq::empty(),
                    walk_spec(d@, 0, d@.len() as int).0,
                ),
                Err(e) => !imap_header_ok(d@) && e@ == "not an IMAP input map"@,
            },
    {
        match parse_map(d) {
            Some(r) => r,
            None => Err(String::new()),
        }
    }

    /// `parse` for any input: `None` exactly where reading the map faults
    /// (`keymap_faults`), otherwise what `parse` gives.
    pub fn parse_checked(d: &[u8]) -> (r: Option<Result<Keymap, String>>)
        ensures
            r is None <==> keymap_faults(d@),
            r matches Some(res) ==> match res {
                Ok(km) => imap_header_ok(d@) && km@ == km_apply(
                    Seq::empty(),
                    walk_spec(d@, 0, d@.len() as int).0,
                ),
                Err(e) => !imap_header_ok(d@) && e@ == "not an IMAP input map"@,
            },
    {
        parse_map(d)
    }
}

impl Keymap {
    /// Labels for `CMD_uiToolbarSlot<nn>` (two digits at least).
    pub fn slot(&self, n: u32) -> (s: String)
        ensures
            s@ == label_spec(self@, "CMD_uiToolbarSlot"@ + dec_pad(n as nat, 2)),
    {
        let mut v = chars_of("CMD_uiToolbarSlot");
        push_dec_pad(&mut v, n as u64, 2);
        let cmd = string_of(v.as_slice());
        self.label(cmd.as_str())
    }

    /// Labels for `CMD_petToolbarSlot<n>`.
    pub fn pet_slot(&self, n: u32) -> (s: String)
        ensures
            s@ == label_spec(self@, "CMD_petToolbarSlot"@ + dec(n as nat)),
    {
        let mut v = chars_of("CMD_petToolbarSlot");
        push_dec(&mut v, n as u64);
        let cmd = string_of(v.as_slice());
        self.label(cmd.as_str())
    }
}

/// Every command's labels are in rank order (best first) and distinct, and
/// no command has two entries.
pub open spec fn km_wf(m: KmView) -> bool {
    &&& forall|i: int, j: int| 0 <= i < j < m.len() ==> (#[trigger] m[i]).0 != (#[trigger] m[j]).0
    &&& forall|i: int| 0 <= i < m.len() ==> ranked(#[trigger] m[i].1)
}

/// Ranks never decrease along the list and no label repeats.
pub open spec fn ranked(l: Seq<(u8, Seq<char>)>) -> bool {
    &&& forall|a: int, b: int| 0 <= a < b < l.len() ==> (#[trigger] l[a]).0 <= (#[trigger] l[b]).0
    &&& forall|a: int, b: int| 0 <= a < b < l.len() ==> (#[trigger] l[a]).1 != (#[trigger] l[b]).1
}

proof fn lemma_insert_ranked_ranked(l: Seq<(u8, Seq<char>)>, rank: u8, label: Seq<char>)
    requires
        ranked(l),
        !has_label(l, label),
    ensures
        ranked(insert_ranked(l, rank, label)),
        insert_ranked(l, rank, label).len() == l.len() + 1,
        forall|x: (u8, Seq<char>)|
            insert_ranked(l, rank, label).contains(x) <==> (l.contains(x) || x == (rank, label)),
    decreases l.len(),
{
    if l.len() == 0 {
        let r = seq![(rank, label)];
        assert forall|x: (u8, Seq<char>)| r.contains(x) <==> (l.contains(x) || x == (rank, label)) by {
            if r.contains(x) {
                let k = choose|k: int| 0 <= k < r.len() && r[k] == x;
                assert(k == 0);
            }
            if x == (rank, label) {
                assert(r[0] == x);
            }
        }
    } else if l[0].0 > rank {
        let r = seq![(rank, label)] + l;
        assert forall|a: int, b: int| 0 <= a < b < r.len() implies (#[trigger] r[a]).0 <= (
        #[trigger] r[b]).0 by {
            if a > 0 {
                assert(r[a] == l[a - 1] && r[b] == l[b - 1]);
            } else {
                assert(r[b] == l[b - 1]);
                if b - 1 > 0 {
                    assert(l[0].0 <= l[b - 1].0);
                }
            }
        }
        assert forall|a: int, b: int| 0 <= a < b < r.len() implies (#[trigger] r[a]).1 != (
        #[trigger] r[b]).1 by {
            if a > 0 {
                assert(r[a] == l[a - 1] && r[b] == l[b - 1]);
            } else {
                assert(r[b] == l[b - 1]);
            }
        }
        assert forall|x: (u8, Seq<char>)| r.contains(x) <==> (l.contains(x) || x == (rank, label)) by {
            if r.contains(x) {
                let k = choose|k: int| 0 <= k < r.len() && r[k] == x;
                if k > 0 {
                    assert(l[k - 1] == x);
                }
            }
            if l.contains(x) {
                let k = choose|k: int| 0 <= k < l.len() && l[k] == x;
                assert(r[k + 1] == x);
            }
            if x == (rank, label) {
                assert(r[0] == x);
            }
        }
    } else {
        let t = l.drop_first();
        assert(ranked(t)) by {
            assert forall|a: int, b: int| 0 <= a < b < t.len() implies (#[trigger] t[a]).0 <= (
            #[trigger] t[b]).0 by {
                assert(t[a] == l[a + 1] && t[b] == l[b + 1]);
            }
            assert forall|a: int, b: int| 0 <= a < b < t.len() implies (#[trigger] t[a]).1 != (
            #[trigger] t[b]).1 by {
                assert(t[a] == l[a + 1] && t[b] == l[b + 1]);
            }
        }
        assert(!has_label(t, label)) by {
            if has_label(t, label) {
                let j = choose|j: int| 0 <= j < t.len() && t[j].1 == label;
                assert(l[j + 1].1 == label);
            }
        }
        lemma_insert_ranked_ranked(t, rank, label);
        let it = insert_ranked(t, rank, label);
        let r = seq![l[0]] + it;
        assert(r == insert_ranked(l, rank, label));
        assert forall|k: int| 0 <= k < it.len() implies l[0].0 <= (#[trigger] it[k]).0 by {
            assert(it.contains(it[k]));
            if it[k] != (rank, label) {
                assert(t.contains(it[k]));
                let j = choose|j: int| 0 <= j < t.len() && t[j] == it[k];
                assert(l[j + 1] == it[k]);
                assert(l[0].0 <= l[j + 1].0);
            }
        }
        assert forall|k: int| 0 <= k < it.len() implies l[0].1 != (#[trigger] it[k]).1 by {
            assert(it.contains(it[k]));
            if it[k] != (rank, label) {
                assert(t.contains(it[k]));
                let j = choose|j: int| 0 <= j < t.len() && t[j] == it[k];
                assert(l[j + 1] == it[k]);
            } else {
                assert(l[0].1 != label);
            }
        }
        assert forall|a: int, b: int| 0 <= a < b < r.len() implies (#[trigger] r[a]).0 <= (
        #[trigger] r[b]).0 by {
            if a > 0 {
                assert(r[a] == it[a - 1] && r[b] == it[b - 1]);
            } else {
                assert(r[b] == it[b - 1]);
            }
        }
        assert forall|a: int, b: int| 0 <= a < b < r.len() implies (#[trigger] r[a]).1 != (
        #[trigger] r[b]).1 by {
            if a > 0 {
                assert(r[a] == it[a - 1] && r[b] == it[b - 1]);
            } else {
                assert(r[b] == it[b - 1]);
            }
        }
        assert forall|x: (u8, Seq<char>)| r.contains(x) <==> (l.contains(x) || x == (rank, label)) by {
            assert(it.contains(x) <==> (t.contains(x) || x == (rank, label)));
            if r.contains(x) {
                let k = choose|k: int| 0 <= k < r.len() && r[k] == x;
                if k > 0 {
                    assert(it[k - 1] == x);
                    assert(it.contains(x));
                    if x != (rank, label) {
                        assert(t.contains(x));
                        let j = choose|j: int| 0 <= j < t.len() && t[j] == x;
                        assert(l[j + 1] == x);
                    }
                } else {
                    assert(l[0] == x);
                }
            }
            if l.contains(x) {
                let k = choose|k: int| 0 <= k < l.len() && l[k] == x;
                if k == 0 {
                    assert(r[0] == x);
                } else {
                    assert(t[k - 1] == x);
                    assert(t.contains(x));
                    let j = choose|j: int| 0 <= j < it.len() && it[j] == x;
                    assert(r[j + 1] == x);
                }
            }
            if x == (rank, label) {
                assert(it.contains(x));
                let j = choose|j: int| 0 <= j < it.len() && it[j] == x;
                assert(r[j + 1] == x);
            }
        }
    }
}

/// Adding a binding keeps a keymap well-formed.
pub proof fn lemma_km_add_wf(m: KmView, cmd: Seq<char>, rank: u8, label: Seq<char>)
    requires
        km_wf(m),
    ensures
        km_wf(km_add(m, cmd, rank, label)),
{
    match km_find(m, cmd) {
        Some(i) => {
            assert(is_first_key(m, cmd, i));
            if !has_label(m[i].1, label) {
                lemma_insert_ranked_ranked(m[i].1, rank, label);
                let r = km_add(m, cmd, rank, label);
                assert forall|a: int, b: int| 0 <= a < b < r.len() implies (#[trigger] r[a]).0 != (
                #[trigger] r[b]).0 by {
                    assert(r[a].0 == m[a].0 && r[b].0 == m[b].0);
                }
                assert forall|a: int| 0 <= a < r.len() implies ranked(#[trigger] r[a].1) by {
                    if a != i {
                        assert(r[a] == m[a]);
                    }
                }
            }
        },
        None => {
            let r = m.push((cmd, seq![(rank, label)]));
            assert forall|a: int, b: int| 0 <= a < b < r.len() implies (#[trigger] r[a]).0 != (
            #[trigger] r[b]).0 by {
                if b == m.len() {
                    assert(r[a] == m[a]);
                    if m[a].0 == cmd {
                        // the first entry for cmd would exist
                        let k = choose|k: int| 0 <= k <= a && m[k].0 == cmd && forall|j: int|
                            0 <= j < k ==> m[j].0 != cmd;
                        assert(is_first_key(m, cmd, k));
                    }
                } else {
                    assert(r[a] == m[a] && r[b] == m[b]);
                }
            }
            assert forall|a: int| 0 <= a < r.len() implies ranked(#[trigger] r[a].1) by {
                if a < m.len() {
                    assert(r[a] == m[a]);
                }
            }
        },
    }
}

/// In a keymap that lists each command once, the entry for `cmd` is the one
/// whose command it is.
proof fn lemma_km_find_wf(m: KmView, cmd: Seq<char>)
    requires
        km_wf(m),
    ensures
        forall|i: int| 0 <= i < m.len() && (#[trigger] m[i]).0 == cmd ==> km_find(m, cmd) == Some(i),
        (forall|i: int| 0 <= i < m.len() ==> (#[trigger] m[i]).0 != cmd) ==> km_find(m, cmd) is None,
{
    assert forall|i: int| 0 <= i < m.len() && (#[trigger] m[i]).0 == cmd implies km_find(m, cmd)
        == Some(i) by {
        assert forall|j: int| 0 <= j < i implies m[j].0 != cmd by {
            assert(m[j].0 != m[i].0);
        }
        assert(is_first_key(m, cmd, i));
        let k = choose|k: int| is_first_key(m, cmd, k);
        if k != i {
            if k < i {
                assert(m[k].0 != m[i].0);
            } else {
                assert(m[i].0 != m[k].0);
            }
        }
    }
}

/// Adding a binding changes the label `cmd` shows only when `cmd` showed
/// none, or the label is new to it and ranks strictly before the one shown;
/// so a command shows its earliest added label of least rank.  Every other
/// command keeps its label.
pub proof fn lemma_km_add_label(m: KmView, cmd: Seq<char>, rank: u8, label: Seq<char>, other: Seq<char>)
    requires
        km_wf(m),
    ensures
        label_spec(km_add(m, cmd, rank, label), cmd) == (match km_find(m, cmd) {
            Some(i) => if m[i].1.len() == 0 || (!has_label(m[i].1, label) && rank < m[i].1[0].0) {
                label
            } else {
                label_spec(m, cmd)
            },
            None => label,
        }),
        other != cmd ==> label_spec(km_add(m, cmd, rank, label), other) == label_spec(m, other),
{
    let r = km_add(m, cmd, rank, label);
    lemma_km_add_wf(m, cmd, rank, label);
    lemma_km_find_wf(m, cmd);
    lemma_km_find_wf(r, cmd);
    lemma_km_find_wf(m, other);
    lemma_km_find_wf(r, other);
    match km_find(m, cmd) {
        Some(i) => {
            assert(is_first_key(m, cmd, i));
            assert(r[i].0 == cmd);
            if !has_label(m[i].1, label) {
                let l = m[i].1;
                assert(r[i].1 == insert_ranked(l, rank, label));
                if l.len() > 0 && l[0].0 <= rank {
                    assert(insert_ranked(l, rank, label)[0] == l[0]);
                }
            }
            if other != cmd {
                if exists|k: int| 0 <= k < m.len() && (#[trigger] m[k]).0 == other {
                    let k = choose|k: int| 0 <= k < m.len() && (#[trigger] m[k]).0 == other;
                    assert(r[k] == m[k]);
                } else {
                    assert forall|k: int| 0 <= k < r.len() implies (#[trigger] r[k]).0 != other by {
                        if k != i {
                            assert(r[k] == m[k]);
                        }
                    }
                }
            }
        },
        None => {
            assert(r[m.len() as int].0 == cmd);
            if other != cmd {
                if exists|k: int| 0 <= k < m.len() && (#[trigger] m[k]).0 == other {
                    let k = choose|k: int| 0 <= k < m.len() && (#[trigger] m[k]).0 == other;
                    assert(r[k] == m[k]);
                } else {
                    assert forall|k: int| 0 <= k < r.len() implies (#[trigger] r[k]).0 != other by {
                        if k < m.len() {
                            assert(r[k] == m[k]);
                        }
                    }
                }
            }
        },
    }
}

/// The labels bound to `cmd`, best first (none when it has no entry).
pub open spec fn km_labels(m: KmView, cmd: Seq<char>) -> Seq<(u8, Seq<char>)> {
    match km_find(m, cmd) {
        Some(i) => m[i].1,
        None => Seq::empty(),
    }
}

/// What adding a binding does: a label the command already has changes
/// nothing; a new one joins its labels where a stable sort by rank puts
/// it; every other command keeps its labels.  So each command's labels
/// stay distinct with ranks never decreasing, and the one shown is the
/// earliest added of least rank.
pub proof fn lemma_km_add_law(m: KmView, cmd: Seq<char>, rank: u8, label: Seq<char>, other: Seq<char>)
    requires
        km_wf(m),
    ensures
        km_labels(km_add(m, cmd, rank, label), cmd) == (if has_label(km_labels(m, cmd), label) {
            km_labels(m, cmd)
        } else {
            insert_ranked(km_labels(m, cmd), rank, label)
        }),
        other != cmd ==> km_labels(km_add(m, cmd, rank, label), other) == km_labels(m, other),
        ranked(km_labels(km_add(m, cmd, rank, label), cmd)),
        label_spec(km_add(m, cmd, rank, label), cmd) == (if km_labels(m, cmd).len() == 0 || (!has_label(
            km_labels(m, cmd),
            label,
        ) && rank < km_labels(m, cmd)[0].0) {
            label
        } else {
            label_spec(m, cmd)
        }),
        other != cmd ==> label_spec(km_add(m, cmd, rank, label), other) == label_spec(m, other),
{
    let r = km_add(m, cmd, rank, label);
    lemma_km_add_wf(m, cmd, rank, label);
    lemma_km_add_label(m, cmd, rank, label, other);
    lemma_km_find_wf(m, cmd);
    lemma_km_find_wf(r, cmd);
    lemma_km_find_wf(m, other);
    lemma_km_find_wf(r, other);
    match km_find(m, cmd) {
        Some(i) => {
            assert(is_first_key(m, cmd, i));
            assert(r[i].0 == cmd);
            if other != cmd {
                if exists|k: int| 0 <= k < m.len() && (#[trigger] m[k]).0 == other {
                    let k = choose|k: int| 0 <= k < m.len() && (#[trigger] m[k]).0 == other;
                    assert(r[k] == m[k]);
                } else {
                    assert forall|k: int| 0 <= k < r.len() implies (#[trigger] r[k]).0 != other by {
                        if k != i {
                            assert(r[k] == m[k]);
                        }
                    }
                }
            }
        },
        None => {
            assert(r[m.len() as int].0 == cmd);
            assert(!has_label(Seq::<(u8, Seq<char>)>::empty(), label));
            assert(insert_ranked(Seq::<(u8, Seq<char>)>::empty(), rank, label) == seq![(rank, label)]);
            if other != cmd {
                if exists|k: int| 0 <= k < m.len() && (#[trigger] m[k]).0 == other {
                    let k = choose|k: int| 0 <= k < m.len() && (#[trigger] m[k]).0 == other;
                    assert(r[k] == m[k]);
                } else {
                    assert forall|k: int| 0 <= k < r.len() implies (#[trigger] r[k]).0 != other by {
                        if k < m.len() {
                            assert(r[k] == m[k]);
                        }
                    }
                }
            }
        },
    }
    match km_find(r, cmd) {
        Some(i) => {
            assert(ranked(r[i].1));
        },
        None => {},
    }
}

proof fn lemma_km_apply_wf(m: KmView, adds: Seq<Add>)
    requires
        km_wf(m),
    ensures
        km_wf(km_apply(m, adds)),
    decreases adds.len(),
{
    if adds.len() > 0 {
        lemma_km_add_wf(m, utf8_lossy(adds[0].0), adds[0].1, adds[0].2);
        lemma_km_apply_wf(
            km_add(m, utf8_lossy(adds[0].0), adds[0].1, adds[0].2),
            adds.drop_first(),
        );
    }
}

/// A parsed keymap lists every command once, with its labels best first
/// (rank order) and no label twice.
pub proof fn lemma_parsed_keymap_wf(d: Seq<u8>)
    ensures
        km_wf(km_apply(Seq::empty(), walk_spec(d, 0, d.len() as int).0)),
{
    lemma_km_apply_wf(Seq::empty(), walk_spec(d, 0, d.len() as int).0);
}

/// The proleptic Gregorian (year, month, day) of day `days` counted from
/// 1970-01-01 (Howard Hinnant's `civil_from_days`).
pub open spec fn civil_from_days(days: int) -> (int, int, int) {
    let z = days + 719468;
    let era = z / 146097;
    let doe = z - era * 146097;
    let yoe = (doe - doe / 1460 + doe / 36524 - doe / 146096) / 365;
    let y = yoe + era * 400;
    let doy = doe - (365 * yoe + yoe / 4 - yoe / 100);
    let mp = (5 * doy + 2) / 153;
    let d = doy - (153 * mp + 2) / 5 + 1;
    let mo = if mp < 10 {
        mp + 3
    } else {
        mp - 9
    };
    (if mo <= 2 {
        y + 1
    } else {
        y
    }, mo, d)
}

/// "YYYY-MM-DD HH:MM" for `t` seconds after the epoch.
pub open spec fn fmt_time_spec(t: int) -> Seq<char> {
    let days = t / 86400;
    let rem = t % 86400;
    let (y, mo, d) = civil_from_days(days);
    signed_pad(y, 4) + seq!['-'] + dec_pad(mo as nat, 2) + seq!['-'] + dec_pad(d as nat, 2) + seq![' ']
        + dec_pad((rem / 3600) as nat, 2) + seq![':'] + dec_pad(((rem % 3600) / 60) as nat, 2)
}

/// A day of an era's 146097 falls in a month 1..=12 and on a day 1..=31, and
/// the year-of-era arithmetic stays small.
pub proof fn lemma_civil_ranges(doe: int)
    requires
        0 <= doe < 146097,
    ensures
        ({
            let yoe = (doe - doe / 1460 + doe / 36524 - doe / 146096) / 365;
            let doy = doe - (365 * yoe + yoe / 4 - yoe / 100);
            let mp = (5 * doy + 2) / 153;
            let d = doy - (153 * mp + 2) / 5 + 1;
            &&& 0 <= yoe < 400
            &&& 0 <= doy < 366
            &&& 0 <= mp < 12
            &&& 1 <= d <= 31
        }),
{
    let yoe = (doe - doe / 1460 + doe / 36524 - doe / 146096) / 365;
    let doy = doe - (365 * yoe + yoe / 4 - yoe / 100);
    let mp = (5 * doy + 2) / 153;
    assert(0 <= yoe < 400);
    assert(0 <= doy < 366);
    assert(0 <= mp < 12);
}

/// `t.div_euclid(m)` and `t.rem_euclid(m)`.
fn div_euclid(t: i64, m: i64) -> (r: (i64, i64))
    requires
        m > 0,
    ensures
        r.0 == t / m,
        r.1 == t % m,
{
    if t >= 0 {
        let q = (t as u64) / (m as u64);
        let rr = (t as u64) % (m as u64);
        proof {
            vstd::arithmetic::div_mod::lemma_fundamental_div_mod(t as int, m as int);
        }
        (q as i64, rr as i64)
    } else {
        let a = (-(t + 1)) as u64;
        let q = a / (m as u64);
        let rr = a % (m as u64);
        proof {
            vstd::arithmetic::div_mod::lemma_fundamental_div_mod(a as int, m as int);
            assert(a as int == m * q + rr);
            assert(t as int == (-(q as int) - 1) * m + (m - 1 - rr)) by (nonlinear_arith)
                requires
                    a as int == m * q + rr,
                    t as int == -(a as int) - 1,
            ;
            vstd::arithmetic::div_mod::lemma_fundamental_div_mod_converse(
                t as int,
                m as int,
                -(q as int) - 1,
                m - 1 - rr,
            );
        }
        (-(q as i64) - 1, m - 1 - rr as i64)
    }
}

/// The (year, month, day) of day `days` after 1970-01-01.
fn civil(days: i64) -> (r: (i64, i64, i64))
    requires
        days > i64::MIN / 2,
        days < i64::MAX / 2,
    ensures
        (r.0 as int, r.1 as int, r.2 as int) == civil_from_days(days as int),
        1 <= r.1 <= 12,
        1 <= r.2 <= 31,
        r.0 > i64::MIN,
{
    let z = days + 719468;
    let (era, doe) = div_euclid(z, 146097);
    proof {
        lemma_civil_ranges(doe as int);
        vstd::arithmetic::div_mod::lemma_fundamental_div_mod(z as int, 146097);
    }
    assert(doe == z - era * 146097);
    let yoe = (doe - doe / 1460 + doe / 36524 - doe / 146096) / 365;
    let y = yoe + era * 400;
    let doy = doe - (365 * yoe + yoe / 4 - yoe / 100);
    let mp = (5 * doy + 2) / 153;
    let d = doy - (153 * mp + 2) / 5 + 1;
    let mo = if mp < 10 {
        mp + 3
    } else {
        mp - 9
    };
    let y = if mo <= 2 {
        y + 1
    } else {
        y
    };
    (y, mo, d)
}

/// "YYYY-MM-DD HH:MM" for the local time `unix + offset` (seconds).
pub fn fmt_local(unix: i64, offset: i64) -> (s: String)
    requires
        i64::MIN < unix + offset <= i64::MAX,
    ensures
        s@ == fmt_time_spec(unix + offset),
{
    let t = unix + offset;
    let (days, rem) = div_euclid(t, 86400);
    let (y, mo, d) = civil(days);
    let mut v: Vec<char> = Vec::new();
    push_signed_pad(&mut v, y, 4);
    v.push('-');
    push_dec_pad(&mut v, mo as u64, 2);
    v.push('-');
    push_dec_pad(&mut v, d as u64, 2);
    v.push(' ');
    push_dec_pad(&mut v, (rem / 3600) as u64, 2);
    v.push(':');
    push_dec_pad(&mut v, ((rem % 3600) / 60) as u64, 2);
    assert(v@ =~= fmt_time_spec(t as int));
    string_of(v.as_slice())
}

/// One character under `profiles/<user>/<cluster>/`: the client writes its
/// `.uis` / `.opt` on every logout but the `.inp` only when a binding
/// changes, so "last played" comes from the former and the keymap may be
/// missing altogether (the character still uses a stock preset).
#[derive(Clone, Debug)]
pub struct Character {
    pub id: String,
    pub cluster: String,
    /// when last played, in nanoseconds since the Unix epoch (never before it)
    pub last_played: u128,
    /// the character's `.inp` file, when it has one
    pub inp: Option<String>,
}

/// A character as values: id, cluster, last played, keymap file.
pub type CharView = (Seq<char>, Seq<char>, u128, Option<Seq<char>>);

impl Character {
    pub open spec fn view_of(self) -> CharView {
        (
            self.id@,
            self.cluster@,
            self.last_played,
            match self.inp {
                Some(p) => Some(p@),
                None => None,
            },
        )
    }
}

/// Whole seconds of a nanosecond count, as `Duration::as_secs() as i64` gives them.
pub open spec fn secs_of(ns: u128) -> i64 {
    ((ns / 1_000_000_000) as u64) as i64
}

/// "404079662065 (Omega) - played 2026-09-08 17:49", plus ", no keymap
/// saved" without a keymap file.
pub open spec fn character_label(c: CharView, offset: i64) -> Seq<char> {
    c.0 + " ("@ + c.1 + ") - played "@ + fmt_time_spec(secs_of(c.2) + offset) + (if c.3 is None {
        ", no keymap saved"@
    } else {
        Seq::empty()
    })
}

impl Character {
    /// "404079662065 (Omega) - played 2026-09-08 17:49" in the time zone
    /// `utc_offset` seconds east of UTC.
    pub fn label(&self, utc_offset: i64) -> (s: String)
        requires
            i64::MIN < secs_of(self.last_played) + utc_offset <= i64::MAX,
        ensures
            s@ == character_label(self.view_of(), utc_offset),
    {
        let secs = ((self.last_played / 1_000_000_000) as u64) as i64;
        let mut s = self.id.clone();
        s.append(" (");
        s.append(self.cluster.as_str());
        s.append(") - played ");
        let t = fmt_local(secs, utc_offset);
        s.append(t.as_str());
        if self.inp.is_none() {
            s.append(", no keymap saved");
        }
        proof {
            if self.inp.is_none() {
                assert(s@ =~= character_label(self.view_of(), utc_offset));
            } else {
                assert(s@ =~= character_label(self.view_of(), utc_offset));
            }
        }
        s
    }
}

/// A file found under `profiles/<user>/<cluster>/`.
#[derive(Clone, Debug)]
pub struct ProfileFile {
    pub cluster: String,
    /// the file name ("" when it is not valid Unicode)
    pub name: String,
    pub path: String,
    /// modification time in nanoseconds since the Unix epoch (0 when unknown
    /// or earlier)
    pub modified: u128,
}

pub type FileView = (Seq<char>, Seq<char>, Seq<char>, u128);

impl ProfileFile {
    pub open spec fn view_of(self) -> FileView {
        (self.cluster@, self.name@, self.path@, self.modified)
    }
}

/// The character id and extension of a file name: lower-cased, split at the
/// first `.`; the id must be one or more ASCII digits.
pub open spec fn file_id(name: Seq<char>) -> Option<(Seq<char>, Seq<char>)> {
    match split_once(lower(name), '.') {
        Some((id, ext)) => if id.len() > 0 && all_digits(id) {
            Some((id, ext))
        } else {
            None
        },
        None => None,
    }
}

/// Index of the character with this cluster and id.
pub open spec fn char_index(cs: Seq<CharView>, cluster: Seq<char>, id: Seq<char>) -> Option<int>
    decreases cs.len(),
{
    if cs.len() == 0 {
        None
    } else if cs.last().1 == cluster && cs.last().0 == id {
        Some(cs.len() - 1)
    } else {
        char_index(cs.drop_last(), cluster, id)
    }
}

/// One file's effect on the characters found so far: it names a character
/// (created on first sight, never played, no keymap); a `.uis` / `.opt` file
/// moves its last-played time up to the file's, an `.inp` file is its keymap.
pub open spec fn char_step(cs: Seq<CharView>, f: FileView) -> Seq<CharView> {
    match file_id(f.1) {
        None => cs,
        Some((id, ext)) => {
            let cs2 = match char_index(cs, f.0, id) {
                Some(i) => cs,
                None => cs.push((id, f.0, 0u128, None)),
            };
            let i = match char_index(cs, f.0, id) {
                Some(i) => i,
                None => cs.len() as int,
            };
            let c = cs2[i];
            if ext == "uis"@ || ext == "opt"@ {
                cs2.update(i, (c.0, c.1, if c.2 >= f.3 { c.2 } else { f.3 }, c.3))
            } else if ext == "inp"@ {
                cs2.update(i, (c.0, c.1, c.2, Some(f.2)))
            } else {
                cs2
            }
        },
    }
}

/// The characters the files name, in order of first sight.
pub open spec fn char_group(fs: Seq<FileView>) -> Seq<CharView>
    decreases fs.len(),
{
    if fs.len() == 0 {
        Seq::empty()
    } else {
        char_step(char_group(fs.drop_last()), fs.last())
    }
}

/// Most recently played first; among equal times, by (cluster, id).
pub open spec fn char_before(a: CharView, b: CharView) -> bool {
    ||| a.2 > b.2
    ||| a.2 == b.2 && (seq_lt(a.1, b.1) || (a.1 == b.1 && seq_lt(a.0, b.0)))
}

proof fn lemma_char_before_order(a: CharView, b: CharView, c: CharView)
    ensures
        char_before(a, b) && char_before(b, c) ==> char_before(a, c),
        (a.0, a.1) != (b.0, b.1) ==> char_before(a, b) || char_before(b, a),
        !(char_before(a, b) && char_before(b, a)),
{
    lemma_seq_lt_total(a.1, b.1);
    lemma_seq_lt_total(a.0, b.0);
    lemma_seq_lt_total(b.1, c.1);
    lemma_seq_lt_total(b.0, c.0);
    lemma_seq_lt_total(a.1, c.1);
    lemma_seq_lt_total(a.0, c.0);
    if char_before(a, b) && char_before(b, c) {
        if a.2 == b.2 && b.2 == c.2 {
            if seq_lt(a.1, b.1) && seq_lt(b.1, c.1) {
                lemma_seq_lt_trans(a.1, b.1, c.1);
            }
            if a.1 == b.1 && b.1 == c.1 && seq_lt(a.0, b.0) && seq_lt(b.0, c.0) {
                lemma_seq_lt_trans(a.0, b.0, c.0);
            }
        }
    }
}

fn char_before_exec(a: &Character, b: &Character) -> (r: bool)
    ensures
        r == char_before(a.view_of(), b.view_of()),
{
    a.last_played > b.last_played || (a.last_played == b.last_played && (str_lt(
        a.cluster.as_str(),
        b.cluster.as_str(),
    ) || (crate::text::str_eq(a.cluster.as_str(), b.cluster.as_str()) && str_lt(
        a.id.as_str(),
        b.id.as_str(),
    ))))
}

/// The characters' views, in order.
pub open spec fn char_views(cs: Seq<Character>) -> Seq<CharView> {
    cs.map_values(|c: Character| c.view_of())
}

/// The files' views, in order.
pub open spec fn file_views(fs: Seq<ProfileFile>) -> Seq<FileView> {
    fs.map_values(|f: ProfileFile| f.view_of())
}

/// No two characters share a (cluster, id).
pub open spec fn keys_distinct(cs: Seq<CharView>) -> bool {
    forall|i: int, j: int|
        0 <= i < j < cs.len() ==> !(#[trigger] cs[i].1 == #[trigger] cs[j].1 && cs[i].0 == cs[j].0)
}

/// Strictly ordered by `char_before`.
pub open spec fn chars_sorted(cs: Seq<CharView>) -> bool {
    forall|i: int, j: int| 0 <= i < j < cs.len() ==> char_before(#[trigger] cs[i], #[trigger] cs[j])
}

proof fn lemma_char_index(cs: Seq<CharView>, cluster: Seq<char>, id: Seq<char>)
    ensures
        char_index(cs, cluster, id) matches Some(i) ==> 0 <= i < cs.len() && cs[i].1 == cluster
            && cs[i].0 == id,
        char_index(cs, cluster, id) is None ==> forall|k: int|
            0 <= k < cs.len() ==> !(#[trigger] cs[k].1 == cluster && cs[k].0 == id),
    decreases cs.len(),
{
    if cs.len() > 0 {
        lemma_char_index(cs.drop_last(), cluster, id);
        assert forall|k: int| 0 <= k < cs.len() - 1 implies cs[k] == #[trigger] cs.drop_last()[k] by {}
        if char_index(cs, cluster, id) is None {
            assert forall|k: int| 0 <= k < cs.len() implies !(#[trigger] cs[k].1 == cluster && cs[k].0
                == id) by {
                if k < cs.len() - 1 {
                    assert(cs[k] == cs.drop_last()[k]);
                }
            }
        }
    }
}

proof fn lemma_char_step_distinct(cs: Seq<CharView>, f: FileView)
    requires
        keys_distinct(cs),
    ensures
        keys_distinct(char_step(cs, f)),
{
    match file_id(f.1) {
        None => {},
        Some((id, ext)) => {
            lemma_char_index(cs, f.0, id);
            let cs2 = match char_index(cs, f.0, id) {
                Some(i) => cs,
                None => cs.push((id, f.0, 0u128, None)),
            };
            assert(keys_distinct(cs2)) by {
                if char_index(cs, f.0, id) is None {
                    assert forall|i: int, j: int| 0 <= i < j < cs2.len() implies !(
                    #[trigger] cs2[i].1 == #[trigger] cs2[j].1 && cs2[i].0 == cs2[j].0) by {
                        if j == cs.len() {
                            assert(!(cs[i].1 == f.0 && cs[i].0 == id));
                        } else {
                            assert(cs2[i] == cs[i] && cs2[j] == cs[j]);
                        }
                    }
                }
            }
        },
    }
}

/// The characters a run of files names never repeat a (cluster, id).
pub proof fn lemma_char_group_distinct(fs: Seq<FileView>)
    ensures
        keys_distinct(char_group(fs)),
    decreases fs.len(),
{
    if fs.len() > 0 {
        lemma_char_group_distinct(fs.drop_last());
        lemma_char_step_distinct(char_group(fs.drop_last()), fs.last());
    }
}

/// The id and extension of a profile file's name (see `file_id`).
fn file_id_exec(name: &str) -> (r: Option<(String, String)>)
    ensures
        match r {
            Some((id, ext)) => file_id(name@) == Some((id@, ext@)),
            None => file_id(name@) is None,
        },
{
    let v = chars_of(name);
    let low = lower_range(v.as_slice(), 0, v.len());
    proof {
        assert(v@.subrange(0, v@.len() as int) =~= v@);
        assert(low@.subrange(0, low@.len() as int) =~= low@);
        assert(lower(name@) == low@);
    }
    let dot = find_char_in(low.as_slice(), 0, low.len(), '.');
    match dot {
        None => None,
        Some(i) => {
            assert(find_char(low@, '.') == Some(i as int));
            assert(split_once(low@, '.') == Some((low@.take(i as int), low@.skip(i + 1))));
            if i == 0 {
                assert(low@.take(0).len() == 0);
                return None;
            }
            let mut k: usize = 0;
            while k < i
                invariant
                    k <= i < low.len(),
                    lower(name@) == low@,
                    split_once(low@, '.') == Some((low@.take(i as int), low@.skip(i + 1))),
                    forall|j: int| 0 <= j < k ==> is_digit(#[trigger] low@[j]),
                decreases i - k,
            {
                if !('0' <= low[k] && low[k] <= '9') {
                    proof {
                        assert(!is_digit(low@.take(i as int)[k as int]));
                    }
                    return None;
                }
                k += 1;
            }
            let idv = copy_range(low.as_slice(), 0, i);
            let extv = copy_range(low.as_slice(), i + 1, low.len());
            let id = string_of(idv.as_slice());
            let ext = string_of(extv.as_slice());
            proof {
                assert(idv@ =~= low@.take(i as int));
                assert(extv@ =~= low@.skip(i + 1));
                assert(all_digits(idv@));
            }
            Some((id, ext))
        },
    }
}

/// Index of the character with this cluster and id (see `char_index`).
fn char_find(cs: &Vec<Character>, cluster: &str, id: &str) -> (r: Option<usize>)
    ensures
        match r {
            Some(i) => char_index(char_views(cs@), cluster@, id@) == Some(i as int),
            None => char_index(char_views(cs@), cluster@, id@) is None,
        },
{
    let ghost vs = char_views(cs@);
    let mut i = cs.len();
    assert(vs.take(i as int) =~= vs);
    while i > 0
        invariant
            i <= cs.len(),
            vs == char_views(cs@),
            char_index(vs, cluster@, id@) == char_index(vs.take(i as int), cluster@, id@),
        decreases i,
    {
        let ghost t = vs.take(i as int);
        assert(t.drop_last() =~= vs.take(i - 1));
        assert(t.last() == cs@[i - 1].view_of());
        if str_eq(cs[i - 1].cluster.as_str(), cluster) && str_eq(cs[i - 1].id.as_str(), id) {
            return Some(i - 1);
        }
        i -= 1;
    }
    None
}

/// One file's effect on the characters found so far (see `char_step`).
fn char_step_exec(cs: &mut Vec<Character>, f: &ProfileFile)
    ensures
        char_views(final(cs)@) == char_step(char_views(old(cs)@), f.view_of()),
{
    let ghost vs = char_views(cs@);
    match file_id_exec(f.name.as_str()) {
        None => {},
        Some((id, ext)) => {
            let idx = match char_find(cs, f.cluster.as_str(), id.as_str()) {
                Some(i) => {
                    proof {
                        lemma_char_index(vs, f.cluster@, id@);
                    }
                    i
                },
                None => {
                    cs.push(
                        Character { id: id.clone(), cluster: f.cluster.clone(), last_played: 0, inp: None },
                    );
                    assert(char_views(cs@) =~= vs.push((id@, f.cluster@, 0u128, None)));
                    cs.len() - 1
                },
            };
            let ghost cs2 = char_views(cs@);
            assert(cs2[idx as int] == cs@[idx as int].view_of());
            if str_eq(ext.as_str(), "uis") || str_eq(ext.as_str(), "opt") {
                let mut c = cs.remove(idx);
                if f.modified > c.last_played {
                    c.last_played = f.modified;
                }
                cs.insert(idx, c);
                assert(char_views(cs@) =~= cs2.update(
                    idx as int,
                    (
                        cs2[idx as int].0,
                        cs2[idx as int].1,
                        if cs2[idx as int].2 >= f.modified {
                            cs2[idx as int].2
                        } else {
                            f.modified
                        },
                        cs2[idx as int].3,
                    ),
                ));
            } else if str_eq(ext.as_str(), "inp") {
                let mut c = cs.remove(idx);
                c.inp = Some(f.path.clone());
                cs.insert(idx, c);
                assert(char_views(cs@) =~= cs2.update(
                    idx as int,
                    (cs2[idx as int].0, cs2[idx as int].1, cs2[idx as int].2, Some(f.path@)),
                ));
            }
        },
    }
}

/// Every character the files under `profiles/<user>/<cluster>/` name, most
/// recently played first (ties by cluster, then id).  A file named
/// `<digits>.<ext>` (any case) names the character `<digits>` of its
/// cluster; its `.uis` and `.opt` files give the last-played time, its
/// `.inp` file is its keymap.
pub fn collect_characters(files: &Vec<ProfileFile>) -> (r: Vec<Character>)
    ensures
        char_views(r@).len() == char_group(file_views(files@)).len(),
        forall|x: CharView|
            char_views(r@).contains(x) <==> char_group(file_views(files@)).contains(x),
        chars_sorted(char_views(r@)),
{
    let ghost fv = file_views(files@);
    let mut cs: Vec<Character> = Vec::new();
    let mut k: usize = 0;
    assert(char_views(cs@) =~= char_group(fv.take(0)));
    while k < files.len()
        invariant
            k <= files.len(),
            fv == file_views(files@),
            char_views(cs@) == char_group(fv.take(k as int)),
        decreases files.len() - k,
    {
        char_step_exec(&mut cs, &files[k]);
        assert(fv.take(k + 1).drop_last() =~= fv.take(k as int));
        k += 1;
    }
    assert(fv.take(files.len() as int) =~= fv);
    let ghost g = char_views(cs@);
    proof {
        lemma_char_group_distinct(fv);
    }
    let n = cs.len();
    let mut out: Vec<Character> = Vec::new();
    while cs.len() > 0
        invariant
            n == g.len(),
            keys_distinct(g),
            cs.len() <= n,
            char_views(cs@) == g.take(cs.len() as int),
            out.len() == n - cs.len(),
            forall|x: CharView|
                char_views(out@).contains(x) <==> g.skip(cs.len() as int).contains(x),
            chars_sorted(char_views(out@)),
        decreases cs.len(),
    {
        let ghost m = cs.len() as int;
        let ghost before = cs@;
        let c = cs.pop().unwrap();
        let ghost cv = c.view_of();
        assert(char_views(before)[m - 1] == cv);
        assert(g.take(m)[m - 1] == g[m - 1]);
        assert(char_views(cs@) =~= g.take(m - 1));
        assert(cv == g[m - 1]);
        let ghost ov = char_views(out@);
        // c's key is new to `out`
        assert forall|k: int| 0 <= k < ov.len() implies !(#[trigger] ov[k].1 == cv.1 && ov[k].0
            == cv.0) by {
            assert(ov.contains(ov[k]));
            let j = choose|j: int| 0 <= j < g.skip(m).len() && g.skip(m)[j] == ov[k];
            assert(g[m + j] == ov[k]);
        }
        let mut p: usize = 0;
        while p < out.len() && char_before_exec(&out[p], &c)
            invariant
                p <= out.len(),
                ov == char_views(out@),
                cv == c.view_of(),
                forall|k: int| 0 <= k < p ==> char_before(#[trigger] ov[k], cv),
            decreases out.len() - p,
        {
            p += 1;
        }
        proof {
            if p < ov.len() {
                lemma_char_before_order(ov[p as int], cv, cv);
                assert(char_before(cv, ov[p as int]));
            }
            assert forall|k: int| p <= k < ov.len() implies char_before(cv, #[trigger] ov[k]) by {
                if k > p {
                    lemma_char_before_order(cv, ov[p as int], ov[k]);
                }
            }
        }
        out.insert(p, c);
        proof {
            let nv = char_views(out@);
            assert(nv =~= ov.insert(p as int, cv));
            assert forall|i: int, j: int| 0 <= i < j < nv.len() implies char_before(
                #[trigger] nv[i],
                #[trigger] nv[j],
            ) by {
                if j < p {
                } else if j == p {
                } else if i < p {
                    lemma_char_before_order(nv[i], cv, nv[j]);
                } else if i == p {
                } else {
                }
            }
            let gs = g.skip(m);
            let gs1 = g.skip(m - 1);
            assert(gs1 =~= seq![cv] + gs);
            assert forall|x: CharView| nv.contains(x) <==> gs1.contains(x) by {
                if nv.contains(x) {
                    let i = choose|i: int| 0 <= i < nv.len() && nv[i] == x;
                    if i < p {
                        assert(ov[i] == x);
                        assert(ov.contains(x));
                        assert(gs.contains(x));
                        let j = choose|j: int| 0 <= j < gs.len() && gs[j] == x;
                        assert(gs1[j + 1] == x);
                    } else if i == p {
                        assert(gs1[0] == x);
                    } else {
                        assert(ov[i - 1] == x);
                        assert(ov.contains(x));
                        assert(gs.contains(x));
                        let j = choose|j: int| 0 <= j < gs.len() && gs[j] == x;
                        assert(gs1[j + 1] == x);
                    }
                }
                if gs1.contains(x) {
                    let j = choose|j: int| 0 <= j < gs1.len() && gs1[j] == x;
                    if j == 0 {
                        assert(nv[p as int] == x);
                    } else {
                        assert(gs[j - 1] == x);
                        assert(gs.contains(x));
                        assert(ov.contains(x));
                        let i = choose|i: int| 0 <= i < ov.len() && ov[i] == x;
                        if i < p {
                            assert(nv[i] == x);
                        } else {
                            assert(nv[i + 1] == x);
                        }
                    }
                }
            }
        }
    }
    assert(g.skip(0) =~= g);
    out
}

/// Where the keymap the settings ask for is read from.
pub enum KeymapSource {
    /// the file the settings name, trimmed (a relative path is under the game dir)
    File(String),
    /// the `.inp` file of the most recently played character
    Character(String),
}

/// Why the most recently played character gives no keymap.
pub open spec fn no_keymap_msg(id: Seq<char>, cluster: Seq<char>) -> Seq<char> {
    "last-played character "@ + id + " ("@ + cluster + ") has no saved keymap (stock preset); pick another"@
}

/// The keymap the settings ask for: the file they name, else the one of the
/// most recently played character (`chars` as `collect_characters` orders
/// them).  `Err` says why there is none.
pub fn for_settings(keymap_file: &str, chars: &Vec<Character>) -> (r: Result<KeymapSource, String>)
    ensures
        trim(keymap_file@).len() > 0 ==> (r matches Ok(KeymapSource::File(p)) && p@ == trim(
            keymap_file@,
        )),
        trim(keymap_file@).len() == 0 && chars.len() == 0 ==> (r matches Err(e) && e@
            == "no characters under profiles/"@),
        trim(keymap_file@).len() == 0 && chars.len() > 0 ==> match chars@[0].inp {
            Some(p) => r matches Ok(KeymapSource::Character(q)) && q@ == p@,
            None => r matches Err(e) && e@ == no_keymap_msg(chars@[0].id@, chars@[0].cluster@),
        },
{
    let v = chars_of(keymap_file);
    let (a, b) = trim_bounds(v.as_slice(), 0, v.len());
    proof {
        assert(v@.subrange(0, v@.len() as int) =~= v@);
    }
    if a < b {
        let t = copy_range(v.as_slice(), a, b);
        return Ok(KeymapSource::File(string_of(t.as_slice())));
    }
    if chars.len() == 0 {
        return Err(String::from_str("no characters under profiles/"));
    }
    let c = &chars[0];
    match &c.inp {
        Some(p) => Ok(KeymapSource::Character(p.clone())),
        None => {
            let mut e = String::from_str("last-played character ");
            e.append(c.id.as_str());
            e.append(" (");
            e.append(c.cluster.as_str());
            e.append(") has no saved keymap (stock preset); pick another");
            Err(e)
        },
    }
}

} // verus!
