//! What the installer writes and how it lays files out: the class swatch
//! texture and its cells, the role style and hud patches, the token fill of
//! the page templates, and the order in which files are written and removed.
//! Reading and writing the game folder is left to the caller.

use vstd::prelude::*;
use vstd::string::StringExecFns;
use crate::keymap::{label_spec, KmView, Keymap};
use crate::pathmap::{path_get, path_keys, path_put, paths_ascending};
use crate::settings::{
    debuff_below_fits, debuff_loc_spec, location_error, location_error_exec, parse_loc_spec, Rgb,
    Settings, profession_table, professions,
};
use crate::preview::lemma_profession_keys_distinct;
use crate::text::{
    all_ws_in, byte_to_char, char_index_of_byte, lemma_char_index_of_byte_bound, chars_eq, copy_range, is_ws, rfind_char,
    rfind_char_in, chars_of, dec, dec_pad, append_chars, append_slice, replace_chars, replace_spec,
    push_signed_pad, signed_pad, lemma_seq_lt_total, lemma_seq_lt_trans, push_dec, seq_lt, str_eq, str_lt,
    string_of, lemma_boundary_has_index, lemma_char_index_monotone, lemma_dec_digits,
};

verus! {

/// Suffix of the copy kept of a loose file the installer replaces.
pub const BACKUP_EXT: &'static str = ".pre-unitframes";

/// The client's own icon margin, written back unchanged.
pub const STOCK_ICON_MARGIN: &'static str = "1,2,2,2";

pub const STYLES_FILE: &'static str = "ui\\ui_styles.inc";

pub const HUD_FILE: &'static str = "ui\\ui_ground_hud.inc";

pub const SWATCH_NAME: &'static str = "ui_class_swatch";

pub const SWATCH_FILE: &'static str = "texture\\ui_class_swatch.dds";

/// Side of one swatch cell, in pixels.
pub const SWATCH_CELL: u32 = 16;

/// The swatch keys in texture order (4 columns of 16px cells).
pub open spec fn swatch_keys() -> Seq<Seq<char>> {
    seq![
        "mando"@,
        "officer"@,
        "jedi"@,
        "spy"@,
        "bh"@,
        "medic"@,
        "smuggler"@,
        "ent"@,
        "trader"@,
        "green"@,
        "default"@,
    ]
}

/// Class swatch layout in ui_class_swatch.dds.
pub fn swatch_order() -> (t: [&'static str; 11])
    ensures
        forall|i: int| 0 <= i < 11 ==> (#[trigger] t@[i])@ == swatch_keys()[i],
{
    proof {
        reveal_strlit("mando");
        reveal_strlit("officer");
        reveal_strlit("jedi");
        reveal_strlit("spy");
        reveal_strlit("bh");
        reveal_strlit("medic");
        reveal_strlit("smuggler");
        reveal_strlit("ent");
        reveal_strlit("trader");
        reveal_strlit("green");
        reveal_strlit("default");
    }
    [
        "mando",
        "officer",
        "jedi",
        "spy",
        "bh",
        "medic",
        "smuggler",
        "ent",
        "trader",
        "green",
        "default",
    ]
}

/// Which class swatch a role icon style takes.
pub open spec fn role_map_spec(style: Seq<char>) -> Option<Seq<char>> {
    if style == "commando"@ || style == "advancedCommando"@ || style == "tank"@ || style
        == "advancedTank"@ {
        Some("mando"@)
    } else if style == "officer"@ || style == "advancedOfficer"@ || style == "utility"@ || style
        == "advancedUtilities"@ {
        Some("officer"@)
    } else if style == "force_sensitive"@ || style == "jediDefender"@ || style == "jediEnhancer"@
        || style == "jediHealer"@ || style == "jediPowers"@ || style == "jediSaber"@ || style
        == "advancedJediSaber"@ {
        Some("jedi"@)
    } else if style == "spy"@ || style == "crowdControl"@ || style == "advancedCrowdControl"@ {
        Some("spy"@)
    } else if style == "bounty_hunter"@ || style == "advancedBountyHunter"@ || style == "ranged"@
        || style == "advancedRanged"@ {
        Some("bh"@)
    } else if style == "medic"@ || style == "advancedMedic"@ {
        Some("medic"@)
    } else if style == "smuggler"@ || style == "advancedSmuggler"@ || style == "melee"@ || style
        == "advancedMelee"@ {
        Some("smuggler"@)
    } else if style == "entertainer"@ || style == "advancedEntertainer"@ {
        Some("ent"@)
    } else if style == "trader"@ || style == "artisan"@ || style == "advancedArtisan"@ {
        Some("trader"@)
    } else {
        None
    }
}

fn one_of2(s: &str, a: &str, b: &str) -> (r: bool)
    ensures
        r == (s@ == a@ || s@ == b@),
{
    str_eq(s, a) || str_eq(s, b)
}

fn one_of3(s: &str, a: &str, b: &str, c: &str) -> (r: bool)
    ensures
        r == (s@ == a@ || s@ == b@ || s@ == c@),
{
    str_eq(s, a) || str_eq(s, b) || str_eq(s, c)
}

fn one_of4(s: &str, a: &str, b: &str, c: &str, d: &str) -> (r: bool)
    ensures
        r == (s@ == a@ || s@ == b@ || s@ == c@ || s@ == d@),
{
    str_eq(s, a) || str_eq(s, b) || str_eq(s, c) || str_eq(s, d)
}

/// Role icon style name -> class swatch key.
pub fn role_map(style: &str) -> (r: Option<&'static str>)
    ensures
        match r {
            Some(k) => role_map_spec(style@) == Some(k@),
            None => role_map_spec(style@) is None,
        },
{
    if one_of4(style, "commando", "advancedCommando", "tank", "advancedTank") {
        Some("mando")
    } else if one_of4(style, "officer", "advancedOfficer", "utility", "advancedUtilities") {
        Some("officer")
    } else if one_of4(style, "force_sensitive", "jediDefender", "jediEnhancer", "jediHealer")
        || one_of3(style, "jediPowers", "jediSaber", "advancedJediSaber") {
        Some("jedi")
    } else if one_of3(style, "spy", "crowdControl", "advancedCrowdControl") {
        Some("spy")
    } else if one_of4(style, "bounty_hunter", "advancedBountyHunter", "ranged", "advancedRanged") {
        Some("bh")
    } else if one_of2(style, "medic", "advancedMedic") {
        Some("medic")
    } else if one_of4(style, "smuggler", "advancedSmuggler", "melee", "advancedMelee") {
        Some("smuggler")
    } else if one_of2(style, "entertainer", "advancedEntertainer") {
        Some("ent")
    } else if one_of3(style, "trader", "artisan", "advancedArtisan") {
        Some("trader")
    } else {
        None
    }
}

/// Index of `key` in the swatch order; the last cell ("default") for an
/// unknown key.
pub open spec fn swatch_pos(key: Seq<char>) -> int {
    if exists|i: int| 0 <= i < 11 && swatch_keys()[i] == key {
        choose|i: int| 0 <= i < 11 && swatch_keys()[i] == key
    } else {
        10
    }
}

/// "x,y,x+4,y+4": the 4x4 centre of swatch cell `i`.
pub open spec fn swatch_rect_spec(i: int) -> Seq<char> {
    let x = (i % 4) * 16 + 6;
    let y = (i / 4) * 16 + 6;
    dec(x as nat) + ","@ + dec(y as nat) + ","@ + dec((x + 4) as nat) + ","@ + dec((y + 4) as nat)
}

proof fn lemma_swatch_keys_distinct()
    ensures
        forall|i: int, j: int|
            0 <= i < j < 11 ==> #[trigger] swatch_keys()[i] != #[trigger] swatch_keys()[j],
{
    assert forall|i: int, j: int| 0 <= i < j < 11 implies #[trigger] swatch_keys()[i] != #[trigger] swatch_keys()[j] by {
        reveal_strlit("mando");
        reveal_strlit("officer");
        reveal_strlit("jedi");
        reveal_strlit("spy");
        reveal_strlit("bh");
        reveal_strlit("medic");
        reveal_strlit("smuggler");
        reveal_strlit("ent");
        reveal_strlit("trader");
        reveal_strlit("green");
        reveal_strlit("default");
        let a = swatch_keys()[i];
        let b = swatch_keys()[j];
        assert(a.len() != b.len() || a[0] != b[0] || a[1] != b[1]);
    }
}

/// The swatch cell of `key`.
pub fn swatch_index(key: &str) -> (i: u32)
    ensures
        i == swatch_pos(key@),
        i < 11,
{
    let order = swatch_order();
    let mut i: usize = 0;
    while i < 11
        invariant
            i <= 11,
            forall|k: int| 0 <= k < 11 ==> (#[trigger] order@[k])@ == swatch_keys()[k],
            forall|k: int| 0 <= k < i ==> swatch_keys()[k] != key@,
        decreases 11 - i,
    {
        if str_eq(order[i], key) {
            proof {
                lemma_swatch_keys_distinct();
                assert(swatch_keys()[i as int] == key@);
                let c = choose|j: int| 0 <= j < 11 && swatch_keys()[j] == key@;
                if c != i {
                    if c < i {
                        assert(swatch_keys()[c] != swatch_keys()[i as int]);
                    } else {
                        assert(swatch_keys()[i as int] != swatch_keys()[c]);
                    }
                }
            }
            return i as u32;
        }
        i += 1;
    }
    10
}

/// The 4x4 centre of `key`'s cell in the class swatch, "x,y,x+4,y+4";
/// an unknown key gets the "default" cell.
pub fn swatch_rect(key: &str) -> (s: String)
    ensures
        s@ == swatch_rect_spec(swatch_pos(key@)),
{
    let i = swatch_index(key);
    let x = (i % 4) * SWATCH_CELL + 6;
    let y = (i / 4) * SWATCH_CELL + 6;
    let mut v: Vec<char> = Vec::new();
    push_dec(&mut v, x as u64);
    v.push(',');
    push_dec(&mut v, y as u64);
    v.push(',');
    push_dec(&mut v, (x + 4) as u64);
    v.push(',');
    push_dec(&mut v, (y + 4) as u64);
    proof {
        reveal_strlit(",");
        assert(v@ =~= swatch_rect_spec(i as int));
    }
    string_of(v.as_slice())
}

/// The 31 little-endian words of the DDS header after the magic: a 64x64
/// uncompressed 32-bit BGRA surface.
pub open spec fn dds_header() -> Seq<u32> {
    seq![
        124u32, 0xA1007, 64, 64, 16384, 0, 0, 0, 0, 0, 0, 0, 0, 0, 0, 0, 0, 0, 32, 0x41, 0, 32,
        0x00FF0000, 0x0000FF00, 0x000000FF, 0xFF000000, 0x401008, 0, 0, 0, 0,
    ]
}

/// Byte `k` (0 = least significant) of `v`.
pub open spec fn le_byte(v: u32, k: int) -> u8 {
    if k == 0 {
        (v % 256) as u8
    } else if k == 1 {
        ((v / 256) % 256) as u8
    } else if k == 2 {
        ((v / 65536) % 256) as u8
    } else {
        (v / 16777216) as u8
    }
}

/// Channel `ch` (B, G, R, A) of pixel `p` (row-major, 64 wide): the colour of
/// the 16px cell it lies in, opaque; the cells past the last swatch stay 0.
pub open spec fn swatch_pixel(colours: Seq<Rgb>, p: int, ch: int) -> u8 {
    let x = p % 64;
    let y = p / 64;
    let cell = (y / 16) * 4 + x / 16;
    if cell < 11 {
        let c = colours[cell];
        if ch == 0 {
            c.2
        } else if ch == 1 {
            c.1
        } else if ch == 2 {
            c.0
        } else {
            255u8
        }
    } else {
        0u8
    }
}

/// Byte `o` of the swatch texture: "DDS ", the header, then the pixels.
pub open spec fn dds_byte(colours: Seq<Rgb>, o: int) -> u8 {
    if o < 4 {
        seq![68u8, 68u8, 83u8, 32u8][o]
    } else if o < 128 {
        le_byte(dds_header()[(o - 4) / 4], (o - 4) % 4)
    } else {
        swatch_pixel(colours, (o - 128) / 4, (o - 128) % 4)
    }
}

/// The whole swatch texture.
pub open spec fn swatch_dds_spec(colours: Seq<Rgb>) -> Seq<u8> {
    Seq::new(16512, |o: int| dds_byte(colours, o))
}

proof fn lemma_split4(o: int, w: int, k: int)
    requires
        0 <= k < 4,
        o == 4 * w + k,
    ensures
        o / 4 == w,
        o % 4 == k,
{
    vstd::arithmetic::div_mod::lemma_fundamental_div_mod_converse(o, 4, w, k);
}

proof fn lemma_split64(p: int, y: int, x: int)
    requires
        0 <= x < 64,
        p == 64 * y + x,
    ensures
        p / 64 == y,
        p % 64 == x,
{
    vstd::arithmetic::div_mod::lemma_fundamental_div_mod_converse(p, 64, y, x);
}

/// The rectangle a role style samples (`swatch_rect`) lies inside the cell
/// the texture (`swatch_dds`) paints with that swatch's colour: every pixel
/// of it is the colour, opaque.
pub proof fn lemma_swatch_rect_in_cell(colours: Seq<Rgb>, i: int, dx: int, dy: int, ch: int)
    requires
        colours.len() == 11,
        0 <= i < 11,
        0 <= dx < 4,
        0 <= dy < 4,
        0 <= ch < 4,
    ensures
        ({
            let x = (i % 4) * 16 + 6 + dx;
            let y = (i / 4) * 16 + 6 + dy;
            let c = colours[i];
            swatch_dds_spec(colours)[128 + 4 * (64 * y + x) + ch] == (if ch == 0 {
                c.2
            } else if ch == 1 {
                c.1
            } else if ch == 2 {
                c.0
            } else {
                255u8
            })
        }),
{
    let x = (i % 4) * 16 + 6 + dx;
    let y = (i / 4) * 16 + 6 + dy;
    let p = 64 * y + x;
    lemma_split4(4 * p + ch, p, ch);
    lemma_split64(p, y, x);
    vstd::arithmetic::div_mod::lemma_fundamental_div_mod_converse(x, 16, i % 4, 6 + dx);
    vstd::arithmetic::div_mod::lemma_fundamental_div_mod_converse(y, 16, i / 4, 6 + dy);
    assert((i / 4) * 4 + i % 4 == i) by {
        vstd::arithmetic::div_mod::lemma_fundamental_div_mod(i, 4);
    }
}

/// 64x64 uncompressed BGRA DDS, one 16px cell per swatch entry, `colours`
/// in swatch order.
pub fn swatch_dds(colours: &Vec<Rgb>) -> (out: Vec<u8>)
    requires
        colours.len() == 11,
    ensures
        out@ == swatch_dds_spec(colours@),
{
    let hdr: [u32; 31] = [
        124, 0xA1007, 64, 64, 16384, 0, 0, 0, 0, 0, 0, 0, 0, 0, 0, 0, 0, 0, 32, 0x41, 0, 32,
        0x00FF0000, 0x0000FF00, 0x000000FF, 0xFF000000, 0x401008, 0, 0, 0, 0,
    ];
    assert(hdr@ =~= dds_header());
    let ghost cs = colours@;
    let mut out: Vec<u8> = Vec::new();
    out.push(68);
    out.push(68);
    out.push(83);
    out.push(32);
    assert(out@ =~= swatch_dds_spec(cs).take(4));
    let mut w: usize = 0;
    while w < 31
        invariant
            w <= 31,
            hdr@ == dds_header(),
            out.len() == 4 + 4 * w,
            out@ == swatch_dds_spec(cs).take(out.len() as int),
        decreases 31 - w,
    {
        let v = hdr[w];
        let bytes: [u8; 4] = [
            (v % 256) as u8,
            ((v / 256) % 256) as u8,
            ((v / 65536) % 256) as u8,
            (v / 16777216) as u8,
        ];
        let mut k: usize = 0;
        while k < 4
            invariant
                k <= 4,
                w < 31,
                v == dds_header()[w as int],
                forall|j: int| 0 <= j < 4 ==> #[trigger] bytes@[j] == le_byte(v, j),
                out.len() == 4 + 4 * w + k,
                out@ == swatch_dds_spec(cs).take(out.len() as int),
            decreases 4 - k,
        {
            proof {
                lemma_split4(out.len() - 4, w as int, k as int);
            }
            out.push(bytes[k]);
            assert(out@ =~= swatch_dds_spec(cs).take(out.len() as int));
            k += 1;
        }
        w += 1;
    }
    let mut y: u32 = 0;
    while y < 64
        invariant
            y <= 64,
            cs == colours@,
            cs.len() == 11,
            out.len() == 128 + 4 * (64 * y),
            out@ == swatch_dds_spec(cs).take(out.len() as int),
        decreases 64 - y,
    {
        let mut x: u32 = 0;
        while x < 64
            invariant
                x <= 64,
                y < 64,
                cs == colours@,
                cs.len() == 11,
                out.len() == 128 + 4 * (64 * y + x),
                out@ == swatch_dds_spec(cs).take(out.len() as int),
            decreases 64 - x,
        {
            let cell = (y / 16) * 4 + x / 16;
            let px: [u8; 4] = if cell < 11 {
                let c = colours[cell as usize];
                [c.2, c.1, c.0, 255]
            } else {
                [0, 0, 0, 0]
            };
            proof {
                lemma_split64(64 * y + x, y as int, x as int);
            }
            let mut k: usize = 0;
            while k < 4
                invariant
                    k <= 4,
                    x < 64,
                    y < 64,
                    cs.len() == 11,
                    (64 * y + x) / 64 == y,
                    (64 * y + x) % 64 == x,
                    cell == (y / 16) * 4 + x / 16,
                    forall|j: int| 0 <= j < 4 ==> #[trigger] px@[j] == swatch_pixel(cs, 64 * y + x, j),
                    out.len() == 128 + 4 * (64 * y + x) + k,
                    out@ == swatch_dds_spec(cs).take(out.len() as int),
                decreases 4 - k,
            {
                proof {
                    lemma_split4(out.len() - 128, 64 * y + x, k as int);
                }
                out.push(px[k]);
                assert(out@ =~= swatch_dds_spec(cs).take(out.len() as int));
                k += 1;
            }
            x += 1;
        }
        y += 1;
    }
    assert(out@ =~= swatch_dds_spec(cs));
    out
}

/// Every path the installer can write, whatever the settings: the hud
/// first (it must stop referencing the pet page before that page is
/// removed), then `ui\\<page>` for each page template (`pages`: the page
/// templates, then the toolbar and side toolbar templates), then the role
/// styles and the swatch.
pub open spec fn installable_spec(pages: Seq<Seq<char>>) -> Seq<Seq<char>> {
    seq![HUD_FILE@] + pages.map_values(|f: Seq<char>| "ui\\"@ + f) + seq![STYLES_FILE@, SWATCH_FILE@]
}

pub open spec fn string_views(v: Seq<String>) -> Seq<Seq<char>> {
    v.map_values(|s: String| s@)
}

/// Every path the installer can write (see `installable_spec`).
pub fn all_installable(pages: &Vec<String>) -> (r: Vec<String>)
    ensures
        string_views(r@) == installable_spec(string_views(pages@)),
{
    let ghost pv = string_views(pages@);
    let mut r: Vec<String> = Vec::new();
    r.push(String::from_str(HUD_FILE));
    let mut i: usize = 0;
    while i < pages.len()
        invariant
            i <= pages.len(),
            pv == string_views(pages@),
            string_views(r@) == seq![HUD_FILE@] + pv.take(i as int).map_values(
                |f: Seq<char>| "ui\\"@ + f,
            ),
        decreases pages.len() - i,
    {
        let mut f = String::from_str("ui\\");
        f.append(pages[i].as_str());
        let ghost before = string_views(r@);
        proof {
            assert(pages@[i as int]@ == pv[i as int]);
            assert(f@ == "ui\\"@ + pv[i as int]);
        }
        r.push(f);
        assert(string_views(r@) =~= before.push("ui\\"@ + pv[i as int]));
        assert(string_views(r@) =~= seq![HUD_FILE@] + pv.take(i + 1).map_values(
            |f: Seq<char>| "ui\\"@ + f,
        ));
        i += 1;
    }
    r.push(String::from_str(STYLES_FILE));
    r.push(String::from_str(SWATCH_FILE));
    assert(pv.take(pages.len() as int) =~= pv);
    assert(string_views(r@) =~= installable_spec(pv));
    r
}

/// Path order: the hud first (`hud_last` false) or last (`hud_last` true),
/// the rest by name.
pub open spec fn path_lt(a: Seq<char>, b: Seq<char>, hud_last: bool) -> bool {
    let ha = (a == HUD_FILE@) != hud_last;
    let hb = (b == HUD_FILE@) != hud_last;
    (ha && !hb) || (ha == hb && seq_lt(a, b))
}

pub open spec fn path_le(a: Seq<char>, b: Seq<char>, hud_last: bool) -> bool {
    path_lt(a, b, hud_last) || a == b
}

pub open spec fn paths_sorted(v: Seq<Seq<char>>, hud_last: bool) -> bool {
    forall|i: int, j: int| 0 <= i < j < v.len() ==> path_le(#[trigger] v[i], #[trigger] v[j], hud_last)
}

proof fn lemma_path_order(a: Seq<char>, b: Seq<char>, c: Seq<char>, hud_last: bool)
    ensures
        path_le(a, b, hud_last) && path_le(b, c, hud_last) ==> path_le(a, c, hud_last),
        path_le(a, b, hud_last) || path_le(b, a, hud_last),
        !path_lt(a, b, hud_last) ==> path_le(b, a, hud_last),
{
    lemma_seq_lt_total(a, b);
    lemma_seq_lt_total(b, c);
    lemma_seq_lt_total(a, c);
    if seq_lt(a, b) && seq_lt(b, c) {
        lemma_seq_lt_trans(a, b, c);
    }
}

fn path_lt_exec(a: &str, b: &str, hud_last: bool) -> (r: bool)
    ensures
        r == path_lt(a@, b@, hud_last),
{
    let ha = str_eq(a, HUD_FILE) != hud_last;
    let hb = str_eq(b, HUD_FILE) != hud_last;
    (ha && !hb) || (ha == hb && str_lt(a, b))
}

/// `paths` sorted: the hud first (`hud_last` false) or last, the rest by
/// name (`str` order).
pub fn order_paths(paths: Vec<String>, hud_last: bool) -> (r: Vec<String>)
    ensures
        string_views(r@).to_multiset() == string_views(paths@).to_multiset(),
        paths_sorted(string_views(r@), hud_last),
{
    broadcast use vstd::seq_lib::group_to_multiset_ensures;

    let ghost all = string_views(paths@).to_multiset();
    let mut rest = paths;
    let mut out: Vec<String> = Vec::new();
    assert(string_views(out@) =~= Seq::<Seq<char>>::empty());
    while rest.len() > 0
        invariant
            string_views(out@).to_multiset().add(string_views(rest@).to_multiset()) == all,
            paths_sorted(string_views(out@), hud_last),
            forall|i: int, j: int|
                0 <= i < out.len() && 0 <= j < rest.len() ==> path_le(
                    #[trigger] out@[i]@,
                    #[trigger] rest@[j]@,
                    hud_last,
                ),
        decreases rest.len(),
    {
        let mut m: usize = 0;
        let mut k: usize = 1;
        while k < rest.len()
            invariant
                0 <= m < rest.len(),
                1 <= k <= rest.len(),
                forall|j: int| 0 <= j < k ==> path_le(rest@[m as int]@, #[trigger] rest@[j]@, hud_last),
            decreases rest.len() - k,
        {
            proof {
                lemma_path_order(rest@[k as int]@, rest@[m as int]@, rest@[m as int]@, hud_last);
            }
            if path_lt_exec(rest[k].as_str(), rest[m].as_str(), hud_last) {
                proof {
                    assert forall|j: int| 0 <= j <= k implies path_le(
                        rest@[k as int]@,
                        #[trigger] rest@[j]@,
                        hud_last,
                    ) by {
                        lemma_path_order(rest@[k as int]@, rest@[m as int]@, rest@[j]@, hud_last);
                    }
                }
                m = k;
            }
            k += 1;
        }
        let ghost rv = string_views(rest@);
        let ghost ov = string_views(out@);
        let ghost old_rest = rest@;
        let ghost old_out = out@;
        let x = rest.remove(m);
        proof {
            assert(string_views(rest@) =~= rv.remove(m as int));
            assert(rv[m as int] == x@);
            assert(old_rest[m as int] == x);
        }
        out.push(x);
        proof {
            assert(string_views(out@) =~= ov.push(x@));
            rv.to_multiset_ensures();
            ov.to_multiset_ensures();
            assert(rv.contains(x@));
            assert(rv.to_multiset().count(x@) > 0);
            assert(ov.push(x@).to_multiset().add(rv.remove(m as int).to_multiset()) =~= ov.to_multiset().add(
                rv.to_multiset(),
            ));
            assert forall|i: int, j: int| 0 <= i < j < out.len() implies path_le(
                #[trigger] string_views(out@)[i],
                #[trigger] string_views(out@)[j],
                hud_last,
            ) by {
                if j == out.len() - 1 {
                    assert(old_out[i]@ == string_views(out@)[i]);
                    assert(path_le(old_out[i]@, old_rest[m as int]@, hud_last));
                } else {
                    assert(ov[i] == string_views(out@)[i]);
                    assert(ov[j] == string_views(out@)[j]);
                }
            }
            assert forall|i: int, j: int| 0 <= i < out.len() && 0 <= j < rest.len() implies path_le(
                #[trigger] out@[i]@,
                #[trigger] rest@[j]@,
                hud_last,
            ) by {
                let jj = if j < m {
                    j
                } else {
                    j + 1
                };
                assert(rest@[j] == old_rest[jj]);
                if i < out.len() - 1 {
                    assert(out@[i] == old_out[i]);
                    assert(path_le(old_out[i]@, old_rest[jj]@, hud_last));
                } else {
                    assert(path_le(old_rest[m as int]@, old_rest[jj]@, hud_last));
                }
            }
        }
    }
    assert(string_views(rest@).to_multiset() =~= vstd::multiset::Multiset::empty());
    out
}

/// The files `remove` handles: those the manifest records (all the
/// installer can write when it records none), plus `extras` missing from
/// them, each put in front.
pub open spec fn with_extras(files: Seq<Seq<char>>, extras: Seq<Seq<char>>) -> Seq<Seq<char>>
    decreases extras.len(),
{
    if extras.len() == 0 {
        files
    } else {
        let f2 = if files.contains(extras[0]) {
            files
        } else {
            seq![extras[0]] + files
        };
        with_extras(f2, extras.drop_first())
    }
}

/// What `remove` goes through: the recorded files (or, with none recorded,
/// every installable one), plus every installable file under `force` and the
/// hud otherwise.
pub open spec fn removal_set(recorded: Seq<Seq<char>>, installable: Seq<Seq<char>>, force: bool) -> Seq<
    Seq<char>,
> {
    let base = if recorded.len() > 0 {
        recorded
    } else {
        installable
    };
    with_extras(
        base,
        if force {
            installable
        } else {
            seq![HUD_FILE@]
        },
    )
}

/// Whether `s` is one of `v`.
pub fn contains_str(v: &Vec<String>, s: &str) -> (r: bool)
    ensures
        r == string_views(v@).contains(s@),
{
    let mut i: usize = 0;
    while i < v.len()
        invariant
            i <= v.len(),
            forall|k: int| 0 <= k < i ==> v@[k]@ != s@,
        decreases v.len() - i,
    {
        if str_eq(v[i].as_str(), s) {
            assert(string_views(v@)[i as int] == s@);
            return true;
        }
        i += 1;
    }
    proof {
        if string_views(v@).contains(s@) {
            let k = choose|k: int| 0 <= k < string_views(v@).len() && string_views(v@)[k] == s@;
            assert(v@[k]@ == s@);
        }
    }
    false
}

fn copy_strings(v: &Vec<String>) -> (r: Vec<String>)
    ensures
        string_views(r@) == string_views(v@),
{
    let mut r: Vec<String> = Vec::new();
    let mut i: usize = 0;
    while i < v.len()
        invariant
            i <= v.len(),
            string_views(r@) == string_views(v@).take(i as int),
        decreases v.len() - i,
    {
        let ghost before = string_views(r@);
        let c = v[i].clone();
        assert(c@ == v@[i as int]@);
        r.push(c);
        assert(string_views(r@) =~= before.push(v@[i as int]@));
        assert(string_views(r@) =~= string_views(v@).take(i + 1));
        i += 1;
    }
    assert(string_views(v@).take(v.len() as int) =~= string_views(v@));
    r
}

proof fn lemma_with_extras_contains(files: Seq<Seq<char>>, extras: Seq<Seq<char>>, x: Seq<char>)
    ensures
        with_extras(files, extras).contains(x) <==> files.contains(x) || extras.contains(x),
    decreases extras.len(),
{
    if extras.len() > 0 {
        let f2 = if files.contains(extras[0]) {
            files
        } else {
            seq![extras[0]] + files
        };
        lemma_with_extras_contains(f2, extras.drop_first(), x);
        if !files.contains(extras[0]) {
            if f2.contains(x) {
                let k = choose|k: int| 0 <= k < f2.len() && f2[k] == x;
                if k > 0 {
                    assert(files[k - 1] == x);
                }
            }
            if files.contains(x) {
                let k = choose|k: int| 0 <= k < files.len() && files[k] == x;
                assert(f2[k + 1] == x);
            }
            assert(f2[0] == extras[0]);
        }
        if extras.contains(x) && x != extras[0] {
            let k = choose|k: int| 0 <= k < extras.len() && extras[k] == x;
            assert(extras.drop_first()[k - 1] == x);
        }
        if extras.drop_first().contains(x) {
            let k = choose|k: int| 0 <= k < extras.drop_first().len() && extras.drop_first()[k] == x;
            assert(extras[k + 1] == x);
        }
    }
}

/// A sorted list that holds the hud starts with it (hud-first order).
proof fn lemma_hud_first(v: Seq<Seq<char>>)
    requires
        paths_sorted(v, false),
        v.contains(HUD_FILE@),
    ensures
        v[0] == HUD_FILE@,
{
    let k = choose|k: int| 0 <= k < v.len() && v[k] == HUD_FILE@;
    if k > 0 {
        assert(path_le(v[0], v[k], false));
    }
}

/// The order in which `remove` handles the files: `removal_set` with the hud
/// first and the rest by name.  `recorded` lists the files the manifest
/// records (empty without one), `installable` what `all_installable` gives.
/// The hud is handled, and handled first, whenever it is among the
/// installable files or `force` is off: it must stop including the pet page
/// before that page is removed.
pub fn removal_order(recorded: &Vec<String>, installable: &Vec<String>, force: bool) -> (r: Vec<
    String,
>)
    ensures
        string_views(r@).to_multiset() == removal_set(
            string_views(recorded@),
            string_views(installable@),
            force,
        ).to_multiset(),
        paths_sorted(string_views(r@), false),
        !force || string_views(installable@).contains(HUD_FILE@) ==> string_views(r@).len() > 0
            && string_views(r@)[0] == HUD_FILE@,
{
    let mut files = if recorded.len() > 0 {
        copy_strings(recorded)
    } else {
        copy_strings(installable)
    };
    let extras: Vec<String> = if force {
        copy_strings(installable)
    } else {
        let mut e: Vec<String> = Vec::new();
        e.push(String::from_str(HUD_FILE));
        assert(string_views(e@) =~= seq![HUD_FILE@]);
        e
    };
    let ghost ev = string_views(extras@);
    let ghost base = string_views(files@);
    let mut i: usize = 0;
    assert(ev.skip(0) =~= ev);
    while i < extras.len()
        invariant
            i <= extras.len(),
            ev == string_views(extras@),
            with_extras(base, ev) == with_extras(string_views(files@), ev.skip(i as int)),
        decreases extras.len() - i,
    {
        let ghost fv = string_views(files@);
        assert(ev.skip(i as int).drop_first() =~= ev.skip(i + 1));
        assert(ev.skip(i as int)[0] == extras@[i as int]@);
        if !contains_str(&files, extras[i].as_str()) {
            files.insert(0, extras[i].clone());
            assert(string_views(files@) =~= seq![extras@[i as int]@] + fv);
        }
        i += 1;
    }
    assert(ev.skip(extras.len() as int) =~= Seq::<Seq<char>>::empty());
    let ghost set = string_views(files@);
    let r = order_paths(files, false);
    proof {
        if !force || string_views(installable@).contains(HUD_FILE@) {
            let rec = string_views(recorded@);
            let inst = string_views(installable@);
            let b = if rec.len() > 0 {
                rec
            } else {
                inst
            };
            let ex = if force {
                inst
            } else {
                seq![HUD_FILE@]
            };
            assert(ex.contains(HUD_FILE@)) by {
                if !force {
                    assert(ex[0] == HUD_FILE@);
                }
            }
            lemma_with_extras_contains(b, ex, HUD_FILE@);
            assert(base == b);
            assert(ev == ex);
            assert(set == with_extras(b, ex));
            assert(set.contains(HUD_FILE@));
            string_views(r@).to_multiset_ensures();
            set.to_multiset_ensures();
            assert(set.to_multiset().count(HUD_FILE@) > 0);
            assert(string_views(r@).contains(HUD_FILE@));
            lemma_hud_first(string_views(r@));
        }
    }
    r
}

/// The order in which `install` writes the files: by name, the hud last, so
/// that a write failing partway never leaves a hud including a page that is
/// not on disk.
pub fn install_order(names: Vec<String>) -> (r: Vec<String>)
    ensures
        string_views(r@).to_multiset() == string_views(names@).to_multiset(),
        paths_sorted(string_views(r@), true),
        string_views(names@).contains(HUD_FILE@) ==> string_views(r@).last() == HUD_FILE@,
{
    let ghost nv = string_views(names@);
    let r = order_paths(names, true);
    proof {
        if nv.contains(HUD_FILE@) {
            let rv = string_views(r@);
            rv.to_multiset_ensures();
            nv.to_multiset_ensures();
            assert(nv.to_multiset().count(HUD_FILE@) > 0);
            assert(rv.contains(HUD_FILE@));
            lemma_hud_last(rv);
        }
    }
    r
}

/// A list sorted hud-last that holds the hud ends with it.
proof fn lemma_hud_last(v: Seq<Seq<char>>)
    requires
        paths_sorted(v, true),
        v.contains(HUD_FILE@),
    ensures
        v.last() == HUD_FILE@,
{
    let k = choose|k: int| 0 <= k < v.len() && v[k] == HUD_FILE@;
    if k < v.len() - 1 {
        assert(path_le(v[k], v[v.len() - 1], true));
    }
}

/// Everything the installer would write, by path under the game folder.
pub struct Rendered {
    pub files: Vec<(String, Vec<u8>)>,
    pub health: Rgb,
    /// the keymap file the action bar labels came from, if one was found
    pub keymap: Option<String>,
    /// why there is none (labels left blank)
    pub keymap_err: Option<String>,
}

/// What `remove` does with one file.
#[derive(PartialEq, Eq, Structural, Clone, Copy, Debug)]
pub enum RemoveStep {
    /// the file is gone; its backup is put back ("restored <rel>")
    RestoreMissing,
    /// the file is gone and has no backup: nothing to do
    Nothing,
    /// the file changed since install; it stays ("<rel> differs ...")
    Changed,
    /// a hud nobody recorded that is not ours; it stays ("<rel> is not ours ...")
    NotOurs,
    /// the backup replaces the file ("restored previous <rel>")
    RestorePrevious,
    /// the file is deleted ("removed <rel>")
    Delete,
}

/// The step `remove` takes for the file `rel`.  `recorded`: the hash the
/// manifest records for it; `actual`: the file's hash now, asked for only
/// when the file exists, `force` is off and a hash is recorded; `is_our_hud`:
/// whether the file is exactly the hud this installer writes over the stock
/// one, asked for only for an unrecorded hud without backup.
pub open spec fn remove_step_spec(
    rel: Seq<char>,
    target_exists: bool,
    backup_exists: bool,
    force: bool,
    recorded: Option<Seq<char>>,
    actual: Option<Seq<char>>,
    is_our_hud: bool,
) -> RemoveStep {
    if !target_exists {
        if backup_exists {
            RemoveStep::RestoreMissing
        } else {
            RemoveStep::Nothing
        }
    } else if !force && recorded is Some && actual != recorded {
        RemoveStep::Changed
    } else if !force && recorded is None && rel == HUD_FILE@ && !backup_exists && !is_our_hud {
        RemoveStep::NotOurs
    } else if backup_exists {
        RemoveStep::RestorePrevious
    } else {
        RemoveStep::Delete
    }
}

/// The step `remove` takes for one file (see `remove_step_spec`).
pub fn remove_step(
    rel: &str,
    target_exists: bool,
    backup_exists: bool,
    force: bool,
    recorded: Option<&str>,
    actual: Option<&str>,
    is_our_hud: bool,
) -> (r: RemoveStep)
    ensures
        r == remove_step_spec(
            rel@,
            target_exists,
            backup_exists,
            force,
            match recorded {
                Some(h) => Some(h@),
                None => None,
            },
            match actual {
                Some(h) => Some(h@),
                None => None,
            },
            is_our_hud,
        ),
{
    if !target_exists {
        return if backup_exists {
            RemoveStep::RestoreMissing
        } else {
            RemoveStep::Nothing
        };
    }
    if !force {
        match recorded {
            Some(expected) => {
                let same = match actual {
                    Some(a) => str_eq(a, expected),
                    None => false,
                };
                if !same {
                    return RemoveStep::Changed;
                }
            },
            None => {
                if str_eq(rel, HUD_FILE) && !backup_exists && !is_our_hud {
                    return RemoveStep::NotOurs;
                }
            },
        }
    }
    if backup_exists {
        RemoveStep::RestorePrevious
    } else {
        RemoveStep::Delete
    }
}

/// The log line of a step, if it has one.
pub open spec fn remove_log_spec(step: RemoveStep, rel: Seq<char>) -> Option<Seq<char>> {
    match step {
        RemoveStep::RestoreMissing => Some("restored "@ + rel),
        RemoveStep::Nothing => None,
        RemoveStep::Changed => Some(rel + " differs from what we wrote - leaving it (use Force)"@),
        RemoveStep::NotOurs => Some(rel + " is not ours - leaving it (use Force)"@),
        RemoveStep::RestorePrevious => Some("restored previous "@ + rel),
        RemoveStep::Delete => Some("removed "@ + rel),
    }
}

fn concat(a: &str, b: &str) -> (s: String)
    ensures
        s@ == a@ + b@,
{
    let mut s = String::from_str(a);
    s.append(b);
    s
}

/// The line `remove` logs for a step.
pub fn remove_log(step: RemoveStep, rel: &str) -> (r: Option<String>)
    ensures
        match r {
            Some(l) => remove_log_spec(step, rel@) == Some(l@),
            None => remove_log_spec(step, rel@) is None,
        },
{
    match step {
        RemoveStep::RestoreMissing => Some(concat("restored ", rel)),
        RemoveStep::Nothing => None,
        RemoveStep::Changed => Some(concat(rel, " differs from what we wrote - leaving it (use Force)")),
        RemoveStep::NotOurs => Some(concat(rel, " is not ours - leaving it (use Force)")),
        RemoveStep::RestorePrevious => Some(concat("restored previous ", rel)),
        RemoveStep::Delete => Some(concat("removed ", rel)),
    }
}

/// A changed file is never touched without `force`, and a missing one is
/// never deleted: `remove` only restores or deletes what it may.
pub proof fn lemma_remove_keeps_changed(
    rel: Seq<char>,
    target_exists: bool,
    backup_exists: bool,
    recorded: Seq<char>,
    actual: Seq<char>,
    is_our_hud: bool,
)
    requires
        actual != recorded,
    ensures
        target_exists ==> remove_step_spec(
            rel,
            target_exists,
            backup_exists,
            false,
            Some(recorded),
            Some(actual),
            is_our_hud,
        ) == RemoveStep::Changed,
        !target_exists ==> remove_step_spec(
            rel,
            target_exists,
            backup_exists,
            false,
            Some(recorded),
            Some(actual),
            is_our_hud,
        ) != RemoveStep::Delete,
{
}

/// Remove undoes install: a file install wrote over a loose one (and backed
/// that up) gets the backup back, and a file install wrote where there was
/// none is deleted, as long as it is unchanged since install (its hash is
/// the recorded one) or `force` is on.
pub proof fn lemma_remove_undoes_install(
    rel: Seq<char>,
    backup_exists: bool,
    force: bool,
    recorded: Option<Seq<char>>,
    actual: Option<Seq<char>>,
    is_our_hud: bool,
)
    requires
        force || (recorded is Some && actual == recorded),
    ensures
        remove_step_spec(rel, true, backup_exists, force, recorded, actual, is_our_hud) == (if backup_exists {
            RemoveStep::RestorePrevious
        } else {
            RemoveStep::Delete
        }),
{
}

/// Only the hud is ever left as not ours: `remove` leaves a file as not
/// ours only when it is the hud, unrecorded, without backup and without
/// `force`; any other file that is there with no recorded hash and no
/// backup is deleted.
pub proof fn lemma_only_the_hud_is_not_ours(
    rel: Seq<char>,
    target_exists: bool,
    backup_exists: bool,
    force: bool,
    recorded: Option<Seq<char>>,
    actual: Option<Seq<char>>,
    is_our_hud: bool,
)
    ensures
        remove_step_spec(rel, target_exists, backup_exists, force, recorded, actual, is_our_hud)
            == RemoveStep::NotOurs ==> rel == HUD_FILE@ && recorded is None && !force && !backup_exists
            && target_exists,
        rel != HUD_FILE@ && target_exists && !backup_exists && recorded is None ==> remove_step_spec(
            rel,
            target_exists,
            backup_exists,
            force,
            recorded,
            actual,
            is_our_hud,
        ) == RemoveStep::Delete,
{
}

/// The last line of defence after removing: the client will not start if the
/// hud includes a pet page that is not there, so a hud that does (`hud_file`
/// and `hud_names_pet` true, `pet_file` false) is restored from its backup,
/// else deleted.  `None`: leave the hud.
pub open spec fn strand_fix_spec(hud_file: bool, pet_file: bool, hud_names_pet: bool, backup_exists: bool) -> Option<
    RemoveStep,
> {
    if hud_file && !pet_file && hud_names_pet {
        Some(
            if backup_exists {
                RemoveStep::RestorePrevious
            } else {
                RemoveStep::Delete
            },
        )
    } else {
        None
    }
}

pub fn strand_fix(hud_file: bool, pet_file: bool, hud_names_pet: bool, backup_exists: bool) -> (r: Option<
    RemoveStep,
>)
    ensures
        r == strand_fix_spec(hud_file, pet_file, hud_names_pet, backup_exists),
{
    if hud_file && !pet_file && hud_names_pet {
        Some(
            if backup_exists {
                RemoveStep::RestorePrevious
            } else {
                RemoveStep::Delete
            },
        )
    } else {
        None
    }
}

/// What a remove step does to a file and its backup (each `None` when
/// absent): putting the backup back moves it over the file; deleting
/// removes the file; the other steps leave both.
pub open spec fn step_effect(step: RemoveStep, file: Option<Seq<u8>>, backup: Option<Seq<u8>>) -> (
    Option<Seq<u8>>,
    Option<Seq<u8>>,
) {
    match step {
        RemoveStep::RestoreMissing => (backup, None),
        RemoveStep::RestorePrevious => (backup, None),
        RemoveStep::Delete => (None, backup),
        _ => (file, backup),
    }
}

/// What `install` does to a file and its backup: the loose file is kept as
/// the backup when `keeps_backup` says so, and `written` takes its place.
pub open spec fn install_effect(
    file: Option<Seq<u8>>,
    backup: Option<Seq<u8>>,
    ours_before: bool,
    written: Seq<u8>,
) -> (Option<Seq<u8>>, Option<Seq<u8>>) {
    (Some(written), if keeps_backup_spec(file is Some, backup is Some, ours_before) {
        file
    } else {
        backup
    })
}

/// A hud never outlives the pet page it includes: whatever the removal
/// left (`hud` and its `backup`, whether the pet page file is there), the
/// last-defence step leaves no hud that names the pet page while the pet
/// page is missing, as long as the backup it may put back does not name it
/// either.
pub proof fn lemma_no_stranded_hud(
    hud: Option<Seq<u8>>,
    backup: Option<Seq<u8>>,
    pet_file: bool,
    names_pet: spec_fn(Seq<u8>) -> bool,
)
    requires
        backup matches Some(b) ==> !names_pet(b),
    ensures
        ({
            let fix = strand_fix_spec(
                hud is Some,
                pet_file,
                hud matches Some(h) && names_pet(h),
                backup is Some,
            );
            let after = match fix {
                Some(step) => step_effect(step, hud, backup).0,
                None => hud,
            };
            !pet_file ==> !(after matches Some(h) && names_pet(h))
        }),
{
}

/// A forced remove after an install puts back what install found: a loose
/// file install kept a backup of is restored, and a file install created
/// where there was none is deleted, leaving no backup behind.
pub proof fn lemma_forced_remove_after_install(
    rel: Seq<char>,
    file: Option<Seq<u8>>,
    written: Seq<u8>,
    recorded: Option<Seq<char>>,
    actual: Option<Seq<char>>,
    is_our_hud: bool,
)
    ensures
        ({
            let (f1, b1) = install_effect(file, None, false, written);
            let step = remove_step_spec(rel, f1 is Some, b1 is Some, true, recorded, actual, is_our_hud);
            step_effect(step, f1, b1) == (file, None::<Seq<u8>>)
        }),
{
}

/// The log line of the last-defence step.
pub fn strand_fix_log(step: RemoveStep) -> (r: String)
    ensures
        step == RemoveStep::RestorePrevious ==> r@ == "restored previous "@ + HUD_FILE@
            + " (it referenced the removed pet page)"@,
        step != RemoveStep::RestorePrevious ==> r@ == "removed "@ + HUD_FILE@
            + ": it referenced the removed pet page and would not have loaded"@,
{
    if step == RemoveStep::RestorePrevious {
        let mut s = concat("restored previous ", HUD_FILE);
        s.append(" (it referenced the removed pet page)");
        s
    } else {
        let mut s = concat("removed ", HUD_FILE);
        s.append(": it referenced the removed pet page and would not have loaded");
        s
    }
}

/// Whether `install` keeps the loose file it is about to overwrite: when
/// there is one, it has no backup yet, and the previous install did not
/// write it.
pub open spec fn keeps_backup_spec(target_exists: bool, backup_exists: bool, ours_before: bool) -> bool {
    target_exists && !backup_exists && !ours_before
}

/// Whether `install` keeps the loose file it is about to overwrite (see
/// `keeps_backup_spec`).
pub fn keeps_backup(target_exists: bool, backup_exists: bool, ours_before: bool) -> (r: bool)
    ensures
        r == keeps_backup_spec(target_exists, backup_exists, ours_before),
{
    target_exists && !backup_exists && !ours_before
}

/// "kept previous <rel> as <rel>.pre-unitframes"
pub fn backup_log(rel: &str) -> (s: String)
    ensures
        s@ == "kept previous "@ + rel@ + " as "@ + rel@ + BACKUP_EXT@,
{
    let mut s = concat("kept previous ", rel);
    s.append(" as ");
    s.append(rel);
    s.append(BACKUP_EXT);
    s
}

/// The files the previous install recorded that this one no longer writes,
/// in the previous manifest's order.
pub open spec fn stale_spec(previous: Seq<Seq<char>>, now: Seq<Seq<char>>) -> Seq<Seq<char>> {
    previous.filter(|f: Seq<char>| !now.contains(f))
}

pub fn stale_files(previous: &Vec<String>, now: &Vec<String>) -> (r: Vec<String>)
    ensures
        string_views(r@) == stale_spec(string_views(previous@), string_views(now@)),
{
    let ghost pv = string_views(previous@);
    let ghost nv = string_views(now@);
    let mut r: Vec<String> = Vec::new();
    let mut i: usize = 0;
    while i < previous.len()
        invariant
            i <= previous.len(),
            pv == string_views(previous@),
            nv == string_views(now@),
            string_views(r@) == pv.take(i as int).filter(|f: Seq<char>| !nv.contains(f)),
        decreases previous.len() - i,
    {
        proof {
            reveal(Seq::filter);
        }
        assert(pv.take(i + 1).drop_last() =~= pv.take(i as int));
        assert(pv.take(i + 1).last() == previous@[i as int]@);
        let ghost before = string_views(r@);
        if !contains_str(now, previous[i].as_str()) {
            let c = previous[i].clone();
            r.push(c);
            assert(string_views(r@) =~= before.push(previous@[i as int]@));
        }
        i += 1;
    }
    assert(pv.take(previous.len() as int) =~= pv);
    r
}

/// What `install` does with a file the previous install wrote and this one
/// does not: its backup goes back (`RestorePrevious`), else it is deleted
/// (`Delete`), else there is nothing to do (`Nothing`).
pub fn stale_step(backup_exists: bool, target_exists: bool) -> (r: RemoveStep)
    ensures
        r == (if backup_exists {
            RemoveStep::RestorePrevious
        } else if target_exists {
            RemoveStep::Delete
        } else {
            RemoveStep::Nothing
        }),
{
    if backup_exists {
        RemoveStep::RestorePrevious
    } else if target_exists {
        RemoveStep::Delete
    } else {
        RemoveStep::Nothing
    }
}

/// The game folder `remove` works on: the one asked for, else the one the
/// manifest records, else the default install folder.
pub fn remove_game_dir(asked: Option<&str>, recorded: Option<&str>) -> (r: String)
    ensures
        r@ == match asked {
            Some(a) => a@,
            None => match recorded {
                Some(g) => g@,
                None => "C:\\SWG Legends"@,
            },
        },
{
    match asked {
        Some(a) => String::from_str(a),
        None => match recorded {
            Some(g) => String::from_str(g),
            None => String::from_str("C:\\SWG Legends"),
        },
    }
}

/// What SHA-256 makes of some bytes (the 32-byte digest).
pub uninterp spec fn sha256_of(b: Seq<u8>) -> Seq<u8>;

/// `sha2::Sha256::digest`: the SHA-256 digest of `b`, named `sha256_of`;
/// a SHA-256 digest is 32 bytes long.
#[verifier::external_body]
fn sha256_digest(b: &[u8]) -> (d: Vec<u8>)
    ensures
        d@ == sha256_of(b@),
        d@.len() == 32,
{
    <sha2::Sha256 as sha2::Digest>::digest(b).to_vec()
}

/// Lowercase hex digit of `v` (0..16).
pub open spec fn hex_digit_lower(v: int) -> char {
    if v < 10 {
        (48 + v) as char
    } else {
        (87 + v) as char
    }
}

/// Two lowercase hex digits per byte, most significant first.
pub open spec fn hex_lower(b: Seq<u8>) -> Seq<char>
    decreases b.len(),
{
    if b.len() == 0 {
        Seq::empty()
    } else {
        hex_lower(b.drop_last()) + seq![
            hex_digit_lower(b.last() as int / 16),
            hex_digit_lower(b.last() as int % 16),
        ]
    }
}

fn hex_digit_lower_exec(v: u8) -> (c: char)
    requires
        v < 16,
    ensures
        c == hex_digit_lower(v as int),
{
    if v < 10 {
        (48 + v) as char
    } else {
        (87 + v) as char
    }
}

/// The SHA-256 of `b` as the manifest records it: lowercase hex.
pub fn sha256_hex(b: &[u8]) -> (s: String)
    ensures
        s@ == hex_lower(sha256_of(b@)),
{
    let d = sha256_digest(b);
    let mut v: Vec<char> = Vec::new();
    let mut i: usize = 0;
    while i < d.len()
        invariant
            i <= d.len(),
            v@ == hex_lower(d@.take(i as int)),
        decreases d.len() - i,
    {
        assert(d@.take(i + 1).drop_last() =~= d@.take(i as int));
        v.push(hex_digit_lower_exec(d[i] / 16));
        v.push(hex_digit_lower_exec(d[i] % 16));
        i += 1;
    }
    assert(d@.take(d.len() as int) =~= d@);
    string_of(v.as_slice())
}

/// "unix:<seconds>": when an install was made.
pub fn now_iso(unix_secs: u64) -> (s: String)
    ensures
        s@ == "unix:"@ + dec(unix_secs as nat),
{
    let mut v = chars_of("unix:");
    push_dec(&mut v, unix_secs);
    string_of(v.as_slice())
}

/// What the last install wrote: the game folder, when, and the SHA-256 of
/// each file by its path under the game folder.
pub struct Manifest {
    pub game_dir: String,
    pub installed: String,
    pub files: Vec<(String, String)>,
}

/// The hash recorded for `rel`.
pub open spec fn manifest_lookup(files: Seq<(String, String)>, rel: Seq<char>) -> Option<Seq<char>> {
    match path_get(files, rel) {
        Some(h) => Some(h@),
        None => None,
    }
}

/// The recorded paths, in order.
pub open spec fn manifest_paths(files: Seq<(String, String)>) -> Seq<Seq<char>> {
    path_keys(files)
}

/// The manifest keeps its paths as a map does: in ascending order, each
/// once.
pub open spec fn manifest_wf(files: Seq<(String, String)>) -> bool {
    paths_ascending(files)
}

impl Manifest {
    /// The hash recorded for `rel`.
    pub fn get(&self, rel: &str) -> (r: Option<&str>)
        ensures
            match r {
                Some(h) => manifest_lookup(self.files@, rel@) == Some(h@),
                None => manifest_lookup(self.files@, rel@) is None,
            },
    {
        let mut i = self.files.len();
        assert(self.files@.take(i as int) =~= self.files@);
        while i > 0
            invariant
                i <= self.files.len(),
                manifest_lookup(self.files@, rel@) == manifest_lookup(self.files@.take(i as int), rel@),
            decreases i,
        {
            assert(self.files@.take(i as int).drop_last() =~= self.files@.take(i - 1));
            if str_eq(self.files[i - 1].0.as_str(), rel) {
                return Some(self.files[i - 1].1.as_str());
            }
            i -= 1;
        }
        None
    }

    /// The recorded paths, in order.
    pub fn paths(&self) -> (r: Vec<String>)
        ensures
            string_views(r@) == self.files@.map_values(|e: (String, String)| e.0@),
    {
        let mut r: Vec<String> = Vec::new();
        let mut i: usize = 0;
        while i < self.files.len()
            invariant
                i <= self.files.len(),
                string_views(r@) == self.files@.take(i as int).map_values(|e: (String, String)| e.0@),
            decreases self.files.len() - i,
        {
            let ghost before = string_views(r@);
            let c = self.files[i].0.clone();
            r.push(c);
            assert(string_views(r@) =~= before.push(self.files@[i as int].0@));
            assert(string_views(r@) =~= self.files@.take(i + 1).map_values(
                |e: (String, String)| e.0@,
            ));
            i += 1;
        }
        assert(self.files@.take(self.files.len() as int) =~= self.files@);
        r
    }

    /// Records `hash` for `rel`, replacing what was recorded for it; the
    /// paths stay in ascending order, each once.
    pub fn record(&mut self, rel: &str, hash: &str)
        requires
            manifest_wf(old(self).files@),
        ensures
            manifest_wf(final(self).files@),
            forall|p: Seq<char>|
                manifest_paths(final(self).files@).contains(p) <==> (manifest_paths(
                    old(self).files@,
                ).contains(p) || p == rel@),
            manifest_lookup(final(self).files@, rel@) == Some(hash@),
            forall|other: Seq<char>|
                other != rel@ ==> manifest_lookup(final(self).files@, other) == manifest_lookup(
                    old(self).files@,
                    other,
                ),
            final(self).game_dir == old(self).game_dir,
            final(self).installed == old(self).installed,
    {
        path_put(&mut self.files, rel, String::from_str(hash));
    }
}

/// What compiling `pattern` with the `regex` crate and running
/// `captures_iter` over `text` gives: `None` when the pattern does not
/// compile, else, for each successive non-overlapping match, the byte span
/// (in `text`'s UTF-8 encoding) of every capture group, group 0 being the
/// whole match and `None` a group that took no part.
pub uninterp spec fn regex_captures_of(pattern: Seq<char>, text: Seq<char>) -> Option<
    Seq<Seq<Option<(usize, usize)>>>,
>;

/// A capture group's byte span is ordered and falls on character
/// boundaries of `bytes` (or the group took no part).
pub open spec fn span_ok(bytes: Seq<u8>, g: Option<(usize, usize)>) -> bool {
    match g {
        Some((a, b)) => a <= b && vstd::utf8::is_char_boundary(bytes, a as int)
            && vstd::utf8::is_char_boundary(bytes, b as int),
        None => true,
    }
}

/// What the `regex` crate documents of the matches `captures_iter` gives on
/// `text`: each has its whole-match group 0; every span is ordered and on
/// character boundaries; successive matches do not overlap.
pub open spec fn spans_ok(caps: Seq<Seq<Option<(usize, usize)>>>, text: Seq<char>) -> bool {
    &&& forall|i: int| 0 <= i < caps.len() ==> (#[trigger] caps[i]).len() > 0 && caps[i][0] is Some
    &&& forall|i: int, g: int|
        0 <= i < caps.len() && 0 <= g < caps[i].len() ==> span_ok(
            vstd::utf8::encode_utf8(text),
            #[trigger] caps[i][g],
        )
    &&& forall|i: int, j: int|
        0 <= i < j < caps.len() ==> (#[trigger] caps[i])[0].unwrap().1 <= (#[trigger] caps[j])[0].unwrap().0
}

/// `regex::Regex::new(pattern)` then `captures_iter(text)`, each capture
/// group turned into its byte span.  The contract names the result
/// (`regex_captures_of`) and states what the crate documents of the spans
/// (`Match::start`, `Match::end`, `Captures::get(0)`, `captures_iter`);
/// which text a pattern matches is not stated.
#[verifier::external_body]
fn regex_captures(pattern: &str, text: &str) -> (r: Option<Vec<Vec<Option<(usize, usize)>>>>)
    ensures
        match r {
            Some(v) => regex_captures_of(pattern@, text@) == Some(v.deep_view()),
            None => regex_captures_of(pattern@, text@) is None,
        },
        r matches Some(v) ==> spans_ok(v.deep_view(), text@),
{
    let re = match regex::Regex::new(pattern) {
        Ok(re) => re,
        Err(_) => return None,
    };
    let mut all = Vec::new();
    for caps in re.captures_iter(text) {
        let mut groups = Vec::new();
        for m in caps.iter() {
            groups.push(match m { Some(m) => Some((m.start(), m.end())), None => None });
        }
        all.push(groups);
    }
    Some(all)
}

pub const PET_INCLUDE_RE: &'static str = "(?i)<include>\\s*ui_ground_hud_pet\\.inc\\s*</include>";

pub const TAG_RE: &'static str = "(?s)<(/?)([A-Za-z]+)(\\s[^<>]*?)?(/?)>";

pub const PET_NAME_RE: &'static str = "(?i)\\sName='pet'";

pub const PET_INCLUDE: &'static str = "<include>ui_ground_hud_pet.inc</include>";

pub open spec fn regex_failed_msg() -> Seq<char> {
    "a built-in pattern does not compile"@
}

pub open spec fn offset_msg() -> Seq<char> {
    "a match does not fall on character boundaries"@
}

pub open spec fn own_line_msg() -> Seq<char> {
    "pet page in ui_ground_hud.inc does not start its own line"@
}

pub open spec fn no_pet_msg() -> Seq<char> {
    "no <Page Name='pet'> block in ui_ground_hud.inc; the game's hud may have changed"@
}

/// Capture group `g` of a match.
pub open spec fn cap_group(m: Seq<Option<(usize, usize)>>, g: int) -> Option<(usize, usize)> {
    if 0 <= g < m.len() {
        m[g]
    } else {
        None
    }
}

/// The character span of a byte span of `s`.
pub open spec fn char_span(s: Seq<char>, g: Option<(usize, usize)>) -> Option<(int, int)> {
    match g {
        Some((a, b)) => match (char_index_of_byte(s, a as int), char_index_of_byte(s, b as int)) {
            (Some(x), Some(y)) => if x <= y {
                Some((x, y))
            } else {
                None
            },
            _ => None,
        },
        None => None,
    }
}

/// A span the `regex` crate could give has a character span and a text.
pub proof fn lemma_span_chars(s: Seq<char>, g: Option<(usize, usize)>)
    requires
        span_ok(vstd::utf8::encode_utf8(s), g),
    ensures
        g is Some ==> char_span(s, g) is Some,
        group_text(s, g) is Some,
{
    if let Some((a, b)) = g {
        lemma_boundary_has_index(s, a as int);
        lemma_boundary_has_index(s, b as int);
        lemma_char_index_monotone(s, a as int, b as int);
    }
}

/// Every group of the `i`-th match, present or not, has a text.
proof fn lemma_match_groups(s: Seq<char>, caps: Seq<Seq<Option<(usize, usize)>>>, i: int, g: int)
    requires
        spans_ok(caps, s),
        0 <= i < caps.len(),
    ensures
        span_ok(vstd::utf8::encode_utf8(s), cap_group(caps[i], g)),
        group_text(s, cap_group(caps[i], g)) is Some,
        g == 0 ==> char_span(s, cap_group(caps[i], g)) is Some,
{
    if 0 <= g < caps[i].len() {
        assert(span_ok(vstd::utf8::encode_utf8(s), caps[i][g]));
    }
    lemma_span_chars(s, cap_group(caps[i], g));
}

/// An error text is not the boundary error when it differs in length or
/// first character.
proof fn lemma_not_offset(e: Seq<char>)
    requires
        e.len() != 45 || (e.len() > 0 && e[0] != 'a'),
    ensures
        e != offset_msg(),
{
    reveal_strlit("a match does not fall on character boundaries");
    assert(offset_msg().len() == 45);
    assert(offset_msg()[0] == 'a');
}

/// The library's fixed error texts are not the boundary error.
proof fn lemma_messages_not_offset()
    ensures
        regex_failed_msg() != offset_msg(),
        own_line_msg() != offset_msg(),
        no_pet_msg() != offset_msg(),
{
    reveal_strlit("a built-in pattern does not compile");
    reveal_strlit("pet page in ui_ground_hud.inc does not start its own line");
    reveal_strlit("no <Page Name='pet'> block in ui_ground_hud.inc; the game's hud may have changed");
    lemma_not_offset(regex_failed_msg());
    lemma_not_offset(own_line_msg());
    lemma_not_offset(no_pet_msg());
}

/// The text of a capture group ("" when it took no part).
pub open spec fn group_text(s: Seq<char>, g: Option<(usize, usize)>) -> Option<Seq<char>> {
    if g is None {
        Some(Seq::empty())
    } else {
        match char_span(s, g) {
            Some((x, y)) => Some(s.subrange(x, y)),
            None => None,
        }
    }
}

/// The hud with the pet block at characters `begin..end` replaced by the
/// include, when the block starts its own line.
pub open spec fn pet_splice(hud: Seq<char>, begin: int, end: int) -> Result<Seq<char>, Seq<char>> {
    let line_start = match rfind_char(hud.take(begin), '\n') {
        Some(k) => k + 1,
        None => 0,
    };
    if forall|k: int| line_start <= k < begin ==> is_ws(#[trigger] hud[k]) {
        Ok(hud.take(begin) + PET_INCLUDE@ + hud.skip(end))
    } else {
        Err(own_line_msg())
    }
}

/// Walks the tags from the `i`-th on: before the pet page (`start` None)
/// looking for an opening `<Page ... Name='pet' ...>`; inside it (from
/// character `begin`), counting `Page` opens and closes until its own close.
pub open spec fn pet_scan(
    hud: Seq<char>,
    caps: Seq<Seq<Option<(usize, usize)>>>,
    i: int,
    start: Option<int>,
    depth: int,
) -> Result<Seq<char>, Seq<char>>
    decreases caps.len() - i,
{
    if i < 0 || i >= caps.len() {
        Err(no_pet_msg())
    } else {
        let m = caps[i];
        match (
            char_span(hud, cap_group(m, 0)),
            group_text(hud, cap_group(m, 1)),
            group_text(hud, cap_group(m, 2)),
            group_text(hud, cap_group(m, 3)),
            group_text(hud, cap_group(m, 4)),
        ) {
            (Some((b, e)), Some(t1), Some(t2), Some(t3), Some(t4)) => {
                let closing = t1 == "/"@;
                let self_closing = t4 == "/"@;
                if t2 != "Page"@ {
                    pet_scan(hud, caps, i + 1, start, depth)
                } else {
                    match start {
                        None => if !closing && !self_closing {
                            match regex_captures_of(PET_NAME_RE@, t3) {
                                None => Err(regex_failed_msg()),
                                Some(ns) => if ns.len() > 0 {
                                    pet_scan(hud, caps, i + 1, Some(b), 1)
                                } else {
                                    pet_scan(hud, caps, i + 1, None, depth)
                                },
                            }
                        } else {
                            pet_scan(hud, caps, i + 1, None, depth)
                        },
                        Some(begin) => if closing {
                            if depth - 1 == 0 {
                                pet_splice(hud, begin, e)
                            } else {
                                pet_scan(hud, caps, i + 1, start, depth - 1)
                            }
                        } else if !self_closing {
                            pet_scan(hud, caps, i + 1, start, depth + 1)
                        } else {
                            pet_scan(hud, caps, i + 1, start, depth)
                        },
                    }
                }
            },
            _ => Err(offset_msg()),
        }
    }
}

/// What `patch_hud_pet` gives.
pub open spec fn hud_pet_spec(hud: Seq<char>) -> Result<Seq<char>, Seq<char>> {
    match regex_captures_of(PET_INCLUDE_RE@, hud) {
        None => Err(regex_failed_msg()),
        Some(ms) => if ms.len() > 0 {
            Ok(hud)
        } else {
            match regex_captures_of(TAG_RE@, hud) {
                None => Err(regex_failed_msg()),
                Some(tags) => pet_scan(hud, tags, 0, None, 0),
            }
        },
    }
}

pub open spec fn res_view(r: Result<String, String>) -> Result<Seq<char>, Seq<char>> {
    match r {
        Ok(s) => Ok(s@),
        Err(e) => Err(e@),
    }
}

fn char_span_exec(hv: &Vec<char>, g: Option<(usize, usize)>) -> (r: Option<(usize, usize)>)
    ensures
        match r {
            Some((x, y)) => char_span(hv@, g) == Some((x as int, y as int)) && x <= y <= hv.len(),
            None => char_span(hv@, g) is None,
        },
{
    match g {
        None => None,
        Some((a, b)) => {
            let x = byte_to_char(hv.as_slice(), a);
            let y = byte_to_char(hv.as_slice(), b);
            match (x, y) {
                (Some(x), Some(y)) => if x <= y {
                    Some((x, y))
                } else {
                    None
                },
                _ => None,
            }
        },
    }
}

fn group_text_exec(hv: &Vec<char>, g: Option<(usize, usize)>) -> (r: Option<Vec<char>>)
    ensures
        match r {
            Some(t) => group_text(hv@, g) == Some(t@),
            None => group_text(hv@, g) is None,
        },
{
    if g.is_none() {
        return Some(Vec::new());
    }
    match char_span_exec(hv, g) {
        Some((x, y)) => Some(copy_range(hv.as_slice(), x, y)),
        None => None,
    }
}

fn cap_group_exec(m: &Vec<Option<(usize, usize)>>, g: usize) -> (r: Option<(usize, usize)>)
    ensures
        r == cap_group(m@, g as int),
{
    if g < m.len() {
        m[g]
    } else {
        None
    }
}

fn is_slash(t: &Vec<char>) -> (r: bool)
    ensures
        r == (t@ == "/"@),
{
    proof {
        reveal_strlit("/");
    }
    let r = t.len() == 1 && t[0] == '/';
    proof {
        if r {
            assert(t@ =~= "/"@);
        }
    }
    r
}

fn splice_pet(hv: &Vec<char>, begin: usize, end: usize) -> (r: Result<String, String>)
    requires
        begin <= hv.len(),
        end <= hv.len(),
    ensures
        res_view(r) == pet_splice(hv@, begin as int, end as int),
{
    let nl = rfind_char_in(hv.as_slice(), begin, '\n');
    let line_start = match nl {
        Some(k) => k + 1,
        None => 0,
    };
    if !all_ws_in(hv.as_slice(), line_start, begin) {
        return Err(String::from_str("pet page in ui_ground_hud.inc does not start its own line"));
    }
    let mut out = copy_range(hv.as_slice(), 0, begin);
    let inc = chars_of(PET_INCLUDE);
    let tail = copy_range(hv.as_slice(), end, hv.len());
    let ghost o0 = out@;
    let mut i: usize = 0;
    while i < inc.len()
        invariant
            i <= inc.len(),
            out@ == o0 + inc@.take(i as int),
        decreases inc.len() - i,
    {
        out.push(inc[i]);
        assert(out@ =~= o0 + inc@.take(i + 1));
        i += 1;
    }
    let ghost o1 = out@;
    let mut j: usize = 0;
    while j < tail.len()
        invariant
            j <= tail.len(),
            out@ == o1 + tail@.take(j as int),
        decreases tail.len() - j,
    {
        out.push(tail[j]);
        assert(out@ =~= o1 + tail@.take(j + 1));
        j += 1;
    }
    proof {
        assert(inc@.take(inc.len() as int) =~= inc@);
        assert(tail@.take(tail.len() as int) =~= tail@);
        assert(hv@.subrange(0, begin as int) =~= hv@.take(begin as int));
        assert(hv@.subrange(end as int, hv@.len() as int) =~= hv@.skip(end as int));
    }
    Ok(string_of(out.as_slice()))
}

/// Makes ui_ground_hud.inc load the pet page from ui_ground_hud_pet.inc:
/// the inline `<Page Name='pet'>` block (a direct child of GroundHUD in
/// stock) is replaced by `<include>ui_ground_hud_pet.inc</include>` at the
/// same indentation.  A hud that already has the include comes back
/// unchanged.
pub fn patch_hud_pet(hud: &str) -> (r: Result<String, String>)
    ensures
        res_view(r) == hud_pet_spec(hud@),
        r matches Err(e) ==> e@ != offset_msg(),
{
    proof {
        lemma_messages_not_offset();
    }
    let inc = regex_captures(PET_INCLUDE_RE, hud);
    match inc {
        None => return Err(String::from_str("a built-in pattern does not compile")),
        Some(ms) => {
            if ms.len() > 0 {
                return Ok(String::from_str(hud));
            }
        },
    }
    let tags = match regex_captures(TAG_RE, hud) {
        None => return Err(String::from_str("a built-in pattern does not compile")),
        Some(t) => t,
    };
    let r = replace_pet_page(hud, &tags);
    proof {
        assert(hud_pet_spec(hud@) == pet_scan(hud@, tags.deep_view(), 0, None, 0));
    }
    r
}

/// The hud with the pet page replaced by the include, given the matches of
/// `TAG_RE` on it (`tags`, as `regex_captures` gives them): the tags are
/// walked in order to the opening `<Page ... Name='pet' ...>` and on to
/// the `</Page>` that closes it.
pub fn replace_pet_page(hud: &str, tags: &Vec<Vec<Option<(usize, usize)>>>) -> (r: Result<String, String>)
    ensures
        res_view(r) == pet_scan(hud@, tags.deep_view(), 0, None, 0),
        spans_ok(tags.deep_view(), hud@) ==> (r matches Err(e) ==> e@ != offset_msg()),
{
    proof {
        lemma_messages_not_offset();
    }
    let hv = chars_of(hud);
    let ghost caps = tags.deep_view();
    let mut start: Option<usize> = None;
    let mut depth: usize = 0;
    let mut i: usize = 0;
    while i < tags.len()
        invariant
            i <= tags.len(),
            caps == tags.deep_view(),
            hv@ == hud@,
            regex_failed_msg() != offset_msg(),
            own_line_msg() != offset_msg(),
            pet_scan(hud@, caps, 0, None, 0) == pet_scan(
                hv@,
                caps,
                i as int,
                match start {
                    Some(b) => Some(b as int),
                    None => None,
                },
                depth as int,
            ),
            start is Some ==> depth >= 1 && start.unwrap() <= hv.len(),
            depth < i + 1,
        decreases tags.len() - i,
    {
        let m = &tags[i];
        assert(caps[i as int] == m.deep_view());
        assert(m.deep_view() =~= m@);
        proof {
            if spans_ok(caps, hud@) {
                lemma_match_groups(hv@, caps, i as int, 0);
                lemma_match_groups(hv@, caps, i as int, 1);
                lemma_match_groups(hv@, caps, i as int, 2);
                lemma_match_groups(hv@, caps, i as int, 3);
                lemma_match_groups(hv@, caps, i as int, 4);
            }
        }
        let whole = char_span_exec(&hv, cap_group_exec(m, 0));
        let t1 = group_text_exec(&hv, cap_group_exec(m, 1));
        let t2 = group_text_exec(&hv, cap_group_exec(m, 2));
        let t3 = group_text_exec(&hv, cap_group_exec(m, 3));
        let t4 = group_text_exec(&hv, cap_group_exec(m, 4));
        let (b, e, t1, t2, t3, t4) = match (whole, t1, t2, t3, t4) {
            (Some((b, e)), Some(t1), Some(t2), Some(t3), Some(t4)) => (b, e, t1, t2, t3, t4),
            _ => return Err(String::from_str("a match does not fall on character boundaries")),
        };
        let closing = is_slash(&t1);
        let self_closing = is_slash(&t4);
        let page = chars_of("Page");
        if !chars_eq(t2.as_slice(), page.as_slice()) {
            i += 1;
            continue;
        }
        match start {
            None => {
                if !closing && !self_closing {
                    let attrs = string_of(t3.as_slice());
                    match regex_captures(PET_NAME_RE, attrs.as_str()) {
                        None => return Err(String::from_str("a built-in pattern does not compile")),
                        Some(ns) => {
                            if ns.len() > 0 {
                                start = Some(b);
                                depth = 1;
                            }
                        },
                    }
                }
            },
            Some(begin) => {
                if closing {
                    if depth - 1 == 0 {
                        return splice_pet(&hv, begin, e);
                    }
                    depth -= 1;
                } else if !self_closing {
                    depth += 1;
                }
            },
        }
        i += 1;
    }
    Err(String::from_str("no <Page Name='pet'> block in ui_ground_hud.inc; the game's hud may have changed"))
}

pub const ROLE_NS_RE: &'static str = "(?s)<Namespace\\s+Name='role'\\s*>.*?</Namespace>";

pub const IMAGE_STYLE_RE: &'static str = "(?s)([ \\t]*)<ImageStyle\\s+(.*?)/>";

pub const STYLE_NAME_RE: &'static str = "Name='([^']*)'";

/// Whether `s` holds a CR LF pair.
pub open spec fn has_crlf(s: Seq<char>) -> bool {
    exists|k: int| 0 <= k < s.len() - 1 && #[trigger] s[k] == '\r' && s[k + 1] == '\n'
}

/// The name an `<ImageStyle ...>`'s attributes give it ("" without one).
pub open spec fn style_name(attrs: Seq<char>) -> Result<Seq<char>, Seq<char>> {
    match regex_captures_of(STYLE_NAME_RE@, attrs) {
        None => Err(regex_failed_msg()),
        Some(cs) => if cs.len() > 0 {
            match group_text(attrs, cap_group(cs[0], 1)) {
                Some(t) => Ok(t),
                None => Err(offset_msg()),
            }
        } else {
            Ok(Seq::empty())
        },
    }
}

/// A role style rewritten as a solid swatch from ui_class_swatch.dds, with
/// the indentation `ind` and line ending `nl` of the file.
pub open spec fn style_entry(ind: Seq<char>, nm: Seq<char>, nl: Seq<char>) -> Seq<char> {
    let key = match role_map_spec(nm) {
        Some(k) => k,
        None => "default"@,
    };
    ind + "<ImageStyle"@ + nl + ind + "\tName='"@ + nm + "'"@ + nl + ind + "\tSource='"@
        + SWATCH_NAME@ + "'"@ + nl + ind + "\tSourceRect='"@ + swatch_rect_spec(swatch_pos(key))
        + "'"@ + nl + ind + "/>"@
}

/// `block` with the `i`-th and later `<ImageStyle>` matches rewritten, the
/// text before them (from `pos`) kept, `acc` what came before.
pub open spec fn restyle(
    block: Seq<char>,
    ms: Seq<Seq<Option<(usize, usize)>>>,
    nl: Seq<char>,
    i: int,
    pos: int,
    acc: Seq<char>,
) -> Result<Seq<char>, Seq<char>>
    decreases ms.len() - i,
{
    if i < 0 || i >= ms.len() {
        Ok(acc + block.subrange(pos, block.len() as int))
    } else {
        match (
            char_span(block, cap_group(ms[i], 0)),
            group_text(block, cap_group(ms[i], 1)),
            group_text(block, cap_group(ms[i], 2)),
        ) {
            (Some((st, en)), Some(ind), Some(attrs)) => if pos <= st {
                match style_name(attrs) {
                    Err(e) => Err(e),
                    Ok(nm) => restyle(
                        block,
                        ms,
                        nl,
                        i + 1,
                        en,
                        acc + block.subrange(pos, st) + style_entry(ind, nm, nl),
                    ),
                }
            } else {
                Err(offset_msg())
            },
            _ => Err(offset_msg()),
        }
    }
}

/// The styles file with the role namespace (characters `bs..be`) replaced
/// by its restyled text, when there were at least 30 styles.
pub open spec fn role_finish(
    styles: Seq<char>,
    bs: int,
    be: int,
    n: int,
    r: Result<Seq<char>, Seq<char>>,
) -> Result<Seq<char>, Seq<char>> {
    match r {
        Err(e) => Err(e),
        Ok(patched) => if n < 30 {
            Err("only "@ + dec(n as nat) + " role styles found in ui_styles.inc; refusing"@)
        } else {
            Ok(styles.take(bs) + patched + styles.skip(be))
        },
    }
}

/// What `patch_role_styles` gives.
pub open spec fn role_styles_spec(styles: Seq<char>) -> Result<Seq<char>, Seq<char>> {
    match regex_captures_of(ROLE_NS_RE@, styles) {
        None => Err(regex_failed_msg()),
        Some(blocks) => if blocks.len() != 1 {
            Err("expected one <Namespace Name='role'> in ui_styles.inc, found "@ + dec(blocks.len()))
        } else {
            match char_span(styles, cap_group(blocks[0], 0)) {
                None => Err(offset_msg()),
                Some((bs, be)) => {
                    let block = styles.subrange(bs, be);
                    let nl = if has_crlf(styles) {
                        "\r\n"@
                    } else {
                        "\n"@
                    };
                    match regex_captures_of(IMAGE_STYLE_RE@, block) {
                        None => Err(regex_failed_msg()),
                        Some(ms) => role_finish(
                            styles,
                            bs,
                            be,
                            ms.len() as int,
                            restyle(block, ms, nl, 0, 0, Seq::empty()),
                        ),
                    }
                },
            }
        },
    }
}

fn find_crlf(v: &Vec<char>) -> (r: bool)
    ensures
        r == has_crlf(v@),
{
    let mut k: usize = 0;
    while k < v.len() && v.len() - k > 1
        invariant
            k <= v.len(),
            forall|j: int| 0 <= j < k ==> !(#[trigger] v@[j] == '\r' && v@[j + 1] == '\n'),
        decreases v.len() - k,
    {
        if v[k] == '\r' && v[k + 1] == '\n' {
            return true;
        }
        k += 1;
    }
    proof {
        if has_crlf(v@) {
            let j = choose|j: int| 0 <= j < v@.len() - 1 && #[trigger] v@[j] == '\r' && v@[j + 1] == '\n';
            assert(!(v@[j] == '\r' && v@[j + 1] == '\n'));
        }
    }
    false
}

fn style_name_exec(attrs: &Vec<char>) -> (r: Result<Vec<char>, String>)
    ensures
        match r {
            Ok(t) => style_name(attrs@) == Ok::<Seq<char>, Seq<char>>(t@),
            Err(e) => style_name(attrs@) == Err::<Seq<char>, Seq<char>>(e@),
        },
        r matches Err(e) ==> e@ == regex_failed_msg(),
{
    let a = string_of(attrs.as_slice());
    match regex_captures(STYLE_NAME_RE, a.as_str()) {
        None => Err(String::from_str("a built-in pattern does not compile")),
        Some(cs) => {
            if cs.len() > 0 {
                assert(cs.deep_view()[0] =~= cs@[0]@);
                proof {
                    lemma_match_groups(attrs@, cs.deep_view(), 0, 1);
                }
                let g = cap_group_exec(&cs[0], 1);
                match group_text_exec(attrs, g) {
                    Some(t) => Ok(t),
                    None => Err(String::from_str("a match does not fall on character boundaries")),
                }
            } else {
                Ok(Vec::new())
            }
        },
    }
}

#[verifier::rlimit(40)]
fn push_style_entry(out: &mut Vec<char>, ind: &Vec<char>, nm: &Vec<char>, nl: &str)
    ensures
        final(out)@ == old(out)@ + style_entry(ind@, nm@, nl@),
{
    let nms = string_of(nm.as_slice());
    let key = match role_map(nms.as_str()) {
        Some(k) => k,
        None => "default",
    };
    let rect = swatch_rect(key);
    append_slice(out, ind.as_slice());
    append_chars(out, "<ImageStyle");
    append_chars(out, nl);
    append_slice(out, ind.as_slice());
    append_chars(out, "\tName='");
    append_slice(out, nm.as_slice());
    append_chars(out, "'");
    append_chars(out, nl);
    append_slice(out, ind.as_slice());
    append_chars(out, "\tSource='");
    append_chars(out, SWATCH_NAME);
    append_chars(out, "'");
    append_chars(out, nl);
    append_slice(out, ind.as_slice());
    append_chars(out, "\tSourceRect='");
    append_chars(out, rect.as_str());
    append_chars(out, "'");
    append_chars(out, nl);
    append_slice(out, ind.as_slice());
    append_chars(out, "/>");
    proof {
        let ghost k = match role_map_spec(nm@) {
            Some(k) => k,
            None => "default"@,
        };
        assert(key@ == k);
        assert(final(out)@ =~= old(out)@ + style_entry(ind@, nm@, nl@));
    }
}

/// The `i`-th style match, when the one before it ended at character `pos`
/// (or it is the first and `pos` is 0), has its spans and starts at or
/// after `pos`.
proof fn lemma_style_match(block: Seq<char>, ms: Seq<Seq<Option<(usize, usize)>>>, i: int, pos: int)
    requires
        spans_ok(ms, block),
        0 <= i < ms.len(),
        i == 0 ==> pos == 0,
        i > 0 ==> char_index_of_byte(block, ms[i - 1][0].unwrap().1 as int) == Some(pos),
    ensures
        char_span(block, cap_group(ms[i], 0)) matches Some((st, en)) && pos <= st
            && char_index_of_byte(block, ms[i][0].unwrap().1 as int) == Some(en),
        group_text(block, cap_group(ms[i], 1)) is Some,
        group_text(block, cap_group(ms[i], 2)) is Some,
{
    lemma_match_groups(block, ms, i, 0);
    lemma_match_groups(block, ms, i, 1);
    lemma_match_groups(block, ms, i, 2);
    let a = ms[i][0].unwrap().0 as int;
    lemma_char_index_of_byte_bound(block, a);
    if i > 0 {
        let pe = ms[i - 1][0].unwrap().1 as int;
        assert(pe <= a);
        lemma_char_index_monotone(block, pe, a);
    }
}

/// The role namespace `block` with every `<ImageStyle>` that
/// `IMAGE_STYLE_RE` matched in it (`ms`, as `regex_captures` gives them)
/// rewritten as a solid swatch, lines ending in `nl`.
pub fn restyle_block(bstr: &str, ms: &Vec<Vec<Option<(usize, usize)>>>, nl: &str) -> (r: Result<String, String>)
    ensures
        res_view(r) == restyle(bstr@, ms.deep_view(), nl@, 0, 0, Seq::empty()),
        spans_ok(ms.deep_view(), bstr@) ==> (r matches Err(e) ==> e@ != offset_msg()),
{
    proof {
        lemma_messages_not_offset();
    }
    let block = chars_of(bstr);
    let ghost msv = ms.deep_view();
    let ghost nlv: Seq<char> = nl@;
    let ghost ok = spans_ok(msv, block@);
    let mut out: Vec<char> = Vec::new();
    let mut pos: usize = 0;
    let mut i: usize = 0;
    while i < ms.len()
        invariant
            i <= ms.len(),
            pos <= block.len(),
            msv == ms.deep_view(),
            block@ == bstr@,
            ok == spans_ok(msv, block@),
            i == 0 ==> pos == 0,
            ok && i > 0 ==> char_index_of_byte(block@, msv[i - 1][0].unwrap().1 as int) == Some(pos as int),
            regex_failed_msg() != offset_msg(),
            nl@ == nlv,
            restyle(block@, msv, nlv, 0, 0, Seq::empty()) == restyle(
                block@,
                msv,
                nlv,
                i as int,
                pos as int,
                out@,
            ),
        decreases ms.len() - i,
    {
        assert(msv[i as int] =~= ms@[i as int]@);
        proof {
            if ok {
                lemma_style_match(block@, msv, i as int, pos as int);
            }
        }
        let whole = char_span_exec(&block, cap_group_exec(&ms[i], 0));
        let ind = group_text_exec(&block, cap_group_exec(&ms[i], 1));
        let attrs = group_text_exec(&block, cap_group_exec(&ms[i], 2));
        let (st, en, ind, attrs) = match (whole, ind, attrs) {
            (Some((st, en)), Some(ind), Some(attrs)) => (st, en, ind, attrs),
            _ => return Err(String::from_str("a match does not fall on character boundaries")),
        };
        if pos > st {
            return Err(String::from_str("a match does not fall on character boundaries"));
        }
        let nm = match style_name_exec(&attrs) {
            Err(e) => return Err(e),
            Ok(nm) => nm,
        };
        let gap = copy_range(block.as_slice(), pos, st);
        append_slice(&mut out, gap.as_slice());
        push_style_entry(&mut out, &ind, &nm, nl);
        pos = en;
        i += 1;
    }
    let rest = copy_range(block.as_slice(), pos, block.len());
    append_slice(&mut out, rest.as_slice());
    Ok(string_of(out.as_slice()))
}

/// Rewrites every `<ImageStyle>` inside `<Namespace Name='role'>` into a
/// solid swatch from ui_class_swatch.dds.  Refuses a file with other than
/// one such namespace, or with fewer than 30 styles in it.
pub fn patch_role_styles(styles: &str) -> (r: Result<String, String>)
    ensures
        res_view(r) == role_styles_spec(styles@),
        r matches Err(e) ==> e@ != offset_msg(),
{
    proof {
        lemma_messages_not_offset();
    }
    let blocks = match regex_captures(ROLE_NS_RE, styles) {
        None => return Err(String::from_str("a built-in pattern does not compile")),
        Some(b) => b,
    };
    if blocks.len() != 1 {
        let mut v = chars_of("expected one <Namespace Name='role'> in ui_styles.inc, found ");
        proof {
            reveal_strlit("expected one <Namespace Name='role'> in ui_styles.inc, found ");
        }
        let ghost v0 = v@;
        push_dec(&mut v, blocks.len() as u64);
        proof {
            assert(v@[0] == v0[0]);
            lemma_not_offset(v@);
        }
        return Err(string_of(v.as_slice()));
    }
    let sv = chars_of(styles);
    assert(blocks.deep_view()[0] =~= blocks@[0]@);
    proof {
        lemma_match_groups(styles@, blocks.deep_view(), 0, 0);
    }
    let (bs, be) = match char_span_exec(&sv, cap_group_exec(&blocks[0], 0)) {
        None => return Err(String::from_str("a match does not fall on character boundaries")),
        Some(p) => p,
    };
    let block = copy_range(sv.as_slice(), bs, be);
    let nl = if find_crlf(&sv) {
        "\r\n"
    } else {
        "\n"
    };
    let bstr = string_of(block.as_slice());
    let ms = match regex_captures(IMAGE_STYLE_RE, bstr.as_str()) {
        None => return Err(String::from_str("a built-in pattern does not compile")),
        Some(m) => m,
    };
    let patched = match restyle_block(bstr.as_str(), &ms, nl) {
        Err(e) => return Err(e),
        Ok(p) => p,
    };
    let ghost nlv: Seq<char> = if has_crlf(styles@) {
        "\r\n"@
    } else {
        "\n"@
    };
    assert(nl@ == nlv);
    if ms.len() < 30 {
        let mut v = chars_of("only ");
        proof {
            reveal_strlit("only ");
        }
        let ghost v0 = v@;
        push_dec(&mut v, ms.len() as u64);
        append_chars(&mut v, " role styles found in ui_styles.inc; refusing");
        proof {
            assert(v@[0] == v0[0]);
            lemma_not_offset(v@);
        }
        return Err(string_of(v.as_slice()));
    }
    let mut res = copy_range(sv.as_slice(), 0, bs);
    let pv = chars_of(patched.as_str());
    append_slice(&mut res, pv.as_slice());
    let tail = copy_range(sv.as_slice(), be, sv.len());
    append_slice(&mut res, tail.as_slice());
    proof {
        assert(sv@.subrange(0, bs as int) =~= sv@.take(bs as int));
        assert(sv@.subrange(be as int, sv@.len() as int) =~= sv@.skip(be as int));
    }
    Ok(string_of(res.as_slice()))
}

pub const TOKEN_RE: &'static str = "@@[A-Z_0-9]+@@";

/// `s` with each token of `tokens`, in order, replaced by its value.
pub open spec fn apply_tokens(s: Seq<char>, tokens: Seq<(Seq<char>, Seq<char>)>) -> Seq<char>
    decreases tokens.len(),
{
    if tokens.len() == 0 {
        s
    } else {
        apply_tokens(replace_spec(s, tokens[0].0, tokens[0].1), tokens.drop_first())
    }
}

pub open spec fn token_views(t: Seq<(String, String)>) -> Seq<(Seq<char>, Seq<char>)> {
    t.map_values(|p: (String, String)| (p.0@, p.1@))
}

/// What filling the template `tpl` (file `name`) gives: the tokens
/// replaced; an error naming the first `@@TOKEN@@` left over; line ends
/// CR LF turned into LF.
pub open spec fn fill_spec(name: Seq<char>, tpl: Seq<char>, tokens: Seq<(Seq<char>, Seq<char>)>) -> Result<
    Seq<char>,
    Seq<char>,
> {
    let text = apply_tokens(tpl, tokens);
    match regex_captures_of(TOKEN_RE@, text) {
        None => Err(regex_failed_msg()),
        Some(ms) => if ms.len() > 0 {
            match char_span(text, cap_group(ms[0], 0)) {
                Some((a, b)) => Err("unreplaced token in "@ + name + ": "@ + text.subrange(a, b)),
                None => Err(offset_msg()),
            }
        } else {
            Ok(replace_spec(text, "\r\n"@, "\n"@))
        },
    }
}

/// Fills the page template `tpl` (file `name`) with `tokens`.
pub fn fill_template(name: &str, tpl: &str, tokens: &Vec<(String, String)>) -> (r: Result<String, String>)
    ensures
        res_view(r) == fill_spec(name@, tpl@, token_views(tokens@)),
        r matches Err(e) ==> e@ != offset_msg(),
{
    proof {
        lemma_messages_not_offset();
    }
    let ghost tv = token_views(tokens@);
    let mut text = chars_of(tpl);
    let mut i: usize = 0;
    assert(tv.skip(0) =~= tv);
    while i < tokens.len()
        invariant
            i <= tokens.len(),
            tv == token_views(tokens@),
            apply_tokens(tpl@, tv) == apply_tokens(text@, tv.skip(i as int)),
        decreases tokens.len() - i,
    {
        let k = chars_of(tokens[i].0.as_str());
        let v = chars_of(tokens[i].1.as_str());
        assert(tv.skip(i as int)[0] == (k@, v@));
        assert(tv.skip(i as int).drop_first() =~= tv.skip(i + 1));
        text = replace_chars(text.as_slice(), k.as_slice(), v.as_slice());
        i += 1;
    }
    assert(tv.skip(tokens.len() as int) =~= Seq::<(Seq<char>, Seq<char>)>::empty());
    let ts = string_of(text.as_slice());
    match regex_captures(TOKEN_RE, ts.as_str()) {
        None => Err(String::from_str("a built-in pattern does not compile")),
        Some(ms) => {
            if ms.len() > 0 {
                assert(ms.deep_view()[0] =~= ms@[0]@);
                proof {
                    lemma_match_groups(text@, ms.deep_view(), 0, 0);
                }
                match char_span_exec(&text, cap_group_exec(&ms[0], 0)) {
                    Some((a, b)) => {
                        let mut e = String::from_str("unreplaced token in ");
                        proof {
                            reveal_strlit("unreplaced token in ");
                        }
                        let ghost e0 = e@;
                        e.append(name);
                        e.append(": ");
                        let t = copy_range(text.as_slice(), a, b);
                        let ts2 = string_of(t.as_slice());
                        e.append(ts2.as_str());
                        proof {
                            assert(e@[0] == e0[0]);
                            lemma_not_offset(e@);
                        }
                        Err(e)
                    },
                    None => Err(String::from_str("a match does not fall on character boundaries")),
                }
            } else {
                let crlf = chars_of("\r\n");
                let lf = chars_of("\n");
                let out = replace_chars(text.as_slice(), crlf.as_slice(), lf.as_slice());
                Ok(string_of(out.as_slice()))
            }
        },
    }
}

/// "@@<kind>_<i>@@"
pub open spec fn key_token(kind: Seq<char>, i: nat) -> Seq<char> {
    "@@"@ + kind + "_"@ + dec(i) + "@@"@
}

/// The action bar key label tokens: `@@AB_KEY_<n>@@` for toolbar slots 12
/// to 23 (the double toolbar's top row), then `@@AB_PET_KEY_<n>@@` for pet
/// slots 0 to 8, each with the label the keymap gives the slot.
pub open spec fn key_tokens_spec(km: KmView) -> Seq<(Seq<char>, Seq<char>)> {
    Seq::new(12, |k: int| (key_token("AB_KEY"@, (k + 12) as nat), label_spec(km, "CMD_uiToolbarSlot"@ + dec_pad((k + 12) as nat, 2))))
        + Seq::new(9, |k: int| (key_token("AB_PET_KEY"@, k as nat), label_spec(km, "CMD_petToolbarSlot"@ + dec(k as nat))))
}

/// A toolbar key token names its kind and its slot number: two tokens of
/// the kinds `AB_KEY` and `AB_PET_KEY` are equal only when both match.
proof fn lemma_key_token_names(k1: Seq<char>, a: nat, k2: Seq<char>, b: nat)
    requires
        k1 == "AB_KEY"@ || k1 == "AB_PET_KEY"@,
        k2 == "AB_KEY"@ || k2 == "AB_PET_KEY"@,
        key_token(k1, a) == key_token(k2, b),
    ensures
        k1 == k2,
        a == b,
{
    reveal_strlit("@@");
    reveal_strlit("_");
    reveal_strlit("AB_KEY");
    reveal_strlit("AB_PET_KEY");
    let t = key_token(k1, a);
    let t2 = key_token(k2, b);
    assert(t[5] == k1[3]);
    assert(t2[5] == k2[3]);
    assert(k1 == k2);
    let lo = 3 + k1.len();
    assert(t.subrange(lo as int, t.len() - 2) =~= dec(a));
    assert(t2.subrange(lo as int, t2.len() - 2) =~= dec(b));
    lemma_dec_digits(a);
    lemma_dec_digits(b);
}

/// Each toolbar key token carries the label of the slot it names: the
/// token `@@AB_KEY_<n>@@` (for each `n` from 12 to 23, the double
/// toolbar's top row) the label the keymap gives `CMD_uiToolbarSlot<nn>`,
/// and `@@AB_PET_KEY_<n>@@` (for each `n` from 0 to 8) that of
/// `CMD_petToolbarSlot<n>`.
pub proof fn lemma_key_tokens_name_their_slots(km: KmView, n: nat)
    ensures
        12 <= n < 24 ==> exists|i: int|
            0 <= i < key_tokens_spec(km).len() && (#[trigger] key_tokens_spec(km)[i]).0 == key_token(
                "AB_KEY"@,
                n,
            ),
        n < 9 ==> exists|i: int|
            0 <= i < key_tokens_spec(km).len() && (#[trigger] key_tokens_spec(km)[i]).0 == key_token(
                "AB_PET_KEY"@,
                n,
            ),
        forall|i: int|
            0 <= i < key_tokens_spec(km).len() && (#[trigger] key_tokens_spec(km)[i]).0 == key_token(
                "AB_KEY"@,
                n,
            ) ==> key_tokens_spec(km)[i].1 == label_spec(km, "CMD_uiToolbarSlot"@ + dec_pad(n, 2)),
        forall|i: int|
            0 <= i < key_tokens_spec(km).len() && (#[trigger] key_tokens_spec(km)[i]).0 == key_token(
                "AB_PET_KEY"@,
                n,
            ) ==> key_tokens_spec(km)[i].1 == label_spec(km, "CMD_petToolbarSlot"@ + dec(n)),
{
    reveal_strlit("AB_KEY");
    reveal_strlit("AB_PET_KEY");
    assert("AB_KEY"@ != "AB_PET_KEY"@) by {
        assert("AB_KEY"@.len() != "AB_PET_KEY"@.len());
    }
    let t = key_tokens_spec(km);
    let top = Seq::new(
        12,
        |k: int|
            (
                key_token("AB_KEY"@, (k + 12) as nat),
                label_spec(km, "CMD_uiToolbarSlot"@ + dec_pad((k + 12) as nat, 2)),
            ),
    );
    let pet = Seq::new(
        9,
        |k: int| (key_token("AB_PET_KEY"@, k as nat), label_spec(km, "CMD_petToolbarSlot"@ + dec(k as nat))),
    );
    assert(t == top + pet);
    if 12 <= n < 24 {
        assert(t[n - 12] == top[n - 12]);
    }
    if n < 9 {
        assert(t[12 + n as int] == pet[n as int]);
    }
    assert forall|i: int|
        0 <= i < t.len() && (#[trigger] t[i]).0 == key_token("AB_KEY"@, n) implies t[i].1 == label_spec(
        km,
        "CMD_uiToolbarSlot"@ + dec_pad(n, 2),
    ) by {
        if i < 12 {
            assert(t[i] == top[i]);
            lemma_key_token_names("AB_KEY"@, (i + 12) as nat, "AB_KEY"@, n);
        } else {
            assert(t[i] == pet[i - 12]);
            lemma_key_token_names("AB_PET_KEY"@, (i - 12) as nat, "AB_KEY"@, n);
        }
    }
    assert forall|i: int|
        0 <= i < t.len() && (#[trigger] t[i]).0 == key_token("AB_PET_KEY"@, n) implies t[i].1 == label_spec(
        km,
        "CMD_petToolbarSlot"@ + dec(n),
    ) by {
        if i < 12 {
            assert(t[i] == top[i]);
            lemma_key_token_names("AB_KEY"@, (i + 12) as nat, "AB_PET_KEY"@, n);
        } else {
            assert(t[i] == pet[i - 12]);
            lemma_key_token_names("AB_PET_KEY"@, (i - 12) as nat, "AB_PET_KEY"@, n);
        }
    }
}

fn key_token_exec(kind: &str, i: u32) -> (s: String)
    ensures
        s@ == key_token(kind@, i as nat),
{
    let mut v = chars_of("@@");
    append_chars(&mut v, kind);
    v.push('_');
    push_dec(&mut v, i as u64);
    append_chars(&mut v, "@@");
    proof {
        reveal_strlit("_");
        assert(v@ =~= key_token(kind@, i as nat));
    }
    string_of(v.as_slice())
}

/// The action bar key label tokens (see `key_tokens_spec`).
pub fn action_bar_tokens(km: &Keymap) -> (r: Vec<(String, String)>)
    ensures
        token_views(r@) == key_tokens_spec(km@),
{
    let ghost want = key_tokens_spec(km@);
    let mut r: Vec<(String, String)> = Vec::new();
    let mut i: u32 = 12;
    while i < 24
        invariant
            12 <= i <= 24,
            want == key_tokens_spec(km@),
            token_views(r@) == want.take(i - 12),
        decreases 24 - i,
    {
        let t = key_token_exec("AB_KEY", i);
        let l = km.slot(i);
        let ghost before = token_views(r@);
        r.push((t, l));
        assert(token_views(r@) =~= before.push((t@, l@)));
        assert(token_views(r@) =~= want.take(i - 11));
        i += 1;
    }
    let mut j: u32 = 0;
    while j < 9
        invariant
            j <= 9,
            want == key_tokens_spec(km@),
            token_views(r@) == want.take(12 + j),
        decreases 9 - j,
    {
        let t = key_token_exec("AB_PET_KEY", j);
        let l = km.pet_slot(j);
        let ghost before = token_views(r@);
        r.push((t, l));
        assert(token_views(r@) =~= before.push((t@, l@)));
        assert(token_views(r@) =~= want.take(12 + j + 1));
        j += 1;
    }
    assert(want.take(21) =~= want);
    r
}

/// "x,y" as `format!("{x},{y}")` writes it.
pub open spec fn pair_text(p: (i32, i32)) -> Seq<char> {
    signed_pad(p.0 as int, 1) + ","@ + signed_pad(p.1 as int, 1)
}

/// Whether the window sizes in pixels fit in a `u32`.
pub open spec fn grid_fits(s: Settings) -> bool {
    &&& s.buff_columns * s.buff_icon_size <= u32::MAX
    &&& s.buff_rows * s.buff_icon_size <= u32::MAX
    &&& s.debuff_columns * s.buff_icon_size <= u32::MAX
    &&& s.debuff_rows * s.buff_icon_size <= u32::MAX
}

/// The buff and debuff window tokens: icon size, locations, columns and
/// rows, and each window's size in pixels.
pub open spec fn layout_tokens_spec(s: Settings) -> Result<Seq<(Seq<char>, Seq<char>)>, Seq<char>> {
    match parse_loc_spec(s.buff_location@) {
        None => Err(location_error(s.buff_location@)),
        Some(b) => match debuff_loc_spec(s) {
            Err(e) => Err(e),
            Ok(d) => {
                let cell = s.buff_icon_size as nat;
                Ok(
                    seq![
                        ("@@CELL@@"@, dec(cell)),
                        ("@@BUFFS_LOC@@"@, pair_text(b)),
                        ("@@DEBUFFS_LOC@@"@, pair_text(d)),
                        ("@@BUFFS_COLS@@"@, dec(s.buff_columns as nat)),
                        ("@@BUFFS_ROWS@@"@, dec(s.buff_rows as nat)),
                        ("@@BUFFS_GW@@"@, dec(s.buff_columns as nat * cell)),
                        ("@@BUFFS_GH@@"@, dec(s.buff_rows as nat * cell)),
                        ("@@DEBUFFS_COLS@@"@, dec(s.debuff_columns as nat)),
                        ("@@DEBUFFS_ROWS@@"@, dec(s.debuff_rows as nat)),
                        ("@@DEBUFFS_GW@@"@, dec(s.debuff_columns as nat * cell)),
                        ("@@DEBUFFS_GH@@"@, dec(s.debuff_rows as nat * cell)),
                    ],
                )
            },
        },
    }
}

fn num_token(name: &str, n: u32) -> (t: (String, String))
    ensures
        t.0@ == name@,
        t.1@ == dec(n as nat),
{
    let mut v: Vec<char> = Vec::new();
    push_dec(&mut v, n as u64);
    (String::from_str(name), string_of(v.as_slice()))
}

fn pair_token(name: &str, p: (i32, i32)) -> (t: (String, String))
    ensures
        t.0@ == name@,
        t.1@ == pair_text(p),
{
    let mut v: Vec<char> = Vec::new();
    push_signed_pad(&mut v, p.0 as i64, 1);
    v.push(',');
    push_signed_pad(&mut v, p.1 as i64, 1);
    proof {
        reveal_strlit(",");
        assert(v@ =~= pair_text(p));
    }
    (String::from_str(name), string_of(v.as_slice()))
}

/// The buff and debuff window tokens (see `layout_tokens_spec`); `Err`
/// with the message of the first location that does not read.
pub fn layout_tokens(s: &Settings) -> (r: Result<Vec<(String, String)>, String>)
    requires
        debuff_below_fits(*s),
        grid_fits(*s),
    ensures
        match r {
            Ok(t) => layout_tokens_spec(*s) == Ok::<Seq<(Seq<char>, Seq<char>)>, Seq<char>>(
                token_views(t@),
            ),
            Err(e) => layout_tokens_spec(*s) == Err::<Seq<(Seq<char>, Seq<char>)>, Seq<char>>(e@),
        },
{
    let b = match Settings::parse_loc(s.buff_location.as_str()) {
        None => return Err(location_error_exec(&s.buff_location)),
        Some(b) => b,
    };
    let d = match s.debuff_loc() {
        Err(e) => return Err(e),
        Ok(d) => d,
    };
    let cell = s.buff_icon_size;
    let mut t: Vec<(String, String)> = Vec::new();
    t.push(num_token("@@CELL@@", cell));
    t.push(pair_token("@@BUFFS_LOC@@", b));
    t.push(pair_token("@@DEBUFFS_LOC@@", d));
    t.push(num_token("@@BUFFS_COLS@@", s.buff_columns));
    t.push(num_token("@@BUFFS_ROWS@@", s.buff_rows));
    t.push(num_token("@@BUFFS_GW@@", s.buff_columns * cell));
    t.push(num_token("@@BUFFS_GH@@", s.buff_rows * cell));
    t.push(num_token("@@DEBUFFS_COLS@@", s.debuff_columns));
    t.push(num_token("@@DEBUFFS_ROWS@@", s.debuff_rows));
    t.push(num_token("@@DEBUFFS_GW@@", s.debuff_columns * cell));
    t.push(num_token("@@DEBUFFS_GH@@", s.debuff_rows * cell));
    proof {
        let want = layout_tokens_spec(*s);
        assert(want matches Ok(w) && token_views(t@) =~= w);
    }
    Ok(t)
}

/// Whether `out` is `hud` with the characters `b..e` replaced by the pet
/// page include, the replaced block starting its own line.
pub open spec fn pet_spliced(hud: Seq<char>, out: Seq<char>, b: int, e: int) -> bool {
    let line_start = match rfind_char(hud.take(b), '\n') {
        Some(k) => k + 1,
        None => 0,
    };
    &&& 0 <= b <= hud.len()
    &&& out == hud.take(b) + PET_INCLUDE@ + hud.skip(e)
    &&& forall|k: int| line_start <= k < b ==> is_ws(#[trigger] hud[k])
}

proof fn lemma_pet_scan_shape(
    hud: Seq<char>,
    caps: Seq<Seq<Option<(usize, usize)>>>,
    i: int,
    start: Option<int>,
    depth: int,
)
    requires
        start matches Some(b) ==> 0 <= b <= hud.len(),
    ensures
        pet_scan(hud, caps, i, start, depth) matches Ok(out) ==> exists|b: int, e: int|
            pet_spliced(hud, out, b, e),
    decreases caps.len() - i,
{
    if 0 <= i < caps.len() {
        let m = caps[i];
        let g0 = cap_group(m, 0);
        if let Some((a, z)) = g0 {
            lemma_char_index_of_byte_bound(hud, a as int);
        }
        lemma_pet_scan_shape(hud, caps, i + 1, start, depth);
        lemma_pet_scan_shape(hud, caps, i + 1, None, depth);
        lemma_pet_scan_shape(hud, caps, i + 1, start, depth - 1);
        lemma_pet_scan_shape(hud, caps, i + 1, start, depth + 1);
        if let Some((b, e)) = char_span(hud, g0) {
            lemma_pet_scan_shape(hud, caps, i + 1, Some(b), 1);
        }
        if let Some(begin) = start {
            if let Some((b, e)) = char_span(hud, g0) {
                if let Ok(out) = pet_splice(hud, begin, e) {
                    assert(pet_spliced(hud, out, begin, e));
                }
            }
        }
    }
}

/// What `patch_hud_pet` promises of its result: a hud that already includes
/// the pet page (as the include pattern finds it) comes back unchanged;
/// otherwise a patched hud is the original with one block replaced by the
/// include, a block that starts its own line, and nothing else changed.
pub proof fn lemma_hud_pet_shape(hud: Seq<char>)
    ensures
        regex_captures_of(PET_INCLUDE_RE@, hud) matches Some(ms) && ms.len() > 0 ==> hud_pet_spec(
            hud,
        ) == Ok::<Seq<char>, Seq<char>>(hud),
        hud_pet_spec(hud) matches Ok(out) ==> out == hud || exists|b: int, e: int|
            pet_spliced(hud, out, b, e),
{
    if let Some(tags) = regex_captures_of(TAG_RE@, hud) {
        lemma_pet_scan_shape(hud, tags, 0, None, 0);
    }
}


/// The profession whose key is `key`, by its place in `profession_table`.
pub open spec fn profession_of(key: Seq<char>) -> Option<int> {
    if exists|j: int| 0 <= j < 10 && (#[trigger] profession_table()[j]).0 == key {
        Some(choose|j: int| 0 <= j < 10 && (#[trigger] profession_table()[j]).0 == key)
    } else {
        None
    }
}

/// The colour the swatch cell of `key` is painted: a profession's class
/// colour (`class_colours`, in the order of `profession_table`), the health
/// colour for any other key.
pub open spec fn swatch_colour_spec(class_colours: Seq<Rgb>, health: Rgb, key: Seq<char>) -> Rgb {
    match profession_of(key) {
        Some(j) => class_colours[j],
        None => health,
    }
}

/// The swatch colours, in swatch order.
pub open spec fn swatch_colours_spec(class_colours: Seq<Rgb>, health: Rgb) -> Seq<Rgb> {
    Seq::new(11, |k: int| swatch_colour_spec(class_colours, health, swatch_keys()[k]))
}

/// The colour of each swatch cell, in swatch order (see
/// `swatch_colour_spec`).
pub fn swatch_colours(class_colours: &Vec<Rgb>, health: Rgb) -> (r: Vec<Rgb>)
    requires
        class_colours.len() == 10,
    ensures
        r@ == swatch_colours_spec(class_colours@, health),
{
    let order = swatch_order();
    let table = professions();
    let mut r: Vec<Rgb> = Vec::new();
    let mut k: usize = 0;
    while k < 11
        invariant
            k <= 11,
            class_colours.len() == 10,
            forall|i: int| 0 <= i < 11 ==> (#[trigger] order@[i])@ == swatch_keys()[i],
            forall|i: int|
                0 <= i < 10 ==> (table@[i].0@, table@[i].1@, table@[i].2) == #[trigger] profession_table()[i],
            r@ == swatch_colours_spec(class_colours@, health).take(k as int),
        decreases 11 - k,
    {
        let key = order[k];
        let mut found: Option<usize> = None;
        let mut j: usize = 0;
        while j < 10
            invariant
                j <= 10,
                forall|i: int|
                    0 <= i < 10 ==> (table@[i].0@, table@[i].1@, table@[i].2) == #[trigger] profession_table()[i],
                match found {
                    Some(f) => f < 10 && profession_table()[f as int].0 == key@,
                    None => forall|i: int| 0 <= i < j ==> (#[trigger] profession_table()[i]).0 != key@,
                },
            decreases 10 - j,
        {
            if found.is_none() && str_eq(table[j].0, key) {
                assert(profession_table()[j as int].0 == table@[j as int].0@);
                found = Some(j);
            } else if found.is_none() {
                assert(profession_table()[j as int].0 == table@[j as int].0@);
            }
            j += 1;
        }
        let c = match found {
            Some(f) => class_colours[f],
            None => health,
        };
        proof {
            lemma_profession_keys_distinct();
            assert(key@ == swatch_keys()[k as int]);
            match found {
                Some(f) => {
                    let c2 = choose|i: int| 0 <= i < 10 && (#[trigger] profession_table()[i]).0 == key@;
                    if c2 != f {
                        if c2 < f {
                            assert(profession_table()[c2].0 != profession_table()[f as int].0);
                        } else {
                            assert(profession_table()[f as int].0 != profession_table()[c2].0);
                        }
                    }
                    assert(profession_of(key@) == Some(f as int));
                },
                None => {
                    assert(profession_of(key@) is None);
                },
            }
            assert(c == swatch_colour_spec(class_colours@, health, swatch_keys()[k as int]));
        }
        r.push(c);
        assert(r@ =~= swatch_colours_spec(class_colours@, health).take(k + 1));
        k += 1;
    }
    assert(r@ =~= swatch_colours_spec(class_colours@, health));
    r
}

/// The pages filled in order, each as its path under the game folder and
/// its bytes; the first page that does not fill gives the error.
pub open spec fn fill_pages(pages: Seq<(Seq<char>, Seq<char>)>, tokens: Seq<(Seq<char>, Seq<char>)>) -> Result<
    Seq<(Seq<char>, Seq<u8>)>,
    Seq<char>,
>
    decreases pages.len(),
{
    if pages.len() == 0 {
        Ok(Seq::empty())
    } else {
        match fill_pages(pages.drop_last(), tokens) {
            Err(e) => Err(e),
            Ok(done) => match fill_spec(pages.last().0, pages.last().1, tokens) {
                Err(e) => Err(e),
                Ok(t) => Ok(done.push(("ui\\"@ + pages.last().0, vstd::utf8::encode_utf8(t)))),
            },
        }
    }
}

/// What rendering writes, in order (a later write to a path replacing an
/// earlier one): the pages, the toolbar pages with action bars, the
/// patched hud, and with role colours (`styles` given) the patched styles
/// and the swatch texture.
pub open spec fn render_writes(
    pages: Seq<(Seq<char>, Seq<char>)>,
    toolbar_pages: Seq<(Seq<char>, Seq<char>)>,
    action_bars: bool,
    tokens: Seq<(Seq<char>, Seq<char>)>,
    hud: Seq<char>,
    styles: Option<Seq<char>>,
    class_colours: Seq<Rgb>,
    health: Rgb,
) -> Result<Seq<(Seq<char>, Seq<u8>)>, Seq<char>> {
    let all = if action_bars {
        pages + toolbar_pages
    } else {
        pages
    };
    match fill_pages(all, tokens) {
        Err(e) => Err(e),
        Ok(ws) => match hud_pet_spec(hud) {
            Err(e) => Err(e),
            Ok(h) => {
                let ws = ws.push((HUD_FILE@, vstd::utf8::encode_utf8(h)));
                match styles {
                    None => Ok(ws),
                    Some(st) => match role_styles_spec(st) {
                        Err(e) => Err(e),
                        Ok(x) => Ok(
                            ws.push((STYLES_FILE@, vstd::utf8::encode_utf8(x))).push(
                                (SWATCH_FILE@, swatch_dds_spec(swatch_colours_spec(class_colours, health))),
                            ),
                        ),
                    },
                }
            },
        },
    }
}

/// The bytes last written to `path`.
pub open spec fn last_write(ws: Seq<(Seq<char>, Seq<u8>)>, path: Seq<char>) -> Option<Seq<u8>>
    decreases ws.len(),
{
    if ws.len() == 0 {
        None
    } else if ws.last().0 == path {
        Some(ws.last().1)
    } else {
        last_write(ws.drop_last(), path)
    }
}

/// The bytes a rendered file list holds at `path`.
pub open spec fn file_at(files: Seq<(String, Vec<u8>)>, path: Seq<char>) -> Option<Seq<u8>> {
    match path_get(files, path) {
        Some(b) => Some(b@),
        None => None,
    }
}

fn utf8_bytes(s: &String) -> (b: Vec<u8>)
    ensures
        b@ == vstd::utf8::encode_utf8(s@),
{
    vstd::slice::slice_to_vec(s.as_str().as_bytes())
}

/// Writes `bytes` at `path` in `files`, keeping `last_write` in step.
proof fn lemma_write_step(
    files0: Seq<(String, Vec<u8>)>,
    files1: Seq<(String, Vec<u8>)>,
    ws: Seq<(Seq<char>, Seq<u8>)>,
    path: Seq<char>,
    bytes: Vec<u8>,
)
    requires
        forall|p: Seq<char>| #[trigger] file_at(files0, p) == last_write(ws, p),
        path_get(files1, path) == Some(bytes),
        forall|other: Seq<char>| other != path ==> path_get(files1, other) == path_get(files0, other),
    ensures
        forall|p: Seq<char>| #[trigger] file_at(files1, p) == last_write(ws.push((path, bytes@)), p),
{
    assert forall|p: Seq<char>| #[trigger] file_at(files1, p) == last_write(ws.push((path, bytes@)), p) by {
        assert(ws.push((path, bytes@)).drop_last() =~= ws);
        if p != path {
            assert(file_at(files0, p) == last_write(ws, p));
        }
    }
}

/// A prefix of the pages that fails to fill decides the result.
proof fn lemma_fill_pages_err(s: Seq<(Seq<char>, Seq<char>)>, k: int, tokens: Seq<(Seq<char>, Seq<char>)>)
    requires
        0 <= k <= s.len(),
        fill_pages(s.take(k), tokens) is Err,
    ensures
        fill_pages(s, tokens) == fill_pages(s.take(k), tokens),
    decreases s.len(),
{
    if k == s.len() {
        assert(s.take(k) =~= s);
    } else {
        assert(s.drop_last().take(k) =~= s.take(k));
        lemma_fill_pages_err(s.drop_last(), k, tokens);
    }
}

/// Fills the page `name` (template `tpl`) and puts it at `ui\name`.
fn put_page(files: &mut Vec<(String, Vec<u8>)>, name: &str, tpl: &str, tokens: &Vec<(String, String)>) -> (r: Result<
    Ghost<Seq<u8>>,
    String,
>)
    requires
        paths_ascending(old(files)@),
    ensures
        match r {
            Ok(b) => {
                &&& (fill_spec(name@, tpl@, token_views(tokens@)) matches Ok(t) && b@ == vstd::utf8::encode_utf8(t))
                &&& paths_ascending(final(files)@)
                &&& (path_get(final(files)@, "ui\\"@ + name@) matches Some(v) && v@ == b@)
                &&& forall|other: Seq<char>|
                    other != "ui\\"@ + name@ ==> path_get(final(files)@, other) == path_get(old(files)@, other)
            },
            Err(e) => fill_spec(name@, tpl@, token_views(tokens@)) == Err::<Seq<char>, Seq<char>>(e@)
                && final(files)@ == old(files)@,
        },
{
    let text = match fill_template(name, tpl, tokens) {
        Err(e) => return Err(e),
        Ok(t) => t,
    };
    let mut path = String::from_str("ui\\");
    path.append(name);
    let bytes = utf8_bytes(&text);
    let ghost bv = bytes@;
    path_put(files, path.as_str(), bytes);
    Ok(Ghost(bv))
}

/// The files rendering gives, by path in ascending order: the pages filled
/// with `tokens` (the toolbar pages too with action bars), the hud with
/// its pet page patched, and, when the stock styles are given (role
/// colours on), the patched styles and the swatch texture painted with
/// the class colours (`class_colours`, in the order of `profession_table`)
/// and the health colour.
pub fn render_files(
    pages: &Vec<(String, String)>,
    toolbar_pages: &Vec<(String, String)>,
    action_bars: bool,
    tokens: &Vec<(String, String)>,
    hud: &str,
    styles: Option<&str>,
    class_colours: &Vec<Rgb>,
    health: Rgb,
) -> (r: Result<Vec<(String, Vec<u8>)>, String>)
    requires
        styles is Some ==> class_colours.len() == 10,
    ensures
        ({
            let spec = render_writes(
                token_views(pages@),
                token_views(toolbar_pages@),
                action_bars,
                token_views(tokens@),
                hud@,
                match styles {
                    Some(st) => Some(st@),
                    None => None,
                },
                class_colours@,
                health,
            );
            match r {
                Ok(files) => spec matches Ok(ws) && paths_ascending(files@) && forall|p: Seq<char>|
                    #[trigger] file_at(files@, p) == last_write(ws, p),
                Err(e) => spec == Err::<Seq<(Seq<char>, Seq<u8>)>, Seq<char>>(e@),
            }
        }),
{
    let ghost tv = token_views(tokens@);
    let ghost pv = token_views(pages@);
    let ghost all: Seq<(Seq<char>, Seq<char>)> = if action_bars {
        pv + token_views(toolbar_pages@)
    } else {
        pv
    };
    let mut files: Vec<(String, Vec<u8>)> = Vec::new();
    let ghost mut ws: Seq<(Seq<char>, Seq<u8>)> = Seq::empty();
    assert(all.take(0) =~= Seq::<(Seq<char>, Seq<char>)>::empty());
    let mut i: usize = 0;
    while i < pages.len()
        invariant
            i <= pages.len(),
            tv == token_views(tokens@),
            pv == token_views(pages@),
            all == (if action_bars { pv + token_views(toolbar_pages@) } else { pv }),
            fill_pages(all.take(i as int), tv) == Ok::<Seq<(Seq<char>, Seq<u8>)>, Seq<char>>(ws),
            paths_ascending(files@),
            forall|p: Seq<char>| #[trigger] file_at(files@, p) == last_write(ws, p),
        decreases pages.len() - i,
    {
        assert(all[i as int] == (pages@[i as int].0@, pages@[i as int].1@));
        assert(all.take(i + 1).drop_last() =~= all.take(i as int));
        let ghost f0 = files@;
        match put_page(&mut files, pages[i].0.as_str(), pages[i].1.as_str(), tokens) {
            Err(e) => {
                proof {
                    lemma_fill_pages_err(all, i + 1, tv);
                }
                return Err(e);
            },
            Ok(b) => {
                proof {
                    let path = "ui\\"@ + pages@[i as int].0@;
                    let v = path_get(files@, path).unwrap();
                    lemma_write_step(f0, files@, ws, path, v);
                    ws = ws.push((path, b@));
                }
            },
        }
        i += 1;
    }
    if action_bars {
        let mut j: usize = 0;
        while j < toolbar_pages.len()
            invariant
                j <= toolbar_pages.len(),
                action_bars,
                tv == token_views(tokens@),
                pv == token_views(pages@),
                pv.len() == pages.len(),
                all == pv + token_views(toolbar_pages@),
                fill_pages(all.take(pages.len() + j), tv) == Ok::<Seq<(Seq<char>, Seq<u8>)>, Seq<char>>(ws),
                paths_ascending(files@),
                forall|p: Seq<char>| #[trigger] file_at(files@, p) == last_write(ws, p),
            decreases toolbar_pages.len() - j,
        {
            let ghost k = pages.len() + j;
            assert(all[k] == (toolbar_pages@[j as int].0@, toolbar_pages@[j as int].1@));
            assert(all.take(k + 1).drop_last() =~= all.take(k));
            let ghost f0 = files@;
            match put_page(&mut files, toolbar_pages[j].0.as_str(), toolbar_pages[j].1.as_str(), tokens) {
                Err(e) => {
                    proof {
                        lemma_fill_pages_err(all, k + 1, tv);
                    }
                    return Err(e);
                },
                Ok(b) => {
                    proof {
                        let path = "ui\\"@ + toolbar_pages@[j as int].0@;
                        let v = path_get(files@, path).unwrap();
                        lemma_write_step(f0, files@, ws, path, v);
                        ws = ws.push((path, b@));
                    }
                },
            }
            j += 1;
        }
        assert(all.take(pages.len() + toolbar_pages.len()) =~= all);
    } else {
        assert(all.take(pages.len() as int) =~= all);
    }
    let h = match patch_hud_pet(hud) {
        Err(e) => return Err(e),
        Ok(h) => h,
    };
    let hb = utf8_bytes(&h);
    let ghost f1 = files@;
    path_put(&mut files, HUD_FILE, hb);
    proof {
        lemma_write_step(f1, files@, ws, HUD_FILE@, hb);
        ws = ws.push((HUD_FILE@, hb@));
    }
    match styles {
        None => Ok(files),
        Some(st) => {
            let x = match patch_role_styles(st) {
                Err(e) => return Err(e),
                Ok(x) => x,
            };
            let xb = utf8_bytes(&x);
            let ghost f2 = files@;
            path_put(&mut files, STYLES_FILE, xb);
            proof {
                lemma_write_step(f2, files@, ws, STYLES_FILE@, xb);
                ws = ws.push((STYLES_FILE@, xb@));
            }
            let colours = swatch_colours(class_colours, health);
            let dds = swatch_dds(&colours);
            let ghost f3 = files@;
            path_put(&mut files, SWATCH_FILE, dds);
            proof {
                lemma_write_step(f3, files@, ws, SWATCH_FILE@, dds);
            }
            Ok(files)
        },
    }
}

} // verus!
