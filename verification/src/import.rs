//! Recovering the settings from the pages installed in the game folder
//! (whichever installer wrote them), so a fresh copy of the application
//! previews what the player actually sees instead of the built-in defaults.

use vstd::prelude::*;
use vstd::string::StringExecFns;
use crate::install::{layout_tokens_spec, pair_text};
use crate::settings::{
    debuff_loc_spec, lemma_loc_text, parse_loc_spec, profession_table, rgb_hex, rgb_parse, Rgb, Settings,
};
use crate::text::{
    chars_of, dec, lemma_signed_pad_1, push_dec, push_signed_pad, signed_pad, str_eq, string_of,
};
use crate::xml::{attr_get, el_child, el_name, el_path, el_view, els_view, find_in, split_all, El, ElV};

verus! {

/// The tint (`BackgroundTint`) of the child `part` of a bar.
pub open spec fn tint(bar: ElV, part: Seq<char>) -> Option<Rgb> {
    match el_child(bar, part) {
        Some(p) => match attr_get(p.attrs, "BackgroundTint"@) {
            Some(t) => rgb_parse(t),
            None => None,
        },
        None => None,
    }
}

/// A window as a filled page writes it: named `name`, at `loc`, its size
/// `cols * cell` by `rows * cell` pixels and its first volume's cell count
/// `cols,rows`, numbers as `{}` writes them.
pub open spec fn window_as_filled(w: ElV, name: Seq<char>, loc: (i32, i32), cols: nat, rows: nat, cell: nat) -> bool {
    &&& el_name(w) == name
    &&& attr_get(w.attrs, "Location"@) == Some(pair_text(loc))
    &&& attr_get(w.attrs, "Size"@) == Some(dec(cols * cell) + ","@ + dec(rows * cell))
    &&& (first_volume(w.children) matches Some(v) && attr_get(v.attrs, "CellCount"@) == Some(
        dec(cols) + ","@ + dec(rows),
    ))
}

/// The point `pair_text` writes reads back.
proof fn lemma_pair_text_parse(p: (i32, i32))
    ensures
        parse_loc_spec(pair_text(p)) == Some(p),
{
    lemma_signed_pad_1(p.0 as int);
    lemma_signed_pad_1(p.1 as int);
    lemma_loc_text(signed_pad(p.0 as int, 1), p.0 as int, signed_pad(p.1 as int, 1), p.1 as int);
}

/// A window written as `window_as_filled` reads back, without a known
/// client cell size, as its location, columns, rows and cell size.
proof fn lemma_window_grid(w: ElV, name: Seq<char>, loc: (i32, i32), cols: nat, rows: nat, cell: nat)
    requires
        window_as_filled(w, name, loc, cols, rows, cell),
        0 < cols,
        0 < rows,
        0 < cell,
        cols * cell <= i32::MAX,
        rows * cell <= i32::MAX,
    ensures
        grid_spec(w, name, None) == Some((loc, cols as u32, rows as u32, cell as u32)),
{
    assert(cols <= cols * cell && rows <= rows * cell && 0 < cols * cell && 0 < rows * cell) by (nonlinear_arith)
        requires
            0 < cols,
            0 < rows,
            0 < cell,
    ;
    assert(((cols * cell) as int) / (cols as int) == cell) by (nonlinear_arith)
        requires
            0 < cols,
    ;
    lemma_pair_text_parse(loc);
    lemma_loc_text(dec(cols * cell), (cols * cell) as int, dec(rows * cell), (rows * cell) as int);
    lemma_loc_text(dec(cols), cols as int, dec(rows), rows as int);
}

/// Import gives back the layout that render wrote: when the player page's
/// buff and debuff windows carry the values `layout_tokens` gives for `s`
/// (the locations, the window sizes in pixels and the cell counts), reading
/// them (the client's cell size unknown) sets the buff window's location,
/// columns, rows and icon size and the debuff window's location, columns
/// and rows to those of `s`, each location as the same point.
pub proof fn lemma_layout_roundtrip(
    s: Settings,
    buffs: ElV,
    debuffs: ElV,
    old_s: Settings,
    new_s: Settings,
    role: bool,
)
    requires
        layout_tokens_spec(s) is Ok,
        0 < s.buff_columns,
        0 < s.buff_rows,
        0 < s.buff_icon_size,
        0 < s.debuff_columns,
        0 < s.debuff_rows,
        s.buff_columns * s.buff_icon_size <= i32::MAX,
        s.buff_rows * s.buff_icon_size <= i32::MAX,
        s.debuff_columns * s.buff_icon_size <= i32::MAX,
        s.debuff_rows * s.buff_icon_size <= i32::MAX,
        window_as_filled(
            buffs,
            "PlayerBuffs"@,
            parse_loc_spec(s.buff_location@).unwrap(),
            s.buff_columns as nat,
            s.buff_rows as nat,
            s.buff_icon_size as nat,
        ),
        window_as_filled(
            debuffs,
            "PlayerDebuffs"@,
            debuff_loc_spec(s)->Ok_0,
            s.debuff_columns as nat,
            s.debuff_rows as nat,
            s.buff_icon_size as nat,
        ),
        layout_imported(
            old_s,
            new_s,
            grid_spec(buffs, "PlayerBuffs"@, None),
            grid_spec(debuffs, "PlayerDebuffs"@, None),
            role,
        ),
    ensures
        ({
            let t = layout_tokens_spec(s)->Ok_0;
            let cell = s.buff_icon_size as nat;
            &&& t[1] == ("@@BUFFS_LOC@@"@, pair_text(parse_loc_spec(s.buff_location@).unwrap()))
            &&& t[2] == ("@@DEBUFFS_LOC@@"@, pair_text(debuff_loc_spec(s)->Ok_0))
            &&& t[3] == ("@@BUFFS_COLS@@"@, dec(s.buff_columns as nat))
            &&& t[4] == ("@@BUFFS_ROWS@@"@, dec(s.buff_rows as nat))
            &&& t[5] == ("@@BUFFS_GW@@"@, dec(s.buff_columns as nat * cell))
            &&& t[6] == ("@@BUFFS_GH@@"@, dec(s.buff_rows as nat * cell))
            &&& t[7] == ("@@DEBUFFS_COLS@@"@, dec(s.debuff_columns as nat))
            &&& t[8] == ("@@DEBUFFS_ROWS@@"@, dec(s.debuff_rows as nat))
            &&& t[9] == ("@@DEBUFFS_GW@@"@, dec(s.debuff_columns as nat * cell))
            &&& t[10] == ("@@DEBUFFS_GH@@"@, dec(s.debuff_rows as nat * cell))
        }),
        !new_s.inline_buffs,
        parse_loc_spec(new_s.buff_location@) == parse_loc_spec(s.buff_location@),
        new_s.buff_columns == s.buff_columns,
        new_s.buff_rows == s.buff_rows,
        new_s.buff_icon_size == s.buff_icon_size,
        parse_loc_spec(new_s.debuff_location@) == Some(debuff_loc_spec(s)->Ok_0),
        new_s.debuff_columns == s.debuff_columns,
        new_s.debuff_rows == s.debuff_rows,
        new_s.role_colors == role,
{
    let b = parse_loc_spec(s.buff_location@).unwrap();
    let d = debuff_loc_spec(s)->Ok_0;
    let cell = s.buff_icon_size as nat;
    lemma_window_grid(buffs, "PlayerBuffs"@, b, s.buff_columns as nat, s.buff_rows as nat, cell);
    lemma_window_grid(debuffs, "PlayerDebuffs"@, d, s.debuff_columns as nat, s.debuff_rows as nat, cell);
    lemma_pair_text_parse(b);
    lemma_pair_text_parse(d);
}

/// What reading the installed pages changed, as lines to report.
pub struct Imported {
    pub applied: Vec<String>,
}

/// The bar fill colour (juice tint) and backdrop tint of pool page `pool`
/// under `status_path`.
pub open spec fn bar_colours_spec(root: ElV, status_path: Seq<char>, pool: Seq<char>) -> Option<
    (Rgb, Rgb),
> {
    match el_path(root, split_all(status_path, '.')) {
        Some(st) => match el_child(st, pool) {
            Some(p) => match el_child(p, "Bar"@) {
                Some(bar) => match (tint(bar, "juice"@), tint(bar, "back"@)) {
                    (Some(j), Some(b)) => Some((j, b)),
                    _ => None,
                },
                None => None,
            },
            None => None,
        },
        None => None,
    }
}

fn tint_exec(bar: &El, part: &str) -> (r: Option<Rgb>)
    ensures
        r == tint(el_view(*bar), part@),
{
    let p = match bar.child(part) {
        Some(p) => p,
        None => return None,
    };
    match p.get("BackgroundTint") {
        Some(t) => Rgb::parse(t),
        None => None,
    }
}

/// The bar fill colour of pool page `pool` (`h` health, `a` action) under
/// `status_path`, and the backdrop tint.
pub fn bar_colours(root: &El, status_path: &str, pool: &str) -> (r: Option<(Rgb, Rgb)>)
    ensures
        r == bar_colours_spec(el_view(*root), status_path@, pool@),
{
    let st = match root.path(status_path) {
        Some(x) => x,
        None => return None,
    };
    let p = match st.child(pool) {
        Some(x) => x,
        None => return None,
    };
    let bar = match p.child("Bar") {
        Some(x) => x,
        None => return None,
    };
    let juice = tint_exec(bar, "juice");
    let back = tint_exec(bar, "back");
    match (juice, back) {
        (Some(j), Some(b)) => Some((j, b)),
        _ => None,
    }
}

/// The first of `kids` with a `CellCount` attribute.
pub open spec fn first_volume(kids: Seq<ElV>) -> Option<ElV>
    decreases kids.len(),
{
    if kids.len() == 0 {
        None
    } else if attr_get(kids[0].attrs, "CellCount"@) is Some {
        Some(kids[0])
    } else {
        first_volume(kids.drop_first())
    }
}

/// A buff window as the installed page lays it out: location, columns,
/// rows and icon size.
pub type Grid = ((i32, i32), u32, u32, u32);

/// The buff window `window` (the root itself or the first element under it
/// with that name): its location, and its grid as (columns, rows, cell).  The
/// client ignores the page's cell size and packs icons at the Options slider
/// size, so when `client_cell` is known (and not 0) the grid is the cells
/// that fit in the window, at least one each way.
pub open spec fn grid_spec(root: ElV, window: Seq<char>, client_cell: Option<u32>) -> Option<Grid> {
    let w = if el_name(root) == window {
        Some(root)
    } else {
        find_in(root.children, window)
    };
    match w {
        None => None,
        Some(w) => match (
            attr_get(w.attrs, "Location"@),
            attr_get(w.attrs, "Size"@),
            first_volume(w.children),
        ) {
            (Some(l), Some(z), Some(vol)) => match (
                parse_loc_spec(l),
                parse_loc_spec(z),
                attr_get(vol.attrs, "CellCount"@),
            ) {
                (Some(loc), Some(size), Some(cc)) => match parse_loc_spec(cc) {
                    Some(cr) => if cr.0 <= 0 || cr.1 <= 0 || size.0 <= 0 || size.1 <= 0 {
                        None
                    } else {
                        match client_cell {
                            Some(cell) if cell > 0 => {
                                let c = size.0 as u32 / cell;
                                let r = size.1 as u32 / cell;
                                Some(
                                    (
                                        loc,
                                        if c >= 1 {
                                            c
                                        } else {
                                            1
                                        },
                                        if r >= 1 {
                                            r
                                        } else {
                                            1
                                        },
                                        cell,
                                    ),
                                )
                            },
                            _ => Some((loc, cr.0 as u32, cr.1 as u32, (size.0 / cr.0) as u32)),
                        }
                    },
                    None => None,
                },
                _ => None,
            },
            _ => None,
        },
    }
}

fn first_volume_exec(w: &El) -> (r: Option<&El>)
    ensures
        match r {
            Some(v) => first_volume(el_view(*w).children) == Some(el_view(*v)),
            None => first_volume(el_view(*w).children) is None,
        },
{
    let ghost kids = el_view(*w).children;
    assert(kids =~= els_view(w.children@));
    let mut i: usize = 0;
    assert(kids.skip(0) =~= kids);
    while i < w.children.len()
        invariant
            i <= w.children.len(),
            kids == els_view(w.children@),
            kids == el_view(*w).children,
            first_volume(kids) == first_volume(kids.skip(i as int)),
        decreases w.children.len() - i,
    {
        assert(kids.skip(i as int)[0] == el_view(w.children@[i as int]));
        assert(kids.skip(i as int).drop_first() =~= kids.skip(i + 1));
        let c = &w.children[i];
        if c.get("CellCount").is_some() {
            return Some(c);
        }
        i += 1;
    }
    None
}

/// The buff window `window` (see `grid_spec`).
pub fn grid(root: &El, window: &str, client_cell: Option<u32>) -> (r: Option<Grid>)
    ensures
        r == grid_spec(el_view(*root), window@, client_cell),
{
    let w = if str_eq(root.name(), window) {
        root
    } else {
        match root.find(window) {
            Some(x) => x,
            None => return None,
        }
    };
    let l = match w.get("Location") {
        Some(x) => x,
        None => return None,
    };
    let z = match w.get("Size") {
        Some(x) => x,
        None => return None,
    };
    let vol = match first_volume_exec(w) {
        Some(x) => x,
        None => return None,
    };
    let loc = match Settings::parse_loc(l) {
        Some(x) => x,
        None => return None,
    };
    let size = match Settings::parse_loc(z) {
        Some(x) => x,
        None => return None,
    };
    let cc = match vol.get("CellCount") {
        Some(x) => x,
        None => return None,
    };
    let cr = match Settings::parse_loc(cc) {
        Some(x) => x,
        None => return None,
    };
    if cr.0 <= 0 || cr.1 <= 0 || size.0 <= 0 || size.1 <= 0 {
        return None;
    }
    match client_cell {
        Some(cell) if cell > 0 => {
            let c = (size.0 as u32) / cell;
            let r = (size.1 as u32) / cell;
            Some(
                (
                    loc,
                    if c >= 1 {
                        c
                    } else {
                        1
                    },
                    if r >= 1 {
                        r
                    } else {
                        1
                    },
                    cell,
                ),
            )
        },
        _ => Some((loc, cr.0 as u32, cr.1 as u32, (size.0 / cr.0) as u32)),
    }
}

/// Index of the first page named `name`.
pub open spec fn page_index(pages: Seq<ElV>, name: Seq<char>) -> Option<int>
    decreases pages.len(),
{
    if pages.len() == 0 {
        None
    } else if el_name(pages[0]) == name {
        Some(0)
    } else {
        match page_index(pages.drop_first(), name) {
            Some(i) => Some(i + 1),
            None => None,
        }
    }
}

/// The first page named `name`.
pub fn find_page<'a>(pages: &'a Vec<El>, name: &str) -> (r: Option<&'a El>)
    ensures
        match r {
            Some(p) => match page_index(els_view(pages@), name@) {
                Some(i) => 0 <= i < pages.len() && el_view(*p) == els_view(pages@)[i],
                None => false,
            },
            None => page_index(els_view(pages@), name@) is None,
        },
{
    let ghost pv = els_view(pages@);
    let mut i: usize = 0;
    assert(pv.skip(0) =~= pv);
    while i < pages.len()
        invariant
            i <= pages.len(),
            pv == els_view(pages@),
            page_index(pv, name@) == match page_index(pv.skip(i as int), name@) {
                Some(j) => Some(j + i),
                None => None,
            },
        decreases pages.len() - i,
    {
        assert(pv.skip(i as int)[0] == el_view(pages@[i as int]));
        assert(pv.skip(i as int).drop_first() =~= pv.skip(i + 1));
        if str_eq(pages[i].name(), name) {
            return Some(&pages[i]);
        }
        i += 1;
    }
    None
}

/// The first page that has the buff window `window` (as `grid` reads it).
pub open spec fn first_grid(pages: Seq<ElV>, window: Seq<char>, client_cell: Option<u32>) -> Option<
    Grid,
>
    decreases pages.len(),
{
    if pages.len() == 0 {
        None
    } else {
        match grid_spec(pages[0], window, client_cell) {
            Some(g) => Some(g),
            None => first_grid(pages.drop_first(), window, client_cell),
        }
    }
}

fn first_grid_exec(pages: &Vec<El>, window: &str, client_cell: Option<u32>) -> (r: Option<Grid>)
    ensures
        r == first_grid(els_view(pages@), window@, client_cell),
{
    let ghost pv = els_view(pages@);
    let mut i: usize = 0;
    assert(pv.skip(0) =~= pv);
    while i < pages.len()
        invariant
            i <= pages.len(),
            pv == els_view(pages@),
            first_grid(pv, window@, client_cell) == first_grid(pv.skip(i as int), window@, client_cell),
        decreases pages.len() - i,
    {
        assert(pv.skip(i as int)[0] == el_view(pages@[i as int]));
        assert(pv.skip(i as int).drop_first() =~= pv.skip(i + 1));
        match grid(&pages[i], window, client_cell) {
            Some(g) => return Some(g),
            None => {},
        }
        i += 1;
    }
    None
}

/// Whether the health juice of the player page carries a `fill` image (the
/// role colours are on).
pub open spec fn role_on(player: ElV) -> bool {
    match el_path(player, split_all("status.h.Bar.juice"@, '.')) {
        Some(j) => el_child(j, "fill"@) is Some,
        None => false,
    }
}

/// "buffs <cols>x<rows> at <x>,<y> (icon <cell>)"
pub open spec fn buffs_line(g: Grid) -> Seq<char> {
    "buffs "@ + dec(g.1 as nat) + "x"@ + dec(g.2 as nat) + " at "@ + pair_text(g.0) + " (icon "@
        + dec(g.3 as nat) + ")"@
}

/// "debuffs <cols>x<rows> at <x>,<y>"
pub open spec fn debuffs_line(g: Grid) -> Seq<char> {
    "debuffs "@ + dec(g.1 as nat) + "x"@ + dec(g.2 as nat) + " at "@ + pair_text(g.0)
}

/// What reading the installed player pages changes: the buff windows (or
/// inline buffs) and whether role colours are on; everything else stays.
pub open spec fn layout_imported(
    old_s: Settings,
    new_s: Settings,
    buffs: Option<Grid>,
    debuffs: Option<Grid>,
    role: bool,
) -> bool {
    &&& new_s.inline_buffs == (buffs is None)
    &&& new_s.role_colors == role
    &&& match buffs {
        Some(b) => {
            &&& new_s.buff_location@ == pair_text(b.0)
            &&& new_s.buff_columns == b.1
            &&& new_s.buff_rows == b.2
            &&& new_s.buff_icon_size == b.3
            &&& match debuffs {
                Some(d) => {
                    &&& new_s.debuff_location@ == pair_text(d.0)
                    &&& new_s.debuff_columns == d.1
                    &&& new_s.debuff_rows == d.2
                },
                None => {
                    &&& new_s.debuff_location == old_s.debuff_location
                    &&& new_s.debuff_columns == old_s.debuff_columns
                    &&& new_s.debuff_rows == old_s.debuff_rows
                },
            }
        },
        None => {
            &&& new_s.buff_location == old_s.buff_location
            &&& new_s.buff_columns == old_s.buff_columns
            &&& new_s.buff_rows == old_s.buff_rows
            &&& new_s.buff_icon_size == old_s.buff_icon_size
            &&& new_s.debuff_location == old_s.debuff_location
            &&& new_s.debuff_columns == old_s.debuff_columns
            &&& new_s.debuff_rows == old_s.debuff_rows
        },
    }
    &&& new_s.game_dir == old_s.game_dir
    &&& new_s.profession == old_s.profession
    &&& new_s.health_color == old_s.health_color
    &&& new_s.target_health_color == old_s.target_health_color
    &&& new_s.power_color == old_s.power_color
    &&& new_s.preview_resolution == old_s.preview_resolution
    &&& new_s.pet_icon_size == old_s.pet_icon_size
    &&& new_s.group_icon_size == old_s.group_icon_size
}

/// The lines `import_layout` reports.
pub open spec fn layout_lines(buffs: Option<Grid>, debuffs: Option<Grid>, role: bool) -> Seq<
    Seq<char>,
> {
    let first = match buffs {
        Some(b) => match debuffs {
            Some(d) => seq![buffs_line(b), debuffs_line(d)],
            None => seq![buffs_line(b)],
        },
        None => seq![("inline buff rows"@)],
    };
    first + seq![
        if role {
            "role colours on"@
        } else {
            "role colours off"@
        },
    ]
}

fn pair_chars(v: &mut Vec<char>, p: (i32, i32))
    ensures
        final(v)@ == old(v)@ + pair_text(p),
{
    push_signed_pad(v, p.0 as i64, 1);
    v.push(',');
    push_signed_pad(v, p.1 as i64, 1);
    proof {
        reveal_strlit(",");
        assert(final(v)@ =~= old(v)@ + pair_text(p));
    }
}

fn grid_line(g: Grid, buffs: bool) -> (s: String)
    ensures
        buffs ==> s@ == buffs_line(g),
        !buffs ==> s@ == debuffs_line(g),
{
    let mut v = if buffs {
        chars_of("buffs ")
    } else {
        chars_of("debuffs ")
    };
    push_dec(&mut v, g.1 as u64);
    v.push('x');
    push_dec(&mut v, g.2 as u64);
    let at = chars_of(" at ");
    crate::text::append_slice(&mut v, at.as_slice());
    pair_chars(&mut v, g.0);
    if buffs {
        crate::text::append_chars(&mut v, " (icon ");
        push_dec(&mut v, g.3 as u64);
        v.push(')');
    }
    proof {
        reveal_strlit("x");
        reveal_strlit(")");
    }
    let s = string_of(v.as_slice());
    assert(buffs ==> s@ =~= buffs_line(g));
    assert(!buffs ==> s@ =~= debuffs_line(g));
    s
}

fn pair_string(p: (i32, i32)) -> (s: String)
    ensures
        s@ == pair_text(p),
{
    let mut v: Vec<char> = Vec::new();
    pair_chars(&mut v, p);
    string_of(v.as_slice())
}

/// Reads the buff windows and the role colour switch from the installed
/// player pages (`pages`, as `parse` reads the player page file) into `s`,
/// and returns the lines to report.  `Err` when no page is the player frame
/// (`MFDStatus`); `s` is then unchanged.
pub fn import_layout(pages: &Vec<El>, client_cell: Option<u32>, s: &mut Settings) -> (r: Result<
    Vec<String>,
    String,
>)
    ensures
        match r {
            Err(e) => page_index(els_view(pages@), "MFDStatus"@) is None && e@
                == "installed player page has no MFDStatus"@ && *final(s) == *old(s),
            Ok(lines) => match page_index(els_view(pages@), "MFDStatus"@) {
                Some(i) => {
                    let pv = els_view(pages@);
                    let buffs = first_grid(pv, "PlayerBuffs"@, client_cell);
                    let debuffs = first_grid(pv, "PlayerDebuffs"@, client_cell);
                    &&& layout_imported(*old(s), *final(s), buffs, debuffs, role_on(pv[i]))
                    &&& lines@.map_values(|l: String| l@) == layout_lines(
                        buffs,
                        debuffs,
                        role_on(pv[i]),
                    )
                },
                None => false,
            },
        },
{
    let player = match find_page(pages, "MFDStatus") {
        Some(p) => p,
        None => return Err(String::from_str("installed player page has no MFDStatus")),
    };
    let mut applied: Vec<String> = Vec::new();
    let buffs = first_grid_exec(pages, "PlayerBuffs", client_cell);
    let debuffs = first_grid_exec(pages, "PlayerDebuffs", client_cell);
    match buffs {
        Some(b) => {
            s.inline_buffs = false;
            s.buff_location = pair_string(b.0);
            s.buff_columns = b.1;
            s.buff_rows = b.2;
            s.buff_icon_size = b.3;
            applied.push(grid_line(b, true));
            match debuffs {
                Some(d) => {
                    s.debuff_location = pair_string(d.0);
                    s.debuff_columns = d.1;
                    s.debuff_rows = d.2;
                    applied.push(grid_line(d, false));
                },
                None => {},
            }
        },
        None => {
            s.inline_buffs = true;
            applied.push(String::from_str("inline buff rows"));
        },
    }
    let role = match player.path("status.h.Bar.juice") {
        Some(j) => j.child("fill").is_some(),
        None => false,
    };
    s.role_colors = role;
    applied.push(
        if role {
            String::from_str("role colours on")
        } else {
            String::from_str("role colours off")
        },
    );
    proof {
        let want = layout_lines(
            first_grid(els_view(pages@), "PlayerBuffs"@, client_cell),
            first_grid(els_view(pages@), "PlayerDebuffs"@, client_cell),
            role,
        );
        assert(applied@.map_values(|l: String| l@) =~= want);
    }
    Ok(applied)
}

/// Every field but the health colour choice (profession and override) and
/// the target colour is the same.
pub open spec fn same_but_colours(a: Settings, b: Settings) -> bool {
    &&& a.game_dir == b.game_dir
    &&& a.power_color == b.power_color
    &&& a.buff_icon_size == b.buff_icon_size
    &&& a.buff_columns == b.buff_columns
    &&& a.buff_rows == b.buff_rows
    &&& a.debuff_columns == b.debuff_columns
    &&& a.debuff_rows == b.debuff_rows
    &&& a.buff_location == b.buff_location
    &&& a.debuff_location == b.debuff_location
    &&& a.role_colors == b.role_colors
    &&& a.inline_buffs == b.inline_buffs
    &&& a.preview_resolution == b.preview_resolution
    &&& a.pet_icon_size == b.pet_icon_size
    &&& a.group_icon_size == b.group_icon_size
}

/// What the health bar colour of the installed player page tells, with
/// role colours off: the profession whose class colour (in `class_colours`,
/// the presets' colours after the current multiplier, in preset order) it
/// is, else a custom colour.
pub open spec fn preset_index(class_colours: Seq<Rgb>, health: Rgb) -> Option<int>
    decreases class_colours.len(),
{
    if class_colours.len() == 0 {
        None
    } else if class_colours[0] == health {
        Some(0)
    } else {
        match preset_index(class_colours.drop_first(), health) {
            Some(i) => Some(i + 1),
            None => None,
        }
    }
}

/// Takes the health colour of the installed player page into `s` (role
/// colours off only): the matching profession preset (clearing any
/// override), else the colour as an override.  Returns the line to report.
pub fn import_health(health: Rgb, class_colours: &Vec<Rgb>, s: &mut Settings) -> (line: String)
    requires
        class_colours.len() == 10,
    ensures
        line@ == "health "@ + rgb_hex(health),
        match preset_index(class_colours@, health) {
            Some(i) => {
                &&& final(s).profession@ == (if i == 9 {
                    Seq::<char>::empty()
                } else {
                    profession_table()[i].0
                })
                &&& final(s).health_color@ == Seq::<char>::empty()
            },
            None => {
                &&& final(s).health_color@ == rgb_hex(health)
                &&& final(s).profession == old(s).profession
            },
        },
        final(s).target_health_color == old(s).target_health_color,
        same_but_colours(*old(s), *final(s)),
{
    let table = crate::settings::professions();
    let mut i: usize = 0;
    let ghost cs = class_colours@;
    assert(cs.skip(0) =~= cs);
    while i < 10
        invariant
            i <= 10,
            cs == class_colours@,
            cs.len() == 10,
            *s == *old(s),
            forall|k: int|
                0 <= k < 10 ==> (table@[k].0@, table@[k].1@, table@[k].2) == #[trigger] profession_table()[k],
            preset_index(cs, health) == match preset_index(cs.skip(i as int), health) {
                Some(j) => Some(j + i),
                None => None,
            },
        decreases 10 - i,
    {
        assert(cs.skip(i as int)[0] == cs[i as int]);
        assert(cs.skip(i as int).drop_first() =~= cs.skip(i + 1));
        if class_colours[i] == health {
            proof {
                assert(profession_table()[i as int].0 == table@[i as int].0@);
                reveal_strlit("green");
            }
            if i == 9 {
                s.profession = String::new();
            } else {
                s.profession = String::from_str(table[i].0);
            }
            s.health_color = String::new();
            let mut line = String::from_str("health ");
            let h = health.hex();
            line.append(h.as_str());
            return line;
        }
        i += 1;
    }
    assert(cs.skip(10) =~= Seq::<Rgb>::empty());
    let h = health.hex();
    s.health_color = health.hex();
    let mut line = String::from_str("health ");
    line.append(h.as_str());
    line
}

/// The target health colour of the installed target pages: the health
/// juice of the first page named `Target`, under `status_npc`.
pub open spec fn target_colour_spec(pages: Seq<ElV>) -> Option<Rgb> {
    match page_index(pages, "Target"@) {
        Some(i) => match bar_colours_spec(pages[i], "status_npc"@, "h"@) {
            Some((c, _)) => Some(c),
            None => None,
        },
        None => None,
    }
}

/// Takes the target health colour of the installed target pages into `s`;
/// returns the line to report, if there was one.
pub fn import_target(pages: &Vec<El>, s: &mut Settings) -> (line: Option<String>)
    ensures
        match target_colour_spec(els_view(pages@)) {
            Some(c) => final(s).target_health_color@ == rgb_hex(c) && (line matches Some(l) && l@
                == "target "@ + rgb_hex(c)),
            None => line is None && *final(s) == *old(s),
        },
        final(s).profession == old(s).profession,
        final(s).health_color == old(s).health_color,
        same_but_colours(*old(s), *final(s)),
{
    let root = match find_page(pages, "Target") {
        Some(r) => r,
        None => return None,
    };
    match bar_colours(root, "status_npc", "h") {
        Some((c, _)) => {
            s.target_health_color = c.hex();
            let mut line = String::from_str("target ");
            let h = c.hex();
            line.append(h.as_str());
            Some(line)
        },
        None => None,
    }
}

} // verus!
