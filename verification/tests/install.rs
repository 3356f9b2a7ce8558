use dodgins_ui::install::{
    action_bar_tokens, all_installable, backup_log, fill_template, install_order, keeps_backup,
    layout_tokens, now_iso, patch_hud_pet, patch_role_styles, remove_game_dir, remove_log,
    remove_step, removal_order, render_files, replace_pet_page, restyle_block, swatch_colours, IMAGE_STYLE_RE, TAG_RE, role_map, sha256_hex, stale_files, stale_step, strand_fix,
    strand_fix_log, swatch_dds, swatch_index, swatch_order, swatch_rect, Manifest, RemoveStep,
    HUD_FILE, STYLES_FILE, SWATCH_FILE,
};
use dodgins_ui::keymap::Keymap;
use dodgins_ui::settings::{Rgb, Settings};

#[test]
fn swatch_rects() {
    assert_eq!(swatch_rect("mando"), "6,6,10,10");
    assert_eq!(swatch_rect("bh"), "6,22,10,26");
    assert_eq!(swatch_rect("default"), "38,38,42,42");
    assert_eq!(swatch_rect("nope"), "38,38,42,42");
}

#[test]
fn swatch_cells() {
    assert_eq!(swatch_order()[2], "jedi");
    assert_eq!(swatch_index("jedi"), 2);
    assert_eq!(swatch_index("trader"), 8);
    assert_eq!(swatch_index("whatever"), 10);
    assert_eq!(swatch_rect("medic"), "22,22,26,26");
}

#[test]
fn role_styles_map_to_swatches() {
    assert_eq!(role_map("advancedTank"), Some("mando"));
    assert_eq!(role_map("jediSaber"), Some("jedi"));
    assert_eq!(role_map("crowdControl"), Some("spy"));
    assert_eq!(role_map("artisan"), Some("trader"));
    assert_eq!(role_map("entertainer"), Some("ent"));
    assert_eq!(role_map("melee"), Some("smuggler"));
    assert_eq!(role_map("medic"), Some("medic"));
    assert_eq!(role_map("ranged"), Some("bh"));
    assert_eq!(role_map("utility"), Some("officer"));
    assert_eq!(role_map("style0"), None);
}

#[test]
fn swatch_texture_layout() {
    let mut colours = Vec::new();
    for i in 0..11u8 {
        colours.push(Rgb(i, 100 + i, 200 + i));
    }
    let d = swatch_dds(&colours);
    assert_eq!(d.len(), 128 + 64 * 64 * 4);
    assert_eq!(&d[0..4], b"DDS ");
    assert_eq!(&d[4..8], &124u32.to_le_bytes());
    assert_eq!(&d[8..12], &0xA1007u32.to_le_bytes());
    assert_eq!(&d[12..16], &64u32.to_le_bytes());
    assert_eq!(&d[20..24], &16384u32.to_le_bytes());
    assert_eq!(&d[80..84], &0x41u32.to_le_bytes());
    assert_eq!(&d[92..96], &0x00FF0000u32.to_le_bytes());
    // jedi: cell 2, pixel (38, 6), BGRA
    let o = 128 + (6 * 64 + 38) * 4;
    assert_eq!(&d[o..o + 4], &[202, 102, 2, 255]);
    // default: cell 10 at (32..48, 32..48)
    let o = 128 + (40 * 64 + 40) * 4;
    assert_eq!(&d[o..o + 4], &[210, 110, 10, 255]);
    // past the last swatch: transparent black
    let o = 128 + (60 * 64 + 60) * 4;
    assert_eq!(&d[o..o + 4], &[0, 0, 0, 0]);
}

fn strs(v: &[&str]) -> Vec<String> {
    v.iter().map(|s| s.to_string()).collect()
}

#[test]
fn installable_paths() {
    let all = all_installable(&strs(&["a.inc", "b.inc"]));
    assert_eq!(all, strs(&[HUD_FILE, "ui\\a.inc", "ui\\b.inc", STYLES_FILE, SWATCH_FILE]));
}

#[test]
fn remove_handles_the_hud_first() {
    let inst = all_installable(&strs(&["ui_ground_hud_pet.inc", "zz.inc"]));
    // a manifest from before the hud was patched: no hud entry
    let recorded = strs(&["ui\\zz.inc", "ui\\ui_ground_hud_pet.inc"]);
    let order = removal_order(&recorded, &inst, false);
    assert_eq!(order, strs(&[HUD_FILE, "ui\\ui_ground_hud_pet.inc", "ui\\zz.inc"]));
    // force sweeps everything the installer can write
    let order = removal_order(&recorded, &inst, true);
    assert_eq!(order.len(), inst.len());
    assert_eq!(order[0], HUD_FILE);
    // no manifest: everything installable
    let order = removal_order(&Vec::new(), &inst, false);
    assert_eq!(order.len(), inst.len());
    assert_eq!(order[0], HUD_FILE);
}

#[test]
fn install_writes_the_hud_last() {
    let order = install_order(strs(&[HUD_FILE, "ui\\b.inc", "texture\\x.dds", "ui\\a.inc"]));
    assert_eq!(order, strs(&["texture\\x.dds", "ui\\a.inc", "ui\\b.inc", HUD_FILE]));
}

#[test]
fn remove_steps() {
    assert_eq!(remove_step("ui\\a.inc", false, true, false, None, None, false), RemoveStep::RestoreMissing);
    assert_eq!(remove_step("ui\\a.inc", false, false, false, None, None, false), RemoveStep::Nothing);
    assert_eq!(remove_step("ui\\a.inc", true, false, false, Some("aa"), Some("bb"), false), RemoveStep::Changed);
    assert_eq!(remove_step("ui\\a.inc", true, false, false, Some("aa"), Some("aa"), false), RemoveStep::Delete);
    assert_eq!(remove_step("ui\\a.inc", true, true, false, Some("aa"), Some("aa"), false), RemoveStep::RestorePrevious);
    assert_eq!(remove_step("ui\\a.inc", true, false, true, Some("aa"), Some("bb"), false), RemoveStep::Delete);
    assert_eq!(remove_step(HUD_FILE, true, false, false, None, None, false), RemoveStep::NotOurs);
    assert_eq!(remove_step(HUD_FILE, true, false, false, None, None, true), RemoveStep::Delete);
    assert_eq!(remove_step(HUD_FILE, true, true, false, None, None, false), RemoveStep::RestorePrevious);
}

#[test]
fn remove_log_lines() {
    assert_eq!(remove_log(RemoveStep::RestoreMissing, "x").unwrap(), "restored x");
    assert_eq!(remove_log(RemoveStep::Nothing, "x"), None);
    assert_eq!(remove_log(RemoveStep::Changed, "x").unwrap(), "x differs from what we wrote - leaving it (use Force)");
    assert_eq!(remove_log(RemoveStep::NotOurs, "x").unwrap(), "x is not ours - leaving it (use Force)");
    assert_eq!(remove_log(RemoveStep::RestorePrevious, "x").unwrap(), "restored previous x");
    assert_eq!(remove_log(RemoveStep::Delete, "x").unwrap(), "removed x");
}

#[test]
fn stranded_hud_is_fixed() {
    assert_eq!(strand_fix(true, false, true, true), Some(RemoveStep::RestorePrevious));
    assert_eq!(strand_fix(true, false, true, false), Some(RemoveStep::Delete));
    assert_eq!(strand_fix(true, true, true, false), None);
    assert_eq!(strand_fix(true, false, false, false), None);
    assert_eq!(
        strand_fix_log(RemoveStep::Delete),
        "removed ui\\ui_ground_hud.inc: it referenced the removed pet page and would not have loaded"
    );
    assert_eq!(
        strand_fix_log(RemoveStep::RestorePrevious),
        "restored previous ui\\ui_ground_hud.inc (it referenced the removed pet page)"
    );
}

#[test]
fn install_backups_and_stale_files() {
    assert!(keeps_backup(true, false, false));
    assert!(!keeps_backup(true, true, false));
    assert!(!keeps_backup(true, false, true));
    assert!(!keeps_backup(false, false, false));
    assert_eq!(backup_log("ui\\a.inc"), "kept previous ui\\a.inc as ui\\a.inc.pre-unitframes");
    assert_eq!(stale_files(&strs(&["a", "b", "c"]), &strs(&["b"])), strs(&["a", "c"]));
    assert_eq!(stale_step(true, true), RemoveStep::RestorePrevious);
    assert_eq!(stale_step(false, true), RemoveStep::Delete);
    assert_eq!(stale_step(false, false), RemoveStep::Nothing);
    assert_eq!(remove_game_dir(Some("D:\\g"), Some("E:\\g")), "D:\\g");
    assert_eq!(remove_game_dir(None, Some("E:\\g")), "E:\\g");
    assert_eq!(remove_game_dir(None, None), "C:\\SWG Legends");
}

#[test]
fn digests_and_stamps() {
    assert_eq!(sha256_hex(b"abc"), "ba7816bf8f01cfea414140de5dae2223b00361a396177a9cb410ff61f20015ad");
    assert_eq!(sha256_hex(b""), "e3b0c44298fc1c149afbf4c8996fb92427ae41e4649b934ca495991b7852b855");
    assert_eq!(now_iso(1700000000), "unix:1700000000");
}

#[test]
fn manifest_lookup() {
    let mut m = Manifest { game_dir: "g".into(), installed: "unix:1".into(), files: Vec::new() };
    assert_eq!(m.get("a"), None);
    m.record("a", "h1");
    m.record("b", "h2");
    m.record("a", "h3");
    assert_eq!(m.get("a"), Some("h3"));
    assert_eq!(m.get("b"), Some("h2"));
}

#[test]
fn manifest_keeps_each_path_once() {
    let mut m = Manifest { game_dir: "g".into(), installed: "unix:1".into(), files: Vec::new() };
    m.record("ui\\b.inc", "h1");
    m.record("ui\\a.inc", "h2");
    m.record("ui\\b.inc", "h3");
    assert_eq!(m.paths(), vec!["ui\\a.inc".to_string(), "ui\\b.inc".to_string()]);
    assert_eq!(m.files.len(), 2);
    assert_eq!(m.get("ui\\b.inc"), Some("h3"));
}

#[test]
fn role_style_patch() {
    let mut src = String::from("<Namespace Name='role'>\n");
    for i in 0..31 {
        src.push_str(&format!("\t<ImageStyle\n\t\tName='style{i}'\n\t\tSource='x'\n\t/>\n"));
    }
    src.push_str("\t<ImageStyle\n\t\tName='medic'\n\t\tSource='x'\n\t/>\n</Namespace>\n");
    let out = patch_role_styles(&src).unwrap();
    assert!(out.contains("Name='medic'\n\t\tSource='ui_class_swatch'\n\t\tSourceRect='22,22,26,26'"));
    assert!(out.contains("Name='style0'\n\t\tSource='ui_class_swatch'\n\t\tSourceRect='38,38,42,42'"));
}

#[test]
fn role_style_patch_refusals() {
    let e = patch_role_styles("<Namespace Name='other'></Namespace>").unwrap_err();
    assert_eq!(e, "expected one <Namespace Name='role'> in ui_styles.inc, found 0");
    let e = patch_role_styles("<Namespace Name='role'>\n\t<ImageStyle Name='medic' />\n</Namespace>").unwrap_err();
    assert_eq!(e, "only 1 role styles found in ui_styles.inc; refusing");
}

#[test]
fn role_style_patch_keeps_crlf_and_the_rest() {
    let mut src = String::from("<Before/>\r\n<Namespace Name='role'>\r\n");
    for i in 0..30 {
        src.push_str(&format!("  <ImageStyle Name='s{i}' Source='x' />\r\n"));
    }
    src.push_str("</Namespace>\r\n<After/>");
    let out = patch_role_styles(&src).unwrap();
    assert!(out.starts_with("<Before/>\r\n<Namespace Name='role'>\r\n  <ImageStyle\r\n  \tName='s0'\r\n"));
    assert!(out.ends_with("</Namespace>\r\n<After/>"));
}

const HUD: &str = "<Page Name='GroundHUD'>\r\n\t\t<Page\r\n\t\t\tName='pet'\r\n\t\t>\r\n\t\t\t<Page Name='inner'/>\r\n\t\t\t<Page Name='x'>\r\n\t\t\t</Page>\r\n\t\t</Page>\r\n\t\t<include>ui_ground_hud_incap.inc</include>\r\n</Page>";

/// A hud shaped as the game's: the pet page first under GroundHUD, a
/// sibling page after it, then the includes.
const STOCK_SHAPED_HUD: &str = "<Page\r\n\tName='GroundHUD'\r\n>\r\n\t\t<Page\r\n\t\t\tName='pet'\r\n\t\t\tSize='10,10'\r\n\t\t>\r\n\t\t\t<Page Name='inner'/>\r\n\t\t\t<Page Name='x'>\r\n\t\t\t</Page>\r\n\t\t</Page>\r\n\t\t<Page\r\n\t\t\tAbsorbsInput='false'\r\n\t\t\tName='other'\r\n\t\t>\r\n\t\t</Page>\r\n\t\t<include>ui_ground_hud_incap.inc</include>\r\n</Page>\r\n";

#[test]
fn hud_pet_include() {
    let stock = STOCK_SHAPED_HUD;
    assert!(!stock.contains("ui_ground_hud_pet.inc"));
    assert_eq!(stock.matches("Name='pet'").count(), 1);
    let patched = patch_hud_pet(stock).unwrap();
    assert!(!patched.contains("Name='pet'"), "inline pet page removed");
    assert_eq!(patched.matches("<include>ui_ground_hud_pet.inc</include>").count(), 1);
    // the include takes the block's place: GroundHUD's first child, same indentation
    let idx = patched.find("<include>ui_ground_hud_pet.inc</include>").unwrap();
    assert!(patched[..idx].ends_with("\t\t"), "keeps the block's indentation");
    assert!(patched[..idx].contains("Name='GroundHUD'"));
    assert!(patched[idx..].contains("<include>ui_ground_hud_incap.inc</include>"));
    let before = &stock[..stock.find("\t\t<Page").unwrap()];
    assert!(patched.starts_with(before), "nothing before the block changed");
    // everything from the next sibling on is untouched
    let tail = &stock[stock.find("\t\t<Page\r\n\t\t\tAbsorbsInput='false'").unwrap()..];
    assert!(patched.ends_with(tail), "nothing after the block changed");
    // idempotent, and a hud that already includes the page is left alone
    assert_eq!(patch_hud_pet(&patched).unwrap(), patched);
    assert!(patch_hud_pet("<Page Name='GroundHUD'>\n</Page>").is_err());
}

#[test]
fn hud_pet_include_on_a_small_hud() {
    let patched = patch_hud_pet(HUD).unwrap();
    assert!(!patched.contains("Name='pet'"), "inline pet page removed");
    assert_eq!(patched.matches("<include>ui_ground_hud_pet.inc</include>").count(), 1);
    let idx = patched.find("<include>ui_ground_hud_pet.inc</include>").unwrap();
    assert!(patched[..idx].ends_with("\t\t"), "keeps the block's indentation");
    assert!(patched[..idx].contains("Name='GroundHUD'"));
    assert!(patched[idx..].contains("<include>ui_ground_hud_incap.inc</include>"));
    // idempotent, and a hud that already includes the page is left alone
    assert_eq!(patch_hud_pet(&patched).unwrap(), patched);
    assert!(patch_hud_pet("<Page Name='GroundHUD'>\n</Page>").is_err());
}

#[test]
fn hud_pet_errors() {
    assert_eq!(
        patch_hud_pet("<Page Name='GroundHUD'>\n</Page>").unwrap_err(),
        "no <Page Name='pet'> block in ui_ground_hud.inc; the game's hud may have changed"
    );
    assert_eq!(
        patch_hud_pet("<Page Name='GroundHUD'>x <Page Name='pet'></Page></Page>").unwrap_err(),
        "pet page in ui_ground_hud.inc does not start its own line"
    );
}

#[test]
fn template_fill() {
    let toks = vec![("@@A@@".to_string(), "1".to_string()), ("@@B_2@@".to_string(), "two".to_string())];
    assert_eq!(fill_template("p.inc", "x@@A@@y@@B_2@@\r\nz@@A@@", &toks).unwrap(), "x1ytwo\nz1");
    assert_eq!(
        fill_template("p.inc", "@@A@@ @@MISSING@@", &toks).unwrap_err(),
        "unreplaced token in p.inc: @@MISSING@@"
    );
}

#[test]
fn key_tokens() {
    let t = action_bar_tokens(&Keymap::new());
    assert_eq!(t.len(), 21);
    assert_eq!(t[0].0, "@@AB_KEY_12@@");
    assert_eq!(t[11].0, "@@AB_KEY_23@@");
    assert_eq!(t[12].0, "@@AB_PET_KEY_0@@");
    assert_eq!(t[20].0, "@@AB_PET_KEY_8@@");
    assert_eq!(t[5].1, "");
}

#[test]
fn window_tokens() {
    let mut s = Settings::default();
    s.buff_location = "10,-5".into();
    s.debuff_location = String::new();
    let t = layout_tokens(&s).unwrap();
    let get = |k: &str| t.iter().find(|(a, _)| a == k).unwrap().1.clone();
    assert_eq!(get("@@CELL@@"), "22");
    assert_eq!(get("@@BUFFS_LOC@@"), "10,-5");
    assert_eq!(get("@@DEBUFFS_LOC@@"), "10,45");
    assert_eq!(get("@@BUFFS_GW@@"), "264");
    assert_eq!(get("@@BUFFS_GH@@"), "44");
    assert_eq!(get("@@DEBUFFS_GH@@"), "22");
    s.buff_location = "nope".into();
    assert_eq!(layout_tokens(&s).unwrap_err(), "location must be 'x,y', got 'nope'");
}

#[test]
fn hud_pet_patch_past_wide_characters() {
    let hud = "<Page Name='GroundHUD'>\n<!-- é € 😀 -->\n\t<Page Name='pet'>\n\t\t<Page Name='ünïcode'/>\n\t</Page>\n\t<Text Name='x'>ß</Text>\n</Page>";
    let out = patch_hud_pet(hud).unwrap();
    assert_eq!(
        out,
        "<Page Name='GroundHUD'>\n<!-- é € 😀 -->\n\t<include>ui_ground_hud_pet.inc</include>\n\t<Text Name='x'>ß</Text>\n</Page>"
    );
}

#[test]
fn role_styles_past_wide_characters() {
    let mut src = String::from("<!-- Ünïcödé 😀 -->\n<Namespace Name='role'>\n");
    for i in 0..30 {
        src.push_str(&format!("\t<ImageStyle Name='ß{i}' />\n"));
    }
    src.push_str("\t<ImageStyle Name='jediSaber' />\n</Namespace>\n");
    let out = patch_role_styles(&src).unwrap();
    assert!(out.starts_with("<!-- Ünïcödé 😀 -->\n<Namespace Name='role'>\n\t<ImageStyle\n\t\tName='ß0'\n"));
    assert!(out.contains("Name='jediSaber'\n\t\tSource='ui_class_swatch'\n\t\tSourceRect='38,6,42,10'"));
}

fn captures(pattern: &str, text: &str) -> Vec<Vec<Option<(usize, usize)>>> {
    regex::Regex::new(pattern)
        .unwrap()
        .captures_iter(text)
        .map(|c| c.iter().map(|m| m.map(|m| (m.start(), m.end()))).collect())
        .collect()
}

#[test]
fn pet_page_replaced_from_tag_matches() {
    let tags = captures(TAG_RE, HUD);
    assert_eq!(replace_pet_page(HUD, &tags).unwrap(), patch_hud_pet(HUD).unwrap());
    // without the matches of the pet page's tags there is no pet page to replace
    assert_eq!(
        replace_pet_page(HUD, &tags[..1].to_vec()).unwrap_err(),
        "no <Page Name='pet'> block in ui_ground_hud.inc; the game's hud may have changed"
    );
}

#[test]
fn block_restyled_from_style_matches() {
    let block = "<Namespace Name='role'>\n\t<ImageStyle\n\t\tName='medic'\n\t\tSource='x'\n\t/>\n</Namespace>";
    let ms = captures(IMAGE_STYLE_RE, block);
    assert_eq!(
        restyle_block(block, &ms, "\n").unwrap(),
        "<Namespace Name='role'>\n\t<ImageStyle\n\t\tName='medic'\n\t\tSource='ui_class_swatch'\n\t\tSourceRect='22,22,26,26'\n\t/>\n</Namespace>"
    );
    assert_eq!(restyle_block(block, &Vec::new(), "\n").unwrap(), block);
}

fn role_styles_source() -> String {
    let mut src = String::from("<Namespace Name='role'>\n");
    for i in 0..31 {
        src.push_str(&format!("\t<ImageStyle\n\t\tName='style{i}'\n\t\tSource='x'\n\t/>\n"));
    }
    src.push_str("</Namespace>\n");
    src
}

#[test]
fn swatch_colour_for_each_key() {
    let class: Vec<Rgb> = (0..10u8).map(|i| Rgb(i, 2 * i, 3 * i)).collect();
    let health = Rgb(200, 100, 50);
    let c = swatch_colours(&class, health);
    assert_eq!(c.len(), 11);
    assert_eq!(&c[..10], &class[..]);
    assert_eq!(c[10], health, "the default cell takes the health colour");
}

#[test]
fn rendered_files_by_path() {
    let pages = vec![
        ("b.inc".to_string(), "x@@A@@\r\ny".to_string()),
        ("a.inc".to_string(), "@@A@@".to_string()),
    ];
    let toolbars = vec![("tb.inc".to_string(), "t@@A@@".to_string())];
    let tokens = vec![("@@A@@".to_string(), "1".to_string())];
    let health = Rgb(1, 2, 3);
    let files = render_files(&pages, &toolbars, true, &tokens, HUD, None, &Vec::new(), health).unwrap();
    let paths: Vec<&str> = files.iter().map(|(p, _)| p.as_str()).collect();
    assert_eq!(paths, vec!["ui\\a.inc", "ui\\b.inc", "ui\\tb.inc", HUD_FILE]);
    assert_eq!(files[0].1, b"1".to_vec());
    assert_eq!(files[1].1, b"x1\ny".to_vec());
    assert_eq!(files[2].1, b"t1".to_vec());
    assert_eq!(files[3].1, patch_hud_pet(HUD).unwrap().into_bytes());

    // no toolbar pages without action bars
    let files = render_files(&pages, &toolbars, false, &tokens, HUD, None, &Vec::new(), health).unwrap();
    assert_eq!(files.len(), 3);

    // role colours: the patched styles and the swatch texture
    let class: Vec<Rgb> = (0..10u8).map(|i| Rgb(i, i, i)).collect();
    let styles = role_styles_source();
    let files =
        render_files(&pages, &toolbars, false, &tokens, HUD, Some(&styles), &class, health).unwrap();
    let paths: Vec<&str> = files.iter().map(|(p, _)| p.as_str()).collect();
    assert_eq!(paths, vec!["texture\\ui_class_swatch.dds", "ui\\a.inc", "ui\\b.inc", HUD_FILE, STYLES_FILE]);
    assert_eq!(files[0].0, SWATCH_FILE);
    assert_eq!(files[0].1, swatch_dds(&swatch_colours(&class, health)));
    assert_eq!(files[4].1, patch_role_styles(&styles).unwrap().into_bytes());

    // a later page at the same path replaces the earlier one
    let twice = vec![("a.inc".to_string(), "first".to_string()), ("a.inc".to_string(), "second".to_string())];
    let files = render_files(&twice, &Vec::new(), false, &tokens, HUD, None, &Vec::new(), health).unwrap();
    assert_eq!(files.len(), 2);
    assert_eq!(files[0].1, b"second".to_vec());
}

#[test]
fn rendering_stops_at_the_first_failure() {
    let tokens = vec![("@@A@@".to_string(), "1".to_string())];
    let pages = vec![
        ("a.inc".to_string(), "@@A@@".to_string()),
        ("b.inc".to_string(), "@@B@@".to_string()),
        ("c.inc".to_string(), "@@C@@".to_string()),
    ];
    let health = Rgb(1, 2, 3);
    assert_eq!(
        render_files(&pages, &Vec::new(), false, &tokens, HUD, None, &Vec::new(), health).unwrap_err(),
        "unreplaced token in b.inc: @@B@@"
    );
    let ok = vec![("a.inc".to_string(), "@@A@@".to_string())];
    assert_eq!(
        render_files(&ok, &Vec::new(), false, &tokens, "<Page Name='GroundHUD'>\n</Page>", None, &Vec::new(), health)
            .unwrap_err(),
        "no <Page Name='pet'> block in ui_ground_hud.inc; the game's hud may have changed"
    );
}

#[test]
fn forced_remove_puts_back_what_install_found() {
    // a loose file: install keeps it as the backup, a forced remove puts it back
    assert!(keeps_backup(true, false, false));
    assert_eq!(remove_step("ui\\x.inc", true, true, true, Some("h"), None, false), RemoveStep::RestorePrevious);
    // no file before: no backup, and a forced remove deletes what install wrote
    assert!(!keeps_backup(false, false, false));
    assert_eq!(remove_step("ui\\x.inc", true, false, true, Some("h"), None, false), RemoveStep::Delete);
    // a hud left naming a missing pet page is put back from its backup, else deleted
    assert_eq!(strand_fix(true, false, true, true), Some(RemoveStep::RestorePrevious));
    assert_eq!(strand_fix(true, false, true, false), Some(RemoveStep::Delete));
    assert_eq!(strand_fix(true, true, true, true), None);
}
