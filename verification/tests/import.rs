use dodgins_ui::import::{bar_colours, grid, import_health, import_layout, import_target};
use dodgins_ui::install::{fill_template, layout_tokens};
use dodgins_ui::settings::{Rgb, Settings};
use dodgins_ui::xml::{parse, parse_checked};

const PLAYER: &str = "<Page Name='MFDStatus' Location='0,0'>\n\
  <Page Name='status'>\n\
    <Page Name='h'>\n\
      <Page Name='Bar'>\n\
        <Page Name='juice' BackgroundTint='#8787ED'><Image Name='fill'/></Page>\n\
        <Page Name='back' BackgroundTint='#222244'/>\n\
      </Page>\n\
    </Page>\n\
    <Page Name='a'><Page Name='Bar'>\n\
        <Page Name='juice' BackgroundTint='#10E0A0'/>\n\
        <Page Name='back' BackgroundTint='#043828'/>\n\
    </Page></Page>\n\
  </Page>\n\
  <Text Name='label'>abc</Text>\n\
</Page>\n\
<Page Name='PlayerBuffs' Location='1202,0' Size='624,52'>\n\
  <Volume Name='v' CellCount='24,2'/>\n\
</Page>\n\
<Page Name='x'><Page Name='PlayerDebuffs' Location='10,-10' Size='312,26'><Volume CellCount='12,1'/></Page></Page>\n";

#[test]
fn reads_elements() {
    let els = parse(PLAYER);
    assert_eq!(els.len(), 3);
    assert_eq!(els[0].name(), "MFDStatus");
    assert_eq!(els[0].get("Location"), Some("0,0"));
    assert_eq!(els[0].get("Size"), None);
    let juice = els[0].path("status.h.Bar.juice").unwrap();
    assert_eq!(juice.get("BackgroundTint"), Some("#8787ED"));
    assert!(juice.child("fill").is_some());
    assert!(els[0].path("status.q").is_none());
    assert_eq!(els[0].find("back").unwrap().get("BackgroundTint"), Some("#222244"));
    assert!(els[0].child("label").is_some());
    assert!(els[2].find("PlayerDebuffs").is_some());
}

#[test]
fn truncated_page_is_refused() {
    assert!(parse_checked("<Page Name='a'").is_none());
    assert_eq!(parse_checked("no tags at all").map(|v| v.len()), Some(0));
}

#[test]
fn bar_and_grid() {
    let els = parse(PLAYER);
    assert_eq!(bar_colours(&els[0], "status", "a"), Some((Rgb(0x10, 0xE0, 0xA0), Rgb(0x04, 0x38, 0x28))));
    assert_eq!(bar_colours(&els[0], "status", "z"), None);
    assert_eq!(grid(&els[1], "PlayerBuffs", None), Some(((1202, 0), 24, 2, 26)));
    // the client packs icons at its own size
    assert_eq!(grid(&els[1], "PlayerBuffs", Some(36)), Some(((1202, 0), 17, 1, 36)));
    assert_eq!(grid(&els[1], "PlayerBuffs", Some(0)), Some(((1202, 0), 24, 2, 26)));
    assert_eq!(grid(&els[2], "PlayerDebuffs", None), Some(((10, -10), 12, 1, 26)));
    assert_eq!(grid(&els[0], "PlayerBuffs", None), None);
}

#[test]
fn layout_from_installed_pages() {
    let els = parse(PLAYER);
    let mut s = Settings::default();
    s.inline_buffs = true;
    let lines = import_layout(&els, None, &mut s).unwrap();
    assert_eq!(
        lines,
        vec![
            "buffs 24x2 at 1202,0 (icon 26)".to_string(),
            "debuffs 12x1 at 10,-10".to_string(),
            "role colours on".to_string(),
        ]
    );
    assert_eq!(s.buff_location, "1202,0");
    assert_eq!((s.buff_columns, s.buff_rows, s.buff_icon_size), (24, 2, 26));
    assert_eq!(s.debuff_location, "10,-10");
    assert!(s.role_colors && !s.inline_buffs);

    let only = parse("<Page Name='MFDStatus'/>");
    let mut s = Settings::default();
    let lines = import_layout(&only, Some(30), &mut s).unwrap();
    assert_eq!(lines, vec!["inline buff rows".to_string(), "role colours off".to_string()]);
    assert!(s.inline_buffs && !s.role_colors);

    let none = parse("<Page Name='Other'/>");
    assert_eq!(import_layout(&none, None, &mut s).unwrap_err(), "installed player page has no MFDStatus");
}

#[test]
fn health_preset_or_custom() {
    let classes: Vec<Rgb> = (0..10u8).map(|i| Rgb(i, i, i)).collect();
    let mut s = Settings::default();
    s.health_color = "#FFFFFF".into();
    assert_eq!(import_health(Rgb(5, 5, 5), &classes, &mut s), "health #050505");
    assert_eq!((s.profession.as_str(), s.health_color.as_str()), ("medic", ""));
    assert_eq!(import_health(Rgb(9, 9, 9), &classes, &mut s), "health #090909");
    assert_eq!(s.profession, "");
    assert_eq!(import_health(Rgb(0x95, 0x30, 0x30), &classes, &mut s), "health #953030");
    assert_eq!(s.health_color, "#953030");
}

#[test]
fn target_colour() {
    let t = parse("<Page Name='Target'><Page Name='status_npc'><Page Name='h'><Page Name='Bar'>\
        <Page Name='juice' BackgroundTint='#953030'/><Page Name='back' BackgroundTint='#251010'/>\
        </Page></Page></Page></Page>");
    let mut s = Settings::default();
    assert_eq!(import_target(&t, &mut s), Some("target #953030".to_string()));
    assert_eq!(s.target_health_color, "#953030");
    assert_eq!(import_target(&Vec::new(), &mut s), None);
}

#[test]
fn layout_read_back_from_filled_windows() {
    let mut w = Settings::default();
    w.buff_location = "1202,0".to_string();
    w.buff_columns = 24;
    w.buff_rows = 6;
    w.buff_icon_size = 26;
    w.debuff_location = "10,10".to_string();
    w.debuff_columns = 12;
    w.debuff_rows = 2;
    let tokens = layout_tokens(&w).unwrap();
    let tpl = "<Page Name='MFDStatus'/>\n\
<Page Name='PlayerBuffs' Location='@@BUFFS_LOC@@' Size='@@BUFFS_GW@@,@@BUFFS_GH@@'><Volume CellCount='@@BUFFS_COLS@@,@@BUFFS_ROWS@@'/></Page>\n\
<Page Name='PlayerDebuffs' Location='@@DEBUFFS_LOC@@' Size='@@DEBUFFS_GW@@,@@DEBUFFS_GH@@'><Volume CellCount='@@DEBUFFS_COLS@@,@@DEBUFFS_ROWS@@'/></Page>\n";
    let page = fill_template("player.inc", tpl, &tokens).unwrap();
    let mut s = Settings::default();
    import_layout(&parse(&page), None, &mut s).unwrap();
    assert_eq!(s.buff_location, "1202,0");
    assert_eq!((s.buff_columns, s.buff_rows, s.buff_icon_size), (24, 6, 26));
    assert_eq!(s.debuff_location, "10,10");
    assert_eq!((s.debuff_columns, s.debuff_rows), (12, 2));
    assert!(!s.inline_buffs);
}
