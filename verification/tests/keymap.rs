use dodgins_ui::keymap::{
    collect_characters, fmt_local, for_settings, key_name, Character, Keymap, KeymapSource,
    ProfileFile,
};

fn chunk(tag: &[u8], body: &[u8]) -> Vec<u8> {
    let mut v = tag.to_vec();
    v.extend_from_slice(&(body.len() as u32).to_be_bytes());
    v.extend_from_slice(body);
    v
}

fn form(sub: &[u8], kids: &[Vec<u8>]) -> Vec<u8> {
    let mut body = sub.to_vec();
    for k in kids {
        body.extend_from_slice(k);
    }
    chunk(b"FORM", &body)
}

fn rec(sc: u8, cmd: &str) -> Vec<u8> {
    let mut b = vec![sc, 0, 0, 0];
    b.extend_from_slice(cmd.as_bytes());
    b.push(0);
    chunk(b"DATA", &b)
}

#[test]
fn labels_from_synthetic_map() {
    let main = form(b"MAP ", &[
        chunk(b"INFO", &[0, 0, 0, 0, 0]),
        form(b"KEYS", &[rec(0x10, "CMD_uiToolbarSlot12"), rec(0x02, "CMD_uiToolbarSlot00"), rec(0x0B, "CMD_uiToolbarSlot09")]),
        form(b"MOSB", &[{
            let mut b = 3u32.to_le_bytes().to_vec();
            b.extend_from_slice(b"CMD_petToolbarSlot2\0");
            chunk(b"DATA", &b)
        }]),
    ]);
    let shifted = form(b"MAP ", &[
        chunk(b"INFO", &[4, 0, 0, 0, 1]),
        form(b"KEYS", &[rec(0x14, "CMD_uiToolbarSlot18"), rec(0x10, "CMD_uiToolbarSlot12")]),
    ]);
    let v6 = form(b"0006", &[main, shifted]);
    let imap = form(b"IMAP", &[v6]);
    let km = Keymap::parse(&imap).unwrap();
    assert_eq!(km.slot(12), "Q");
    assert_eq!(km.slot(0), "1");
    assert_eq!(km.slot(9), "0");
    assert_eq!(km.slot(18), "ST");
    assert_eq!(km.pet_slot(2), "M4");
    assert_eq!(km.slot(23), "");
}

#[test]
fn shifted_binding_ranks_after_plain_one() {
    // slot 12 is bound to Q and to Shift+T... the plain key comes first
    let main = form(b"MAP ", &[
        chunk(b"INFO", &[4, 0, 0, 0, 1]),
        form(b"KEYS", &[rec(0x14, "CMD_uiToolbarSlot12")]),
    ]);
    let plain = form(b"MAP ", &[
        chunk(b"INFO", &[0, 0, 0, 0, 0]),
        form(b"KEYS", &[rec(0x10, "CMD_uiToolbarSlot12")]),
    ]);
    let imap = form(b"IMAP", &[form(b"0006", &[main, plain])]);
    let km = Keymap::parse(&imap).unwrap();
    assert_eq!(km.slot(12), "Q");
}

#[test]
fn not_an_input_map() {
    let e = Keymap::parse(b"FORM\0\0\0\x04XXXXpadding-bytes").err().unwrap();
    assert_eq!(e, "not an IMAP input map");
    assert!(Keymap::parse(b"").is_err());
}

#[test]
fn parse_checked_agrees_with_parse() {
    let imap = form(b"IMAP", &[form(b"0006", &[])]);
    let km = Keymap::parse_checked(&imap).unwrap().unwrap();
    assert_eq!(km.slot(12), "");
}

#[test]
fn key_names() {
    assert_eq!(key_name(0x02), Some("1".to_string()));
    assert_eq!(key_name(0x0B), Some("0".to_string()));
    assert_eq!(key_name(0x10), Some("Q".to_string()));
    assert_eq!(key_name(0x3B), Some("F1".to_string()));
    assert_eq!(key_name(0x00), None);
}

#[test]
fn empty_keymap_labels_are_blank() {
    let km = Keymap::new();
    assert_eq!(km.label("CMD_uiToolbarSlot12"), "");
    assert_eq!(km.pet_slot(0), "");
}

#[test]
fn local_time_format() {
    assert_eq!(fmt_local(0, 0), "1970-01-01 00:00");
    assert_eq!(fmt_local(1_000_000_000, 0), "2001-09-09 01:46");
    assert_eq!(fmt_local(1_000_000_000, 3600), "2001-09-09 02:46");
    assert_eq!(fmt_local(-60, 0), "1969-12-31 23:59");
}

fn ch(id: &str, cluster: &str, secs: u64, inp: Option<&str>) -> Character {
    Character {
        id: id.into(),
        cluster: cluster.into(),
        last_played: secs as u128 * 1_000_000_000,
        inp: inp.map(|s| s.to_string()),
    }
}

#[test]
fn character_label() {
    let c = ch("404079662065", "Omega", 1_000_000_000, Some("x.inp"));
    assert_eq!(c.label(0), "404079662065 (Omega) - played 2001-09-09 01:46");
    let c = ch("7", "Omega", 0, None);
    assert_eq!(c.label(0), "7 (Omega) - played 1970-01-01 00:00, no keymap saved");
}

fn file(cluster: &str, name: &str, secs: u64) -> ProfileFile {
    ProfileFile {
        cluster: cluster.into(),
        name: name.into(),
        path: format!("profiles/u/{cluster}/{name}"),
        modified: secs as u128 * 1_000_000_000,
    }
}

#[test]
fn characters_most_recent_first() {
    let files = vec![
        file("Omega", "111.uis", 100),
        file("Omega", "111.INP", 5),
        file("Omega", "222.opt", 300),
        file("Omega", "222.uis", 200),
        file("Omega", "notes.txt", 999),
        file("Beta", "333.uis", 100),
        file("Omega", "abc.uis", 999),
    ];
    let cs = collect_characters(&files);
    let keys: Vec<(String, String, u128)> =
        cs.iter().map(|c| (c.cluster.clone(), c.id.clone(), c.last_played / 1_000_000_000)).collect();
    assert_eq!(
        keys,
        vec![
            ("Omega".to_string(), "222".to_string(), 300),
            ("Beta".to_string(), "333".to_string(), 100),
            ("Omega".to_string(), "111".to_string(), 100),
        ]
    );
    assert_eq!(cs[2].inp.as_deref(), Some("profiles/u/Omega/111.INP"));
    assert!(cs[0].inp.is_none());
}

#[test]
fn keymap_source_choice() {
    let chars = vec![ch("222", "Omega", 300, None), ch("111", "Omega", 100, Some("a.inp"))];
    match for_settings("  my.inp ", &chars) {
        Ok(KeymapSource::File(p)) => assert_eq!(p, "my.inp"),
        _ => panic!("explicit file"),
    }
    assert_eq!(
        for_settings("", &chars).err().unwrap(),
        "last-played character 222 (Omega) has no saved keymap (stock preset); pick another"
    );
    assert_eq!(for_settings(" ", &Vec::new()).err().unwrap(), "no characters under profiles/");
    match for_settings("", &chars[1..].to_vec()) {
        Ok(KeymapSource::Character(p)) => assert_eq!(p, "a.inp"),
        _ => panic!("character keymap"),
    }
}

#[test]
fn key_names_are_distinct() {
    let mut seen: Vec<(String, u8)> = Vec::new();
    for sc in 0..=255u8 {
        if let Some(l) = key_name(sc) {
            assert!(seen.iter().all(|(s, _)| *s != l), "{l} named twice");
            seen.push((l, sc));
        }
    }
    assert_eq!(seen.len(), 90);
}
