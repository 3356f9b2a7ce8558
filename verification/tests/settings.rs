use dodgins_ui::settings::{
    canonical_profession, profession_base, professions, render_colours, Rgb, Settings,
};

#[test]
fn colour_hex_and_parse() {
    assert_eq!(Rgb(0x4A, 0xAB, 0x4D).hex(), "#4AAB4D");
    assert_eq!(Rgb::parse(" #c74040 "), Some(Rgb(0xC7, 0x40, 0x40)));
    assert_eq!(Rgb::parse("C74040"), None);
    assert_eq!(Rgb::parse("#C7404"), None);
    assert_eq!(Rgb::parse("#C7404G"), None);
    let c = Rgb(1, 2, 3);
    assert_eq!(Rgb::parse(&c.hex()), Some(c));
    assert_eq!(Rgb::from_arr(c.arr()), c);
    assert_eq!(c.arr(), [1, 2, 3]);
}

#[test]
fn profession_names() {
    assert_eq!(canonical_profession(" Commando "), "mando");
    assert_eq!(canonical_profession("BountyHunter"), "bh");
    assert_eq!(canonical_profession("entertainer"), "ent");
    assert_eq!(canonical_profession("pilot"), "green");
    assert_eq!(profession_base("jedi"), Rgb(0x00, 0xB3, 0xFF));
    assert_eq!(profession_base("nope"), Rgb(0x4A, 0xAB, 0x4D));
    assert_eq!(professions()[4].1, "Bounty Hunter");
}

#[test]
fn default_settings() {
    let s = Settings::default();
    assert_eq!(s.game_dir, "C:\\SWG Legends");
    assert_eq!(s.profession_key(), "green");
    assert_eq!(s.buff_location, "10,10");
    assert_eq!(s.debuff_loc(), Ok((567, 760)));
    assert!(s.role_colors && !s.inline_buffs);
}

#[test]
fn colours_from_settings() {
    let mut s = Settings::default();
    assert_eq!(s.health(Rgb(1, 2, 3)), Ok(Rgb(1, 2, 3)));
    s.health_color = "#102030".into();
    assert_eq!(s.health(Rgb(1, 2, 3)), Ok(Rgb(0x10, 0x20, 0x30)));
    s.health_color = "red".into();
    assert_eq!(s.health(Rgb(1, 2, 3)), Err("HealthColor must be #RRGGBB, got 'red'".to_string()));
    assert_eq!(s.target_health(), Ok(Rgb(0xC7, 0x40, 0x40)));
    s.power_color = "#12345".into();
    assert_eq!(s.power(), Err("PowerColor must be #RRGGBB, got '#12345'".to_string()));
    s.target_health_color = String::new();
    assert_eq!(s.target_health(), Err("TargetHealthColor must be #RRGGBB, got ''".to_string()));
    s.profession = "Medic".into();
    assert_eq!(s.profession_key(), "medic");
}

#[test]
fn locations() {
    assert_eq!(Settings::parse_loc(" 12 , -7 "), Some((12, -7)));
    assert_eq!(Settings::parse_loc("12;7"), None);
    assert_eq!(Settings::parse_loc("a,7"), None);
    let mut s = Settings::default();
    s.debuff_location = "  ".into();
    s.buff_location = "100,50".into();
    // directly under the buff window: 2 rows of 22px plus a 6px gap
    assert_eq!(s.debuff_loc(), Ok((100, 100)));
    s.buff_location = "x".into();
    assert_eq!(s.debuff_loc(), Err("location must be 'x,y', got 'x'".to_string()));
    s.debuff_location = "1,2,3".into();
    assert_eq!(s.debuff_loc(), Err("location must be 'x,y', got '1,2,3'".to_string()));
}

#[test]
fn canonical_names_are_preset_keys() {
    for name in ["Commando", " bountyhunter ", "MEDIC", "Entertainer", "nope", "", "green"] {
        let c = canonical_profession(name);
        assert!(professions().iter().any(|(k, _, _)| *k == c), "{c} is a preset key");
        assert_eq!(canonical_profession(c), c);
    }
    for (k, _, _) in professions() {
        assert_eq!(canonical_profession(k), k);
    }
}

#[test]
fn render_checks_in_order() {
    let good = "#102030".to_string();
    let bad = "nope".to_string();
    let class = Rgb(1, 2, 3);
    let s = Settings::default();
    let c = render_colours(&s, class, &good, &good).unwrap();
    assert_eq!(c.ab_backdrop, Rgb(0x10, 0x20, 0x30));
    assert_eq!(
        render_colours(&s, class, &bad, &bad).unwrap_err(),
        "ActionBarBackdropColor must be #RRGGBB, got 'nope'"
    );
    assert_eq!(render_colours(&s, class, &good, &bad).unwrap_err(), "ActionBarKeyColor must be #RRGGBB, got 'nope'");
    let mut t = Settings::default();
    t.power_color = "x".to_string();
    t.buff_location = "oops".to_string();
    assert_eq!(render_colours(&t, class, &bad, &bad).unwrap_err(), "PowerColor must be #RRGGBB, got 'x'");
    t.power_color = "#000000".to_string();
    assert_eq!(render_colours(&t, class, &bad, &bad).unwrap_err(), "location must be 'x,y', got 'oops'");
}
