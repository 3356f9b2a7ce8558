use dodgins_ui::preview::{class_label, parse_resolution, resolution_index, resolutions};

#[test]
fn resolution_strings() {
    assert_eq!(parse_resolution("1920x1080"), Some((1920, 1080)));
    assert_eq!(parse_resolution(" 3840 X 2160 "), Some((3840, 2160)));
    assert_eq!(parse_resolution("319x240"), None);
    assert_eq!(parse_resolution("1920*1080"), None);
    assert_eq!(parse_resolution("axb"), None);
    assert_eq!(resolution_index("1920x1080"), Some(3));
    assert_eq!(resolution_index("7680 x 4320"), Some(13));
    assert_eq!(resolution_index("1000x1000"), None);
    assert_eq!(resolutions()[10].0, "3840 x 2160  (16:9, 4K)");
}

#[test]
fn class_labels() {
    assert_eq!(class_label("bh"), "Bounty Hunter");
    assert_eq!(class_label("green"), "Green (default)");
    assert_eq!(class_label("pilot"), "Green (default)");
}
