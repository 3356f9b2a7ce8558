use dodgins_ui::cfg::{
    buff_icon_sizes, read_opt_bool, read_opt_int, scan_cfg, use_double_toolbar, CfgLine, CfgLoad,
    ClientCfg, IncludeGuard,
};

fn apply(c: &mut ClientCfg, text: &str) -> Vec<String> {
    let mut includes = Vec::new();
    for l in scan_cfg(text) {
        match l {
            CfgLine::Include(f) => includes.push(f),
            CfgLine::Value(s, k, v) => c.set(&s, &k, &v),
        }
    }
    includes
}

#[test]
fn include_chain_last_wins() {
    let files = [
        ("client.cfg", ".include \"options.cfg\"\n.include \"custom.cfg\"\n"),
        (
            "options.cfg",
            "[ClientGraphics]\n\tscreenWidth=1440\n\tscreenHeight=1080\n[ClientUserInterface]\n\tuiScalingFactor=2.250000\n",
        ),
        ("custom.cfg", "# mine\n[ClientGraphics]\n\tscreenWidth=3840\n\tscreenHeight=2160\n"),
    ];
    let mut load = CfgLoad::new();
    while let Some(name) = load.next_file().map(str::to_string) {
        let text = files.iter().find(|(n, _)| *n == name).map(|(_, t)| *t);
        load.feed(text);
    }
    let c = load.finish();
    assert_eq!(c.resolution(), Some((3840, 2160)));
    let scale = c.get("ClientUserInterface", "uiScalingFactor").and_then(|v| v.trim().parse::<f64>().ok());
    assert_eq!(scale, Some(2.25));
    assert!(!c.borderless());
}

#[test]
fn include_guard_reads_a_file_once() {
    let mut c = ClientCfg::new();
    let mut g = IncludeGuard::new();
    assert!(g.enter("client.cfg"));
    let inc = apply(&mut c, ".include \"options.cfg\"\n.include \"custom.cfg\"\n");
    assert_eq!(inc, vec!["options.cfg".to_string(), "custom.cfg".to_string()]);
    assert!(g.enter("options.cfg"));
    assert!(!g.enter("OPTIONS.CFG"), "a file is read once");
}

#[test]
fn cfg_lines() {
    let l = scan_cfg("// c\n  [ Sec ]\r\nKey = \"v 1\" \n\n.include  \" x.cfg \"\nnoequals\n");
    assert_eq!(l.len(), 2);
    match &l[0] {
        CfgLine::Value(s, k, v) => {
            assert_eq!((s.as_str(), k.as_str(), v.as_str()), ("sec", "key", "v 1"));
        }
        _ => panic!("value"),
    }
    match &l[1] {
        CfgLine::Include(f) => assert_eq!(f, "x.cfg"),
        _ => panic!("include"),
    }
}

#[test]
fn borderless_and_small_sizes() {
    let mut c = ClientCfg::new();
    c.set("clientgraphics", "borderlesswindow", "true");
    assert!(c.borderless());
    c.set("clientgraphics", "screenwidth", "300");
    c.set("clientgraphics", "screenheight", "200");
    assert_eq!(c.resolution(), None);
    c.set("clientgraphics", "screenwidth", " 1920 ");
    c.set("clientgraphics", "screenheight", "1080");
    assert_eq!(c.resolution(), Some((1920, 1080)));
}

#[test]
fn include_guard_limit() {
    let mut g = IncludeGuard::new();
    for i in 0..33 {
        assert!(g.enter(&format!("f{i}.cfg")));
    }
    assert!(!g.enter("another.cfg"), "no more than 33 files");
}

fn chunk(tag: &[u8], body: &[u8]) -> Vec<u8> {
    let mut v = tag.to_vec();
    v.extend_from_slice(&(body.len() as u32).to_be_bytes());
    v.extend_from_slice(body);
    v
}

fn leaf(tag: &[u8], value: &[u8], sec: &str, key: &str) -> Vec<u8> {
    let mut b = value.to_vec();
    b.extend_from_slice(sec.as_bytes());
    b.push(0);
    b.extend_from_slice(key.as_bytes());
    b.push(0);
    b.push(0);
    chunk(tag, &b)
}

fn opts(leaves: &[Vec<u8>]) -> Vec<u8> {
    let mut body = b"PRFS".to_vec();
    for l in leaves {
        body.extend_from_slice(l);
    }
    chunk(b"FORM", &body)
}

#[test]
fn option_values() {
    let d = opts(&[
        leaf(b"INT ", &36i32.to_le_bytes(), "ClientUserInterface", "buffIconSizeStatus"),
        leaf(b"BOOL", &[1], "clientuserinterface", "USEDOUBLETOOLBAR"),
    ]);
    assert_eq!(read_opt_int(&d, "ClientUserInterface", "buffIconSizeStatus"), Some(36));
    assert_eq!(read_opt_int(&d, "ClientUserInterface", "buffIconSizePet"), None);
    assert_eq!(read_opt_bool(&d, "ClientUserInterface", "useDoubleToolbar"), Some(true));
    assert_eq!(use_double_toolbar(&d), Some(true));
    assert_eq!(use_double_toolbar(&opts(&[])), None);
}

#[test]
fn icon_sizes() {
    let lmo = opts(&[leaf(b"INT ", &30i32.to_le_bytes(), "ClientUserInterface", "buffIconSizePet")]);
    assert_eq!(buff_icon_sizes(&Some(lmo), &Vec::new()), Some((22, 30, 16, "local_machine_options.iff".to_string())));
    let a = opts(&[leaf(b"INT ", &40i32.to_le_bytes(), "ClientUserInterface", "buffIconSizeStatus")]);
    let b = opts(&[leaf(b"INT ", &44i32.to_le_bytes(), "ClientUserInterface", "buffIconSizeStatus")]);
    let big = opts(&[leaf(b"INT ", &500i32.to_le_bytes(), "ClientUserInterface", "buffIconSizeStatus")]);
    let chars = vec![
        ("111".to_string(), Some(a)),
        ("222".to_string(), Some(b)),
        ("333".to_string(), Some(big)),
        ("444".to_string(), None),
    ];
    assert_eq!(
        buff_icon_sizes(&None, &chars),
        Some((44, 16, 16, "largest of 4 characters, set by 222".to_string()))
    );
    let none = vec![("111".to_string(), Some(opts(&[])))];
    assert_eq!(
        buff_icon_sizes(&None, &none),
        Some((22, 16, 16, "client defaults; nothing saved for 1 characters".to_string()))
    );
    assert_eq!(buff_icon_sizes(&None, &Vec::new()), None);
}

#[test]
fn config_chain_one_file_at_a_time() {
    let files = [
        ("client.cfg", Some(".include \"options.cfg\"\n.include \"custom.cfg\"\n.include \"CLIENT.CFG\"\n")),
        ("options.cfg", Some("[ClientGraphics]\nscreenWidth=1440\nscreenHeight=1080\n.include \"missing.cfg\"\n")),
        ("missing.cfg", None),
        ("custom.cfg", Some("[ClientGraphics]\nscreenWidth=3840\nscreenHeight=2160\n")),
    ];
    let mut load = dodgins_ui::cfg::CfgLoad::new();
    let mut asked = Vec::new();
    while let Some(name) = load.next_file().map(str::to_string) {
        let text = files.iter().find(|(n, _)| *n == name).and_then(|(_, t)| *t);
        asked.push(name);
        load.feed(text);
    }
    assert_eq!(asked, vec!["client.cfg", "options.cfg", "missing.cfg", "custom.cfg"]);
    let c = load.finish();
    assert_eq!(c.resolution(), Some((3840, 2160)));
}

#[test]
fn lookups_ignore_ascii_case() {
    let mut c = ClientCfg::new();
    apply(&mut c, "[ClientGraphics]\nscreenWidth=3840\n");
    assert_eq!(c.get("ClientGraphics", "screenWidth"), Some("3840"));
    assert_eq!(c.get("CLIENTGRAPHICS", "screenwidth"), Some("3840"));
    assert_eq!(c.get("clientgraphics", "SCREENWIDTH"), Some("3840"));
    assert_eq!(c.get("ClientGraphics", "screenHeight"), None);
}
