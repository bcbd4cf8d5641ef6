use shenbot_plugins::config::{ConfigItem, ConfigStoragePy};

fn s(text: &str) -> String {
    String::from(text)
}

#[test]
fn create_config_item() {
    let storage = ConfigStoragePy::new(vec![
        (s("aaa"), ConfigItem::Str(s("value"))),
        (s("aaaa"), ConfigItem::Str(s("value"))),
        (s("cc"), ConfigItem::I64(2)),
    ]);
    assert!(!storage.inited);
    let text = storage.get_default_toml();
    assert_eq!(text, "aaa = \"value\"\naaaa = \"value\"\ncc = 2\n");
}

#[test]
fn parse_toml_test() {
    let mut storage = ConfigStoragePy::new(vec![
        (s("abc"), ConfigItem::I64(100)),
        (s("bcd"), ConfigItem::I64(200)),
        (
            s("some_map"),
            ConfigItem::Dict(vec![(s("val_2"), ConfigItem::I64(123))]),
        ),
        (s("username"), ConfigItem::Null),
        (s("password"), ConfigItem::Null),
    ]);
    let file = "abc = 12333\npassword = \"123456\"\n\n[some_map]\nval = \"string\"\n";
    storage.read_toml_str(file).unwrap();
    assert!(storage.inited);
    let current = storage.get_current_toml();
    assert_eq!(
        current,
        "abc = 12333\nbcd = 200\npassword = \"123456\"\n\n[some_map]\nval = \"string\"\n"
    );
}

#[test]
fn read_is_idempotent() {
    let mut a = ConfigStoragePy::new(vec![
        (s("x"), ConfigItem::I64(1)),
        (s("y"), ConfigItem::Str(s("d"))),
    ]);
    let file = "x = 9\n";
    a.read_toml_str(file).unwrap();
    let once = a.get_current_toml();
    a.read_toml_str(file).unwrap();
    let twice = a.get_current_toml();
    assert_eq!(once, twice);
    assert_eq!(once, "x = 9\ny = \"d\"\n");
}

#[test]
fn defaults_round_trip() {
    let mut storage = ConfigStoragePy::new(vec![
        (s("greeting"), ConfigItem::Str(s("hi"))),
        (s("count"), ConfigItem::I64(-3)),
        (s("ratio"), ConfigItem::F64(s("0.5"))),
        (s("on"), ConfigItem::Bool(true)),
        (
            s("tags"),
            ConfigItem::List(vec![ConfigItem::Str(s("a")), ConfigItem::I64(7)]),
        ),
        (
            s("limits"),
            ConfigItem::Dict(vec![(s("low"), ConfigItem::I64(1)), (s("high"), ConfigItem::I64(9))]),
        ),
    ]);
    let text = storage.get_default_toml();
    storage.read_toml_str(text.as_str()).unwrap();
    let current = storage.get_current_toml();
    assert_eq!(current, text);
    match storage.get_value("greeting", None) {
        Some(ConfigItem::Str(v)) => assert_eq!(v, "hi"),
        other => panic!("unexpected value: {:?}", other),
    }
    match storage.get_value("limits", Some("high")) {
        Some(ConfigItem::I64(v)) => assert_eq!(v, 9),
        other => panic!("unexpected value: {:?}", other),
    }
}

#[test]
fn shape_mismatch_leaves_key_unset() {
    let mut storage = ConfigStoragePy::new(vec![(s("port"), ConfigItem::I64(80))]);
    // a list arrives where a scalar default exists
    storage.read_toml_str("port = [1, 2]\n").unwrap();
    assert!(storage.inited);
    assert!(storage.get_value("port", None).is_none());
    // the key itself is still declared
    assert!(storage.have_value("port", None));
    // and a later scalar value binds normally
    storage.read_toml_str("port = 8080\n").unwrap();
    match storage.get_value("port", None) {
        Some(ConfigItem::I64(v)) => assert_eq!(v, 8080),
        other => panic!("unexpected value: {:?}", other),
    }
}

#[test]
fn add_item_respects_replace() {
    let mut storage = ConfigStoragePy::new(vec![(s("k"), ConfigItem::I64(1))]);
    assert!(!storage.add_item("k", ConfigItem::I64(2), false));
    assert!(storage.add_item("k", ConfigItem::I64(2), true));
    assert!(storage.add_item("fresh", ConfigItem::Bool(false), false));
    let text = storage.get_default_toml();
    assert_eq!(text, "k = 2\nfresh = false\n");
}

#[test]
fn nested_values_are_dropped() {
    // a list inside a list is unsupported and silently dropped
    let storage = ConfigStoragePy::new(vec![(
        s("mixed"),
        ConfigItem::List(vec![
            ConfigItem::I64(1),
            ConfigItem::List(vec![ConfigItem::I64(2)]),
            ConfigItem::Str(s("x")),
        ]),
    )]);
    assert_eq!(storage.get_default_toml(), "mixed = [1, \"x\"]\n");
}

#[test]
fn parse_rejects_bad_lines() {
    let mut storage = ConfigStoragePy::new(vec![(s("k"), ConfigItem::I64(1))]);
    let before = storage.get_default_toml();
    let err = storage.read_toml_str("k = \n").unwrap_err();
    assert_eq!(err.line, 1);
    assert!(!storage.inited);
    let err2 = storage.read_toml_str("k = 1\nk = 2\n").unwrap_err();
    assert_eq!(err2.line, 2);
    assert_eq!(storage.get_default_toml(), before);
}

#[test]
fn strings_escape_and_return() {
    let mut storage = ConfigStoragePy::new(vec![(
        s("text"),
        ConfigItem::Str(s("line\nbreak \"quoted\" back\\slash")),
    )]);
    let text = storage.get_default_toml();
    assert_eq!(text, "text = \"line\\nbreak \\\"quoted\\\" back\\\\slash\"\n");
    storage.read_toml_str(text.as_str()).unwrap();
    match storage.get_value("text", None) {
        Some(ConfigItem::Str(v)) => assert_eq!(v, "line\nbreak \"quoted\" back\\slash"),
        other => panic!("unexpected value: {:?}", other),
    }
}

#[test]
fn floats_keep_their_text() {
    let mut storage = ConfigStoragePy::new(vec![(s("pi"), ConfigItem::F64(s("3.14159")))]);
    let text = storage.get_default_toml();
    assert_eq!(text, "pi = 3.14159\n");
    storage.read_toml_str("pi = -2.5e3\n").unwrap();
    match storage.get_value("pi", None) {
        Some(ConfigItem::F64(v)) => assert_eq!(v, "-2.5e3"),
        other => panic!("unexpected value: {:?}", other),
    }
}

#[test]
fn integer_bounds_hold() {
    let mut storage = ConfigStoragePy::new(vec![(s("n"), ConfigItem::I64(0))]);
    storage
        .read_toml_str("n = -9223372036854775808\n")
        .unwrap();
    match storage.get_value("n", None) {
        Some(ConfigItem::I64(v)) => assert_eq!(v, i64::MIN),
        other => panic!("unexpected value: {:?}", other),
    }
    // one past the top of the range is rejected as a document
    assert!(storage.read_toml_str("n = 9223372036854775808\n").is_err());
}
