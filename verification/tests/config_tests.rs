use haremal_ctrl::config::{config_file_name, load_config, remove_config, save_config, try_load_config};

fn strings(v: &[&str]) -> Vec<String> {
    v.iter().map(|s| s.to_string()).collect()
}

#[test]
fn load_reads_from_the_key_line_to_the_end_when_depth_stays() {
    let content = "binds {\n    Mod+T { spawn \"rio\"; }\n}\nother";
    assert_eq!(
        load_config(content, &["binds"]),
        strings(&["binds {", "    Mod+T { spawn \"rio\"; }", "}", "other"])
    );
}

#[test]
fn load_nested_path_stops_after_closing_brace() {
    let content = "input {\n  keyboard {\n    xkb {\n      layout \"us\"\n    }\n  }\n}";
    assert_eq!(
        load_config(content, &["input", "keyboard", "xkb", "layout"]),
        strings(&["      layout \"us\"", "    }"])
    );
}

#[test]
fn load_missing_path_is_empty() {
    assert_eq!(load_config("a {\n}\n", &["b"]), Vec::<String>::new());
    assert_eq!(load_config("a {\n}\n", &["a", "b"]), Vec::<String>::new());
}

#[test]
fn load_keys_must_come_in_order() {
    let content = "layout\ninput {\n}";
    assert_eq!(load_config(content, &["input", "layout"]), Vec::<String>::new());
}

#[test]
fn load_handles_crlf_lines() {
    assert_eq!(load_config("a\r\nb {\r\n}\r\n", &["b"]), strings(&["b {", "}"]));
}

#[test]
fn load_key_is_matched_after_trimming() {
    assert_eq!(load_config("x\n   key 1\n", &["key"]), strings(&["   key 1"]));
}

#[test]
fn try_load_refuses_depth_below_zero() {
    assert_eq!(try_load_config("a }}", &["a"]), None);
    assert_eq!(try_load_config("a }", &["a"]), Some(strings(&["a }"])));
}

#[test]
fn try_load_refuses_missing_keys_on_text() {
    assert_eq!(try_load_config("a", &[]), None);
    assert_eq!(try_load_config("", &[]), Some(Vec::new()));
}

#[test]
fn save_replaces_between_quotes() {
    let content = "input {\n  layout \"us\"\n}";
    assert_eq!(
        save_config(content, &["input", "layout"], "de"),
        "input {\n  layout \"de\"\n}"
    );
}

#[test]
fn save_replaces_between_first_and_last_quote() {
    assert_eq!(save_config("k \"a\" \"b\" x", &["k"], "z"), "k \"z\" x");
}

#[test]
fn save_inserts_after_line_without_quote() {
    assert_eq!(
        save_config("binds {\n}", &["binds"], "    X { y }"),
        "binds {\n    X { y }\n}"
    );
}

#[test]
fn save_keeps_line_with_one_quote() {
    assert_eq!(save_config("a \"b", &["a"], "v"), "a \"b");
}

#[test]
fn save_creates_missing_blocks_after_first_line() {
    assert_eq!(
        save_config("first\nsecond", &["x", "y"], "v"),
        "first\nx {\ny \"v\"\n}\nsecond"
    );
    assert_eq!(
        save_config("first", &["a", "b", "c"], "v"),
        "first\na {\nb {\nc \"v\"\n}\n}"
    );
}

#[test]
fn save_creates_missing_leaf_after_found_prefix() {
    assert_eq!(save_config("x {\n}\n", &["x", "y"], "1"), "x {\ny \"1\"\n}");
}

#[test]
fn save_empty_text_without_keys() {
    assert_eq!(save_config("", &[], "v"), "");
}

#[test]
fn saved_value_is_read_back() {
    let saved = save_config("binds {\n}\n", &["binds"], "    Mod+Q { close-window; }");
    let section = load_config(&saved, &["binds"]);
    assert_eq!(section[1], "    Mod+Q { close-window; }");
    let saved = save_config("top", &["input", "layout"], "de");
    assert_eq!(load_config(&saved, &["input", "layout"])[0], "layout \"de\"");
}

#[test]
fn remove_drops_line_containing_key() {
    let content = "binds {\n    Mod+T { spawn \"rio\"; }\n    Mod+Q { close-window; }\n}";
    assert_eq!(
        remove_config(content, &["Mod+Q"]),
        "binds {\n    Mod+T { spawn \"rio\"; }\n}"
    );
}

#[test]
fn remove_follows_path() {
    let content = "Mod+T x\nbinds {\n    Mod+T { spawn \"rio\"; }\n}";
    assert_eq!(remove_config(content, &["binds", "Mod+T"]), "Mod+T x\nbinds {\n}");
}

#[test]
fn remove_missing_path_rejoins_lines() {
    assert_eq!(remove_config("a\nb\n", &["zzz"]), "a\nb");
    assert_eq!(remove_config("", &[]), "");
}

#[test]
fn default_config_file() {
    assert_eq!(config_file_name(None), "haremal-ctrl/config.toml");
    assert_eq!(config_file_name(Some("niri/config.kdl")), "niri/config.kdl");
}

#[test]
fn reading_is_defined_without_closing_braces() {
    assert_eq!(
        try_load_config("a {\nb {{\nc", &["a"]),
        Some(strings(&["a {", "b {{", "c"]))
    );
}

#[test]
fn written_text_splits_back_into_its_lines() {
    let written = save_config("a\r\nb {\n}", &["b", "c"], "v");
    assert_eq!(written, "a\nb {\nc \"v\"\n}");
    assert_eq!(load_config(&written, &["b", "c"]), strings(&["c \"v\"", "}"]));
}

#[test]
fn quoted_value_is_read_back() {
    let saved = save_config("input {\n  layout \"us\"\n}", &["input", "layout"], "de");
    let section = load_config(&saved, &["input", "layout"]);
    assert_eq!(haremal_ctrl::applications::quoted_text(&section[0]), "de");
}

#[test]
fn saving_the_same_value_twice_changes_nothing() {
    let once = save_config("input {\n  layout \"us\" # x\n}", &["input", "layout"], "de");
    assert_eq!(once, "input {\n  layout \"de\" # x\n}");
    assert_eq!(save_config(&once, &["input", "layout"], "de"), once);
}

#[test]
fn quoted_value_is_read_back_between_first_and_last_quote() {
    let saved = save_config("a\n  k \"1\" \"2\"", &["k"], "v");
    let first = &load_config(&saved, &["k"])[0];
    let (a, b) = (first.find('"').unwrap(), first.rfind('"').unwrap());
    assert_eq!(&first[a + 1..b], "v");
}

#[test]
fn quoted_value_is_read_back_with_blank_last_line() {
    let saved = save_config("k \"x\"\n\n", &["k"], "v");
    assert_eq!(saved, "k \"v\"\n");
    let first = &load_config(&saved, &["k"])[0];
    let (a, b) = (first.find('"').unwrap(), first.rfind('"').unwrap());
    assert_eq!(&first[a + 1..b], "v");
}

#[test]
fn each_save_drops_one_blank_last_line() {
    let once = save_config("k \"x\"\n\n", &["k"], "v");
    assert_eq!(save_config(&once, &["k"], "v"), "k \"v\"");
}
