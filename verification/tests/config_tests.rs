use quicknote::config::{config_file_path, config_from_json, config_to_json, settings_from_read};

#[test]
fn serialized_form_is_compact_json() {
    assert_eq!(config_to_json("/tmp/x.txt"), "{\"file_path\":\"/tmp/x.txt\"}");
}

#[test]
fn save_then_load_returns_saved_path() {
    let written = config_to_json("/tmp/x.txt");
    let loaded = settings_from_read(Some(written));
    assert_eq!(loaded, Ok(Some("/tmp/x.txt".to_string())));
}

#[test]
fn missing_config_file_is_no_setting() {
    assert_eq!(settings_from_read(None), Ok(None));
}

#[test]
fn quotes_and_backslashes_are_escaped() {
    assert_eq!(config_to_json("a\"b"), "{\"file_path\":\"a\\\"b\"}");
    assert_eq!(config_to_json("a\\b"), "{\"file_path\":\"a\\\\b\"}");
}

#[test]
fn control_characters_are_escaped() {
    assert_eq!(config_to_json("\u{1}"), "{\"file_path\":\"\\u0001\"}");
    assert_eq!(config_to_json("a\nb"), "{\"file_path\":\"a\\u000ab\"}");
}

#[test]
fn awkward_paths_round_trip() {
    let path = "dir with \"quotes\"\\and\nnewline\u{1}\u{1f}/end.txt";
    let r = config_from_json(&config_to_json(path));
    assert_eq!(r, Ok(path.to_string()));
}

#[test]
fn parser_accepts_surrounding_whitespace() {
    let r = config_from_json("  { \"file_path\" : \"/x\" }  ");
    assert_eq!(r, Ok("/x".to_string()));
}

#[test]
fn parser_accepts_simple_escapes() {
    let r = config_from_json("{\"file_path\":\"a\\n\\t\\/\\b\\f\\r\\\"\\\\\"}");
    assert_eq!(r, Ok("a\n\t/\u{8}\u{c}\r\"\\".to_string()));
}

#[test]
fn parser_accepts_low_unicode_escapes() {
    let r = config_from_json("{\"file_path\":\"\\u0041\\u000A\"}");
    assert_eq!(r, Ok("A\n".to_string()));
}

#[test]
fn parser_rejects_malformed_input() {
    let cases = [
        "",
        "{}",
        "{\"path\":\"x\"}",
        "{\"file_path\":\"x\"",
        "{\"file_path\":\"x\"} trailing",
        "{\"file_path\":\"\\u0141\"}",
        "{\"file_path\":\"bad\\q\"}",
        "{\"file_path\":42}",
        "[\"file_path\"]",
    ];
    for case in cases {
        let r = config_from_json(case);
        assert_eq!(r, Err("invalid configuration JSON".to_string()), "case: {case}");
    }
}

#[test]
fn config_path_is_under_home() {
    assert_eq!(
        config_file_path("/home/user"),
        "/home/user/.quicknote_config.json"
    );
}

#[test]
fn config_path_adds_no_second_separator() {
    assert_eq!(
        config_file_path("/home/user/"),
        "/home/user/.quicknote_config.json"
    );
}

#[test]
fn config_path_with_empty_home_is_bare_name() {
    assert_eq!(config_file_path(""), ".quicknote_config.json");
}
