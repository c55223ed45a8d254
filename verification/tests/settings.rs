use jello::settings::{
    checks_for_updates, get_setting, is_not_off, is_on, log_is_full, number_text, rows_for,
    settings_get, settings_set, switch_text, updater_enabled, zoom_key, LOG_LIMIT,
};

fn set(s: &str) -> Option<String> {
    Some(s.to_string())
}

#[test]
fn settings_lose_their_quotation_marks() {
    assert_eq!(get_setting(None), None);
    assert_eq!(get_setting(set("\"dark\"")).unwrap(), "dark");
    assert_eq!(get_setting(set("\"\"a\"b\"")).unwrap(), "a\"b");
    assert_eq!(get_setting(set("\"\"\"")).unwrap(), "");
    assert_eq!(number_text(" \"1.25\"\n"), "1.25");
    assert_eq!(number_text("\" 2\""), " 2");
}

#[test]
fn switches_have_a_default() {
    assert!(is_on(&set("true")) && !is_on(&set("1")) && !is_on(&None));
    assert!(!is_not_off(&set("false")) && is_not_off(&set("no")) && is_not_off(&None));
    assert_eq!((switch_text(true), switch_text(false)), ("true", "false"));
    assert!(checks_for_updates(&set("true")) && !checks_for_updates(&None));
    assert!(updater_enabled());
}

#[test]
fn magnification_is_kept_by_site() {
    assert_eq!(zoom_key("a.b").unwrap(), "zoom:a.b");
    assert_eq!(zoom_key(""), None);
}

#[test]
fn the_log_has_a_limit() {
    assert_eq!(LOG_LIMIT, 5 * 1024 * 1024);
    assert!(!log_is_full(LOG_LIMIT));
    assert!(log_is_full(LOG_LIMIT + 1));
}

#[test]
fn values_are_json_or_strings() {
    assert_eq!(settings_get("true"), "true");
    assert_eq!(settings_get("{\"a\":1}"), "{\"a\":1}");
    assert_eq!(settings_get("dark"), "\"dark\"");
    assert_eq!(settings_get("a\"b\n"), "\"a\\\"b\\n\"");
    assert_eq!(settings_get(""), "\"\"");
}

#[test]
fn patches_become_rows() {
    let rows = settings_set(r#"{"b":"text","a":true,"c":{"x": [1, null]}}"#).unwrap();
    let rows: Vec<(&str, &str)> = rows.iter().map(|(k, v)| (k.as_str(), v.as_str())).collect();
    assert_eq!(rows, vec![("a", "true"), ("b", "text"), ("c", "{\"x\":[1,null]}")]);
    assert_eq!(settings_set("[1]").unwrap_err(), "patch must be an object");
    assert_eq!(settings_set("{").unwrap_err(), "patch must be an object");
    assert!(settings_set("{}").unwrap().is_empty());
    let members = vec![("k".to_string(), set("s"), "\"s\"".to_string()), ("l".to_string(), None, "3".to_string())];
    assert_eq!(
        rows_for(&members),
        vec![("k".to_string(), "s".to_string()), ("l".to_string(), "3".to_string())]
    );
}

#[test]
fn settings_are_read_back() {
    let rows = settings_set(r#"{"a":true,"b":"dark","c":[1,{"x":null}],"d":1.5,"e":"true"}"#).unwrap();
    let back: Vec<String> = rows.iter().map(|(_, v)| settings_get(v)).collect();
    assert_eq!(back, vec!["true", "\"dark\"", "[1,{\"x\":null}]", "1.5", "true"]);
}
