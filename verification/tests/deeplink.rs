use jello::deeplink::{handle_open_argument, register_jello_protocol, registry_text, to_utf16, OpenPlan};
use jello::search::SearchEngine;

fn bytes_of(units: &[u16]) -> Vec<u8> {
    units.iter().flat_map(|u| u.to_le_bytes()).collect()
}

#[test]
fn text_is_read_back_from_its_units() {
    let s = "a\u{e9}\u{20ac}\u{1f600}z";
    let units = to_utf16(s);
    assert_eq!(units, vec![0x61, 0xE9, 0x20AC, 0xD83D, 0xDE00, 0x7A, 0]);
    assert_eq!(registry_text(&bytes_of(&units)).unwrap(), s);
    assert_eq!(to_utf16(""), vec![0]);
    assert_eq!(to_utf16("\u{10000}\u{10ffff}"), vec![0xD800, 0xDC00, 0xDBFF, 0xDFFF, 0]);
}

#[test]
fn registry_values_end_at_the_first_zero() {
    assert_eq!(registry_text(&vec![]).unwrap(), "");
    assert_eq!(registry_text(&bytes_of(&[0x61, 0x62])).unwrap(), "ab");
    assert_eq!(registry_text(&bytes_of(&[0x61, 0, 0x62])).unwrap(), "a");
    assert_eq!(registry_text(&vec![0x61, 0, 0x62]).unwrap(), "a");
    assert_eq!(registry_text(&bytes_of(&[0xD83D])), None);
    assert_eq!(registry_text(&bytes_of(&[0xDE00, 0xD83D])), None);
    assert_eq!(registry_text(&bytes_of(&[0xD83D, 0x61])), None);
}

#[test]
fn the_program_registers_once() {
    let writes = register_jello_protocol("C:\\jello.exe", None);
    let rows: Vec<(&str, &str, &str)> = writes.iter().map(|w| (w.subkey, w.name, w.value.as_str())).collect();
    assert_eq!(
        rows,
        vec![
            ("Software\\Classes\\jello", "", "URL:Jello Protocol"),
            ("Software\\Classes\\jello", "URL Protocol", ""),
            ("Software\\Classes\\jello\\shell\\open\\command", "", "\"C:\\jello.exe\" \"%1\""),
        ]
    );
    let current = Some(writes[2].value.clone());
    assert!(register_jello_protocol("C:\\jello.exe", current).is_empty());
    assert_eq!(register_jello_protocol("C:\\jello.exe", Some("other".to_string())).len(), 3);
}

fn open(arg: &str, file: Option<&str>, active: Option<i32>) -> OpenPlan {
    let engines =
        vec![SearchEngine { name: "G".to_string(), keyword: "g".to_string(), url_template: "https://g/%s".to_string() }];
    handle_open_argument(arg, file.map(|s| s.to_string()), &engines, None, active)
}

#[test]
fn arguments_are_opened() {
    assert!(matches!(open("  ", None, None), OpenPlan::Nothing));
    match open(" jello://history ", None, Some(1)) {
        OpenPlan::View(v) => assert_eq!(v, "history"),
        _ => panic!("a view"),
    }
    assert!(matches!(open("settings", None, None), OpenPlan::View(_)));
    match open("jello://example.com", None, Some(4)) {
        OpenPlan::Navigate { tab_id, url } => {
            assert_eq!(tab_id, 4);
            assert_eq!(url, "https://example.com");
        }
        _ => panic!("the tab in front goes there"),
    }
    match open("g two cats", None, None) {
        OpenPlan::Create { url } => assert_eq!(url, "https://g/two%20cats"),
        _ => panic!("a tab is made"),
    }
    match open("two cats", None, None) {
        OpenPlan::Create { url } => assert_eq!(url, "https://duckduckgo.com/?q=two%20cats"),
        _ => panic!("a tab is made"),
    }
}

#[test]
fn files_need_to_be_allowed() {
    assert!(matches!(open("file:///c:/x", None, None), OpenPlan::Refused));
    assert!(matches!(open("jello://file:///c:/x", Some("false"), None), OpenPlan::Refused));
    match open("file:///c:/x", Some("true"), None) {
        OpenPlan::Create { url } => assert_eq!(url, "file:///c:/x"),
        _ => panic!("it is allowed"),
    }
}
