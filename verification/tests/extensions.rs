use jello::extensions::{
    archive_part, check_download, choose_key, chromium_asset, chromium_unpacked_id,
    consent_message, crx_url, dedupe_ad_blockers, digest_letters, display_name, download_crx,
    enabled_only, extension_url, file_seed, flatten_single_root, is_ext_id, load_all_enabled,
    load_failed, localized_key, localized_message, note_runtime_id, options_label, prefers_edge,
    read_options_page, release_asset, resolve_ext_id, runtime_id_for, set_enabled_cache,
    shows_extension, slug_id_from, strip_crx3_header, Download, ExtensionCaches, Store,
};
use jello::ipc_types::Extension;
use sha2::{Digest, Sha256};

const LITE: &str = "ddkjiahejlhfcafbddmgiahcphecmpfh";
const GUARD: &str = "bgnkhhnnamicmpeenaelnjfhikgbkllg";

fn ext(id: &str, name: &str, enabled: bool) -> Extension {
    Extension { id: id.to_string(), version: "1.0".to_string(), name: name.to_string(), enabled }
}

fn owned(list: &[&str]) -> Vec<String> {
    list.iter().map(|s| s.to_string()).collect()
}

fn package(version: u32, header: u32, rest: &[u8]) -> Vec<u8> {
    let mut b = b"Cr24".to_vec();
    b.extend_from_slice(&version.to_le_bytes());
    b.extend_from_slice(&header.to_le_bytes());
    b.extend_from_slice(rest);
    b
}

#[test]
fn packages_hold_an_archive() {
    assert_eq!(strip_crx3_header(&package(3, 2, &[9, 9, 1, 2, 3])).unwrap(), vec![1, 2, 3]);
    assert_eq!(strip_crx3_header(&package(3, 0, &[])).unwrap(), Vec::<u8>::new());
    assert_eq!(strip_crx3_header(b"Cr24").unwrap_err(), "Invalid CRX file: too short");
    assert_eq!(strip_crx3_header(b"PK34........").unwrap_err(), "Invalid CRX file: missing magic Cr24 header");
    assert_eq!(strip_crx3_header(&package(2, 0, &[])).unwrap_err(), "Unsupported CRX version: 2");
    assert_eq!(strip_crx3_header(&package(0x01020304, 0, &[])).unwrap_err(), "Unsupported CRX version: 16909060");
    assert_eq!(strip_crx3_header(&package(3, 6, &[1, 2, 3])).unwrap_err(), "Invalid CRX file: truncated header");
    assert_eq!(strip_crx3_header(&package(3, u32::MAX, &[1])).unwrap_err(), "Invalid CRX file: truncated header");
}

#[test]
fn files_are_packages_or_archives() {
    assert_eq!(archive_part(vec![0x50, 0x4B]).unwrap(), vec![0x50, 0x4B]);
    assert_eq!(archive_part(package(3, 1, &[0, 7])).unwrap(), vec![7]);
    assert_eq!(archive_part(b"Cr24".to_vec()).unwrap_err(), "Invalid CRX file: too short");
}

#[test]
fn numbers_are_found_in_addresses() {
    assert!(is_ext_id(LITE));
    assert!(!is_ext_id(&LITE[1..]));
    assert!(!is_ext_id(&LITE.replace('d', "q")));
    assert!(!is_ext_id(&LITE.to_uppercase()));
    assert_eq!(resolve_ext_id(&format!("  {LITE} ")).unwrap(), LITE);
    let page = format!("https://chromewebstore.google.com/detail/ublock-origin-lite/{}?hl=en", LITE.to_uppercase());
    assert_eq!(resolve_ext_id(&page).unwrap(), LITE);
    let other = format!("https://x/detail/{GUARD}#a/{LITE}");
    assert_eq!(resolve_ext_id(&other).unwrap(), GUARD);
    let none = resolve_ext_id(&format!("https://x/?id={LITE}")).unwrap_err();
    assert_eq!(none, "Could not find a 32-character extension ID in that value or URL.");
    assert!(resolve_ext_id(&LITE.to_uppercase()).is_ok());
}

fn letters(bytes: &[u8]) -> String {
    bytes[..16].iter().flat_map(|b| [(b'a' + (b >> 4)) as char, (b'a' + (b & 0x0f)) as char]).collect()
}

#[test]
fn numbers_are_made_from_digests() {
    assert_eq!(slug_id_from(""), "odlameecjipmbmbejkplpemijjgpljce");
    assert_eq!(slug_id_from("abc"), "lkhibglpipabmpokebebeanofnkocccd");
    let seed = "uBlock Origin (GitHub)";
    assert_eq!(slug_id_from(seed), letters(&Sha256::digest(seed.as_bytes())));
    assert!(is_ext_id(&slug_id_from("x\u{e9}")));
    let path = "C:\\Users\\\u{e9}\\ext";
    let wide: Vec<u8> = path.encode_utf16().flat_map(|u| u.to_le_bytes()).collect();
    assert_eq!(chromium_unpacked_id(path), letters(&Sha256::digest(&wide)));
    let hash: Vec<u8> = (0..16).map(|i| i * 17).collect();
    assert_eq!(digest_letters(&hash), "aabbccddeeffgghhiijjkkllmmnnoopp");
}

#[test]
fn stores_have_addresses() {
    assert_eq!(
        crx_url(Store::Google, "abc"),
        "https://clients2.google.com/service/update2/crx?response=redirect&acceptformat=crx2,crx3&prodversion=131.0.6778.86&x=id%3Dabc%26installsource%3Dondemand%26uc"
    );
    assert_eq!(
        crx_url(Store::Edge, "abc"),
        "https://edge.microsoft.com/extensionwebstorebase/v1/crx?response=redirect&x=id%3Dabc%26installsource%3Dondemand%26uc"
    );
    assert!(prefers_edge("https://microsoftedge.microsoft.com/addons/detail/x"));
    assert!(!prefers_edge("https://chromewebstore.google.com/detail/x"));
}

#[test]
fn answers_of_stores_are_checked() {
    assert_eq!(check_download(false, "204 No Content", vec![0; 20]).unwrap_err(), "HTTP 204 No Content");
    assert_eq!(check_download(true, "200 OK", vec![0; 15]).unwrap_err(), "empty or truncated");
    assert_eq!(check_download(true, "200 OK", vec![0; 16]).unwrap(), vec![0; 16]);
}

#[test]
fn the_other_store_is_asked_too() {
    let no = |s: &str| Some(Err::<Vec<u8>, String>(s.to_string()));
    assert!(matches!(download_crx(true, None, None), Download::Ask(Store::Edge)));
    assert!(matches!(download_crx(false, None, None), Download::Ask(Store::Google)));
    assert!(matches!(download_crx(true, no("a"), None), Download::Ask(Store::Google)));
    assert!(matches!(download_crx(false, no("a"), None), Download::Ask(Store::Edge)));
    match download_crx(false, Some(Ok(vec![1])), None) {
        Download::Done(b) => assert_eq!(b, vec![1]),
        _ => panic!("the first store has it"),
    }
    match download_crx(false, no("a"), Some(Ok(vec![2]))) {
        Download::Done(b) => assert_eq!(b, vec![2]),
        _ => panic!("the second store has it"),
    }
    match download_crx(false, no("a"), no("b")) {
        Download::Failed(why) => assert_eq!(why, "Download failed (google: a; edge: b)"),
        _ => panic!("neither store has it"),
    }
    match download_crx(true, no("a"), no("b")) {
        Download::Failed(why) => assert_eq!(why, "Download failed (edge: a; google: b)"),
        _ => panic!("neither store has it"),
    }
}

#[test]
fn releases_name_their_archive() {
    let s = |t: &str| Some(t.to_string());
    let rows = vec![
        (s("a.firefox.zip"), s("1")),
        (None, s("2")),
        (s("b.chromium.zip"), None),
        (s("c.chromium.zip"), s("4")),
    ];
    assert_eq!(chromium_asset(&rows).unwrap(), "4");
    assert_eq!(chromium_asset(&vec![]), None);

    let body = r#"{"assets":[{"name":7},{"name":"u.firefox.xpi","browser_download_url":"no"},
        {"name":"u.chromium.zip","browser_download_url":"https://x/u"}]}"#;
    assert_eq!(release_asset(body).unwrap(), "https://x/u");
    assert_eq!(release_asset("{}").unwrap_err(), "no uBO chromium.zip asset found");
    assert_eq!(release_asset("[]").unwrap_err(), "no uBO chromium.zip asset found");
    assert_eq!(
        release_asset("{").unwrap_err(),
        "bad release json: EOF while parsing an object at line 1 column 1"
    );
}

#[test]
fn names_are_looked_up() {
    assert_eq!(localized_key("__MSG_extName__").unwrap(), "extName");
    assert_eq!(localized_key("__MSG___").unwrap(), "");
    assert_eq!(localized_key("__MSG_"), None);
    assert_eq!(localized_key("__MSG_x_"), None);
    assert_eq!(localized_key("name"), None);
    assert_eq!(choose_key(&owned(&["NAME", "name"]), "name").unwrap(), "name");
    assert_eq!(choose_key(&owned(&["a", "NAME"]), "name").unwrap(), "NAME");
    assert_eq!(choose_key(&owned(&["a"]), "name"), None);
    let messages = r#"{"ExtName":{"message":"uBlock Origin Lite"},"other":{"message":3},"b":"x"}"#;
    assert_eq!(localized_message(messages, "extName").unwrap(), "uBlock Origin Lite");
    assert_eq!(localized_message(messages, "other"), None);
    assert_eq!(localized_message(messages, "b"), None);
    assert_eq!(localized_message(messages, "none"), None);
    assert_eq!(localized_message("[]", "b"), None);
    assert_eq!(localized_message("no", "b"), None);
    assert_eq!(display_name("Plain", Some("M".to_string()), "id"), "Plain");
    assert_eq!(display_name("__MSG_a__", Some("M".to_string()), "id"), "M");
    assert_eq!(display_name("__MSG_a__", None, "id"), "id");
}

#[test]
fn settings_pages_are_found() {
    assert_eq!(read_options_page(r#"{"options_page":"a.html","options_ui":{"page":"b.html"}}"#).unwrap(), "a.html");
    assert_eq!(read_options_page(r#"{"options_page":1,"options_ui":{"page":"b.html"}}"#).unwrap(), "b.html");
    assert_eq!(read_options_page("{}"), None);
    assert_eq!(read_options_page("no"), None);
    assert_eq!(extension_url("abcdefgh", "//o.html"), "chrome-extension://abcdefgh/o.html");
    assert_eq!(options_label("abcdefghij"), "ext_abcdefgh");
    assert_eq!(options_label("abcdefgh"), "ext_abcdefgh");
    assert_eq!(options_label("\u{e4}bc\u{1f600}\u{20ac}"), "ext_\u{e4}bc\u{1f600}");
    assert_eq!(options_label("a\u{20ac}\u{1f600}\u{1f600}"), "ext_a\u{20ac}\u{1f600}");
    assert!(shows_extension("chrome-extension://ab/x", "ab"));
    assert!(!shows_extension("chrome-extension://abc/x", "ab"));
}

#[test]
fn the_user_is_asked() {
    assert_eq!(
        consent_message("N", "1.2", &owned(&["tabs", "storage"])),
        "Do you want to install 'N' (1.2)?\n\nIt requires the following permissions:\n- tabs\n- storage"
    );
    assert_eq!(
        consent_message("N", "1.2", &vec![]),
        "Do you want to install 'N' (1.2)?\n\nIt requires the following permissions:None"
    );
    assert_eq!(file_seed("N", "1.2"), "N::1.2");
}

#[test]
fn a_single_directory_is_flattened() {
    assert!(flatten_single_root(false, 1, true, true));
    assert!(!flatten_single_root(true, 1, true, true));
    assert!(!flatten_single_root(false, 2, true, true));
    assert!(!flatten_single_root(false, 1, false, true));
    assert!(!flatten_single_root(false, 1, true, false));
}

#[test]
fn extensions_are_loaded_once() {
    let all = vec![ext("a", "A", true), ext("b", "B", false), ext("c", "C", true), ext("a", "A", true)];
    let on = enabled_only(&all);
    let ids: Vec<&str> = on.iter().map(|e| e.id.as_str()).collect();
    assert_eq!(ids, vec!["a", "c", "a"]);

    let mut caches = ExtensionCaches::new();
    set_enabled_cache(&mut caches, on);
    assert_eq!(load_all_enabled(&mut caches, &owned(&["a"])), owned(&["a"]));
    assert_eq!(load_all_enabled(&mut caches, &owned(&["a", "c"])), owned(&["c"]));
    assert!(load_all_enabled(&mut caches, &owned(&["a", "c"])).is_empty());
    load_failed(&mut caches, "a");
    assert_eq!(caches.loaded, owned(&["c"]));
    assert_eq!(load_all_enabled(&mut caches, &owned(&["a", "c"])), owned(&["a"]));
}

#[test]
fn running_numbers_are_kept() {
    let mut caches = ExtensionCaches::new();
    assert_eq!(runtime_id_for(&caches, "a"), None);
    note_runtime_id(&mut caches, "a".to_string(), "r1".to_string());
    note_runtime_id(&mut caches, "b".to_string(), "r2".to_string());
    note_runtime_id(&mut caches, "a".to_string(), "".to_string());
    assert_eq!(runtime_id_for(&caches, "a").unwrap(), "r1");
    note_runtime_id(&mut caches, "a".to_string(), "r3".to_string());
    assert_eq!(runtime_id_for(&caches, "a").unwrap(), "r3");
    assert_eq!(runtime_id_for(&caches, "b").unwrap(), "r2");
    assert_eq!(caches.runtime.len(), 2);
}

#[test]
fn blockers_beside_the_full_one_go() {
    let mut all = vec![
        ext("u", "uBlock Origin", true),
        ext(LITE, "Lite", true),
        ext(GUARD, "Guard", false),
        ext("x", "X", true),
    ];
    let off = dedupe_ad_blockers(&all);
    assert_eq!(off.len(), 1);
    assert_eq!(off[0].id, LITE);
    all[2].enabled = true;
    assert_eq!(dedupe_ad_blockers(&all).len(), 2);
    all[0].enabled = false;
    assert!(dedupe_ad_blockers(&all).is_empty());
}
