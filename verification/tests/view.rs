use jello::incognito::{create_incognito_tab, get_incognito_tab, IncognitoStore};
use jello::ipc_types::Tab;
use jello::view::{
    accelerator_pressed, download_action, download_file_name, download_id, download_state,
    find_script, is_in_window_shortcut, is_store_page, opens_tab, persist_tab_meta, poll_step,
    progress_due, DownloadState, PollStep, ProgressClock,
};

#[test]
fn keys_of_the_program_are_known() {
    let ctrl = |vk| is_in_window_shortcut(vk, true, false, false);
    let both = |vk| is_in_window_shortcut(vk, true, true, false);
    let bare = |vk| is_in_window_shortcut(vk, false, false, false);
    let alt = |vk| is_in_window_shortcut(vk, false, false, true);
    let expected = [
        (0x54, "Ctrl+T"), (0x57, "Ctrl+W"), (0x4E, "Ctrl+N"), (0x4C, "Ctrl+L"), (0x09, "Ctrl+Tab"),
        (0x31, "Ctrl+Num"), (0x39, "Ctrl+Num"), (0x46, "Ctrl+F"), (0x52, "Ctrl+R"), (0x4A, "Ctrl+J"),
        (0x44, "Ctrl+D"), (0x48, "Ctrl+H"), (0xBB, "Ctrl+ZoomIn"), (0xBD, "Ctrl+ZoomOut"),
        (0x30, "Ctrl+ZoomReset"), (0x6B, "Ctrl+ZoomIn"), (0x6D, "Ctrl+ZoomOut"),
        (0x60, "Ctrl+ZoomReset"), (0x4D, "Ctrl+M"), (0x51, "Ctrl+Q"),
    ];
    for (vk, name) in expected {
        assert_eq!(ctrl(vk), Some(name));
    }
    let expected = [
        (0x55, "Ctrl+Shift+U"), (0x54, "Ctrl+Shift+T"), (0x57, "Ctrl+Shift+W"), (0x4E, "Ctrl+Shift+N"),
        (0x09, "Ctrl+Shift+Tab"), (0x52, "Ctrl+Shift+R"), (0x45, "Ctrl+Shift+E"), (0x4F, "Ctrl+Shift+O"),
        (0x43, "Ctrl+Shift+C"), (0x56, "Ctrl+Shift+V"),
    ];
    for (vk, name) in expected {
        assert_eq!(both(vk), Some(name));
    }
    for (vk, name) in [(0x75, "F6"), (0x74, "F5"), (0x7A, "F11"), (0x1B, "Esc")] {
        assert_eq!(bare(vk), Some(name));
    }
    assert_eq!(alt(0x25), Some("Tab+Prev"));
    assert_eq!(alt(0x27), Some("Tab+Next"));
    assert_eq!(is_in_window_shortcut(0xA6, true, false, true), Some("Nav+Back"));
    assert_eq!(bare(0xA7), Some("Nav+Forward"));
    assert_eq!(ctrl(0x41), None);
    assert_eq!(bare(0x54), None);
    assert_eq!(is_in_window_shortcut(0x54, true, false, true), None);
}

#[test]
fn keys_are_told_to_the_window() {
    assert_eq!(accelerator_pressed(0x34, true, false, false, false).unwrap(), "Ctrl+4");
    assert_eq!(accelerator_pressed(0x54, true, false, false, false).unwrap(), "Ctrl+T");
    assert_eq!(accelerator_pressed(0x1B, false, false, false, false), None);
    assert_eq!(accelerator_pressed(0x1B, false, false, false, true).unwrap(), "Esc");
    assert_eq!(accelerator_pressed(0x41, false, false, false, true), None);
}

#[test]
fn pages_of_stores_are_known() {
    assert!(is_store_page("https://chromewebstore.google.com/detail/x"));
    assert!(is_store_page("https://chrome.google.com/webstore/detail/x"));
    assert!(is_store_page("https://microsoftedge.microsoft.com/addons/detail/x"));
    assert!(!is_store_page("https://chromewebstore.google.com/"));
}

fn page() -> Tab {
    Tab {
        id: 1,
        window_id: 1,
        url: "https://a".to_string(),
        title: Some("A".to_string()),
        favicon_id: None,
        pinned: false,
        muted: false,
        order_key: "m".to_string(),
        scroll_y: 4,
        last_active: None,
        created_at: 0,
    }
}

#[test]
fn reports_of_pages_are_taken_over() {
    let s = |t: &str| Some(t.to_string());
    let c = persist_tab_meta(page(), s("https://b"), None);
    assert_eq!((c.tab.url.as_str(), c.tab.title.as_deref(), c.visited), ("https://b", Some("A"), true));
    assert!(!persist_tab_meta(page(), s("https://a"), None).visited);
    assert!(persist_tab_meta(page(), s("http://b"), None).visited);
    assert!(!persist_tab_meta(page(), s("about:blank"), None).visited);
    let c = persist_tab_meta(page(), None, s("New"));
    assert_eq!((c.tab.url.as_str(), c.tab.title.as_deref(), c.visited), ("https://a", Some("New"), false));
    assert_eq!(persist_tab_meta(page(), None, s("")).tab.title.as_deref(), Some("A"));
    assert!(opens_tab("http://x") && opens_tab("https://x") && !opens_tab("about:blank"));
}

#[test]
fn pages_without_traces_are_never_visits() {
    let s = |t: &str| Some(t.to_string());
    let mut store = IncognitoStore::new();
    create_incognito_tab(&mut store, 7, "about:blank".to_string(), "m".to_string(), 0);
    create_incognito_tab(&mut store, 7, "https://a".to_string(), "n".to_string(), 0);
    for id in [-1, -2] {
        let mut tab = get_incognito_tab(&store, id).unwrap();
        for url in ["https://b", "http://c", "https://b"] {
            let change = persist_tab_meta(tab, s(url), s("T"));
            assert!(!change.visited);
            assert_eq!((change.tab.url.as_str(), change.tab.title.as_deref()), (url, Some("T")));
            tab = change.tab;
        }
    }
    let mut on_record = page();
    on_record.id = 0;
    assert!(persist_tab_meta(on_record, s("https://b"), None).visited);
}

#[test]
fn only_pages_in_sight_are_looked_after() {
    assert_eq!(poll_step(false, true, false), PollStep::Stop);
    assert_eq!(poll_step(true, false, false), PollStep::Skip);
    assert_eq!(poll_step(true, true, true), PollStep::Skip);
    assert_eq!(poll_step(true, true, false), PollStep::ReadScroll);
}

#[test]
fn texts_are_looked_for_safely() {
    assert_eq!(find_script("a", true), "window.find(\"a\", false, false, true, false, false, false)");
    assert_eq!(find_script("\"); x(", false), "window.find(\"\\\"); x(\", false, true, true, false, false, false)");
}

#[test]
fn downloads_have_names() {
    assert_eq!(download_file_name("C:\\a\\b.zip"), "b.zip");
    assert_eq!(download_file_name("/a\\b/c"), "c");
    assert_eq!(download_file_name("c"), "c");
    assert_eq!(download_file_name("a/"), "");
    assert_eq!(download_file_name(""), "");
    assert_eq!(download_id(1700000000123), "1700000000123");
}

#[test]
fn progress_is_told_now_and_then() {
    let mut clock = ProgressClock { last: 0 };
    assert!(!progress_due(&mut clock, 249));
    assert!(progress_due(&mut clock, 250));
    assert!(!progress_due(&mut clock, 499));
    assert!(!progress_due(&mut clock, 10));
    assert!(progress_due(&mut clock, 500));
    assert_eq!(clock.last, 500);
}

#[test]
fn downloads_end() {
    assert_eq!(download_state(DownloadState::Completed), ("completed", true));
    assert_eq!(download_state(DownloadState::Interrupted), ("interrupted", true));
    assert_eq!(download_state(DownloadState::InProgress), ("inprogress", false));
    let ids = vec!["1".to_string(), "2".to_string(), "2".to_string()];
    assert_eq!(download_action(&ids, "2"), Ok(1));
    assert_eq!(download_action(&ids, "3").unwrap_err(), "download not found (already finished?)");
}
