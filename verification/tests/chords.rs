use jello::chords::{
    arm_chords, asks_for_tabs, disarm_chords, execute_quick_launch, is_kept_back, is_modifier_vk, vk_to_string,
    ChordManager, ChordStep, Disarm, KeyFate, Launch,
};
use jello::ipc_types::{QuickLaunchItem, Tab};

fn slot(id: i32, sequence: &str) -> QuickLaunchItem {
    QuickLaunchItem {
        id,
        target_url: format!("https://{}.example", id),
        title: None,
        sequence: sequence.to_string(),
        disposition: "new_tab".to_string(),
    }
}

fn armed(slots: Vec<QuickLaunchItem>) -> ChordManager {
    let mut m = ChordManager::new();
    let hud = arm_chords(&mut m, slots).unwrap();
    assert_eq!(hud.keys, "");
    m.hook_installed(true);
    m
}

const EVERYTHING: Disarm = Disarm { cancel_timer: true, unhook: true, clear_hud: true };

#[test]
fn keys_have_names() {
    assert_eq!(vk_to_string(0x1B).unwrap(), "Esc");
    assert_eq!(vk_to_string(0x30).unwrap(), "0");
    assert_eq!(vk_to_string(0x39).unwrap(), "9");
    assert_eq!(vk_to_string(0x60).unwrap(), "0");
    assert_eq!(vk_to_string(0x69).unwrap(), "9");
    assert_eq!(vk_to_string(0x41).unwrap(), "A");
    assert_eq!(vk_to_string(0x5A).unwrap(), "Z");
    assert_eq!(vk_to_string(0x20).unwrap(), "Space");
    assert_eq!(vk_to_string(0x70), None);
    assert_eq!(vk_to_string(0x3A), None);
}

#[test]
fn modifiers_are_told_apart() {
    for vk in [0x10, 0x11, 0x12, 0xA0, 0xA5, 0x5B, 0x5C, 0x14, 0x90, 0x91] {
        assert!(is_modifier_vk(vk));
    }
    for vk in [0x0F, 0x13, 0x41, 0x9F, 0xA6, 0x5A, 0x5D, 0x92] {
        assert!(!is_modifier_vk(vk));
    }
}

#[test]
fn a_sequence_begins_once() {
    let mut m = armed(vec![slot(1, "g")]);
    assert!(arm_chords(&mut m, vec![]).is_none());
    assert_eq!(m.slots.len(), 1);
    assert_eq!(disarm_chords(&mut m), EVERYTHING);
    assert!(!m.armed && !m.attached && !m.timer && !m.hook && m.slots.is_empty());
    assert_eq!(disarm_chords(&mut m), Disarm { cancel_timer: false, unhook: false, clear_hud: false });
    assert!(arm_chords(&mut m, vec![slot(2, "h")]).is_some());
}

#[test]
fn without_the_keyboard_a_sequence_can_begin_anew() {
    let mut m = ChordManager::new();
    assert!(arm_chords(&mut m, vec![slot(1, "g")]).is_some());
    m.hook_installed(false);
    assert!(!m.armed && !m.timer && m.attached);
    assert!(arm_chords(&mut m, vec![]).is_some());
}

#[test]
fn a_unique_sequence_opens_without_regard_to_case_and_spaces() {
    let mut m = armed(vec![slot(1, "g, h"), slot(2, "X")]);
    match m.handle_chord_key("G".to_string()) {
        ChordStep::Progress(hud) => {
            assert_eq!(hud.keys, "G");
            assert_eq!(hud.matching_slots.len(), 1);
        }
        _ => panic!("the sequence goes on"),
    }
    match m.handle_chord_key("H".to_string()) {
        ChordStep::Launch(s, d) => {
            assert_eq!(s.id, 1);
            assert_eq!(d, EVERYTHING);
        }
        _ => panic!("the sequence is complete"),
    }
    assert!(!m.armed);
    assert!(matches!(m.handle_chord_key("G".to_string()), ChordStep::Ignored));
}

#[test]
fn a_longer_sequence_keeps_a_shorter_one_open() {
    let mut m = armed(vec![slot(1, "g"), slot(2, "g,h")]);
    match m.handle_chord_key("G".to_string()) {
        ChordStep::Progress(hud) => assert_eq!(hud.matching_slots.len(), 2),
        _ => panic!("two sequences match"),
    }
    match m.handle_chord_key("X".to_string()) {
        ChordStep::Abandoned(d) => assert_eq!(d, EVERYTHING),
        _ => panic!("nothing matches"),
    }
}

#[test]
fn progress_shows_the_keys_with_arrows() {
    let mut m = armed(vec![slot(1, "a,b,c")]);
    m.handle_chord_key("A".to_string());
    match m.handle_chord_key("B".to_string()) {
        ChordStep::Progress(hud) => assert_eq!(hud.keys, "A \u{2794} B"),
        _ => panic!("the sequence goes on"),
    }
}

#[test]
fn letters_beyond_ascii_are_compared_in_upper_case() {
    let mut m = armed(vec![slot(1, "stra\u{df}e")]);
    match m.handle_chord_key("STRASSE".to_string()) {
        ChordStep::Launch(s, _) => assert_eq!(s.id, 1),
        _ => panic!("the sequence is complete"),
    }
}

#[test]
fn keys_of_no_sequence_go_on_to_where_they_were_meant() {
    let mut m = armed(vec![slot(1, "g"), slot(2, "g,h")]);
    let shift = m.key_down(0xA0);
    assert!(matches!(shift, KeyFate::Pass) && !is_kept_back(&shift));
    assert!(m.armed);
    let g = m.key_down(0x47);
    assert!(matches!(g, KeyFate::Chord(ChordStep::Progress(_))) && is_kept_back(&g));
    let z = m.key_down(0x5A);
    assert!(matches!(z, KeyFate::Chord(ChordStep::Abandoned(_))) && !is_kept_back(&z));

    let mut m = armed(vec![slot(1, "g")]);
    let f1 = m.key_down(0x70);
    assert!(matches!(f1, KeyFate::PassAndDisarm(EVERYTHING)) && !is_kept_back(&f1));
    let esc = m.key_down(0x1B);
    assert!(matches!(esc, KeyFate::Cancel(_)) && is_kept_back(&esc));

    let mut m = armed(vec![slot(1, "g")]);
    let launch = m.key_down(0x47);
    assert!(matches!(launch, KeyFate::Chord(ChordStep::Launch(_, EVERYTHING))) && is_kept_back(&launch));
    let after = m.key_down(0x47);
    assert!(matches!(after, KeyFate::Chord(ChordStep::Ignored)) && !is_kept_back(&after));
}

fn recorded(id: i32, window_id: i32, url: &str) -> Tab {
    Tab {
        id,
        window_id,
        url: url.to_string(),
        title: None,
        favicon_id: None,
        pinned: false,
        muted: false,
        order_key: "a".to_string(),
        scroll_y: 0,
        last_active: None,
        created_at: 0,
    }
}

fn launch(disposition: &str, tabs: Vec<Tab>, open: &[&str], focused: &[&str]) -> Launch {
    let mut item = slot(7, "g");
    item.disposition = disposition.to_string();
    let open: Vec<String> = open.iter().map(|s| s.to_string()).collect();
    let focused: Vec<String> = focused.iter().map(|s| s.to_string()).collect();
    execute_quick_launch(item, &tabs, &open, &focused, 0x1_8000_0005, 42)
}

#[test]
fn a_page_that_is_open_comes_to_the_front() {
    let tabs = vec![recorded(1, 1, "x"), recorded(2, 9, "https://7.example"), recorded(3, 1, "https://7.example")];
    match launch("focus_or_open", tabs, &["main", "main_9"], &[]) {
        Launch::Focus { tab_id, window_label } => {
            assert_eq!(tab_id, 2);
            assert_eq!(window_label, "main_9");
        }
        _ => panic!("the page is open"),
    }
    match launch("focus_or_open", vec![recorded(1, 1, "x")], &["main"], &["main_12"]) {
        Launch::Create { window_id, url } => {
            assert_eq!(window_id, 12);
            assert_eq!(url, "https://7.example");
        }
        _ => panic!("the page is not open"),
    }
}

#[test]
fn slots_open_in_tabs_and_windows() {
    assert!(matches!(launch("new_tab", vec![], &[], &["main"]), Launch::Create { window_id: 1, .. }));
    match launch("new_window", vec![], &[], &[]) {
        Launch::NewWindow { label, tab } => {
            assert_eq!(label, "main_5");
            assert_eq!((tab.id, tab.window_id, tab.created_at, tab.last_active), (0, 5, 42, Some(42)));
            assert_eq!(tab.order_key, "a");
            assert_eq!(tab.url, "https://7.example");
        }
        _ => panic!("a window is made"),
    }
    match launch("new_incognito", vec![], &[], &[]) {
        Launch::NewIncognito { window_id, label, url } => {
            assert_eq!((window_id, label.as_str(), url.as_str()), (5, "incognito_5", "https://7.example"));
        }
        _ => panic!("a window is made"),
    }
    assert!(matches!(launch("sideways", vec![], &[], &[]), Launch::Nothing));
}

#[test]
fn only_one_way_of_opening_asks_for_tabs() {
    let mut item = slot(1, "G");
    assert!(!asks_for_tabs(&item));
    item.disposition = "focus_or_open".to_string();
    assert!(asks_for_tabs(&item));
}
