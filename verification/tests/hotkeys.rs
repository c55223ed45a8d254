use jello::hotkeys::{
    ai_chat_url, combos, default_hotkeys, get_hotkeys_sync, hotkey_pressed, hotkey_rebind,
    registration_message, summon_hides, HotkeyAction, HotkeyItem, Press, Registration,
};
use jello::ipc_types::QuickLaunchItem;

fn bound(action: &str, shortcut: &str) -> HotkeyItem {
    HotkeyItem { action: action.to_string(), shortcut: shortcut.to_string() }
}

fn launcher(id: i32, sequence: &str) -> QuickLaunchItem {
    QuickLaunchItem {
        id,
        target_url: "https://x".to_string(),
        title: None,
        sequence: sequence.to_string(),
        disposition: "new_tab".to_string(),
    }
}

fn pairs(list: &[HotkeyItem]) -> Vec<(&str, &str)> {
    list.iter().map(|h| (h.action.as_str(), h.shortcut.as_str())).collect()
}

#[test]
fn every_action_comes_with_keys() {
    assert_eq!(
        pairs(&default_hotkeys()),
        vec![
            ("summon", "Ctrl+Shift+Space"),
            ("palette", "Ctrl+Alt+Space"),
            ("screenshot", "Ctrl+Alt+S"),
            ("ocr", "Ctrl+Alt+T"),
            ("incognito", "Ctrl+Alt+N"),
            ("addressbar", "Ctrl+Alt+L"),
            ("aichat", "Ctrl+Alt+A"),
            ("leader", "Ctrl+Space"),
        ]
    );
    assert_eq!(pairs(&get_hotkeys_sync(None)), pairs(&default_hotkeys()));
}

#[test]
fn saved_keys_lie_over_the_given_ones() {
    let saved = vec![bound("ocr", "Ctrl+1"), bound("palette", "  "), bound("extra", "Ctrl+2"), bound("ocr", "Ctrl+3")];
    let list = get_hotkeys_sync(Some(saved));
    let list = pairs(&list);
    assert_eq!(list.len(), 9);
    assert_eq!(list[3], ("ocr", "Ctrl+3"));
    assert_eq!(list[1], ("palette", "Ctrl+Alt+Space"));
    assert_eq!(list[8], ("extra", "Ctrl+2"));
}

#[test]
fn actions_are_bound_anew() {
    let slots = vec![launcher(1, "Ctrl+Alt+G"), launcher(2, "g,h")];
    let bind = |action: &str, keys: &str, valid: bool| {
        hotkey_rebind(action.to_string(), keys.to_string(), valid, default_hotkeys(), &slots)
    };
    assert_eq!(bind("ocr", "Nope", false).err().unwrap(), "'Nope' is not a valid shortcut");
    assert_eq!(bind("ocr", "ctrl+alt+s", true).err().unwrap(), "combo 'ctrl+alt+s' is already in use");
    assert_eq!(
        bind("ocr", "ctrl+alt+g", true).err().unwrap(),
        "combo 'ctrl+alt+g' is already in use by a quick-launch slot"
    );
    assert_eq!(bind("ocr", "Ctrl+Alt+T", true).unwrap()[3].shortcut, "Ctrl+Alt+T");
    assert_eq!(bind("ocr", "Ctrl+9", true).unwrap()[3].shortcut, "Ctrl+9");
    let more = bind("new", "Ctrl+9", true).unwrap();
    assert_eq!((more.len(), more[8].action.as_str()), (9, "new"));
    assert!(bind("ocr", "g,h", true).is_ok());
}

#[test]
fn combinations_are_registered() {
    let hotkeys = vec![bound("a", "Ctrl+A"), bound("b", "Ctrl+B")];
    let slots = vec![launcher(1, "Ctrl+G"), launcher(2, "g,h")];
    assert_eq!(combos(&hotkeys, &slots), vec!["Ctrl+A", "Ctrl+B", "Ctrl+G"]);

    let r = |s: &str, x: Registration| (s.to_string(), x);
    let fine = vec![r("Ctrl+A", Registration::Registered), r("Ctrl+G", Registration::Invalid)];
    assert_eq!(registration_message(&fine, 1), None);
    let bad = vec![
        r("Ctrl+A", Registration::Refused),
        r("Ctrl+B", Registration::Invalid),
        r("Ctrl+G", Registration::Refused),
        r("Ctrl+H", Registration::Invalid),
    ];
    assert_eq!(
        registration_message(&bad, 2).unwrap(),
        "Hotkey Ctrl+A, Ctrl+B, Ctrl+G couldn't be registered (in use by another app)"
    );
}

#[test]
fn presses_find_their_action() {
    let mut hotkeys = default_hotkeys();
    hotkeys.push(bound("strange", "Ctrl+9"));
    let slots = vec![launcher(1, "g,h"), launcher(2, "Ctrl+G")];
    let press = |at: Option<usize>, slot: Option<usize>| {
        let mut hits = vec![false; 9];
        let mut slot_hits = vec![false; 2];
        if let Some(i) = at {
            hits[i] = true;
        }
        if let Some(i) = slot {
            slot_hits[i] = true;
        }
        hotkey_pressed(&hotkeys, &hits, &slots, &slot_hits)
    };
    let actions = [
        HotkeyAction::Summon,
        HotkeyAction::Palette,
        HotkeyAction::Screenshot,
        HotkeyAction::Ocr,
        HotkeyAction::Incognito,
        HotkeyAction::AddressBar,
        HotkeyAction::AiChat,
        HotkeyAction::Leader,
        HotkeyAction::Unknown,
    ];
    for i in 0..9 {
        match press(Some(i), Some(1)) {
            Press::Action(a) => assert_eq!(a, actions[i]),
            _ => panic!("an action"),
        }
    }
    match press(None, Some(1)) {
        Press::Launch(s) => assert_eq!(s.id, 2),
        _ => panic!("a slot"),
    }
    assert!(matches!(press(None, Some(0)), Press::Nothing));
    assert!(matches!(press(None, None), Press::Nothing));
}

#[test]
fn the_window_goes_away_only_from_the_front() {
    assert!(summon_hides(true, true));
    assert!(!summon_hides(true, false) && !summon_hides(false, true));
}

#[test]
fn the_chatbot_has_an_address() {
    assert_eq!(ai_chat_url(None), "https://chatgpt.com/");
    assert_eq!(ai_chat_url(Some("ftp://x".to_string())), "https://chatgpt.com/");
    assert_eq!(ai_chat_url(Some("https://bot/?q=%s&r=%s".to_string())), "https://bot/?q=&r=");
}
