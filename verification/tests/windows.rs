use jello::windows::{
    focused_window_id, force_show_main, incognito_label, label_number, main_hwnd, main_label,
    set_main_hwnd, window_label, window_number, window_url, MainWindow, ShowSteps,
};

fn open(list: &[&str]) -> Vec<String> {
    list.iter().map(|s| s.to_string()).collect()
}

#[test]
fn windows_have_names() {
    assert_eq!(main_label(5), "main_5");
    assert_eq!(main_label(i32::MIN), "main_-2147483648");
    assert_eq!(incognito_label(0), "incognito_0");
    assert_eq!(window_label(1, &vec![]), "main");
    assert_eq!(window_label(5, &open(&["main_5"])), "main_5");
    assert_eq!(window_label(5, &open(&["main_55"])), "incognito_5");
}

#[test]
fn numbers_come_from_the_clock() {
    assert_eq!(window_number(0), 0);
    assert_eq!(window_number(0x7FFF_FFFF), i32::MAX);
    assert_eq!(window_number(0x8000_0000), 0);
    assert_eq!(window_number(u128::MAX), i32::MAX);
}

#[test]
fn numbers_are_read_back_from_names() {
    assert_eq!(label_number("main"), Some(1));
    for id in [0, 7, -7, i32::MIN, i32::MAX] {
        assert_eq!(label_number(&main_label(id)), Some(id));
        assert_eq!(label_number(&incognito_label(id)), Some(id));
    }
    assert_eq!(label_number("a_b_+12"), Some(12));
    assert_eq!(label_number("palette"), None);
    assert_eq!(label_number("main_"), None);
    assert_eq!(label_number("main_2147483648"), None);
    assert_eq!(label_number("ext_abcdefgh"), None);
}

#[test]
fn the_window_with_the_keyboard_is_found() {
    assert_eq!(focused_window_id(&vec![]), 1);
    assert_eq!(focused_window_id(&open(&["palette", "incognito_9", "main"])), 9);
    assert_eq!(focused_window_id(&open(&["palette"])), 1);
}

#[test]
fn the_first_window_is_remembered() {
    let mut w = MainWindow { hwnd: 0 };
    assert_eq!(main_hwnd(&w), None);
    set_main_hwnd(&mut w, 77);
    assert_eq!(main_hwnd(&w), Some(77));
    assert_eq!(force_show_main(true, true), ShowSteps { restore: true, show: false });
    assert_eq!(force_show_main(false, false), ShowSteps { restore: false, show: true });
}

#[test]
fn windows_open_at_an_address() {
    assert_eq!(window_url(12, "https://a/?b"), "index.html?window_id=12&initial_url=https%3A%2F%2Fa%2F%3Fb");
}
