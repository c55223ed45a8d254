use jello::capture::{
    bgra_to_rgba, capture_label, capture_ocr_action, crop_file, crop_picture, execute_screenshot_action,
    hides_for_capture, is_capture_window, join_ocr_lines, monitor_file, ocr_search_url, opens_page, OcrAction,
    ShotPlan,
};

#[test]
fn capture_windows_are_told_by_name() {
    assert!(is_capture_window("capture_0"));
    assert!(!is_capture_window("main"));
    assert!(hides_for_capture("main", true));
    assert!(!hides_for_capture("main", false));
    assert!(!hides_for_capture("capture_1", true));
    assert_eq!(capture_label(12), "capture_12");
}

#[test]
fn colours_are_turned_round() {
    let mut p = vec![1, 2, 3, 4, 5, 6, 7, 8, 9, 10];
    bgra_to_rgba(&mut p);
    assert_eq!(p, vec![3, 2, 1, 255, 7, 6, 5, 255, 9, 10]);
    bgra_to_rgba(&mut p);
    assert_eq!(p, vec![1, 2, 3, 255, 5, 6, 7, 255, 9, 10]);
    let mut empty: Vec<u8> = vec![];
    bgra_to_rgba(&mut empty);
    assert!(empty.is_empty());
}

#[test]
fn pictures_have_file_names() {
    assert_eq!(monitor_file(0, 1700000000123), "monitor_0_1700000000123.png");
    assert_eq!(crop_file(7), "crop_7.png");
}

/// A picture in which every byte tells its column, its row and its place in the pixel.
fn numbered_picture(width: u32, height: u32) -> Vec<u8> {
    let mut p = Vec::new();
    for row in 0..height {
        for column in 0..width {
            for c in 0..4 {
                p.push((row * 50 + column * 4 + c) as u8);
            }
        }
    }
    p
}

#[test]
fn the_chosen_part_is_cut_out() {
    let (part, w, h) = crop_picture(numbered_picture(5, 4), 5, 4, 1, 2, 3, 2);
    assert_eq!((w, h), (3, 2));
    let mut want = Vec::new();
    for row in 2..4 {
        for column in 1..4 {
            for c in 0..4 {
                want.push((row * 50 + column * 4 + c) as u8);
            }
        }
    }
    assert_eq!(part, want);
    assert_eq!(crop_picture(numbered_picture(2, 2), 2, 2, 0, 0, 2, 2), (numbered_picture(2, 2), 2, 2));
}

#[test]
fn what_lies_outside_a_picture_is_left_off() {
    let (part, w, h) = crop_picture(numbered_picture(5, 4), 5, 4, 4, 3, 10, 10);
    assert_eq!((part, w, h), (vec![166, 167, 168, 169], 1, 1));
    assert_eq!(crop_picture(numbered_picture(5, 4), 5, 4, 9, 1, 2, 2), (vec![], 0, 2));
    assert_eq!(crop_picture(numbered_picture(5, 4), 5, 4, -1, 0, 2, 2), (vec![], 0, 2));
    assert_eq!(crop_picture(numbered_picture(5, 4), 5, 4, 1, 1, 0, 2), (vec![], 0, 2));
    assert_eq!(crop_picture(numbered_picture(2, 1), 2, 1, 1, 0, -1, -1), (vec![4, 5, 6, 7], 1, 1));
    assert_eq!(crop_picture(vec![], 0, 0, 0, 0, 1, 1), (vec![], 0, 0));
}

fn joined(lines: &[&str]) -> String {
    join_ocr_lines(&lines.iter().map(|s| s.to_string()).collect())
}

#[test]
fn divided_words_are_put_together() {
    assert_eq!(joined(&[]), "");
    assert_eq!(joined(&[" one ", "two"]), "one\r\ntwo");
    assert_eq!(joined(&["exam-", "ple", "end"]), "example\r\nend");
    assert_eq!(joined(&["a-", "b-"]), "ab-");
    assert_eq!(joined(&["-", "b"]), "b");
    assert_eq!(joined(&["", "b"]), "b");
    assert_eq!(joined(&["a", "", "b"]), "a\r\n\r\nb");
}

#[test]
fn found_text_is_used() {
    assert_eq!(capture_ocr_action("copy"), Ok(OcrAction::Copy));
    assert_eq!(capture_ocr_action("search"), Ok(OcrAction::Search));
    assert_eq!(capture_ocr_action("ask_ai"), Ok(OcrAction::AskAi));
    assert_eq!(capture_ocr_action("x").unwrap_err(), "Unknown OCR action: x");
    assert_eq!(ocr_search_url("a b\u{e9}"), "https://duckduckgo.com/?q=a%20b%C3%A9");
}

fn plan(action: &str, found: Option<&str>, chat: Option<&str>) -> Result<ShotPlan, String> {
    execute_screenshot_action(
        action,
        "C:\\a b.png",
        found.map(|s| s.to_string()),
        chat.map(|s| s.to_string()),
        &vec!["incognito_31".to_string()],
        0x8000_0003,
        77,
    )
}

#[test]
fn pictures_are_used() {
    assert!(matches!(plan("copy", None, None), Ok(ShotPlan::Copy)));
    match plan("save", None, None) {
        Ok(ShotPlan::Save { file_name }) => assert_eq!(file_name, "jello_77.png"),
        _ => panic!("the picture is kept"),
    }
    match plan("search", None, None) {
        Ok(ShotPlan::Search { window_id, url }) => {
            assert_eq!((window_id, url.as_str()), (31, "https://lens.google.com/upload"));
        }
        _ => panic!("a search is opened"),
    }
    match plan("pin", None, None) {
        Ok(ShotPlan::Pin { label, url }) => {
            assert_eq!((label.as_str(), url.as_str()), ("pin_3", "index.html?pin_image=C%3A%5Ca%20b.png"));
        }
        _ => panic!("a window is made"),
    }
    assert_eq!(plan("x", None, None).err().unwrap(), "Unknown screenshot action: x");
    assert!(opens_page("search") && opens_page("ask_ai"));
    assert!(!opens_page("copy") && !opens_page("save") && !opens_page("pin") && !opens_page("x"));
}

#[test]
fn the_chatbot_is_asked() {
    match plan("ask_ai", Some("why?"), None) {
        Ok(ShotPlan::AskText { window_id, url, copy_text }) => {
            assert_eq!((window_id, url.as_str()), (31, "https://chatgpt.com/?q=why%3F"));
            assert_eq!(copy_text, None);
        }
        _ => panic!("the text is asked"),
    }
    match plan("ask_ai", Some("why?"), Some("https://bot/")) {
        Ok(ShotPlan::AskText { url, copy_text, .. }) => {
            assert_eq!(url, "https://bot/");
            assert_eq!(copy_text.unwrap(), "why?");
        }
        _ => panic!("the text is asked"),
    }
    match plan("ask_ai", None, None) {
        Ok(ShotPlan::AskImage { window_id, url }) => {
            assert_eq!((window_id, url.as_str()), (31, "https://chatgpt.com/"));
        }
        _ => panic!("the picture is asked"),
    }
}
