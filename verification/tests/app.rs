use jello::app::{
    close_requested, dropped_extension, incognito_window_closed, is_powertoys_run_active, nav_to,
    overlay_region, process_startup_arg, should_show_on_startup, startup_argument, tray_action,
    window_controls, ControlStep, HitRect, OverlayRegion, StartupArgState, TrayAction,
};
use jello::search::SearchEngine;

fn words(list: &[&str]) -> Vec<String> {
    list.iter().map(|s| s.to_string()).collect()
}

#[test]
fn the_command_line_is_read() {
    assert_eq!(startup_argument(&words(&["jello"])), None);
    assert_eq!(startup_argument(&words(&["jello", "--minimized"])), None);
    assert_eq!(startup_argument(&words(&["jello", "https://x", "y"])).unwrap(), "https://x");
    let mut state = StartupArgState(Some("x".to_string()));
    assert_eq!(process_startup_arg(&mut state).unwrap(), "x");
    assert_eq!(process_startup_arg(&mut state), None);
}

#[test]
fn the_window_may_start_hidden() {
    let on = Some("true".to_string());
    assert!(should_show_on_startup(&words(&["jello"]), &None));
    assert!(should_show_on_startup(&words(&["jello"]), &Some("false".to_string())));
    assert!(!should_show_on_startup(&words(&["jello"]), &on));
    assert!(!should_show_on_startup(&words(&["jello", "x", "--minimized"]), &None));
}

#[test]
fn a_rival_for_the_keys_is_noticed() {
    assert!(is_powertoys_run_active(&Some("a.exe\nPowerToys.Run.exe 12\n".to_string())));
    assert!(!is_powertoys_run_active(&Some("a.exe".to_string())));
    assert!(!is_powertoys_run_active(&None));
}

#[test]
fn buttons_of_the_window_work() {
    let off = Some("false".to_string());
    assert_eq!(window_controls("min", "main", false, &None), Ok(ControlStep::Minimize));
    assert_eq!(window_controls("max", "main", false, &None), Ok(ControlStep::Maximize));
    assert_eq!(window_controls("max", "main", true, &None), Ok(ControlStep::Unmaximize));
    assert_eq!(window_controls("close", "main", true, &None), Ok(ControlStep::HideToTray));
    assert_eq!(window_controls("close", "main", true, &off), Ok(ControlStep::Quit));
    assert_eq!(window_controls("close", "main_2", true, &off), Ok(ControlStep::Close));
    assert_eq!(window_controls("x", "main", true, &None).unwrap_err(), "Unknown window action: x");
    assert_eq!(close_requested("main", &Some("yes".to_string())), ControlStep::HideToTray);
    assert_eq!(close_requested("incognito_2", &None), ControlStep::Close);
}

#[test]
fn windows_without_traces_are_known_by_name() {
    assert_eq!(incognito_window_closed("incognito_77"), Some(77));
    assert_eq!(incognito_window_closed("incognito_x"), None);
    assert_eq!(incognito_window_closed("main_77"), None);
}

#[test]
fn dropped_files_are_chosen_by_ending() {
    let s = |t: &str| Some(t.to_string());
    assert_eq!(dropped_extension(&vec![s("txt"), None, s("CRX"), s("zip")]), Some(2));
    assert_eq!(dropped_extension(&vec![s("Zip")]), Some(0));
    assert_eq!(dropped_extension(&vec![s("zipx"), None]), None);
}

#[test]
fn the_layer_takes_clicks_where_it_should() {
    let rects = vec![
        HitRect { x: 1, y: 2, width: 3, height: 4 },
        HitRect { x: 0, y: 0, width: 0, height: 9 },
        HitRect { x: i32::MAX, y: -5, width: i32::MAX, height: 5 },
        HitRect { x: 0, y: 0, width: 9, height: -1 },
    ];
    assert!(matches!(overlay_region(true, true, &rects), OverlayRegion::Everywhere));
    assert!(matches!(overlay_region(false, false, &rects), OverlayRegion::Everywhere));
    match overlay_region(false, true, &rects) {
        OverlayRegion::Parts(parts) => {
            assert_eq!(parts, vec![(1, 2, 4, 6), (i32::MAX, -5, 2 * (i32::MAX as i64), 0)]);
        }
        _ => panic!("the page is below"),
    }
}

#[test]
fn lines_lead_somewhere() {
    let engines =
        vec![SearchEngine { name: "G".to_string(), keyword: "g".to_string(), url_template: "https://g/%s".to_string() }];
    let plan = nav_to("example.com", Some(0), &engines, None);
    assert_eq!((plan.url.as_str(), plan.tab_id), ("https://example.com", None));
    let plan = nav_to("g x", Some(-4), &engines, None);
    assert_eq!((plan.url.as_str(), plan.tab_id), ("https://g/x", Some(-4)));
    assert_eq!(nav_to("x", None, &engines, None).tab_id, None);
}

#[test]
fn the_tray_has_a_menu() {
    let expected = [
        ("summon", TrayAction::Summon),
        ("palette", TrayAction::Palette),
        ("new_tab", TrayAction::NewTab),
        ("screenshot", TrayAction::Screenshot),
        ("ocr", TrayAction::Ocr),
        ("quit", TrayAction::Quit),
        ("other", TrayAction::Nothing),
    ];
    for (name, action) in expected {
        assert_eq!(tray_action(name), action);
    }
}
