use jello::incognito::{
    add_incognito_tab, create_incognito_tab, delete_incognito_tab, get_incognito_tab,
    is_incognito_window, is_off_record, is_private, list_incognito_tabs, pop_closed_incognito, push_closed_incognito,
    register_incognito_window, reorder_incognito_tab, unregister_incognito_window,
    update_incognito_tab, update_incognito_tab_last_active, IncognitoStore,
};
use jello::ipc_types::Tab;

fn ids_of(tabs: &[Tab]) -> Vec<i32> {
    tabs.iter().map(|t| t.id).collect()
}

#[test]
fn numbers_go_down_and_are_never_shared() {
    let mut store = IncognitoStore::new();
    let a = create_incognito_tab(&mut store, 7, "u".to_string(), "b".to_string(), 1);
    let b = create_incognito_tab(&mut store, 8, "u".to_string(), "a".to_string(), 2);
    assert_eq!((a.id, b.id), (-1, -2));
    delete_incognito_tab(&mut store, a.id);
    add_incognito_tab(&mut store, 7, "v".to_string(), 3);
    assert_eq!(ids_of(&store.tabs), vec![-2, -3]);
    assert_eq!(store.tabs[1].order_key, "a");
    assert_eq!(store.tabs[1].last_active, Some(3));
    assert_eq!(store.tabs[1].created_at, 3);
}

#[test]
fn numbers_tell_what_is_kept_from_the_record() {
    assert!(is_private(-1) && is_private(i32::MIN));
    assert!(!is_private(0) && !is_private(7));
    assert!(is_off_record(-1, false) && is_off_record(-1, true) && is_off_record(7, true));
    assert!(!is_off_record(7, false));
    let mut store = IncognitoStore::new();
    let t = create_incognito_tab(&mut store, 1, "u".to_string(), "a".to_string(), 0);
    assert!(is_private(t.id));
}

#[test]
fn listing_is_by_key_and_stable() {
    let mut store = IncognitoStore::new();
    for key in ["m", "b", "m", "a"] {
        create_incognito_tab(&mut store, 1, "u".to_string(), key.to_string(), 0);
    }
    create_incognito_tab(&mut store, 2, "u".to_string(), "0".to_string(), 0);
    assert_eq!(ids_of(&list_incognito_tabs(&store, 1)), vec![-4, -2, -1, -3]);
    reorder_incognito_tab(&mut store, -1, "aa".to_string());
    assert_eq!(ids_of(&list_incognito_tabs(&store, 1)), vec![-4, -1, -2, -3]);
}

#[test]
fn a_forgotten_window_leaves_nothing() {
    let mut store = IncognitoStore::new();
    create_incognito_tab(&mut store, 1, "u".to_string(), "a".to_string(), 0);
    create_incognito_tab(&mut store, 2, "v".to_string(), "a".to_string(), 0);
    assert!(is_incognito_window(&store, 1));
    unregister_incognito_window(&mut store, 1);
    assert!(!is_incognito_window(&store, 1));
    assert!(is_incognito_window(&store, 2));
    assert!(list_incognito_tabs(&store, 1).is_empty());
    assert_eq!(store.tabs.len(), 1);
    register_incognito_window(&mut store, 9);
    assert!(is_incognito_window(&store, 9));
}

#[test]
fn updating_keeps_what_is_not_given() {
    let mut store = IncognitoStore::new();
    let t = create_incognito_tab(&mut store, 1, "u".to_string(), "a".to_string(), 0);
    update_incognito_tab(&mut store, t.id, "v".to_string(), Some("T".to_string()), 5);
    update_incognito_tab(&mut store, t.id, "w".to_string(), None, 6);
    update_incognito_tab_last_active(&mut store, t.id, 77);
    let now = get_incognito_tab(&store, t.id).unwrap();
    assert_eq!((now.url.as_str(), now.title.as_deref(), now.scroll_y, now.last_active), ("w", Some("T"), 6, Some(77)));
    update_incognito_tab(&mut store, 5, "x".to_string(), None, 0);
    assert!(get_incognito_tab(&store, 5).is_none());
}

fn closed_tab(window_id: i32, n: i32) -> Tab {
    Tab {
        id: n,
        window_id,
        url: format!("https://n/{}", n),
        title: Some("Reopen".to_string()),
        favicon_id: None,
        pinned: true,
        muted: false,
        order_key: "a5".to_string(),
        scroll_y: 12.0f64.to_bits(),
        last_active: Some(111),
        created_at: 222,
    }
}

#[test]
fn closed_tabs_come_back_latest_first() {
    let mut store = IncognitoStore::new();
    assert!(pop_closed_incognito(&mut store, 1).is_none());
    push_closed_incognito(&mut store, closed_tab(1, 1));
    push_closed_incognito(&mut store, closed_tab(2, 2));
    push_closed_incognito(&mut store, closed_tab(1, 3));
    assert_eq!(pop_closed_incognito(&mut store, 1).unwrap().id, 3);
    assert_eq!(pop_closed_incognito(&mut store, 1).unwrap().id, 1);
    assert!(pop_closed_incognito(&mut store, 1).is_none());
    assert_eq!(pop_closed_incognito(&mut store, 2).unwrap().url, "https://n/2");
}

#[test]
fn no_more_than_twenty_five_closed_tabs_of_a_window_are_kept() {
    let mut store = IncognitoStore::new();
    push_closed_incognito(&mut store, closed_tab(2, 99));
    for n in 0..30 {
        push_closed_incognito(&mut store, closed_tab(1, n));
    }
    let of_one: Vec<i32> = store.closed.iter().filter(|t| t.window_id == 1).map(|t| t.id).collect();
    assert_eq!(of_one, (5..30).collect::<Vec<i32>>());
    assert_eq!(store.closed[0].id, 99);
}

#[test]
fn closed_tabs_come_back_in_the_opposite_turn() {
    let mut store = IncognitoStore::new();
    push_closed_incognito(&mut store, closed_tab(2, 99));
    for n in 0..30 {
        push_closed_incognito(&mut store, closed_tab(1, n));
    }
    for n in (5..30).rev() {
        let back = pop_closed_incognito(&mut store, 1).unwrap();
        assert_eq!((back.id, back.url), (n, format!("https://n/{}", n)));
        assert_eq!((back.title.as_deref(), back.pinned, back.order_key.as_str()), (Some("Reopen"), true, "a5"));
        assert_eq!((back.scroll_y, back.last_active, back.created_at), (12.0f64.to_bits(), Some(111), 222));
    }
    assert!(pop_closed_incognito(&mut store, 1).is_none());
    assert_eq!(pop_closed_incognito(&mut store, 2).unwrap().id, 99);
}

#[test]
fn a_moved_tab_stands_between_its_new_neighbours() {
    let mut store = IncognitoStore::new();
    for key in ["b", "d", "f", "h"] {
        create_incognito_tab(&mut store, 1, "u".to_string(), key.to_string(), 0);
    }
    create_incognito_tab(&mut store, 2, "v".to_string(), "c".to_string(), 0);
    reorder_incognito_tab(&mut store, -1, "g".to_string());
    assert_eq!(ids_of(&list_incognito_tabs(&store, 1)), vec![-2, -3, -1, -4]);
    reorder_incognito_tab(&mut store, -4, "a".to_string());
    assert_eq!(ids_of(&list_incognito_tabs(&store, 1)), vec![-4, -2, -3, -1]);
    let keys: Vec<String> = list_incognito_tabs(&store, 1).into_iter().map(|t| t.order_key).collect();
    assert_eq!(keys, vec!["a", "d", "f", "g"]);
    assert_eq!(ids_of(&list_incognito_tabs(&store, 2)), vec![-5]);
}
