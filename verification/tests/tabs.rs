use jello::db::tabs_repo::{pop_closed_tab, push_closed_tab};
use jello::incognito::{get_incognito_tab, list_incognito_tabs, reorder_incognito_tab, IncognitoStore};
use jello::ipc_types::Tab;
use jello::tabs::{
    after_close, close_incognito, create_incognito, duplicate_incognito, first_tab, fresh_tab,
    key_for_copy, key_for_new_tab, reopen_incognito, reopened_row, tab_request, tabs_create_impl,
    tabs_duplicate, tabs_reorder, with_last_active, with_snapshot, AfterClose,
};

fn row(id: i32, order_key: &str) -> Tab {
    Tab {
        id,
        window_id: 1,
        url: format!("https://{id}"),
        title: Some("T".to_string()),
        favicon_id: Some(3),
        pinned: true,
        muted: true,
        order_key: order_key.to_string(),
        scroll_y: 5,
        last_active: Some(6),
        created_at: 7,
    }
}

fn three() -> Vec<Tab> {
    vec![row(1, "b"), row(2, "d"), row(3, "n")]
}

#[test]
fn new_tabs_go_to_the_end() {
    assert_eq!(key_for_new_tab(&vec![]), "m");
    let key = key_for_new_tab(&three());
    assert!(key.as_str() > "n");
    let t = tabs_create_impl(tab_request(Some("https://x".to_string()), None, Some(4)), &three(), 99);
    assert_eq!((t.id, t.window_id, t.created_at, t.last_active), (0, 4, 99, None));
    assert_eq!((t.url.as_str(), t.order_key == key, t.title), ("https://x", true, None));
    assert!(!t.pinned && !t.muted && t.favicon_id.is_none() && t.scroll_y == 0);
}

#[test]
fn requests_have_defaults() {
    let r = tab_request(None, None, None);
    assert_eq!((r.window_id, r.url.as_str(), r.background), (1, "about:blank", false));
    assert!(tab_request(None, Some(true), None).background);
}

#[test]
fn windows_begin_with_a_tab() {
    let t = first_tab(8, "u".to_string(), 5);
    assert_eq!((t.window_id, t.order_key.as_str(), t.last_active, t.created_at), (8, "a", Some(5), 5));
    let t = fresh_tab(2, "u".to_string(), "k".to_string(), None, 6);
    assert_eq!((t.id, t.window_id, t.order_key.as_str(), t.last_active, t.created_at), (0, 2, "k", None, 6));
}

#[test]
fn tabs_move_between_others() {
    let key = tabs_reorder(&three(), 1, Some(3)).unwrap();
    assert!("d" < key.as_str() && key.as_str() < "n");
    let key = tabs_reorder(&three(), 3, Some(1)).unwrap();
    assert!(key.as_str() < "b");
    let key = tabs_reorder(&three(), 1, None).unwrap();
    assert!(key.as_str() > "n");
    let key = tabs_reorder(&three(), 3, Some(2)).unwrap();
    assert!("b" < key.as_str() && key.as_str() < "d");
    assert_eq!(tabs_reorder(&three(), 1, Some(1)).unwrap_err(), "before_id tab not found in window");
    assert_eq!(tabs_reorder(&three(), 1, Some(9)).unwrap_err(), "before_id tab not found in window");
}

#[test]
fn copies_stand_behind_their_source() {
    let tabs = three();
    let key = key_for_copy(&tabs, &tabs[0]);
    assert!("b" < key.as_str() && key.as_str() < "d");
    assert!(key_for_copy(&tabs, &tabs[2]).as_str() > "n");
    let t = tabs_duplicate(&tabs[1], &tabs, 50);
    assert_eq!((t.id, t.window_id, t.url.as_str()), (0, 1, "https://2"));
    assert_eq!((t.pinned, t.muted, t.scroll_y, t.favicon_id), (false, true, 5, Some(3)));
    assert_eq!((t.last_active, t.created_at), (None, 50));
    assert!("d" < t.order_key.as_str() && t.order_key.as_str() < "n");
}

#[test]
fn another_tab_follows_a_closed_one() {
    assert_eq!(after_close(false, 1, &three()), AfterClose::Nothing);
    assert_eq!(after_close(true, 0, &three()), AfterClose::Nothing);
    assert_eq!(after_close(true, 1, &three()), AfterClose::Activate(3));
    assert_eq!(after_close(true, 1, &vec![]), AfterClose::ShowStartPage);
}

#[test]
fn closed_tabs_are_put_on_record_again() {
    let t = reopened_row(row(9, "k"));
    assert_eq!((t.id, t.last_active, t.order_key.as_str(), t.pinned), (0, None, "k", true));
}

#[test]
fn tabs_without_traces_come_and_go() {
    let mut store = IncognitoStore::new();
    let ask = |url: &str| tab_request(Some(url.to_string()), None, Some(40));
    let a = create_incognito(&mut store, ask("https://a"), 1);
    let b = create_incognito(&mut store, ask("https://b"), 2);
    assert_eq!((a.id, b.id), (-1, -2));
    assert!(a.order_key < b.order_key);

    let copy = duplicate_incognito(&mut store, &a, 3);
    assert_eq!((copy.id, copy.url.as_str(), copy.created_at), (-3, "https://a", 3));
    let order: Vec<i32> = list_incognito_tabs(&store, 40).iter().map(|t| t.id).collect();
    assert_eq!(order, vec![-1, -3, -2]);

    close_incognito(&mut store, -1);
    assert!(get_incognito_tab(&store, -1).is_none());
    let back = reopen_incognito(&mut store, 40, 9).unwrap();
    assert_eq!((back.id, back.url.as_str()), (-4, "https://a"));
    assert_eq!(back.order_key, a.order_key);
    assert_eq!(list_incognito_tabs(&store, 40)[0].id, -4);
    assert!(reopen_incognito(&mut store, 40, 10).is_none());
    close_incognito(&mut store, -99);
    assert_eq!(list_incognito_tabs(&store, 40).len(), 3);
}

#[test]
fn pages_leave_a_record() {
    let t = with_snapshot(row(1, "a"), "https://n".to_string(), "N".to_string(), 77);
    assert_eq!((t.url.as_str(), t.title.as_deref(), t.scroll_y, t.id), ("https://n", Some("N"), 77, 1));
    assert_eq!(with_last_active(row(1, "a"), 88).last_active, Some(88));
}

#[test]
fn a_copy_is_listed_behind_its_source() {
    let rows = three();
    for (source, after) in [(0, vec![1, 0, 2, 3]), (1, vec![1, 2, 0, 3]), (2, vec![1, 2, 3, 0])] {
        let mut all = three();
        all.push(tabs_duplicate(&rows[source], &rows, 50));
        all.sort_by(|a, b| a.order_key.cmp(&b.order_key));
        assert_eq!(all.iter().map(|t| t.id).collect::<Vec<i32>>(), after);
    }
}

#[test]
fn a_tab_without_traces_is_listed_where_it_was_moved() {
    let mut store = IncognitoStore::new();
    for url in ["a", "b", "c", "d"] {
        create_incognito(&mut store, tab_request(Some(url.to_string()), None, Some(40)), 1);
    }
    let key = tabs_reorder(&list_incognito_tabs(&store, 40), -4, Some(-2)).unwrap();
    reorder_incognito_tab(&mut store, -4, key);
    let listed: Vec<i32> = list_incognito_tabs(&store, 40).iter().map(|t| t.id).collect();
    assert_eq!(listed, vec![-1, -4, -2, -3]);
}

#[test]
fn a_stored_tab_comes_back_as_it_was_closed() {
    let mut rows: Vec<(i32, Tab)> = vec![(4, row(90, "x")), (7, row(91, "y"))];
    rows.push((8, row(9, "k")));
    let ids: Vec<i32> = rows.iter().map(|r| r.0).collect();
    assert!(push_closed_tab(&ids).is_empty());
    let id = pop_closed_tab(&ids).unwrap();
    let at = rows.iter().position(|r| r.0 == id).unwrap();
    let t = reopened_row(rows.remove(at).1);
    assert_eq!((t.id, t.window_id, t.url.as_str(), t.title.as_deref()), (0, 1, "https://9", Some("T")));
    assert_eq!((t.favicon_id, t.pinned, t.muted, t.order_key.as_str()), (Some(3), true, true, "k"));
    assert_eq!((t.scroll_y, t.last_active, t.created_at), (5, None, 7));
    assert_eq!(rows.iter().map(|r| r.0).collect::<Vec<i32>>(), vec![4, 7]);
}
