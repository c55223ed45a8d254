use jello::db::bookmarks::{bookmarks_list, next_position, BookmarkDbEntry};
use jello::db::history::{
    add_history_entry, frecency_of, get_top_history_by_frecency, history_delete, record_visit,
    search_history, Deletion, HistoryDbEntry, Visits,
};
use jello::db::migrations::run_migrations;
use jello::db::quick_launch::{set_quick_launch, Storing};
use jello::db::tabs_repo::{pop_closed_tab, push_closed_tab, rows_to_drop};
use jello::incognito::{
    clear_all_incognito_tabs, create_incognito_tab, delete_incognito_tab, get_incognito_tab,
    list_incognito_tabs, set_incognito_muted, set_incognito_pinned, update_incognito_tab,
    IncognitoStore,
};
use jello::ipc_types::QuickLaunchItem;
use rusqlite::Connection;

fn migrated_connection() -> Connection {
    let mut conn = Connection::open_in_memory().unwrap();
    let current: i32 = conn.query_row("PRAGMA user_version", [], |row| row.get(0)).unwrap();
    for step in run_migrations(current) {
        let tx = conn.transaction().unwrap();
        tx.execute_batch(step.sql).unwrap();
        tx.pragma_update(None, "user_version", step.version).unwrap();
        tx.commit().unwrap();
    }
    conn
}

fn store_visit(conn: &Connection, url: &str, title: Option<&str>, typed: bool, now: i64) {
    let before = conn
        .query_row(
            "SELECT title, visit_count, last_visit, typed_count FROM history WHERE url = ?1",
            [url],
            |r| {
                Ok(Visits {
                    title: r.get(0)?,
                    visit_count: r.get(1)?,
                    last_visit: r.get(2)?,
                    typed_count: r.get(3)?,
                })
            },
        )
        .ok();
    let is_new = before.is_none();
    let after = record_visit(before, title.map(|t| t.to_string()), typed, now);
    let sql = if is_new {
        "INSERT INTO history (url, title, visit_count, last_visit, typed_count) VALUES (?1, ?2, ?3, ?4, ?5)"
    } else {
        "UPDATE history SET title = ?2, visit_count = ?3, last_visit = ?4, typed_count = ?5 WHERE url = ?1"
    };
    conn.execute(sql, (url, after.title, after.visit_count, after.last_visit, after.typed_count)).unwrap();
}

#[test]
fn test_db_migrations_and_queries() {
    let conn = migrated_connection();

    conn.execute(
        "INSERT INTO settings (key, value_json) VALUES (?1, ?2)",
        ("theme", "\"dark\""),
    )
    .unwrap();

    let val: String = conn
        .query_row(
            "SELECT value_json FROM settings WHERE key = ?1",
            ["theme"],
            |row| row.get(0),
        )
        .unwrap();
    assert_eq!(val, "\"dark\"");

    conn.execute(
        "INSERT INTO history (url, title, last_visit) VALUES (?1, ?2, ?3)",
        ("https://example.com", "Example Domain", 1600000000i64),
    )
    .unwrap();

    let history_count: i32 = conn
        .query_row("SELECT COUNT(*) FROM history", [], |row| row.get(0))
        .unwrap();
    assert_eq!(history_count, 1);
}

#[test]
fn test_history_record_visit() {
    let conn = migrated_connection();

    store_visit(&conn, "https://a.test/", Some("A"), false, 1);
    store_visit(&conn, "https://a.test/", Some("A2"), true, 2);

    let (vc, tc, title): (i32, i32, String) = conn
        .query_row(
            "SELECT visit_count, typed_count, title FROM history WHERE url = 'https://a.test/'",
            [],
            |r| Ok((r.get(0)?, r.get(1)?, r.get(2)?)),
        )
        .unwrap();
    assert_eq!(vc, 2);
    assert_eq!(tc, 1);
    assert_eq!(title, "A2");

    let hits: i32 = conn
        .query_row("SELECT COUNT(*) FROM history_fts WHERE history_fts MATCH 'test'", [], |r| r.get(0))
        .unwrap();
    assert!(hits >= 1);
}

fn closed_ids(conn: &Connection, window_id: i32) -> Vec<i32> {
    let mut stmt = conn.prepare("SELECT id FROM closed_tabs WHERE window_id = ?1 ORDER BY id").unwrap();
    let rows = stmt.query_map([window_id], |r| r.get(0)).unwrap();
    rows.map(|r| r.unwrap()).collect()
}

fn store_closed(conn: &Connection, window_id: i32, url: &str, order_key: &str, pinned: bool) {
    let tab_json = serde_json::to_string(&(url, order_key, pinned)).unwrap();
    conn.execute(
        "INSERT INTO closed_tabs (window_id, tab_json, closed_at) VALUES (?1, ?2, ?3)",
        (window_id, tab_json, 0),
    )
    .unwrap();
    for id in push_closed_tab(&closed_ids(conn, window_id)) {
        conn.execute("DELETE FROM closed_tabs WHERE id = ?1", [id]).unwrap();
    }
}

fn take_closed(conn: &Connection, window_id: i32) -> Option<(String, String, bool)> {
    let id = pop_closed_tab(&closed_ids(conn, window_id))?;
    let tab_json: String =
        conn.query_row("SELECT tab_json FROM closed_tabs WHERE id = ?1", [id], |r| r.get(0)).unwrap();
    conn.execute("DELETE FROM closed_tabs WHERE id = ?1", [id]).unwrap();
    serde_json::from_str(&tab_json).ok()
}

#[test]
fn test_closed_tab_undo_roundtrip() {
    let conn = migrated_connection();

    assert!(take_closed(&conn, 1).is_none());

    store_closed(&conn, 1, "https://reopen.test/path", "a5", true);
    let (url, order_key, pinned) = take_closed(&conn, 1).unwrap();
    assert_eq!(url, "https://reopen.test/path");
    assert_eq!(order_key, "a5");
    assert!(pinned);

    assert!(take_closed(&conn, 1).is_none());

    for i in 0..30 {
        store_closed(&conn, 1, &format!("https://n/{}", i), "a5", true);
    }
    let count: i32 = conn
        .query_row("SELECT COUNT(*) FROM closed_tabs WHERE window_id = 1", [], |r| r.get(0))
        .unwrap();
    assert_eq!(count, 25);
    assert_eq!(take_closed(&conn, 1).unwrap().0, "https://n/29");
}

#[test]
fn closed_tabs_on_record_come_back_in_the_opposite_turn() {
    let conn = migrated_connection();
    for i in 0..30 {
        store_closed(&conn, 1, &format!("https://n/{}", i), "a5", i % 2 == 0);
        if i % 10 == 0 {
            store_closed(&conn, 2, &format!("https://m/{}", i), "b", true);
        }
    }
    for i in (5..30).rev() {
        assert_eq!(take_closed(&conn, 1), Some((format!("https://n/{}", i), "a5".to_string(), i % 2 == 0)));
    }
    assert!(take_closed(&conn, 1).is_none());
    assert_eq!(take_closed(&conn, 2).unwrap().0, "https://m/20");
    assert_eq!(closed_ids(&conn, 2).len(), 2);
}

#[test]
fn test_incognito_zero_db_rows() {
    let conn = migrated_connection();
    let mut store = IncognitoStore::new();

    let db_tabs_count: i32 = conn
        .query_row("SELECT COUNT(*) FROM tabs", [], |row| row.get(0))
        .unwrap();
    assert_eq!(db_tabs_count, 0);

    clear_all_incognito_tabs(&mut store);
    let incognito_win_id = 999;

    let tab1 = create_incognito_tab(&mut store, incognito_win_id, "https://example.com/1".to_string(), "a".to_string(), 7);
    let tab2 = create_incognito_tab(&mut store, incognito_win_id, "https://example.com/2".to_string(), "b".to_string(), 7);

    assert_eq!(list_incognito_tabs(&store, incognito_win_id).len(), 2);
    assert!(tab1.id < 0);
    assert!(tab2.id < 0);

    update_incognito_tab(&mut store, tab1.id, "https://example.com/updated".to_string(), Some("Updated".to_string()), 100.0f64.to_bits());
    set_incognito_pinned(&mut store, tab1.id, true);
    set_incognito_muted(&mut store, tab2.id, true);

    let t1_updated = get_incognito_tab(&store, tab1.id).unwrap();
    assert_eq!(t1_updated.url, "https://example.com/updated");
    assert!(t1_updated.pinned);

    let t2_updated = get_incognito_tab(&store, tab2.id).unwrap();
    assert!(t2_updated.muted);

    let db_tabs_count_after: i32 = conn
        .query_row("SELECT COUNT(*) FROM tabs", [], |row| row.get(0))
        .unwrap();
    assert_eq!(db_tabs_count_after, 0);

    delete_incognito_tab(&mut store, tab1.id);
    assert_eq!(list_incognito_tabs(&store, incognito_win_id).len(), 1);

    clear_all_incognito_tabs(&mut store);
    assert_eq!(list_incognito_tabs(&store, incognito_win_id).len(), 0);
}

#[test]
fn migrations_are_taken_once_and_in_order() {
    let all: Vec<i32> = run_migrations(0).iter().map(|m| m.version).collect();
    assert_eq!(all, vec![1, 2, 3]);
    let rest: Vec<i32> = run_migrations(2).iter().map(|m| m.version).collect();
    assert_eq!(rest, vec![3]);
    assert!(run_migrations(3).is_empty());
    assert_eq!(run_migrations(-1).len(), 3);
    let conn = migrated_connection();
    let engines: i32 = conn.query_row("SELECT COUNT(*) FROM search_engines", [], |r| r.get(0)).unwrap();
    assert_eq!(engines, 7);
    let version: i32 = conn.query_row("PRAGMA user_version", [], |r| r.get(0)).unwrap();
    assert_eq!(version, 3);
}

#[test]
fn a_visit_without_a_title_keeps_the_old_one() {
    let first = record_visit(None, Some("T".to_string()), true, 10);
    assert_eq!((first.visit_count, first.typed_count, first.last_visit), (1, 1, 10));
    let second = add_history_entry(Some(first), None, 20);
    assert_eq!((second.visit_count, second.typed_count, second.last_visit), (2, 1, 20));
    assert_eq!(second.title, Some("T".to_string()));
    let blank = record_visit(None, None, false, 5);
    assert_eq!(blank.title, None);
    assert_eq!(blank.typed_count, 0);
}

fn visited_page(id: i32, visit_count: i32, last_visit: i64) -> HistoryDbEntry {
    HistoryDbEntry { id, url: format!("u{}", id), title: String::new(), visit_count, last_visit, typed_count: 0 }
}

#[test]
fn frecency_weighs_visits_by_age() {
    let day = 86_400;
    let now = 1_000 * day;
    for (age, weight) in [(0, 100), (4 * day - 1, 100), (4 * day, 70), (14 * day, 50), (31 * day, 30), (90 * day, 10)] {
        assert_eq!(frecency_of(&visited_page(1, 3, now - age), now), 3 * weight);
    }
    assert_eq!(frecency_of(&visited_page(1, 2, now + day), now), 200);
}

#[test]
fn top_history_is_by_frecency_and_stable() {
    let now = 1_000 * 86_400;
    let pages = vec![visited_page(1, 1, now), visited_page(2, 5, now), visited_page(3, 1, now), visited_page(4, 40, 0)];
    let top = get_top_history_by_frecency(&pages, now, 3);
    assert_eq!(top.iter().map(|p| p.id).collect::<Vec<i32>>(), vec![2, 4, 1]);
    assert_eq!(get_top_history_by_frecency(&pages, now, 10).len(), 4);
    assert!(get_top_history_by_frecency(&pages, now, 0).is_empty());
}

#[test]
fn history_search_asks_for_a_prefix() {
    assert_eq!(search_history("  rust \"lang\" "), Some("rust  lang *".to_string()));
    assert_eq!(search_history("   "), None);
}

#[test]
fn history_is_deleted_by_mode() {
    assert!(matches!(history_delete("all", None), Deletion::All));
    assert!(matches!(history_delete("ids", Some(vec![1, 2])), Deletion::Ids(v) if v == vec![1, 2]));
    assert!(matches!(history_delete("ids", None), Deletion::Ids(v) if v.is_empty()));
    assert!(matches!(history_delete("x", Some(vec![1])), Deletion::Nothing));
}

#[test]
fn bookmarks_go_to_the_end() {
    assert_eq!(next_position(&vec![]), 0);
    assert_eq!(next_position(&vec![3, 7, 5]), 8);
    assert_eq!(next_position(&vec![-5]), -4);
    assert_eq!(next_position(&vec![i32::MAX]), 0);
    let shown = bookmarks_list(vec![BookmarkDbEntry {
        id: 4,
        url: "u".to_string(),
        title: "t".to_string(),
        folder_id: Some(1),
        tags: None,
        position: 2,
        created_at: 9,
    }]);
    assert_eq!((shown[0].id, shown[0].url.as_str(), shown[0].title.as_str(), shown[0].position), (4, "u", "t", 2));
}

#[test]
fn quick_launch_items_without_a_number_are_new() {
    let mut item = QuickLaunchItem {
        id: 0,
        target_url: "u".to_string(),
        title: None,
        sequence: "G".to_string(),
        disposition: "new_tab".to_string(),
    };
    assert_eq!(set_quick_launch(&item), Storing::Insert);
    item.id = 3;
    assert_eq!(set_quick_launch(&item), Storing::Replace);
}

#[test]
fn only_the_latest_rows_stay() {
    assert_eq!(rows_to_drop(&vec![5, 1, 9, 3], 2), vec![3, 1]);
    assert!(rows_to_drop(&vec![5, 1], 2).is_empty());
    let ids: Vec<i32> = (1..=30).collect();
    assert_eq!(rows_to_drop(&ids, 25), vec![5, 4, 3, 2, 1]);
    assert_eq!(push_closed_tab(&ids), vec![5, 4, 3, 2, 1]);
    assert_eq!(pop_closed_tab(&vec![4, 9, 2]), Some(9));
    assert_eq!(pop_closed_tab(&vec![]), None);
}
