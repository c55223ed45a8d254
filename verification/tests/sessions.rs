use jello::ipc_types::Tab;
use jello::sessions::session_restore_last;

#[test]
fn tabs_of_the_first_window_come_back() {
    let saved: Vec<Tab> = [(3, 1), (4, 2), (5, 1)]
        .iter()
        .map(|(id, window_id)| Tab {
            id: *id,
            window_id: *window_id,
            url: format!("https://{id}"),
            title: Some("T".to_string()),
            favicon_id: Some(1),
            pinned: true,
            muted: true,
            order_key: "m".to_string(),
            scroll_y: 9,
            last_active: Some(8),
            created_at: 7,
        })
        .collect();
    let back = session_restore_last(&saved);
    assert_eq!(back.len(), 2);
    for t in &back {
        assert_eq!((t.id, t.window_id, t.last_active), (0, 1, None));
        assert!(t.pinned && t.muted);
        assert_eq!((t.scroll_y, t.created_at, t.order_key.as_str()), (9, 7, "m"));
    }
    assert_eq!(back[0].url, "https://3");
    assert_eq!(back[1].url, "https://5");
    assert!(session_restore_last(&vec![]).is_empty());
}
