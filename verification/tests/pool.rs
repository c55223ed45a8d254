use jello::pool::{Navigation, Show, TabPlace, TabPool, IDLE_LIMIT, PINNED_IDLE_LIMIT};

fn place(window_id: i32, url: &str) -> Result<Option<TabPlace>, String> {
    Ok(Some(TabPlace { window_id, url: url.to_string() }))
}

fn names(list: &[&str]) -> Vec<String> {
    list.iter().map(|s| s.to_string()).collect()
}

fn open_page(pool: &mut TabPool, id: i32, now: u64) -> Vec<i32> {
    let a = pool.activate_tab(id, place(1, "https://x"), &names(&["main"]), &vec![], &vec![], now);
    let stage = a.outcome.unwrap();
    if stage.show == Show::Create {
        pool.page_created(id, now);
    }
    stage.evicted
}

fn sorted(mut v: Vec<i32>) -> Vec<i32> {
    v.sort();
    v
}

#[test]
fn a_tab_without_a_page_gets_one() {
    let mut pool = TabPool::new();
    let a = pool.activate_tab(4, place(1, "https://x"), &names(&["main"]), &vec![], &vec![], 10);
    let stage = a.outcome.unwrap();
    assert_eq!(stage.show, Show::Create);
    assert_eq!(stage.window_label, "main");
    assert!(a.hide.is_empty());
    assert_eq!(a.refresh, None);
    assert!(!pool.is_loaded(4));
    pool.page_created(4, 11);
    assert!(pool.is_loaded(4) && pool.is_live(4) && !pool.is_tab_suspended(4));
    assert_eq!(pool.get_active_tab_id(), Some(4));
}

#[test]
fn switching_hides_the_other_pages() {
    let mut pool = TabPool::new();
    open_page(&mut pool, 1, 1);
    open_page(&mut pool, 2, 2);
    let a = pool.activate_tab(1, place(1, "https://x"), &names(&["main"]), &vec![], &vec![], 3);
    assert_eq!(a.hide, vec![2]);
    assert_eq!(a.refresh, Some(2));
    assert_eq!(a.outcome.unwrap().show, Show::Existing);
}

#[test]
fn the_least_recently_used_page_makes_way() {
    let mut pool = TabPool::new();
    for id in 1..=5 {
        assert!(open_page(&mut pool, id, id as u64).is_empty());
    }
    assert_eq!(pool.get_active_count(), 5);
    assert_eq!(open_page(&mut pool, 6, 6), vec![1]);
    assert_eq!(pool.get_active_count(), 5);
    assert!(!pool.is_loaded(1));
    assert_eq!(open_page(&mut pool, 1, 7), vec![2]);
}

#[test]
fn pinned_and_audible_pages_stay() {
    let mut pool = TabPool::new();
    for id in 1..=5 {
        open_page(&mut pool, id, id as u64);
    }
    assert_eq!(pool.evict_lru(&vec![1], &vec![2]), Some(3));
    assert_eq!(pool.evict_lru(&vec![1, 4], &vec![2]), None);
    assert_eq!(pool.get_active_count(), 4);
    let a = pool.activate_tab(9, place(1, "https://x"), &names(&["main"]), &vec![1, 2, 4], &vec![5], 9);
    assert!(a.outcome.unwrap().evicted.is_empty());
}

#[test]
fn a_crowd_that_may_not_go_stays_beyond_the_limit() {
    let mut pool = TabPool::new();
    for id in 1..=5 {
        open_page(&mut pool, id, id as u64);
    }
    let a = pool.activate_tab(6, place(1, "https://x"), &names(&["main"]), &vec![], &vec![1, 2, 3, 4, 5], 6);
    let stage = a.outcome.unwrap();
    assert_eq!(stage.show, Show::Create);
    assert!(stage.evicted.is_empty());
    pool.page_created(6, 6);
    assert_eq!(pool.get_active_count(), 6);
}

#[test]
fn tabs_that_cannot_be_shown_give_their_reasons() {
    let mut pool = TabPool::new();
    let none = vec![];
    let open = names(&["main"]);
    let missing = pool.activate_tab(3, Ok(None), &open, &none, &none, 0);
    assert_eq!(missing.outcome.err().unwrap(), "Tab not found in database");
    let missing = pool.activate_tab(-3, Ok(None), &open, &none, &none, 0);
    assert_eq!(missing.outcome.err().unwrap(), "Tab not found in incognito store");
    let broken = pool.activate_tab(3, Err("disk".to_string()), &open, &none, &none, 0);
    assert_eq!(broken.outcome.err().unwrap(), "disk");
    let lost = pool.activate_tab(3, place(8, "https://x"), &open, &none, &none, 0);
    assert_eq!(lost.outcome.err().unwrap(), "Parent window incognito_8 not found");
    assert_eq!(pool.get_active_tab_id(), Some(3));
    let there = pool.activate_tab(3, place(8, "https://x"), &names(&["main_8"]), &none, &none, 0);
    assert_eq!(there.outcome.unwrap().window_label, "main_8");
}

#[test]
fn a_blank_tab_has_no_page() {
    let mut pool = TabPool::new();
    open_page(&mut pool, 1, 1);
    let a = pool.activate_tab(1, place(1, "about:blank"), &names(&["main"]), &vec![], &vec![], 2);
    assert_eq!(a.outcome.unwrap().show, Show::Blank);
    assert!(!pool.is_loaded(1));
    let b = pool.activate_tab(2, place(1, ""), &names(&["main"]), &vec![], &vec![], 3);
    assert_eq!(b.outcome.unwrap().show, Show::Blank);
}

#[test]
fn idle_pages_go_to_sleep_and_wake() {
    let mut pool = TabPool::new();
    open_page(&mut pool, 1, 0);
    open_page(&mut pool, 2, 0);
    open_page(&mut pool, 3, 0);
    assert!(pool.suspend_idle(&vec![], &vec![], IDLE_LIMIT).is_empty());
    assert_eq!(sorted(pool.suspend_idle(&vec![], &vec![], IDLE_LIMIT + 1)), vec![1, 2]);
    assert_eq!(pool.suspend_idle(&vec![1], &vec![2], IDLE_LIMIT + 1), Vec::<i32>::new());
    assert_eq!(pool.suspend_idle(&vec![1], &vec![2], PINNED_IDLE_LIMIT + 1), vec![2]);
    pool.suspend_finished(1, false);
    assert!(pool.is_live(1));
    pool.suspend_finished(1, true);
    assert!(pool.is_tab_suspended(1) && pool.is_loaded(1));
    let mut states = pool.loaded_states();
    states.sort();
    assert_eq!(states, vec![(1, "suspended"), (2, "live"), (3, "live")]);
    let a = pool.activate_tab(1, place(1, "https://x"), &names(&["main"]), &vec![], &vec![], 5);
    assert_eq!(a.outcome.unwrap().show, Show::Resume);
    assert!(pool.is_live(1));
}

#[test]
fn a_window_can_be_put_to_sleep() {
    let mut pool = TabPool::new();
    for id in 1..=4 {
        open_page(&mut pool, id, 0);
    }
    let windows = vec![(1, 1), (2, 7), (3, 1), (4, 1)];
    assert_eq!(sorted(pool.suspend_all(&windows, 1, &vec![])), vec![1, 3]);
    assert_eq!(pool.suspend_all(&windows, 1, &vec![3]), vec![1]);
    assert_eq!(pool.suspend_all(&vec![], 0, &vec![1, 2]), vec![3]);
}

#[test]
fn switching_goes_by_last_use() {
    let mut pool = TabPool::new();
    assert_eq!(pool.mru_target(true), None);
    for id in 1..=3 {
        open_page(&mut pool, id, id as u64);
    }
    assert_eq!(pool.mru_target(true), Some(2));
    assert_eq!(pool.mru_target(false), Some(1));
    open_page(&mut pool, 2, 9);
    assert_eq!(pool.mru_target(true), Some(3));
    open_page(&mut pool, 3, 10);
    assert_eq!(pool.mru_target(true), Some(2));
    assert!(pool.remove_tab(2));
    assert_eq!(pool.mru_target(true), Some(1));
}

#[test]
fn switching_goes_by_several_uses() {
    for earlier in [vec![], vec![3], vec![2, 1, 3, 3], vec![1, 1]] {
        let mut pool = TabPool::new();
        let mut now = 0;
        for id in earlier.into_iter().chain([1, 2, 3]) {
            now += 1;
            open_page(&mut pool, id, now);
        }
        assert_eq!(pool.mru_target(true), Some(2));
        assert_eq!(pool.mru_target(false), Some(1));
    }
    let mut pool = TabPool::new();
    for now in 1..4 {
        open_page(&mut pool, 7, now);
        assert_eq!((pool.mru_target(true), pool.mru_target(false)), (None, None));
    }
    for (now, id) in [(4, 9), (5, 1), (6, 2), (7, 3)] {
        open_page(&mut pool, id, now);
    }
    assert_eq!(pool.mru_target(true), Some(2));
    assert_eq!(pool.mru_target(false), Some(7));
}

#[test]
fn removing_and_discarding_clear_the_front() {
    let mut pool = TabPool::new();
    open_page(&mut pool, 1, 1);
    assert!(pool.discard_tab(1));
    assert_eq!(pool.get_active_tab_id(), None);
    assert!(!pool.is_loaded(1));
    assert!(!pool.discard_tab(1));
    open_page(&mut pool, 2, 2);
    assert!(!pool.remove_tab(1));
    assert_eq!(pool.get_active_tab_id(), Some(2));
    assert!(pool.remove_tab(2));
    assert_eq!(pool.get_active_tab_id(), None);
    assert!(pool.loaded_tabs().is_empty());
}

#[test]
fn commands_go_to_the_page_in_front() {
    let mut pool = TabPool::new();
    assert_eq!(pool.with_active_view(), Err("No active tab".to_string()));
    pool.set_active_tab_id(Some(1));
    assert_eq!(pool.with_active_view(), Err("Active tab has no live view".to_string()));
    open_page(&mut pool, 1, 1);
    assert_eq!(pool.with_active_view(), Ok(1));
}

#[test]
fn navigation_depends_on_the_page() {
    let mut pool = TabPool::new();
    assert_eq!(pool.navigate_tab(1, "https://x"), Err("Tab not found".to_string()));
    open_page(&mut pool, 1, 1);
    assert_eq!(pool.navigate_tab(1, "https://y"), Ok(Navigation::InPlace));
    assert_eq!(pool.navigate_tab(1, "about:blank"), Ok(Navigation::Close));
    assert_eq!(pool.navigate_tab(1, "https://y"), Ok(Navigation::Load));
}
