use jello::db::bookmarks::BookmarkDbEntry;
use jello::db::history::HistoryDbEntry;
use jello::ipc_types::Tab;
use jello::palette::{
    can_match, match_item, palette_open, palette_query, palette_target, query_fits, tab_display_title,
    OpenAction,
};
use jello::search::SearchEngine;
use nucleo_matcher::pattern::{CaseMatching, Normalization, Pattern};
use nucleo_matcher::{Config, Matcher, Utf32Str, Utf32String};

fn open_tab(id: i32, title: Option<&str>, url: &str) -> Tab {
    Tab {
        id,
        window_id: 1,
        url: url.to_string(),
        title: title.map(|t| t.to_string()),
        favicon_id: None,
        pinned: false,
        muted: false,
        order_key: "m".to_string(),
        scroll_y: 0,
        last_active: None,
        created_at: 0,
    }
}

fn page(id: i32, title: &str, url: &str, visit_count: i32) -> HistoryDbEntry {
    HistoryDbEntry { id, url: url.to_string(), title: title.to_string(), visit_count, last_visit: 0, typed_count: 0 }
}

fn mark(id: i32, title: &str, url: &str) -> BookmarkDbEntry {
    BookmarkDbEntry {
        id,
        url: url.to_string(),
        title: title.to_string(),
        folder_id: None,
        tags: None,
        position: id,
        created_at: 0,
    }
}

#[test]
fn test_nucleo_api() {
    let mut matcher = Matcher::new(Config::DEFAULT);
    let pattern = Pattern::parse("ust", CaseMatching::Ignore, Normalization::Smart);

    let mut indices = Vec::new();
    let haystack = Utf32String::from("rust");
    let slice = match &haystack {
        Utf32String::Ascii(v) => Utf32Str::Ascii(v.as_bytes()),
        Utf32String::Unicode(v) => Utf32Str::Unicode(v),
    };
    let score = pattern.indices(slice, &mut matcher, &mut indices);
    assert!(score.is_some());
    assert_eq!(indices, vec![1, 2, 3]);

    let found = palette_query("ust", "all", &vec![], &vec![], &vec![mark(1, "rust", "x")]);
    assert_eq!(found.bookmarks[0].matched_ranges, vec![(1, 4)]);
}

#[test]
fn titles_fall_back_to_the_host() {
    assert_eq!(tab_display_title(&Some("T".to_string()), "https://a.b/c"), "T");
    assert_eq!(tab_display_title(&Some("  ".to_string()), "https://www.a.b/c"), "a.b");
    assert_eq!(tab_display_title(&None, "https://www.www.a.b"), "a.b");
    assert_eq!(tab_display_title(&None, "about:blank"), "about:blank");
    assert_eq!(tab_display_title(&None, "x://y://z"), "y");
    assert_eq!(tab_display_title(&None, "x:///p"), "x:///p");
    assert_eq!(tab_display_title(&None, "x://www."), "x://www.");
}

#[test]
fn without_a_query_the_first_of_each_kind_are_offered() {
    let tabs: Vec<Tab> = (1..=6).map(|i| open_tab(i, Some("t"), "https://t")).collect();
    let history: Vec<HistoryDbEntry> = (1..=8).map(|i| page(i, "", "https://h", 1)).collect();
    let marks: Vec<BookmarkDbEntry> = (1..=6).map(|i| mark(i, "m", "https://m")).collect();
    let out = palette_query("  ", "none", &tabs, &history, &marks);
    assert_eq!((out.open_tabs.len(), out.history.len(), out.bookmarks.len()), (4, 6, 4));
    assert_eq!(out.open_tabs[0].id, "tab:1");
    assert_eq!(out.open_tabs[0].item_type, "tab");
    assert_eq!(out.history[5].id, "history:6");
    assert_eq!(out.history[0].title, "https://h");
    assert_eq!(out.bookmarks[3].id, "bookmark:4");
    assert!(out.bookmarks[3].matched_ranges.is_empty());
}

#[test]
fn a_query_keeps_to_its_scope() {
    let tabs = vec![open_tab(1, Some("rust"), "https://a")];
    let history = vec![page(2, "rust", "https://b", 0)];
    let marks = vec![mark(3, "rust", "https://c")];
    let counts = |scope: &str| {
        let r = palette_query("rust", scope, &tabs, &history, &marks);
        (r.open_tabs.len(), r.history.len(), r.bookmarks.len())
    };
    assert_eq!(counts("all"), (1, 1, 1));
    assert_eq!(counts("tabs"), (1, 0, 0));
    assert_eq!(counts("history"), (0, 1, 0));
    assert_eq!(counts("bookmarks"), (0, 0, 1));
    assert_eq!(counts("other"), (0, 0, 0));
}

#[test]
fn the_better_match_comes_first_and_misses_are_left_out() {
    let marks = vec![mark(1, "r-u-s-t", "https://a"), mark(2, "rust", "https://b"), mark(3, "python", "https://c")];
    let out = palette_query("rust", "all", &vec![], &vec![], &marks);
    let ids: Vec<&str> = out.bookmarks.iter().map(|b| b.id.as_str()).collect();
    assert_eq!(ids, vec!["bookmark:2", "bookmark:1"]);
    assert_eq!(out.bookmarks[0].matched_ranges, vec![(0, 4)]);
    assert_eq!(out.bookmarks[1].matched_ranges, vec![(0, 1), (2, 3), (4, 5), (6, 7)]);
}

#[test]
fn a_match_in_the_address_is_enough() {
    let marks = vec![mark(1, "nothing", "https://rust.example")];
    let out = palette_query("rust", "all", &vec![], &vec![], &marks);
    assert_eq!(out.bookmarks.len(), 1);
}

#[test]
fn visits_count_for_something_but_not_without_end() {
    let history = vec![page(1, "rust", "https://a", 1), page(2, "rust", "https://a", 30), page(3, "rust", "https://a", 900), page(4, "rust", "https://a", -1)];
    let out = palette_query("rust", "history", &vec![], &history, &vec![]);
    let ids: Vec<&str> = out.history.iter().map(|b| b.id.as_str()).collect();
    assert_eq!(ids, vec!["history:3", "history:4", "history:2", "history:1"]);
}

#[test]
fn matches_are_put_together_from_both_texts() {
    assert!(match_item(&(None, vec![]), &(None, vec![3])).is_none());
    assert_eq!(match_item(&(Some(5), vec![4, 1, 2]), &(Some(9), vec![])), Some((9, vec![(1, 3), (4, 5)])));
    assert_eq!(match_item(&(None, vec![7]), &(Some(2), vec![])), Some((2, vec![(7, 8)])));
    assert_eq!(match_item(&(Some(1), vec![3, 3]), &(None, vec![])), Some((1, vec![(3, 4), (3, 4)])));
    assert_eq!(match_item(&(Some(0), vec![]), &(None, vec![])), Some((0, vec![])));
}

#[test]
fn overlong_words_are_told_beforehand() {
    assert!(query_fits(&"a".repeat(2520)));
    assert!(!query_fits(&"a".repeat(2521)));
    assert!(query_fits(&format!("{} {}", "a".repeat(2520), "b".repeat(2520))));
    assert!(!query_fits(&format!("{}\\ {}", "a".repeat(2000), "b".repeat(2000))));
    assert!(query_fits(&"\\".repeat(1260)));
    assert!(!query_fits(&"\\".repeat(1261)));
}

#[test]
fn overlong_words_can_be_looked_for_in_short_texts() {
    let long = "a".repeat(3000);
    assert!(can_match("a", &long));
    assert!(can_match(&long, &"a".repeat(2520)));
    assert!(!can_match(&long, &"a".repeat(2521)));
    let marks = vec![mark(1, "aaaa", "https://a")];
    assert!(palette_query(&long, "all", &vec![], &vec![], &marks).bookmarks.is_empty());
}

#[test]
fn variant_letters_are_told_beforehand() {
    assert!(!can_match("s\u{e4}", "\u{17f} s\u{e4}"));
    assert!(!can_match("\u{e4}S", "\u{17f} s\u{e4}"));
    assert!(can_match("s\u{e4}", "s s\u{e4}"));
    assert!(can_match("sa", "\u{17f} s\u{e4}"));
    assert!(can_match("pr\u{e9}fixe", "Le pr\u{e9}fixe \u{b5}"));
    assert!(can_match("\u{3c3}\u{3b1}", "\u{3bf}\u{3b4}\u{3cc}\u{3c2} \u{3c3}\u{3b1}\u{3c2}"));
    assert!(can_match("\u{43f}\u{4e2d}\u{d55c}", "\u{1c80}\u{ab70}"));
    let letter = |c: u32| char::from_u32(c).unwrap();
    for (variant, letters) in [
        (0xb5, vec![0x3bc, 0x39c]), (0x17f, vec![0x73, 0x53]), (0x345, vec![0x3b9, 0x399, 0x1fbe]),
        (0x3c2, vec![0x3c3, 0x3a3]), (0x3d0, vec![0x3b2, 0x392]), (0x3d1, vec![0x3b8, 0x398, 0x3f4]),
        (0x3d5, vec![0x3c6, 0x3a6]), (0x3d6, vec![0x3c0, 0x3a0]), (0x3f0, vec![0x3ba, 0x39a]),
        (0x3f1, vec![0x3c1, 0x3a1]), (0x3f5, vec![0x3b5, 0x395]), (0x13f8, vec![0x13f0]), (0x13fd, vec![0x13f5]),
        (0x1c80, vec![0x432, 0x412]), (0x1c81, vec![0x434]), (0x1c82, vec![0x43e]), (0x1c83, vec![0x441]),
        (0x1c84, vec![0x442, 0x422, 0x1c85]), (0x1c86, vec![0x44a]), (0x1c87, vec![0x463, 0x462]),
        (0x1c88, vec![0xa64b, 0xa64a]), (0x1e9b, vec![0x1e61, 0x1e60]), (0x1fbe, vec![0x3b9]),
        (0xab70, vec![0x13a0]), (0xabbf, vec![0x13ef]),
    ] {
        let text = letter(variant).to_string();
        assert!(can_match("z\u{e9}", &text));
        for l in letters {
            assert!(!can_match(&format!("{}\u{e9}", letter(l)), &text));
        }
        assert!(!can_match(&format!("{}\u{e9}", letter(variant)), &text));
    }
}

#[test]
fn what_cannot_be_matched_does_not_match() {
    let marks = vec![
        mark(1, "\u{17f} s\u{e4}", "https://a"),
        mark(2, "\u{17f} s\u{e4}", "https://s\u{e4}"),
        mark(3, "s\u{e4}", "https://b"),
    ];
    let out = palette_query("s\u{e4}", "all", &vec![], &vec![], &marks);
    let ids: Vec<&str> = out.bookmarks.iter().map(|b| b.id.as_str()).collect();
    assert_eq!(ids.len(), 2);
    assert!(ids.contains(&"bookmark:2") && ids.contains(&"bookmark:3"));
    let second = out.bookmarks.iter().find(|b| b.id == "bookmark:2").unwrap();
    assert!(second.matched_ranges.is_empty());

    let found = palette_query("pr\u{e9}fixe", "all", &vec![], &vec![], &vec![mark(4, "Le pr\u{e9}fixe \u{b5}", "x")]);
    assert_eq!(found.bookmarks[0].matched_ranges, vec![(3, 10)]);

    let long = "a".repeat(3000);
    assert!(palette_query(&long, "all", &vec![], &vec![], &vec![mark(5, &long, "x")]).bookmarks.is_empty());
    let greek = vec![mark(6, "\u{3bf}\u{3b4}\u{3cc}\u{3c2} \u{3c3}\u{3b1}", "https://a")];
    assert_eq!(palette_query("\u{3c3}\u{3b1}", "all", &vec![], &vec![], &greek).bookmarks.len(), 1);
}

#[test]
fn backslashes_may_be_looked_for_twice() {
    let marks = vec![mark(1, "\\\\\u{e9}", "https://a"), mark(2, "\\\u{e9}", "https://b")];
    let out = palette_query("\\\u{e9}", "all", &vec![], &vec![], &marks);
    let ids: Vec<&str> = out.bookmarks.iter().map(|b| b.id.as_str()).collect();
    assert_eq!(ids, vec!["bookmark:1"]);
    assert_eq!(out.bookmarks[0].matched_ranges, vec![(0, 3)]);
}

#[test]
fn marks_hold_the_matched_positions_and_no_others() {
    let positions: Vec<u32> = vec![9, 4, 1, 2, 11, 12, 3, 0];
    let (_, ranges) = match_item(&(Some(1), positions.clone()), &(None, vec![])).unwrap();
    assert_eq!(ranges, vec![(0, 5), (9, 10), (11, 13)]);
    for x in 0..20usize {
        let marked = ranges.iter().any(|r| r.0 <= x && x < r.1);
        assert_eq!(marked, positions.contains(&(x as u32)));
    }
    assert!(ranges.windows(2).all(|w| w[0].1 < w[1].0));
    let twice = vec![mark(1, "rust", "https://a")];
    let out = palette_query("ru us", "all", &vec![], &vec![], &twice);
    assert_eq!(out.bookmarks[0].matched_ranges, vec![(0, 2), (1, 3)]);
}

fn searcher() -> Vec<SearchEngine> {
    vec![SearchEngine { name: "G".to_string(), keyword: "g".to_string(), url_template: "https://g/%s".to_string() }]
}

#[test]
fn search_lines_lead_to_an_address_or_a_search() {
    assert_eq!(palette_target("search:x", "example.com", &searcher()), "https://example.com");
    assert_eq!(palette_target("search:x", "g cats", &searcher()), "https://g/cats");
    assert_eq!(palette_target("search:x", "two cats", &searcher()), "https://duckduckgo.com/?q=two%20cats");
    assert_eq!(palette_target("tab:1", "two cats", &searcher()), "two cats");
}

#[test]
fn lines_open_as_they_are_told() {
    assert_eq!(palette_open("tab:12", "current-tab", None), Ok(OpenAction::Activate(12)));
    assert_eq!(palette_open("tab:-3", "current-tab", None), Ok(OpenAction::Activate(-3)));
    assert_eq!(palette_open("history:1", "current-tab", Some(5)), Ok(OpenAction::Navigate(5)));
    assert_eq!(palette_open("history:1", "current-tab", None), Ok(OpenAction::Create { background: false }));
    assert_eq!(palette_open("tab:1", "new-tab-foreground", Some(5)), Ok(OpenAction::Create { background: false }));
    assert_eq!(palette_open("tab:1", "new-tab-background", Some(5)), Ok(OpenAction::Create { background: true }));
    assert_eq!(palette_open("x", "new-window", None), Ok(OpenAction::NewWindow));
    assert_eq!(palette_open("x", "sideways", None), Err("Unknown disposition: sideways".to_string()));
    assert_eq!(palette_open("tab:x", "current-tab", None), Err("invalid digit found in string".to_string()));
    assert_eq!(palette_open("tab:99999999999", "current-tab", None), Err("number too large to fit in target type".to_string()));
}
