use jello::rank::{best_positions, rank};
use jello::text;

#[test]
fn texts_are_searched_as_std_does() {
    let samples = ["", "a", "aa", "abab", "aab", "\u{e9}a\u{e9}", " x ", "%s%s", "a,b,,c", "\u{3000}z\u{2028}"];
    let patterns = ["a", "ab", "aa", "%s", ",", "\u{e9}", "abc"];
    for s in samples {
        for p in patterns {
            assert_eq!(text::contains(s, p), s.contains(p));
            assert_eq!(text::find(s, p), s.find(p).map(|i| s[..i].chars().count()));
            assert_eq!(text::starts_with(s, p), s.starts_with(p));
            assert_eq!(text::ends_with(s, p), s.ends_with(p));
            assert_eq!(text::replace(s, p, "-a"), s.replace(p, "-a"));
            assert_eq!(text::less(s, p), s < p);
            assert_eq!(text::same(s, p), s == p);
            assert_eq!(text::eq_ignore_ascii_case(s, p), s.eq_ignore_ascii_case(p));
        }
        assert_eq!(text::trim(s), s.trim());
        assert_eq!(text::split(s, ','), s.split(',').collect::<Vec<_>>());
        assert_eq!(text::rfind(s, 'a'), s.rfind('a').map(|i| s[..i].chars().count()));
        assert_eq!(text::trim_start_matches(s, 'a'), s.trim_start_matches('a'));
        assert_eq!(text::trim_end_matches(s, 'a'), s.trim_end_matches('a'));
    }
}

#[test]
fn white_space_is_that_of_std() {
    for n in 0..=0x10FFFFu32 {
        if let Some(c) = char::from_u32(n) {
            assert_eq!(text::is_space(c), c.is_whitespace());
        }
    }
}

#[test]
fn texts_are_put_together() {
    let list = vec!["a".to_string(), "".to_string(), "c".to_string()];
    assert_eq!(text::join(&list, ", "), "a, , c");
    assert_eq!(text::join(&vec![], ", "), "");
    assert!(text::lists(&list, "c") && !text::lists(&list, "b"));
    assert_eq!(text::concat3("a", "b", "c"), "abc");
    assert_eq!(text::slice("h\u{e9}llo", 1, 3), "\u{e9}l");
}

#[test]
fn numbers_are_written_in_decimal() {
    for n in [0, 7, 10, 99, 1234567890123, u64::MAX] {
        assert_eq!(text::dec_u64(n), n.to_string());
    }
    for n in [0, -1, 10, i64::MIN, i64::MAX] {
        assert_eq!(text::dec_i64(n), n.to_string());
    }
}

#[test]
fn ranking_is_from_the_highest_down() {
    assert_eq!(rank(&vec![3, 9, 3, 7]), vec![1, 3, 0, 2]);
    assert_eq!(best_positions(&vec![3, 9, 3, 7], 3), vec![1, 3, 0]);
    assert_eq!(best_positions(&vec![3], 3), vec![0]);
    assert!(rank(&vec![]).is_empty());
}
