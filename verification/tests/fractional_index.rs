use jello::fractional_index::generate_key_between;

#[test]
fn test_fractional_indexing() {
    assert_eq!(generate_key_between(None, None), "m");
    assert!(generate_key_between(Some("m"), None).as_str() > "m");
    assert!(generate_key_between(None, Some("m")).as_str() < "m");

    let mid1 = generate_key_between(Some("c"), Some("d"));
    assert!(mid1.as_str() > "c" && mid1.as_str() < "d");

    let mid2 = generate_key_between(Some("c"), Some("cx"));
    assert!(mid2.as_str() > "c" && mid2.as_str() < "cx");

    let mid3 = generate_key_between(Some("a"), Some("b"));
    assert!(mid3.as_str() > "a" && mid3.as_str() < "b");
}

#[test]
fn keys_have_these_exact_values() {
    assert_eq!(generate_key_between(Some(""), Some("")), "m");
    assert_eq!(generate_key_between(Some("m"), None), "t");
    assert_eq!(generate_key_between(None, Some("m")), "g");
    assert_eq!(generate_key_between(Some("c"), Some("d")), "cn");
    assert_eq!(generate_key_between(Some("z"), None), "zn");
    assert_eq!(generate_key_between(Some("zz"), None), "zzn");
    assert_eq!(generate_key_between(Some("y"), None), "z");
}

#[test]
fn keys_outside_the_alphabet_still_come_after_the_left_one() {
    assert_eq!(generate_key_between(Some("a0"), None), "n");
    assert_eq!(generate_key_between(Some("~"), None), "~m");
    assert_eq!(generate_key_between(Some("m"), Some("")), "mm");
    assert_eq!(generate_key_between(Some("b"), Some("a")), "bm");
}

#[test]
fn no_room_before_a_run_of_the_first_letter() {
    assert_eq!(generate_key_between(None, Some("a")), "ana");
    assert_eq!(generate_key_between(Some("a"), Some("aa")), "am");
}

#[test]
fn repeated_insertion_keeps_the_order() {
    let mut keys: Vec<String> = vec![generate_key_between(None, None)];
    for i in 0..60usize {
        let at = (i * 7) % (keys.len() + 1);
        let left = if at == 0 { None } else { Some(keys[at - 1].as_str()) };
        let right = if at == keys.len() { None } else { Some(keys[at].as_str()) };
        let key = generate_key_between(left, right);
        assert!(!key.ends_with('a'));
        keys.insert(at, key);
    }
    for pair in keys.windows(2) {
        assert!(pair[0] < pair[1], "{} {}", pair[0], pair[1]);
    }
}
