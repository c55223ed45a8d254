use jello::search::{
    classify_input, default_search_url, normalize_url, percent_encode, resolve_input, route_query,
    InputClassification, SearchEngine,
};

fn url(s: &str) -> InputClassification {
    InputClassification::Url(s.to_string())
}

fn query(s: &str) -> InputClassification {
    InputClassification::SearchQuery(s.to_string())
}

fn engine(keyword: &str, template: &str) -> SearchEngine {
    SearchEngine {
        name: keyword.to_string(),
        keyword: keyword.to_string(),
        url_template: template.to_string(),
    }
}

#[test]
fn test_classifier_url() {
    assert_eq!(classify_input("http://google.com"), InputClassification::Url("http://google.com".to_string()));
    assert_eq!(classify_input("https://localhost:8080"), InputClassification::Url("https://localhost:8080".to_string()));
    assert_eq!(classify_input("localhost"), InputClassification::Url("http://localhost".to_string()));
    assert_eq!(classify_input("localhost:3000"), InputClassification::Url("http://localhost:3000".to_string()));
    assert_eq!(classify_input("127.0.0.1"), InputClassification::Url("http://127.0.0.1".to_string()));
    assert_eq!(classify_input("[::1]"), InputClassification::Url("http://[::1]".to_string()));
    assert_eq!(classify_input("google.com"), InputClassification::Url("https://google.com".to_string()));
    assert_eq!(classify_input("google.com/"), InputClassification::Url("https://google.com/".to_string()));
    assert_eq!(classify_input("google.com/path"), InputClassification::Url("https://google.com/path".to_string()));
    assert_eq!(classify_input("my-site.local"), InputClassification::Url("https://my-site.local".to_string()));
    assert_eq!(classify_input("jello://settings"), InputClassification::Url("jello://settings".to_string()));
}

#[test]
fn test_classifier_query() {
    assert_eq!(classify_input("google"), InputClassification::SearchQuery("google".to_string()));
    assert_eq!(classify_input("google."), InputClassification::SearchQuery("google.".to_string()));
    assert_eq!(classify_input("google.c"), InputClassification::SearchQuery("google.c".to_string()));
    assert_eq!(classify_input("google.12"), InputClassification::SearchQuery("google.12".to_string()));
    assert_eq!(classify_input("search query"), InputClassification::SearchQuery("search query".to_string()));
    assert_eq!(classify_input("http ://invalid"), InputClassification::SearchQuery("http ://invalid".to_string()));
}

#[test]
fn white_space_around_an_input_is_dropped() {
    assert_eq!(classify_input("  google.com\t"), url("https://google.com"));
    assert_eq!(classify_input("\u{3000}two words\u{a0}"), query("two words"));
    assert_eq!(classify_input("   "), query(""));
}

#[test]
fn schemes_are_known_in_either_case() {
    assert_eq!(classify_input("HTTPS://Example"), url("HTTPS://Example"));
    assert_eq!(classify_input("File://C:/x"), url("File://C:/x"));
    assert_eq!(classify_input("ftp://example"), query("ftp://example"));
    assert_eq!(classify_input("LocalHost:80"), url("http://LocalHost:80"));
}

#[test]
fn network_addresses_are_told_from_words() {
    for good in [
        "0.0.0.0", "255.255.255.255", "1.2.3.4:80", "[::1]:8080", "[fe80::1]", "::ffff:1.2.3.4",
        "1:2:3:4:5:6:7:8:443", ":::",
    ] {
        assert!(matches!(classify_input(good), InputClassification::Url(_)), "{}", good);
    }
    for bad in [
        "256.0.0.1", "1.2.3", "1.2.3.4.5", "01.2.3.4", "1.2.3.1234", "1.2.3.", "::", "::1",
        "1:2:3:4:5:6:7:8", "1::2::3", "12345::", "g::", "1:2:3:4:5:6:7::8", "1.2.3.4::", "[::1", "::1.2.3",
    ] {
        assert!(matches!(classify_input(bad), InputClassification::SearchQuery(_)), "{}", bad);
    }
}

#[test]
fn network_addresses_stand_in_brackets() {
    for good in ["1.2.3.4", "::", "1::8", "::1.2.3.4", "1:2:3:4:5::1.2.3.4", "1:2:3:4:5:6:1.2.3.4"] {
        assert_eq!(normalize_url(&format!("[{}]", good)), format!("http://[{}]", good));
    }
    for bad in ["1.2.3.04", "1.2.3.256", ":::", "1:2:3:4:5:6:7", ":1", "1:", "::12345", "fe80::%1",
        "1:2:3:4:5:6:7:1.2.3.4", "1:2:3:4:5:6::1.2.3.4"] {
        assert_eq!(normalize_url(&format!("[{}]", bad)), format!("https://[{}]", bad));
    }
}

#[test]
fn normalize_gives_http_to_this_machine_only() {
    assert_eq!(normalize_url("about:blank"), "about:blank");
    assert_eq!(normalize_url("x://y"), "x://y");
    assert_eq!(normalize_url("LOCALHOST/a"), "http://LOCALHOST/a");
    assert_eq!(normalize_url("10.0.0.1:8080/a"), "http://10.0.0.1:8080/a");
    assert_eq!(normalize_url("example.com:8080"), "https://example.com:8080");
    let once = normalize_url("example.com");
    assert_eq!(normalize_url(&once), once);
}

#[test]
fn a_port_behind_an_address_in_brackets_is_no_part_of_it() {
    assert_eq!(normalize_url("[::1]:3000"), "http://[::1]:3000");
    assert_eq!(normalize_url("[::1]:3000/path"), "http://[::1]:3000/path");
    assert_eq!(classify_input("[::1]:3000"), url("http://[::1]:3000"));
    assert_eq!(classify_input("[fe80::1]:80/x"), url("http://[fe80::1]:80/x"));
    assert_eq!(normalize_url("[::1"), "https://[::1");
}

#[test]
fn whatever_is_an_address_comes_out_absolute() {
    for input in ["a.bc", "1.2.3.4", "x/", "about:blank/", "localhost:1", "file:///x"] {
        match classify_input(input) {
            InputClassification::Url(u) => assert!(u.contains("://") || u.starts_with("about:"), "{}", u),
            InputClassification::SearchQuery(_) => panic!("{}", input),
        }
    }
}

#[test]
fn percent_encode_spells_out_everything_but_unreserved() {
    assert_eq!(percent_encode("aZ09-_.~"), "aZ09-_.~");
    assert_eq!(percent_encode("a b&c"), "a%20b%26c");
    assert_eq!(percent_encode("\u{e4}\u{20ac}\u{1f600}"), "%C3%A4%E2%82%AC%F0%9F%98%80");
    assert_eq!(percent_encode("%"), "%25");
}

fn decoded(s: &str) -> Vec<u8> {
    let b = s.as_bytes();
    let mut out = Vec::new();
    let mut i = 0;
    while i < b.len() {
        if b[i] == b'%' {
            out.push(u8::from_str_radix(&s[i + 1..i + 3], 16).unwrap());
            i += 3;
        } else {
            out.push(b[i]);
            i += 1;
        }
    }
    out
}

#[test]
fn decoding_gives_the_text_back() {
    for s in ["", "plain", "a b&c=%20", "\u{e4}\u{20ac}\u{1f600}", "\u{0}\u{7f}/?#"] {
        assert_eq!(decoded(&percent_encode(s)), s.as_bytes());
    }
}

#[test]
fn route_query_goes_by_the_keyword() {
    let engines = vec![engine("g", "https://g/?q=%s"), engine("g", "https://second/?q=%s"), engine("w", "https://w/%s/%s")];
    assert_eq!(route_query("g rust lang", &engines, "https://d/?q=%s"), "https://g/?q=rust%20lang");
    assert_eq!(route_query("w x y", &engines, "d%s"), "https://w/x%20y/x%20y");
    assert_eq!(route_query("g", &engines, "https://d/?q=%s"), "https://d/?q=g");
    assert_eq!(route_query(" other thing ", &engines, "https://d/?q=%s"), "https://d/?q=other%20thing");
    assert_eq!(route_query("g   padded  ", &engines, "d%s"), "https://g/?q=padded");
}

#[test]
fn default_template_needs_a_place_for_the_words() {
    assert_eq!(default_search_url(Some("https://x/?q=%s".to_string())), "https://x/?q=%s");
    assert_eq!(default_search_url(Some("https://x/".to_string())), "https://duckduckgo.com/?q=%s");
    assert_eq!(default_search_url(None), "https://duckduckgo.com/?q=%s");
}

#[test]
fn resolve_input_opens_or_searches() {
    assert_eq!(resolve_input("example.com", &[], "s%s"), "https://example.com");
    assert_eq!(resolve_input("two words", &[], "s%s"), "stwo%20words");
}
