//! What a line typed into the address bar means: an address to open or words to search for.

use vstd::prelude::*;
use vstd::string::*;
use crate::text;

verus! {

/// What an input line means.
#[derive(Debug, Clone, PartialEq, Eq)]
pub enum InputClassification {
    /// An address that can be opened.
    Url(String),
    /// Words to search for.
    SearchQuery(String),
}

/// The meaning of an input line, over sequences of characters.
pub enum Meaning {
    Url(Seq<char>),
    SearchQuery(Seq<char>),
}

impl View for InputClassification {
    type V = Meaning;

    open spec fn view(&self) -> Meaning {
        match self {
            InputClassification::Url(s) => Meaning::Url(s@),
            InputClassification::SearchQuery(s) => Meaning::SearchQuery(s@),
        }
    }
}

/// A search engine that can be chosen by its keyword.
pub struct SearchEngine {
    pub name: String,
    pub keyword: String,
    pub url_template: String,
}

// ---- network addresses ----

/// A number from 0 to 255 in decimal, without leading zeros.
pub open spec fn is_octet(s: Seq<char>) -> bool {
    &&& text::is_digits(s)
    &&& s.len() <= 3
    &&& s.len() == 1 || s[0] != '0'
    &&& text::digits_value(s) <= 255
}

/// A hexadecimal digit.
pub open spec fn is_hex(c: char) -> bool {
    '0' <= c <= '9' || 'a' <= c <= 'f' || 'A' <= c <= 'F'
}

/// One to four hexadecimal digits.
pub open spec fn is_group(s: Seq<char>) -> bool {
    1 <= s.len() <= 4 && forall|i: int| 0 <= i < s.len() ==> is_hex(#[trigger] s[i])
}

/// Four octets with dots between them.
pub open spec fn is_ipv4(s: Seq<char>) -> bool {
    let p = text::pieces(s, '.');
    p.len() == 4 && is_octet(p[0]) && is_octet(p[1]) && is_octet(p[2]) && is_octet(p[3])
}

/// How many 16-bit groups a row of groups with colons between them stands for. The last may be
/// an IPv4 address, which stands for two, where `tail` allows it. No address has more than eight.
pub open spec fn group_count(s: Seq<char>, tail: bool) -> Option<int> {
    let p = text::pieces(s, ':');
    if s.len() == 0 {
        Some(0)
    } else if p.len() <= 8 && forall|i: int| 0 <= i < p.len() - 1 ==> is_group(#[trigger] p[i]) {
        if is_group(p.last()) {
            Some(p.len() as int)
        } else if tail && is_ipv4(p.last()) {
            Some(p.len() + 1int)
        } else {
            None
        }
    } else {
        None
    }
}

/// Eight groups with colons between them, the last two of which may be written as an IPv4
/// address; or fewer, with `::` once in the place of the missing ones, of which there is at least
/// one.
pub open spec fn is_ipv6(s: Seq<char>) -> bool {
    match text::find_in(s, "::"@) {
        Some(i) => {
            let head = group_count(s.take(i), false);
            let tail = group_count(s.skip(i + 2), true);
            head is Some && tail is Some && head->0 + tail->0 <= 7
        },
        None => group_count(s, true) == Some(8int),
    }
}

/// An IPv4 or IPv6 address, which may stand in square brackets.
pub open spec fn ip_literal(s: Seq<char>) -> bool {
    let clean = if s.len() > 0 && s[0] == '[' && s.last() == ']' {
        s.subrange(1, s.len() - 1)
    } else {
        s
    };
    is_ipv4(clean) || is_ipv6(clean)
}

fn check_octet(s: &str) -> (out: bool)
    ensures
        out == is_octet(s@),
{
    let x: Vec<char> = text::chars_of(s);
    if x.len() == 0 || x.len() > 3 || (x.len() > 1 && x[0] == '0') {
        return false;
    }
    let mut n: u32 = 0;
    for i in 0..x.len()
        invariant
            x@ == s@,
            x@.len() <= 3,
            n == text::digits_value(s@.take(i as int)),
            i == 0 ==> n == 0,
            i == 1 ==> n <= 9,
            i == 2 ==> n <= 99,
            forall|j: int| 0 <= j < i ==> '0' <= #[trigger] s@[j] <= '9',
    {
        let c: char = x[i];
        if c < '0' || '9' < c {
            return false;
        }
        assert(s@.take(i + 1).drop_last() =~= s@.take(i as int));
        n = n * 10 + (c as u32 - 48);
    }
    assert(s@.take(x@.len() as int) =~= s@);
    n <= 255
}

fn check_group(s: &str) -> (out: bool)
    ensures
        out == is_group(s@),
{
    let x: Vec<char> = text::chars_of(s);
    if x.len() == 0 || x.len() > 4 {
        return false;
    }
    for i in 0..x.len()
        invariant
            x@ == s@,
            forall|j: int| 0 <= j < i ==> is_hex(#[trigger] s@[j]),
    {
        let c: char = x[i];
        if !(('0' <= c && c <= '9') || ('a' <= c && c <= 'f') || ('A' <= c && c <= 'F')) {
            assert(!is_hex(s@[i as int]));
            return false;
        }
    }
    true
}

fn check_ipv4(s: &str) -> (out: bool)
    ensures
        out == is_ipv4(s@),
{
    let p: Vec<String> = text::split(s, '.');
    let ghost v = text::pieces(s@, '.');
    assert(v.len() == p@.len());
    assert forall|i: int| 0 <= i < v.len() implies v[i] == #[trigger] p@[i]@ by {}
    p.len() == 4 && check_octet(p[0].as_str()) && check_octet(p[1].as_str()) && check_octet(
        p[2].as_str(),
    ) && check_octet(p[3].as_str())
}

fn count_groups(s: &str, tail: bool) -> (out: Option<usize>)
    ensures
        out is Some == group_count(s@, tail) is Some,
        out matches Some(n) ==> n == group_count(s@, tail)->0,
{
    if s.is_empty() {
        return Some(0);
    }
    let p: Vec<String> = text::split(s, ':');
    let ghost v = text::pieces(s@, ':');
    assert(v.len() == p@.len());
    assert forall|i: int| 0 <= i < v.len() implies v[i] == #[trigger] p@[i]@ by {}
    if p.len() > 8 {
        return None;
    }
    let last: usize = p.len() - 1;
    for i in 0..last
        invariant
            last == p@.len() - 1,
            v == text::pieces(s@, ':'),
            v.len() == p@.len() <= 8,
            s@.len() > 0,
            forall|j: int| 0 <= j < v.len() ==> v[j] == #[trigger] p@[j]@,
            forall|j: int| 0 <= j < i ==> is_group(#[trigger] v[j]),
    {
        assert(v[i as int] == p@[i as int]@);
        if !check_group(p[i].as_str()) {
            assert(!is_group(v[i as int]));
            return None;
        }
    }
    assert(v[last as int] == p@[last as int]@);
    if check_group(p[last].as_str()) {
        Some(p.len())
    } else if tail && check_ipv4(p[last].as_str()) {
        Some(p.len() + 1)
    } else {
        None
    }
}

fn check_ipv6(s: &str) -> (out: bool)
    ensures
        out == is_ipv6(s@),
{
    proof {
        reveal_strlit("::");
    }
    match text::find(s, "::") {
        Some(i) => {
            let head: Option<usize> = count_groups(text::take(s, i).as_str(), false);
            let tail: Option<usize> = count_groups(text::skip(s, i + 2).as_str(), true);
            match (head, tail) {
                (Some(h), Some(t)) => h <= 7 && t <= 7 && h + t <= 7,
                _ => false,
            }
        },
        None => match count_groups(s, true) {
            Some(n) => n == 8,
            None => false,
        },
    }
}

fn is_ip_literal(s: &str) -> (out: bool)
    ensures
        out == ip_literal(s@),
{
    let x: Vec<char> = text::chars_of(s);
    if x.len() > 0 && x[0] == '[' && x[x.len() - 1] == ']' {
        let clean: String = text::slice(s, 1, x.len() - 1);
        check_ipv4(clean.as_str()) || check_ipv6(clean.as_str())
    } else {
        check_ipv4(s) || check_ipv6(s)
    }
}

// ---- addresses ----

/// An input as an absolute address: as it is where it has a scheme already, else with `http` for
/// this machine and for network addresses, and `https` for everything else.
pub open spec fn absolute(s: Seq<char>) -> Seq<char> {
    if text::has(s, "://"@) || text::begins(s, "about:"@) {
        s
    } else {
        let host = text::pieces(s, '/')[0];
        let bare = text::pieces(host, ':')[0];
        if text::same_letters(bare, "localhost"@) || ip_literal(host) || ip_literal(bare)
            || ip_literal(host_of(host)) {
            "http://"@ + s
        } else {
            "https://"@ + s
        }
    }
}

/// An address that can be opened from one that may lack its scheme.
pub fn normalize_url(input: &str) -> (out: String)
    ensures
        out@ == absolute(input@),
{
    if text::contains(input, "://") || text::starts_with(input, "about:") {
        return input.to_owned();
    }
    let by_slash: Vec<String> = text::split(input, '/');
    let host: &String = &by_slash[0];
    assert(host@ == text::pieces(input@, '/')[0]);
    let by_colon: Vec<String> = text::split(host.as_str(), ':');
    let bare: &String = &by_colon[0];
    assert(bare@ == text::pieces(host@, ':')[0]);
    let portless: String = cut_port(host.as_str());
    if text::eq_ignore_ascii_case(bare.as_str(), "localhost") || is_ip_literal(host.as_str())
        || is_ip_literal(bare.as_str()) || is_ip_literal(portless.as_str()) {
        text::concat2("http://", input)
    } else {
        text::concat2("https://", input)
    }
}

/// The schemes whose addresses are opened as they are typed, in letters of either case.
pub open spec fn known_scheme(s: Seq<char>) -> bool {
    ||| text::same_letters(s, "http"@)
    ||| text::same_letters(s, "https"@)
    ||| text::same_letters(s, "file"@)
    ||| text::same_letters(s, "jello"@)
}

/// The host in what stands before the first slash: without the port, unless the last colon
/// belongs to a bracketed address.
pub open spec fn host_of(s: Seq<char>) -> Seq<char> {
    match text::last_index(s, ':') {
        Some(i) => if s.skip(i).contains(']') {
            s
        } else {
            s.take(i)
        },
        None => s,
    }
}

/// Everything before the first slash.
pub open spec fn before_slash(s: Seq<char>) -> Seq<char> {
    match text::find_in(s, "/"@) {
        Some(i) => s.take(i),
        None => s,
    }
}

/// An ASCII letter.
pub open spec fn is_letter(c: char) -> bool {
    'a' <= c <= 'z' || 'A' <= c <= 'Z'
}

/// A top-level domain: two or more letters.
pub open spec fn is_domain_end(s: Seq<char>) -> bool {
    s.len() >= 2 && forall|i: int| 0 <= i < s.len() ==> is_letter(#[trigger] s[i])
}

/// Whether what was typed, free of white space at its ends and not empty, is an address that
/// only lacks its scheme.
pub open spec fn is_address(s: Seq<char>) -> bool {
    let host = host_of(before_slash(s));
    ||| s.last() == '/'
    ||| text::same_letters(host, "localhost"@)
    ||| ip_literal(host)
    ||| !s.contains(' ') && host.contains('.') && is_domain_end(
        text::pieces(text::strip_back(text::strip_front(host, '['), ']'), '.').last(),
    )
}

/// What an input line means.
pub open spec fn meaning(input: Seq<char>) -> Meaning {
    let s = text::trimmed(input);
    if s.len() == 0 {
        Meaning::SearchQuery(s)
    } else if s.last() == '/' {
        Meaning::Url(absolute(s))
    } else if text::find_in(s, "://"@) matches Some(i) && known_scheme(s.take(i)) {
        Meaning::Url(s)
    } else if is_address(s) {
        Meaning::Url(absolute(s))
    } else {
        Meaning::SearchQuery(s)
    }
}

/// Has a scheme, so that a page can be loaded from it.
pub open spec fn is_absolute(s: Seq<char>) -> bool {
    text::has(s, "://"@) || text::begins(s, "about:"@)
}

/// Whatever is taken for an address comes out absolute.
pub proof fn law_urls_are_absolute(input: Seq<char>)
    ensures
        meaning(input) matches Meaning::Url(u) ==> is_absolute(u),
{
    let s = text::trimmed(input);
    law_normalized_is_absolute(s);
    text::lemma_find_from(s, "://"@, 0);
}

/// Making an address absolute always succeeds, and doing it again changes nothing.
pub proof fn law_normalized_is_absolute(s: Seq<char>)
    ensures
        is_absolute(absolute(s)),
        absolute(absolute(s)) == absolute(s),
{
    reveal_strlit("://");
    reveal_strlit("http://");
    reveal_strlit("https://");
    let a = "http://"@ + s;
    let b = "https://"@ + s;
    assert(a.subrange(4, 7) =~= "://"@);
    assert(b.subrange(5, 8) =~= "://"@);
    assert(text::at(a, "://"@, 4));
    assert(text::at(b, "://"@, 5));
}

fn check_domain_end(s: &str) -> (out: bool)
    ensures
        out == is_domain_end(s@),
{
    let x: Vec<char> = text::chars_of(s);
    if x.len() < 2 {
        return false;
    }
    for i in 0..x.len()
        invariant
            x@ == s@,
            forall|j: int| 0 <= j < i ==> is_letter(#[trigger] s@[j]),
    {
        let c: char = x[i];
        if !(('a' <= c && c <= 'z') || ('A' <= c && c <= 'Z')) {
            assert(!is_letter(s@[i as int]));
            return false;
        }
    }
    true
}

fn cut_port(s: &str) -> (out: String)
    ensures
        out@ == host_of(s@),
{
    match text::rfind(s, ':') {
        Some(i) => {
            let port: String = text::skip(s, i);
            if text::contains_char(port.as_str(), ']') {
                s.to_owned()
            } else {
                text::take(s, i)
            }
        },
        None => s.to_owned(),
    }
}

fn find_host(s: &str) -> (out: String)
    ensures
        out@ == host_of(before_slash(s@)),
{
    match text::find(s, "/") {
        Some(i) => cut_port(text::take(s, i).as_str()),
        None => cut_port(s),
    }
}

/// Whether an input line is an address or a search.
pub fn classify_input(input: &str) -> (out: InputClassification)
    ensures
        out@ == meaning(input@),
{
    let trimmed: String = text::trim(input);
    let s: &str = trimmed.as_str();
    if s.is_empty() {
        return InputClassification::SearchQuery(trimmed);
    }
    proof {
        reveal_strlit("/");
        let last = s@.subrange(s@.len() - 1, s@.len() as int);
        assert("/"@ =~= seq!['/']);
        assert(last =~= seq![s@.last()]);
        assert(text::ends(s@, "/"@) == (s@.last() == '/')) by {
            assert(seq![s@.last()][0] == s@.last());
            assert(seq!['/'][0] == '/');
        }
    }
    if text::ends_with(s, "/") {
        return InputClassification::Url(normalize_url(s));
    }
    if let Some(pos) = text::find(s, "://") {
        let scheme: String = text::take(s, pos);
        let scheme: &str = scheme.as_str();
        if text::eq_ignore_ascii_case(scheme, "http") || text::eq_ignore_ascii_case(
            scheme,
            "https",
        ) || text::eq_ignore_ascii_case(scheme, "file") || text::eq_ignore_ascii_case(
            scheme,
            "jello",
        ) {
            return InputClassification::Url(trimmed);
        }
    }
    let host: String = find_host(s);
    if text::eq_ignore_ascii_case(host.as_str(), "localhost") {
        return InputClassification::Url(normalize_url(s));
    }
    if is_ip_literal(host.as_str()) {
        return InputClassification::Url(normalize_url(s));
    }
    if !text::contains_char(s, ' ') && text::contains_char(host.as_str(), '.') {
        let opened: String = text::trim_start_matches(host.as_str(), '[');
        let clean: String = text::trim_end_matches(opened.as_str(), ']');
        let labels: Vec<String> = text::split(clean.as_str(), '.');
        let last: &String = &labels[labels.len() - 1];
        assert(last@ == text::pieces(clean@, '.').last());
        if check_domain_end(last.as_str()) {
            return InputClassification::Url(normalize_url(s));
        }
    }
    InputClassification::SearchQuery(trimmed)
}

// ---- searches ----

/// The characters that stand for themselves in a query.
pub open spec fn is_unreserved(c: char) -> bool {
    ||| 'A' <= c <= 'Z'
    ||| 'a' <= c <= 'z'
    ||| '0' <= c <= '9'
    ||| c == '-'
    ||| c == '_'
    ||| c == '.'
    ||| c == '~'
}

/// A number below sixteen as a hexadecimal digit.
pub open spec fn hex_digit(n: int) -> char {
    if n < 10 {
        ('0' as int + n) as char
    } else {
        ('A' as int + n - 10) as char
    }
}

/// A byte as it stands in a query: itself, or a percent sign and two hexadecimal digits.
pub open spec fn encoded_byte(b: u8) -> Seq<char> {
    if is_unreserved(b as char) {
        seq![b as char]
    } else {
        seq!['%', hex_digit(b as int / 16), hex_digit(b as int % 16)]
    }
}

/// A row of bytes as it stands in a query.
pub open spec fn encoded(b: Seq<u8>) -> Seq<char>
    decreases b.len(),
{
    if b.len() == 0 {
        seq![]
    } else {
        encoded(b.drop_last()) + encoded_byte(b.last())
    }
}

/// A text as it stands in a query, by its bytes in UTF-8.
pub open spec fn percent_encoded(s: Seq<char>) -> Seq<char> {
    encoded(vstd::utf8::encode_utf8(s))
}

/// A character that may stand in an encoded query.
pub open spec fn is_query_char(c: char) -> bool {
    c == '%' || is_unreserved(c)
}

fn hex_char(n: u8) -> (out: char)
    requires
        n < 16,
    ensures
        out == hex_digit(n as int),
{
    if n < 10 {
        (48u8 + n) as char
    } else {
        (55u8 + n) as char
    }
}

/// A text in the form in which it can stand in the query of an address.
pub fn percent_encode(s: &str) -> (out: String)
    ensures
        out@ == percent_encoded(s@),
{
    let b: &[u8] = s.as_bytes();
    let mut out: String = String::new();
    for i in 0..b.len()
        invariant
            out@ == encoded(b@.take(i as int)),
    {
        let x: u8 = b[i];
        assert(b@.take(i + 1).drop_last() =~= b@.take(i as int));
        let ghost before = out@;
        let c: char = x as char;
        if ('A' <= c && c <= 'Z') || ('a' <= c && c <= 'z') || ('0' <= c && c <= '9') || c == '-'
            || c == '_' || c == '.' || c == '~' {
            out.push(c);
            assert(out@ =~= before + seq![c]);
        } else {
            out.push('%');
            out.push(hex_char(x / 16));
            out.push(hex_char(x % 16));
            assert(out@ =~= before + encoded_byte(x));
        }
    }
    assert(b@.take(b@.len() as int) =~= b@);
    out
}

/// An encoded text holds nothing but unreserved characters and percent signs: in particular no
/// space and none of the characters that divide an address into its parts.
pub proof fn law_encoded_is_plain(s: Seq<char>)
    ensures
        forall|i: int|
            0 <= i < percent_encoded(s).len() ==> is_query_char(#[trigger] percent_encoded(s)[i]),
{
    lemma_encoded_plain(vstd::utf8::encode_utf8(s));
}

proof fn lemma_encoded_plain(b: Seq<u8>)
    ensures
        forall|i: int| 0 <= i < encoded(b).len() ==> is_query_char(#[trigger] encoded(b)[i]),
    decreases b.len(),
{
    if b.len() > 0 {
        lemma_encoded_plain(b.drop_last());
        let x = b.last();
        assert forall|i: int| 0 <= i < encoded_byte(x).len() implies is_query_char(
            #[trigger] encoded_byte(x)[i],
        ) by {
            let n = hex_digit(x as int / 16);
            let m = hex_digit(x as int % 16);
        }
        assert forall|i: int| 0 <= i < encoded(b).len() implies is_query_char(
            #[trigger] encoded(b)[i],
        ) by {
            let k = encoded(b.drop_last()).len();
            if i >= k {
                assert(encoded(b)[i] == encoded_byte(x)[i - k]);
            }
        }
    }
}

/// The value of a hexadecimal digit.
pub open spec fn hex_value(c: char) -> int {
    if '0' <= c <= '9' {
        c as int - '0' as int
    } else if 'A' <= c <= 'F' {
        c as int - 'A' as int + 10
    } else {
        c as int - 'a' as int + 10
    }
}

/// The bytes that an encoded text stands for: each percent sign and the two digits behind it for
/// the byte with their value, every other character for itself.
pub open spec fn decoded(s: Seq<char>) -> Seq<u8>
    decreases s.len(),
{
    if s.len() == 0 {
        seq![]
    } else if s[0] == '%' && s.len() >= 3 {
        seq![(16 * hex_value(s[1]) + hex_value(s[2])) as u8] + decoded(s.skip(3))
    } else {
        seq![s[0] as u8] + decoded(s.skip(1))
    }
}

/// Decoding an encoded text gives its bytes back, and so two texts that differ are encoded
/// differently.
pub proof fn law_decoded_back(s: Seq<char>)
    ensures
        decoded(percent_encoded(s)) == vstd::utf8::encode_utf8(s),
        vstd::utf8::decode_utf8(decoded(percent_encoded(s))) == s,
{
    let b = vstd::utf8::encode_utf8(s);
    lemma_decoded(b, seq![]);
    assert(encoded(b) + seq![] =~= encoded(b));
    assert(b + decoded(seq![]) =~= b);
    vstd::utf8::encode_utf8_decode_utf8(s);
}

proof fn lemma_decoded(b: Seq<u8>, rest: Seq<char>)
    ensures
        decoded(encoded(b) + rest) == b + decoded(rest),
    decreases b.len(),
{
    if b.len() == 0 {
        assert(encoded(b) + rest =~= rest);
        assert(b + decoded(rest) =~= decoded(rest));
    } else {
        let x = b.last();
        let tail = encoded_byte(x) + rest;
        lemma_decoded(b.drop_last(), tail);
        assert(encoded(b) + rest =~= encoded(b.drop_last()) + tail);
        if is_unreserved(x as char) {
            assert(tail.skip(1) =~= rest);
            assert(tail[0] == x as char);
        } else {
            assert(tail.skip(3) =~= rest);
            assert(tail[0] == '%');
            assert(tail[1] == hex_digit(x as int / 16) && tail[2] == hex_digit(x as int % 16));
            assert(hex_value(tail[1]) == x as int / 16);
            assert(hex_value(tail[2]) == x as int % 16);
        }
        assert(decoded(tail) =~= seq![x] + decoded(rest));
        assert(b.drop_last() + decoded(tail) =~= b + decoded(rest));
    }
}

/// The first engine with the given keyword, from position `i` on.
pub open spec fn engine_for(engines: Seq<SearchEngine>, keyword: Seq<char>, i: int) -> Option<int>
    decreases engines.len() - i,
{
    if i >= engines.len() {
        None
    } else if engines[i].keyword@ == keyword {
        Some(i)
    } else {
        engine_for(engines, keyword, i + 1)
    }
}

/// A template with the encoded words in the place of every `%s`.
pub open spec fn filled(template: Seq<char>, words: Seq<char>) -> Seq<char> {
    text::replaced(template, "%s"@, percent_encoded(words))
}

/// The address that an input line searches at: that of the engine whose keyword is its first
/// word, for the rest of the line; else the default one, for the whole of it.
pub open spec fn search_address(
    input: Seq<char>,
    engines: Seq<SearchEngine>,
    default_template: Seq<char>,
) -> Seq<char> {
    let s = text::trimmed(input);
    match text::find_in(s, " "@) {
        Some(pos) => match engine_for(engines, s.take(pos), 0) {
            Some(i) => filled(engines[i].url_template@, text::trimmed(s.skip(pos + 1))),
            None => filled(default_template, s),
        },
        None => filled(default_template, s),
    }
}

/// A template with the encoded words in the place of every `%s`.
fn fill(template: &str, words: &str) -> (out: String)
    ensures
        out@ == filled(template@, words@),
{
    proof {
        reveal_strlit("%s");
    }
    text::replace(template, "%s", percent_encode(words).as_str())
}

/// The address that an input line searches at.
pub fn route_query(input: &str, engines: &[SearchEngine], default_template: &str) -> (out: String)
    ensures
        out@ == search_address(input@, engines@, default_template@),
{
    let trimmed: String = text::trim(input);
    let s: &str = trimmed.as_str();
    proof {
        reveal_strlit(" ");
    }
    if let Some(pos) = text::find(s, " ") {
        let keyword: String = text::take(s, pos);
        let tail: String = text::skip(s, pos + 1);
        let rest: String = text::trim(tail.as_str());
        for i in 0..engines.len()
            invariant
                keyword@ == s@.take(pos as int),
                rest@ == text::trimmed(s@.skip(pos + 1)),
                s@ == text::trimmed(input@),
                text::find_in(s@, " "@) == Some(pos as int),
                engine_for(engines@, keyword@, 0) == engine_for(engines@, keyword@, i as int),
        {
            if text::same(engines[i].keyword.as_str(), keyword.as_str()) {
                return fill(engines[i].url_template.as_str(), rest.as_str());
            }
        }
    }
    fill(default_template, s)
}

/// The template of the default engine: the one that the user has set, where it has a place for
/// the words, else DuckDuckGo.
pub open spec fn default_template(setting: Option<Seq<char>>) -> Seq<char> {
    match setting {
        Some(s) if text::has(s, "%s"@) => s,
        _ => "https://duckduckgo.com/?q=%s"@,
    }
}

/// The template of the default engine, given what the user has set.
pub fn default_search_url(setting: Option<String>) -> (out: String)
    ensures
        out@ == default_template(text::opt_view(setting)),
        text::has(out@, "%s"@),
{
    match setting {
        Some(s) => {
            if text::contains(s.as_str(), "%s") {
                return s;
            }
        },
        None => {},
    }
    proof {
        reveal_strlit("%s");
        reveal_strlit("https://duckduckgo.com/?q=%s");
        let t = "https://duckduckgo.com/?q=%s"@;
        assert(t.subrange(26, 28) =~= "%s"@);
        assert(text::at(t, "%s"@, 26));
    }
    "https://duckduckgo.com/?q=%s".to_owned()
}

/// The address that an input line leads to: the address that it is, or that of the search for
/// its words.
pub open spec fn address_for(
    input: Seq<char>,
    engines: Seq<SearchEngine>,
    template: Seq<char>,
) -> Seq<char> {
    match meaning(input) {
        Meaning::Url(u) => u,
        Meaning::SearchQuery(q) => search_address(q, engines, template),
    }
}

/// The address that an input line leads to.
pub fn resolve_input(input: &str, engines: &[SearchEngine], template: &str) -> (out: String)
    ensures
        out@ == address_for(input@, engines@, template@),
{
    match classify_input(input) {
        InputClassification::Url(u) => u,
        InputClassification::SearchQuery(q) => route_query(q.as_str(), engines, template),
    }
}

// ---- what addresses and searches amount to ----

/// A label of a host name: letters, digits and hyphens, at least one.
pub open spec fn is_label(s: Seq<char>) -> bool {
    s.len() > 0 && forall|i: int|
        0 <= i < s.len() ==> {
            let c = #[trigger] s[i];
            'a' <= c <= 'z' || 'A' <= c <= 'Z' || '0' <= c <= '9' || c == '-'
        }
}

/// Two or more letters.
pub open spec fn is_top_label(s: Seq<char>) -> bool {
    s.len() >= 2 && forall|i: int|
        0 <= i < s.len() ==> {
            let c = #[trigger] s[i];
            'a' <= c <= 'z' || 'A' <= c <= 'Z'
        }
}

/// Nothing, or a colon and decimal digits.
pub open spec fn is_port(s: Seq<char>) -> bool {
    s.len() == 0 || (s[0] == ':' && s.len() >= 2 && forall|i: int|
        1 <= i < s.len() ==> '0' <= #[trigger] s[i] <= '9')
}

/// Nothing, or a slash and what stands behind it, free of white space and of `://`.
pub open spec fn is_path(s: Seq<char>) -> bool {
    &&& s.len() == 0 || s[0] == '/'
    &&& text::no_white(s)
    &&& !(text::has(s, "://"@))
}

/// White space around an input line does not change what it means.
pub proof fn law_space_around(pre: Seq<char>, s: Seq<char>, post: Seq<char>)
    requires
        text::all_white(pre),
        text::all_white(post),
        s.len() > 0,
        !text::is_white(s[0]),
        !text::is_white(s.last()),
    ensures
        meaning(pre + s + post) == meaning(s),
        forall|engines: Seq<SearchEngine>, template: Seq<char>|
            #[trigger] search_address(pre + s + post, engines, template) == search_address(
                s,
                engines,
                template,
            ),
{
    text::law_trimmed(pre, s, post);
    text::law_trimmed_stays(s);
}

/// What stands before the first slash of a text that begins so.
proof fn lemma_before_slash(a: Seq<char>, rest: Seq<char>)
    requires
        !a.contains('/'),
        rest.len() == 0 || rest[0] == '/',
    ensures
        before_slash(a + rest) == a,
        text::pieces(a + rest, '/')[0] == a,
{
    let s = a + rest;
    reveal_strlit("/");
    assert("/"@ =~= seq!['/']);
    text::lemma_find_from(s, "/"@, 0);
    text::lemma_one_piece(a, '/');
    if rest.len() == 0 {
        assert(s =~= a);
        assert(text::find_in(s, "/"@) is None) by {
            if text::find_in(s, "/"@) is Some {
                let k = text::find_in(s, "/"@)->0;
                assert(s.subrange(k, k + 1)[0] == "/"@[0]);
                assert(a[k] == '/');
            }
        }
    } else {
        let n = a.len() as int;
        assert(s.subrange(n, n + 1) =~= "/"@);
        assert(text::at(s, "/"@, n));
        assert(text::find_in(s, "/"@) == Some(n)) by {
            let k = text::find_in(s, "/"@)->0;
            if k < n {
                assert(s.subrange(k, k + 1)[0] == "/"@[0]);
                assert(a[k] == '/');
            }
        }
        assert(s.take(n) =~= a);
        let tail = rest.skip(1);
        assert(s =~= a.push('/') + tail);
        text::law_pieces_apart(a, tail, '/');
        assert((text::pieces(a, '/') + text::pieces(tail, '/'))[0] == a);
    }
}

/// The host in a text that ends in a port.
proof fn lemma_host_of(host: Seq<char>, port: Seq<char>)
    requires
        !host.contains(':'),
        is_port(port),
    ensures
        host_of(host + port) == host,
        text::pieces(host + port, ':')[0] == host,
        text::pieces(host + port, ':').len() <= 2,
        !(text::has(host + port, "::"@)),
{
    let s = host + port;
    let n = host.len() as int;
    text::law_last_index(s, ':');
    text::lemma_one_piece(host, ':');
    reveal_strlit("::");
    if port.len() == 0 {
        assert(s =~= host);
    } else {
        assert(s[n] == port[0]);
        let k = text::last_index(s, ':')->0;
        assert(s.contains(':'));
        if k != n {
            if k < n {
                assert(s[n] != ':');
            } else {
                assert(s[k] == port[k - n]);
            }
        }
        assert(s.skip(n) =~= port);
        assert(!port.contains(']')) by {
            if port.contains(']') {
                let j = port.index_of(']');
                assert(port[j] == ']');
            }
        }
        assert(s.take(n) =~= host);
        let digits = port.skip(1);
        assert(!digits.contains(':')) by {
            if digits.contains(':') {
                let j = digits.index_of(':');
                assert(digits[j] == port[j + 1]);
            }
        }
        assert(s =~= host.push(':') + digits);
        text::law_pieces_apart(host, digits, ':');
        text::lemma_one_piece(digits, ':');
    }
    assert forall|i: int| !text::at(s, "::"@, i) by {
        if text::at(s, "::"@, i) {
            assert(s.subrange(i, i + 2)[0] == ':' && s.subrange(i, i + 2)[1] == ':');
            assert(s[i] == ':' && s[i + 1] == ':');
            if i + 1 < n {
                assert(host[i] == ':');
            } else if i < n {
                assert(host[i] == ':');
            } else {
                assert(s[i + 1] == port[i + 1 - n]);
            }
        }
    }
}

/// A text with one colon at most is no IPv6 address.
proof fn lemma_not_ipv6(s: Seq<char>)
    requires
        text::pieces(s, ':').len() <= 2,
        !(text::has(s, "::"@)),
    ensures
        !is_ipv6(s),
{
    text::lemma_find_from(s, "::"@, 0);
}

/// A text whose last label is no number is no IPv4 address.
proof fn lemma_not_ipv4(s: Seq<char>)
    requires
        !text::is_digits(text::pieces(s, '.').last()),
    ensures
        !is_ipv4(s),
{
}

/// Where a text with a host and a port in front and a path behind has no `://`, none stands in
/// the whole of it.
proof fn lemma_no_scheme(host: Seq<char>, port: Seq<char>, path: Seq<char>)
    requires
        !host.contains(':'),
        is_port(port),
        is_path(path),
    ensures
        !(text::has(host + port + path, "://"@)),
        text::find_in(host + port + path, "://"@) is None,
{
    let s = host + port + path;
    let n = host.len() as int;
    let m = n + port.len();
    reveal_strlit("://");
    assert forall|i: int| !text::at(s, "://"@, i) by {
        if text::at(s, "://"@, i) {
            let cut = s.subrange(i, i + 3);
            assert(cut[0] == ':' && cut[1] == '/');
            assert(s[i] == ':' && s[i + 1] == '/');
            if i < n {
                assert(host[i] == ':');
            } else if i < m {
                assert(port[i - n] == ':');
                assert(s[i + 1] == port[1]);
            } else {
                assert(path.subrange(i - m, i - m + 3) =~= cut);
                assert(text::at(path, "://"@, i - m));
            }
        }
    }
    text::lemma_find_from(s, "://"@, 0);
}

/// A host name with a port and a path behind it: nothing in it is white space, and it is neither
/// this machine nor a network address.
proof fn lemma_domain(
    labels: Seq<Seq<char>>,
    end: Seq<char>,
    port: Seq<char>,
    path: Seq<char>,
)
    requires
        labels.len() > 0,
        forall|i: int| 0 <= i < labels.len() ==> is_label(#[trigger] labels[i]),
        is_top_label(end),
        is_port(port),
        path.len() == 0 || path[0] == '/',
        text::no_white(path),
    ensures
        ({
            let host = text::joined(labels.push(end), seq!['.']);
            let hp = host + port;
            let s = hp + path;
            &&& s.len() > 0
            &&& text::trimmed(s) == s
            &&& is_address(s)
            &&& !host.contains(':')
            &&& text::pieces(s, '/')[0] == hp
            &&& text::pieces(hp, ':')[0] == host
            &&& host_of(hp) == host
            &&& !text::begins(s, "about:"@)
            &&& !text::same_letters(host, "localhost"@)
            &&& !ip_literal(hp)
            &&& !ip_literal(host)
        }),
{
    let parts = labels.push(end);
    let host = text::joined(parts, seq!['.']);
    let s = host + port + path;
    let ok = |c: char|
        'a' <= c <= 'z' || 'A' <= c <= 'Z' || '0' <= c <= '9' || c == '-' || c == '.';
    assert forall|i: int, j: int| 0 <= i < parts.len() && 0 <= j < parts[i].len() implies ok(
        #[trigger] parts[i][j],
    ) by {
        if i < labels.len() {
            assert(is_label(labels[i]));
            assert(parts[i] == labels[i]);
        }
    }
    text::lemma_joined_all(parts, seq!['.'], ok);
    // the labels of the host
    assert forall|i: int| 0 <= i < parts.len() implies !(#[trigger] parts[i]).contains('.') by {
        if i < labels.len() {
            assert(is_label(labels[i]));
            assert(parts[i] == labels[i]);
        }
    }
    text::law_joined_pieces(parts, '.');
    let front = text::joined(labels, seq!['.']);
    assert(parts.drop_last() =~= labels);
    assert(host =~= front + seq!['.'] + end);
    let d = front.len() as int;
    assert(host[d] == '.');
    assert(host.last() == end.last());
    assert(front.len() > 0) by {
        assert(labels[0].len() > 0) by {
            assert(is_label(labels[0]));
        }
        lemma_joined_longer(labels, seq!['.']);
    }
    assert(ok(host[0]) && ok(host[d]));
    assert(host[0] != '.') by {
        assert(is_label(labels[0]));
        lemma_joined_first(labels, seq!['.']);
        assert(host[0] == front[0]);
        assert(front[0] == labels[0][0]);
    }
    // no white space anywhere
    assert forall|i: int| 0 <= i < s.len() implies !text::is_white(#[trigger] s[i]) by {
        if i < host.len() {
            assert(s[i] == host[i]);
        } else if i < host.len() + port.len() {
            assert(s[i] == port[i - host.len()]);
        } else {
            assert(s[i] == path[i - host.len() - port.len()]);
        }
    }
    text::law_trimmed_stays(s);
    assert(!s.contains(' ')) by {
        if s.contains(' ') {
            let j = s.index_of(' ');
            assert(s[j] == ' ');
        }
    }
    // the parts of the text
    assert(!host.contains(':')) by {
        if host.contains(':') {
            let j = host.index_of(':');
            assert(host[j] == ':');
        }
    }
    let hp = host + port;
    assert(!hp.contains('/')) by {
        if hp.contains('/') {
            let j = hp.index_of('/');
            assert(hp[j] == '/');
            if j < host.len() {
                assert(host[j] == '/');
            } else {
                assert(port[j - host.len()] == '/');
            }
        }
    }
    lemma_before_slash(hp, path);
    lemma_host_of(host, port);
    assert(!text::begins(s, "about:"@)) by {
        reveal_strlit("about:");
        if text::begins(s, "about:"@) {
            let cut = s.subrange(0, 6);
            assert(forall|j: int| 0 <= j < 6 ==> #[trigger] s[j] == cut[j]);
            assert(s[d] == '.');
            if d >= 6 {
                assert(s[5] == host[5]);
            }
            assert(s[5] == ':');
            if d < 6 {
                assert(s[d] == "about:"@[d]);
            }
        }
    }
    // neither this machine nor a network address
    reveal_strlit("localhost");
    text::law_same_letters(host, "localhost"@);
    assert(!text::same_letters(host, "localhost"@)) by {
        if text::same_letters(host, "localhost"@) {
            assert(host[d] == '.');
            let c = "localhost"@[d];
            assert('a' <= c <= 'z');
        }
    }
    let tail = end + port;
    let longer = labels.push(tail);
    assert(longer.drop_last() =~= labels);
    assert(hp =~= text::joined(longer, seq!['.']));
    assert forall|i: int| 0 <= i < longer.len() implies !(#[trigger] longer[i]).contains('.') by {
        if i < labels.len() {
            assert(is_label(labels[i]));
            assert(longer[i] == labels[i]);
        } else {
            assert forall|j: int| 0 <= j < tail.len() implies tail[j] != '.' by {
                if j >= end.len() {
                    assert(tail[j] == port[j - end.len()]);
                }
            }
        }
    }
    text::law_joined_pieces(longer, '.');
    assert(longer.last()[0] == end[0]);
    lemma_not_ipv4(hp);
    lemma_not_ipv4(host);
    lemma_not_ipv6(hp);
    lemma_host_of(host, seq![]);
    assert(host + Seq::<char>::empty() =~= host);
    lemma_not_ipv6(host);
    assert(hp[0] == host[0] && hp[0] != '[');
    assert(!ip_literal(hp) && !ip_literal(host));
    // the last label
    assert(text::strip_front(host, '[') == host);
    assert(text::strip_back(host, ']') == host);
    assert(host.contains('.'));
    assert forall|i: int| 0 <= i < end.len() implies is_letter(#[trigger] end[i]) by {}
    assert(is_domain_end(text::pieces(host, '.').last()));
    assert(is_address(s));
}

/// Every text that is a host name with two labels or more, the last of them of two letters or more,
/// is an address, however many labels there are, and so it is with a port or a path behind it. The
/// address is the text with `https://` in front.
pub proof fn law_domain_is_address(
    labels: Seq<Seq<char>>,
    end: Seq<char>,
    port: Seq<char>,
    path: Seq<char>,
)
    requires
        labels.len() > 0,
        forall|i: int| 0 <= i < labels.len() ==> is_label(#[trigger] labels[i]),
        is_top_label(end),
        is_port(port),
        is_path(path),
    ensures
        ({
            let s = text::joined(labels.push(end), seq!['.']) + port + path;
            &&& meaning(s) == Meaning::Url("https://"@ + s)
            &&& absolute(s) == "https://"@ + s
            &&& forall|engines: Seq<SearchEngine>, template: Seq<char>|
                #[trigger] address_for(s, engines, template) == "https://"@ + s
        }),
{
    lemma_domain(labels, end, port, path);
    lemma_no_scheme(text::joined(labels.push(end), seq!['.']), port, path);
}

/// A host name with `://` somewhere behind its first slash is an address as it stands.
pub proof fn law_domain_with_inner_scheme(
    labels: Seq<Seq<char>>,
    end: Seq<char>,
    port: Seq<char>,
    path: Seq<char>,
)
    requires
        labels.len() > 0,
        forall|i: int| 0 <= i < labels.len() ==> is_label(#[trigger] labels[i]),
        is_top_label(end),
        is_port(port),
        path.len() > 0 && path[0] == '/',
        text::no_white(path),
        text::has(path, "://"@),
    ensures
        ({
            let s = text::joined(labels.push(end), seq!['.']) + port + path;
            meaning(s) == Meaning::Url(s)
        }),
{
    let hp = text::joined(labels.push(end), seq!['.']) + port;
    lemma_domain(labels, end, port, path);
    let i = choose|i: int| text::at(path, "://"@, i);
    let j = i + hp.len();
    assert((hp + path).subrange(j, j + "://"@.len()) =~= path.subrange(i, i + "://"@.len()));
    assert(text::at(hp + path, "://"@, j));
}

/// What is joined is at least as long as its first part.
proof fn lemma_joined_longer(parts: Seq<Seq<char>>, sep: Seq<char>)
    requires
        parts.len() > 0,
    ensures
        text::joined(parts, sep).len() >= parts[0].len(),
    decreases parts.len(),
{
    if parts.len() > 1 {
        lemma_joined_longer(parts.drop_last(), sep);
    }
}

/// What is joined begins with its first part.
proof fn lemma_joined_first(parts: Seq<Seq<char>>, sep: Seq<char>)
    requires
        parts.len() > 0,
        parts[0].len() > 0,
    ensures
        text::joined(parts, sep).len() > 0,
        text::joined(parts, sep)[0] == parts[0][0],
    decreases parts.len(),
{
    if parts.len() > 1 {
        lemma_joined_first(parts.drop_last(), sep);
    }
}

/// A host that is this machine or a network address, with a port and a path behind it, is opened
/// without encryption.
proof fn lemma_plain_host(host: Seq<char>, port: Seq<char>, path: Seq<char>)
    requires
        host.len() > 0,
        host[0] != 'a',
        text::no_white(host),
        !host.contains(':'),
        !host.contains('/'),
        text::same_letters(host, "localhost"@) || ip_literal(host),
        is_port(port),
        is_path(path),
    ensures
        ({
            let s = host + port + path;
            &&& meaning(s) == Meaning::Url("http://"@ + s)
            &&& absolute(s) == "http://"@ + s
        }),
{
    let s = host + port + path;
    let hp = host + port;
    assert forall|i: int| 0 <= i < s.len() implies !text::is_white(#[trigger] s[i]) by {
        if i < host.len() {
            assert(s[i] == host[i]);
        } else if i < hp.len() {
            assert(s[i] == port[i - host.len()]);
        } else {
            assert(s[i] == path[i - hp.len()]);
        }
    }
    text::law_trimmed_stays(s);
    assert(!hp.contains('/')) by {
        if hp.contains('/') {
            let j = hp.index_of('/');
            assert(hp[j] == '/');
            if j < host.len() {
                assert(host[j] == '/');
            } else {
                assert(port[j - host.len()] == '/');
            }
        }
    }
    lemma_before_slash(hp, path);
    lemma_host_of(host, port);
    lemma_no_scheme(host, port, path);
    assert(!text::begins(s, "about:"@)) by {
        reveal_strlit("about:");
        if text::begins(s, "about:"@) {
            assert(s.subrange(0, 6)[0] == 'a');
            assert(s[0] == host[0]);
        }
    }
}

/// This machine, in letters of either case, with or without a port and a path, is opened without
/// encryption.
pub proof fn law_local_host_is_address(host: Seq<char>, port: Seq<char>, path: Seq<char>)
    requires
        host.len() == 9,
        forall|i: int|
            0 <= i < 9 ==> #[trigger] host[i] == "localhost"@[i] || host[i] == "LOCALHOST"@[i],
        is_port(port),
        is_path(path),
    ensures
        meaning(host + port + path) == Meaning::Url("http://"@ + (host + port + path)),
        absolute(host + port + path) == "http://"@ + (host + port + path),
{
    reveal_strlit("localhost");
    reveal_strlit("LOCALHOST");
    text::law_same_letters(host, "localhost"@);
    assert forall|i: int| 0 <= i < 9 implies 'a' <= #[trigger] host[i] <= 'z' || 'A' <= host[i]
        <= 'Z' by {}
    assert(text::same_letters(host, "localhost"@));
    lemma_plain_host(host, port, path);
}

proof fn lemma_octet(n: nat)
    requires
        n <= 255,
    ensures
        is_octet(text::decimal(n)),
{
    text::law_number_read_back(n as int);
    let d = text::decimal(n);
    assert(d == text::decimal_int(n as int));
    reveal_with_fuel(text::decimal, 3);
    assert(d.len() <= 3);
}

/// Four numbers from 0 to 255 with dots between them, with or without a port and a path, are
/// opened without encryption.
pub proof fn law_ipv4_is_address(
    numbers: (nat, nat, nat, nat),
    port: Seq<char>,
    path: Seq<char>,
)
    requires
        numbers.0 <= 255,
        numbers.1 <= 255,
        numbers.2 <= 255,
        numbers.3 <= 255,
        is_port(port),
        is_path(path),
    ensures
        ({
            let parts = seq![
                text::decimal(numbers.0),
                text::decimal(numbers.1),
                text::decimal(numbers.2),
                text::decimal(numbers.3),
            ];
            let s = text::joined(parts, seq!['.']) + port + path;
            &&& meaning(s) == Meaning::Url("http://"@ + s)
            &&& absolute(s) == "http://"@ + s
        }),
{
    let parts = seq![
        text::decimal(numbers.0),
        text::decimal(numbers.1),
        text::decimal(numbers.2),
        text::decimal(numbers.3),
    ];
    lemma_octet(numbers.0);
    lemma_octet(numbers.1);
    lemma_octet(numbers.2);
    lemma_octet(numbers.3);
    let host = text::joined(parts, seq!['.']);
    let ok = |c: char| '0' <= c <= '9' || c == '.';
    assert forall|i: int, j: int| 0 <= i < parts.len() && 0 <= j < parts[i].len() implies ok(
        #[trigger] parts[i][j],
    ) by {
        assert(is_octet(parts[i]));
    }
    text::lemma_joined_all(parts, seq!['.'], ok);
    assert forall|i: int| 0 <= i < parts.len() implies !(#[trigger] parts[i]).contains('.') by {
        assert(is_octet(parts[i]));
    }
    text::law_joined_pieces(parts, '.');
    assert(is_octet(parts[0]));
    lemma_joined_longer(parts, seq!['.']);
    assert forall|i: int| 0 <= i < host.len() implies '0' <= #[trigger] host[i] <= '9' || host[i]
        == '.' by {
        assert(ok(host[i]));
    }
    assert(host[0] != '[');
    assert(ip_literal(host));
    lemma_plain_host(host, port, path);
}

/// Rows of digits with dots between them that are no four numbers from 0 to 255 without zeros in
/// front are no network address, and are searched for.
pub proof fn law_other_numbers_are_searched(parts: Seq<Seq<char>>)
    requires
        parts.len() > 0,
        forall|i: int| 0 <= i < parts.len() ==> text::is_digits(#[trigger] parts[i]),
        parts.len() != 4 || exists|i: int|
            0 <= i < 4 && (text::digits_value(#[trigger] parts[i]) > 255 || (parts[i].len() > 1
                && parts[i][0] == '0')),
    ensures
        meaning(text::joined(parts, seq!['.'])) == Meaning::SearchQuery(
            text::joined(parts, seq!['.']),
        ),
{
    let s = text::joined(parts, seq!['.']);
    let ok = |c: char| '0' <= c <= '9' || c == '.';
    assert forall|i: int, j: int| 0 <= i < parts.len() && 0 <= j < parts[i].len() implies ok(
        #[trigger] parts[i][j],
    ) by {
        assert(text::is_digits(parts[i]));
    }
    text::lemma_joined_all(parts, seq!['.'], ok);
    assert forall|i: int| 0 <= i < parts.len() implies !(#[trigger] parts[i]).contains('.') by {
        assert(text::is_digits(parts[i]));
    }
    text::law_joined_pieces(parts, '.');
    assert(text::is_digits(parts[0]));
    lemma_joined_longer(parts, seq!['.']);
    assert forall|i: int| 0 <= i < s.len() implies '0' <= #[trigger] s[i] <= '9' || s[i] == '.' by {
        assert(ok(s[i]));
    }
    lemma_no_parts(s);
    assert(!is_ipv4(s)) by {
        if is_ipv4(s) {
            let i = choose|i: int|
                0 <= i < 4 && (text::digits_value(#[trigger] parts[i]) > 255 || (parts[i].len() > 1
                    && parts[i][0] == '0'));
            assert(is_octet(parts[i]));
        }
    }
    reveal_strlit("localhost");
    text::law_same_letters(s, "localhost"@);
    assert(!text::same_letters(s, "localhost"@)) by {
        if text::same_letters(s, "localhost"@) {
            assert('0' <= s[0] <= '9' || s[0] == '.');
        }
    }
    assert(text::strip_front(s, '[') == s);
    assert(text::strip_back(s, ']') == s) by {
        assert('0' <= s[s.len() - 1] <= '9' || s[s.len() - 1] == '.');
    }
    let last = text::pieces(s, '.').last();
    assert(text::is_digits(parts[parts.len() - 1]));
    assert(!is_domain_end(last)) by {
        assert('0' <= last[0] <= '9');
    }
}

/// A text without colons and slashes is its own host, has no scheme and is no IPv6 address.
proof fn lemma_no_parts(s: Seq<char>)
    requires
        s.len() > 0,
        !s.contains(':'),
        !s.contains('/'),
        !text::is_white(s[0]),
        !text::is_white(s.last()),
    ensures
        text::trimmed(s) == s,
        before_slash(s) == s,
        host_of(s) == s,
        s.last() != '/',
        text::find_in(s, "://"@) is None,
        !is_ipv6(s),
{
    text::law_trimmed_stays(s);
    let none = Seq::<char>::empty();
    assert(s + none =~= s);
    assert(s + none + none =~= s);
    lemma_before_slash(s, none);
    lemma_host_of(s, none);
    assert(is_path(none)) by {
        reveal_strlit("://");
    }
    lemma_no_scheme(s, none, none);
    lemma_not_ipv6(s);
}

/// Words are searched for as they were typed: everything without a colon and a slash, except for
/// this machine's name, that holds a space or has no dot.
pub proof fn law_words_are_searched(s: Seq<char>)
    requires
        s.len() > 0,
        !text::is_white(s[0]),
        !text::is_white(s.last()),
        !s.contains(':'),
        !s.contains('/'),
        s.contains(' ') || !s.contains('.'),
        s.len() == 9 ==> exists|i: int|
            0 <= i < 9 && #[trigger] s[i] != "localhost"@[i] && s[i] != "LOCALHOST"@[i],
    ensures
        meaning(s) == Meaning::SearchQuery(s),
        forall|engines: Seq<SearchEngine>, template: Seq<char>|
            #[trigger] address_for(s, engines, template) == search_address(s, engines, template),
{
    lemma_no_parts(s);
    reveal_strlit("localhost");
    reveal_strlit("LOCALHOST");
    text::law_same_letters(s, "localhost"@);
    assert(!text::same_letters(s, "localhost"@)) by {
        if text::same_letters(s, "localhost"@) {
            let i = choose|i: int|
                0 <= i < 9 && #[trigger] s[i] != "localhost"@[i] && s[i] != "LOCALHOST"@[i];
            let c = "localhost"@[i];
            assert('a' <= c <= 'z');
            assert("LOCALHOST"@[i] as int == c as int - 32);
        }
    }
    let clean = if s[0] == '[' && s.last() == ']' {
        s.subrange(1, s.len() - 1)
    } else {
        s
    };
    assert(!ip_literal(s)) by {
        assert(!clean.contains(':')) by {
            if clean.contains(':') {
                let j = clean.index_of(':');
                assert(clean[j] == ':');
                assert(s.contains(clean[j])) by {
                    if s[0] == '[' && s.last() == ']' {
                        assert(s[j + 1] == ':');
                    } else {
                        assert(s[j] == ':');
                    }
                }
            }
        }
        let none = Seq::<char>::empty();
        assert(clean + none =~= clean);
        lemma_host_of(clean, none);
        lemma_not_ipv6(clean);
        if is_ipv4(clean) {
            let parts = text::pieces(clean, '.');
            text::law_pieces(clean, '.');
            let ok = |c: char| '0' <= c <= '9' || c == '.';
            assert(is_octet(parts[0]) && is_octet(parts[1]) && is_octet(parts[2]) && is_octet(
                parts[3],
            ));
            assert forall|i: int, j: int| 0 <= i < parts.len() && 0 <= j < parts[i].len() implies ok(
                #[trigger] parts[i][j],
            ) by {
                assert(text::is_digits(parts[i]));
            }
            text::lemma_joined_all(parts, seq!['.'], ok);
            if s.contains(' ') {
                let j = s.index_of(' ');
                assert(s[j] == ' ');
                if s[0] == '[' && s.last() == ']' {
                    assert(clean[j - 1] == ' ');
                    assert(ok(clean[j - 1]));
                } else {
                    assert(ok(clean[j]));
                }
            } else {
                assert(clean.contains('.')) by {
                    assert(parts.drop_last().len() == 3);
                    let front = text::joined(parts.drop_last(), seq!['.']);
                    assert(text::joined(parts, seq!['.'])[front.len() as int] == '.');
                }
                let j = clean.index_of('.');
                if s[0] == '[' && s.last() == ']' {
                    assert(s[j + 1] == '.');
                } else {
                    assert(s[j] == '.');
                }
            }
        }
    }
}

/// An address with a scheme that is known, in letters of either case, stays as it was typed.
pub proof fn law_known_scheme_kept(scheme: Seq<char>, rest: Seq<char>)
    requires
        text::same_letters(scheme, "http"@) || text::same_letters(scheme, "https"@)
            || text::same_letters(scheme, "file"@) || text::same_letters(scheme, "jello"@),
        rest.len() > 0 ==> !text::is_white(rest.last()),
    ensures
        meaning(scheme + "://"@ + rest) == Meaning::Url(scheme + "://"@ + rest),
        absolute(scheme + "://"@ + rest) == scheme + "://"@ + rest,
{
    reveal_strlit("://");
    reveal_strlit("http");
    reveal_strlit("https");
    reveal_strlit("file");
    reveal_strlit("jello");
    text::law_same_letters(scheme, "http"@);
    text::law_same_letters(scheme, "https"@);
    text::law_same_letters(scheme, "file"@);
    text::law_same_letters(scheme, "jello"@);
    let s = scheme + "://"@ + rest;
    let n = scheme.len() as int;
    assert forall|i: int| 0 <= i < n implies 'a' <= #[trigger] scheme[i] <= 'z' || 'A' <= scheme[i]
        <= 'Z' by {}
    assert(n >= 4);
    assert(s[0] == scheme[0]);
    assert(s.last() == if rest.len() > 0 {
        rest.last()
    } else {
        '/'
    });
    text::law_trimmed_stays(s);
    assert(s.subrange(n, n + 3) =~= "://"@);
    assert(text::at(s, "://"@, n));
    text::lemma_find_from(s, "://"@, 0);
    let k = text::find_in(s, "://"@)->0;
    assert(k == n) by {
        if k < n {
            assert(s.subrange(k, k + 3)[0] == ':');
            assert(s[k] == scheme[k]);
        }
    }
    assert(s.take(n) =~= scheme);
}

/// Without a scheme an address is made absolute by putting one in front and changing nothing else.
pub proof fn law_normalized_keeps_input(s: Seq<char>)
    ensures
        absolute(s) == s || absolute(s) == "http://"@ + s || absolute(s) == "https://"@ + s,
        text::has(s, "://"@) ==> absolute(s) == s,
        text::begins(s, "about:"@) ==> absolute(s) == s,
        !(text::has(s, "://"@)) && !text::begins(s, "about:"@) ==> absolute(s) != s,
{
    reveal_strlit("http://");
    reveal_strlit("https://");
    assert(("http://"@ + s).len() == s.len() + 7);
    assert(("https://"@ + s).len() == s.len() + 8);
}

/// Position `p` is that of the first space of a text, or its end where it has none.
pub open spec fn is_first_word(s: Seq<char>, p: int) -> bool {
    &&& 0 <= p <= s.len()
    &&& forall|i: int| 0 <= i < p ==> #[trigger] s[i] != ' '
    &&& p < s.len() ==> s[p] == ' '
}

proof fn lemma_first_word(s: Seq<char>, p: int)
    requires
        is_first_word(s, p),
    ensures
        text::find_in(s, " "@) == if p < s.len() {
            Some(p)
        } else {
            None
        },
{
    reveal_strlit(" ");
    assert(" "@ =~= seq![' ']);
    text::lemma_find_from(s, " "@, 0);
    if p < s.len() {
        assert(s.subrange(p, p + 1) =~= " "@);
        assert(text::at(s, " "@, p));
    }
    if text::find_in(s, " "@) is Some {
        let k = text::find_in(s, " "@)->0;
        assert(s.subrange(k, k + 1)[0] == ' ');
        assert(s[k] == ' ');
    }
}

proof fn lemma_engine_for(engines: Seq<SearchEngine>, keyword: Seq<char>, from: int, i: int)
    requires
        0 <= from <= i <= engines.len(),
        forall|j: int| from <= j < i ==> (#[trigger] engines[j]).keyword@ != keyword,
        i < engines.len() ==> engines[i].keyword@ == keyword,
    ensures
        engine_for(engines, keyword, from) == if i < engines.len() {
            Some(i)
        } else {
            None
        },
    decreases i - from,
{
    if from < i {
        lemma_engine_for(engines, keyword, from + 1, i);
    }
}

/// The template `%s` alone gives the encoded words.
proof fn lemma_bare_template(words: Seq<char>)
    ensures
        filled("%s"@, words) == percent_encoded(words),
{
    reveal_strlit("%s");
    let none = Seq::<char>::empty();
    assert(none + "%s"@ + none =~= "%s"@);
    text::law_replaced(none, none, "%s"@, percent_encoded(words));
    assert(none + percent_encoded(words) + text::replaced(none, "%s"@, percent_encoded(words))
        =~= percent_encoded(words));
}

/// Where no engine's keyword is what stands before the first space, the whole line is searched for:
/// what the template `%s` gives decodes to it, and every template is filled with that in the place
/// of each `%s`.
pub proof fn law_default_search(
    input: Seq<char>,
    engines: Seq<SearchEngine>,
    template: Seq<char>,
    p: int,
)
    requires
        is_first_word(text::trimmed(input), p),
        p < text::trimmed(input).len() ==> forall|i: int|
            0 <= i < engines.len() ==> (#[trigger] engines[i]).keyword@ != text::trimmed(input).take(
                p,
            ),
    ensures
        decoded(search_address(input, engines, "%s"@)) == vstd::utf8::encode_utf8(
            text::trimmed(input),
        ),
        vstd::utf8::decode_utf8(decoded(search_address(input, engines, "%s"@))) == text::trimmed(
            input,
        ),
        search_address(input, engines, template) == text::replaced(
            template,
            "%s"@,
            search_address(input, engines, "%s"@),
        ),
{
    let s = text::trimmed(input);
    lemma_first_word(s, p);
    if p < s.len() {
        lemma_engine_for(engines, s.take(p), 0, engines.len() as int);
    }
    lemma_bare_template(s);
    law_decoded_back(s);
}

/// Where a template has its place for the words once, the address is the template with the encoded
/// words there.
pub proof fn law_template_filled(
    input: Seq<char>,
    engines: Seq<SearchEngine>,
    front: Seq<char>,
    back: Seq<char>,
    p: int,
)
    requires
        is_first_word(text::trimmed(input), p),
        p < text::trimmed(input).len() ==> forall|i: int|
            0 <= i < engines.len() ==> (#[trigger] engines[i]).keyword@ != text::trimmed(input).take(
                p,
            ),
        !front.contains('%'),
        !back.contains('%'),
    ensures
        search_address(input, engines, front + "%s"@ + back) == front + percent_encoded(
            text::trimmed(input),
        ) + back,
{
    let s = text::trimmed(input);
    let t = front + "%s"@ + back;
    lemma_first_word(s, p);
    if p < s.len() {
        lemma_engine_for(engines, s.take(p), 0, engines.len() as int);
    }
    reveal_strlit("%s");
    assert forall|i: int| 0 <= i < front.len() implies !#[trigger] text::at(t, "%s"@, i) by {
        if text::at(t, "%s"@, i) {
            assert(t.subrange(i, i + 2)[0] == '%');
            assert(front[i] == '%');
        }
    }
    text::law_replaced(front, back, "%s"@, percent_encoded(s));
    assert forall|i: int| !text::at(back, "%s"@, i) by {
        if text::at(back, "%s"@, i) {
            assert(back.subrange(i, i + 2)[0] == '%');
            assert(back[i] == '%');
        }
    }
    text::law_nothing_replaced(back, "%s"@, percent_encoded(s));
}

/// Where the first word is an engine's keyword, the rest of the line is searched for with that
/// engine, as if it had been typed alone and the engine were the default one. Of engines with the
/// same keyword it is the first.
pub proof fn law_keyword_search(
    input: Seq<char>,
    engines: Seq<SearchEngine>,
    template: Seq<char>,
    p: int,
    i: int,
)
    requires
        is_first_word(text::trimmed(input), p),
        p < text::trimmed(input).len(),
        0 <= i < engines.len(),
        engines[i].keyword@ == text::trimmed(input).take(p),
        forall|j: int| 0 <= j < i ==> (#[trigger] engines[j]).keyword@ != engines[i].keyword@,
    ensures
        search_address(input, engines, template) == search_address(
            text::trimmed(input).skip(p + 1),
            seq![],
            engines[i].url_template@,
        ),
{
    let s = text::trimmed(input);
    lemma_first_word(s, p);
    lemma_engine_for(engines, s.take(p), 0, i);
}

/// A line of a single word is never taken for a keyword.
pub proof fn law_single_word_searched(
    input: Seq<char>,
    engines: Seq<SearchEngine>,
    template: Seq<char>,
)
    requires
        !text::trimmed(input).contains(' '),
    ensures
        search_address(input, engines, template) == search_address(input, seq![], template),
{
    let s = text::trimmed(input);
    assert(is_first_word(s, s.len() as int));
    lemma_first_word(s, s.len() as int);
}

/// A template of the user's own is taken where it has a place for the words, and only there.
pub proof fn law_default_template(setting: Seq<char>)
    ensures
        text::has(setting, "%s"@) ==> default_template(Some(setting)) == setting,
        !(text::has(setting, "%s"@)) ==> default_template(Some(setting)) == default_template(None),
        default_template(None) == "https://duckduckgo.com/?q="@ + "%s"@,
{
    reveal_strlit("%s");
    reveal_strlit("https://duckduckgo.com/?q=");
    reveal_strlit("https://duckduckgo.com/?q=%s");
    assert("https://duckduckgo.com/?q=%s"@ =~= "https://duckduckgo.com/?q="@ + "%s"@);
}

proof fn lemma_utf8_apart(a: Seq<char>, b: Seq<char>)
    ensures
        vstd::utf8::encode_utf8(a + b) == vstd::utf8::encode_utf8(a) + vstd::utf8::encode_utf8(b),
    decreases a.len(),
{
    if a.len() == 0 {
        assert(a + b =~= b);
        assert(vstd::utf8::encode_utf8(a) + vstd::utf8::encode_utf8(b) =~= vstd::utf8::encode_utf8(
            b,
        ));
    } else {
        lemma_utf8_apart(a.drop_first(), b);
        assert((a + b).drop_first() =~= a.drop_first() + b);
        assert((a + b)[0] == a[0]);
        assert(vstd::utf8::encode_utf8(a + b) =~= vstd::utf8::encode_utf8(a)
            + vstd::utf8::encode_utf8(b));
    }
}

proof fn lemma_encoded_apart(a: Seq<u8>, b: Seq<u8>)
    ensures
        encoded(a + b) == encoded(a) + encoded(b),
    decreases b.len(),
{
    if b.len() == 0 {
        assert(a + b =~= a);
        assert(encoded(a) + encoded(b) =~= encoded(a));
    } else {
        lemma_encoded_apart(a, b.drop_last());
        assert((a + b).drop_last() =~= a + b.drop_last());
        assert((a + b).last() == b.last());
        assert(encoded(a + b) =~= encoded(a) + encoded(b));
    }
}

/// Two texts one behind the other are encoded one behind the other.
pub proof fn law_encoded_apart(a: Seq<char>, b: Seq<char>)
    ensures
        percent_encoded(a + b) == percent_encoded(a) + percent_encoded(b),
{
    lemma_utf8_apart(a, b);
    lemma_encoded_apart(vstd::utf8::encode_utf8(a), vstd::utf8::encode_utf8(b));
}

proof fn lemma_encoded_same(b: Seq<u8>)
    requires
        forall|i: int| 0 <= i < b.len() ==> is_unreserved(#[trigger] b[i] as char),
    ensures
        encoded(b).len() == b.len(),
        forall|i: int| 0 <= i < b.len() ==> #[trigger] encoded(b)[i] == b[i] as char,
    decreases b.len(),
{
    if b.len() > 0 {
        lemma_encoded_same(b.drop_last());
        assert(is_unreserved(b[b.len() - 1] as char));
    }
}

/// Letters, digits and the marks `-`, `_`, `.` and `~` stand for themselves.
pub proof fn law_unreserved_kept(s: Seq<char>)
    requires
        forall|i: int|
            0 <= i < s.len() ==> {
                let c = #[trigger] s[i];
                'A' <= c <= 'Z' || 'a' <= c <= 'z' || '0' <= c <= '9' || c == '-' || c == '_' || c
                    == '.' || c == '~'
            },
    ensures
        percent_encoded(s) == s,
{
    let b = vstd::utf8::encode_utf8(s);
    assert(vstd::utf8::is_ascii_chars(s)) by {
        assert forall|i: int| 0 <= i < s.len() implies (#[trigger] s[i]) as nat <= 127 by {}
    }
    vstd::utf8::is_ascii_chars_encode_utf8(s);
    assert forall|i: int| 0 <= i < b.len() implies is_unreserved(#[trigger] b[i] as char)
        && b[i] as char == s[i] by {
        assert(s[i] as u8 == b[i]);
    }
    lemma_encoded_same(b);
    assert(percent_encoded(s) =~= s);
}

/// A capital letter or digit of the hexadecimal numbers.
pub open spec fn is_capital_hex(c: char) -> bool {
    '0' <= c <= '9' || 'A' <= c <= 'F'
}

/// Every other ASCII character stands as a percent sign and its number in two hexadecimal digits,
/// letters in capitals.
pub proof fn law_reserved_encoded(c: char)
    requires
        c as int <= 127,
        !('A' <= c <= 'Z' || 'a' <= c <= 'z' || '0' <= c <= '9' || c == '-' || c == '_' || c == '.'
            || c == '~'),
    ensures
        percent_encoded(seq![c]).len() == 3,
        percent_encoded(seq![c])[0] == '%',
        is_capital_hex(percent_encoded(seq![c])[1]),
        is_capital_hex(percent_encoded(seq![c])[2]),
        16 * hex_value(percent_encoded(seq![c])[1]) + hex_value(percent_encoded(seq![c])[2])
            == c as int,
{
    let s = seq![c];
    let b = vstd::utf8::encode_utf8(s);
    assert(vstd::utf8::is_ascii_chars(s));
    vstd::utf8::is_ascii_chars_encode_utf8(s);
    assert(s[0] as u8 == b[0]);
    assert(b[0] as char == c);
    assert(b.drop_last() =~= Seq::empty());
    assert(encoded(b.drop_last()) =~= Seq::empty());
    assert(encoded(b) =~= encoded_byte(b[0]));
    let n = b[0] as int;
    assert(hex_value(hex_digit(n / 16)) == n / 16);
    assert(hex_value(hex_digit(n % 16)) == n % 16);
}

proof fn lemma_escapes(b: Seq<u8>)
    ensures
        forall|i: int|
            0 <= i < encoded(b).len() && #[trigger] encoded(b)[i] == '%' ==> i + 2 < encoded(b).len()
                && is_capital_hex(encoded(b)[i + 1]) && is_capital_hex(encoded(b)[i + 2]),
    decreases b.len(),
{
    if b.len() > 0 {
        let front = encoded(b.drop_last());
        let x = b.last();
        let e = encoded_byte(x);
        let s = encoded(b);
        lemma_escapes(b.drop_last());
        assert forall|i: int| 0 <= i < s.len() && #[trigger] s[i] == '%' implies i + 2 < s.len()
            && is_capital_hex(s[i + 1]) && is_capital_hex(s[i + 2]) by {
            if i < front.len() {
                assert(front[i] == '%');
                assert(s[i + 1] == front[i + 1] && s[i + 2] == front[i + 2]);
            } else {
                assert(s[i] == e[i - front.len()]);
                let hi = hex_digit(x as int / 16);
                let lo = hex_digit(x as int % 16);
                assert(is_capital_hex(hi) && is_capital_hex(lo));
                assert(!is_unreserved(x as char));
                assert(i == front.len());
                assert(s[i + 1] == e[1] && s[i + 2] == e[2]);
            }
        }
    }
}

/// Behind every percent sign of an encoded text stand two hexadecimal digits, letters in capitals.
pub proof fn law_escapes_complete(s: Seq<char>, i: int)
    requires
        0 <= i < percent_encoded(s).len(),
        percent_encoded(s)[i] == '%',
    ensures
        i + 2 < percent_encoded(s).len(),
        is_capital_hex(percent_encoded(s)[i + 1]),
        is_capital_hex(percent_encoded(s)[i + 2]),
{
    lemma_escapes(vstd::utf8::encode_utf8(s));
}

/// Everything that ends in a slash is an address, whatever it is: itself where it has a scheme, else
/// with one put in front.
pub proof fn law_slash_at_the_end(s: Seq<char>)
    requires
        s.len() > 0,
        !text::is_white(s[0]),
        s.last() == '/',
    ensures
        meaning(s) == Meaning::Url(absolute(s)),
        text::has(s, "://"@) ==> meaning(s) == Meaning::Url(s),
{
    text::law_trimmed_stays(s);
}

/// An address with any other scheme of letters is searched for.
pub proof fn law_other_scheme_searched(scheme: Seq<char>, rest: Seq<char>)
    requires
        scheme.len() > 0,
        forall|i: int|
            0 <= i < scheme.len() ==> 'a' <= #[trigger] scheme[i] <= 'z' || 'A' <= scheme[i] <= 'Z',
        !text::same_letters(scheme, "http"@),
        !text::same_letters(scheme, "https"@),
        !text::same_letters(scheme, "file"@),
        !text::same_letters(scheme, "jello"@),
        !text::same_letters(scheme, "localhost"@),
        rest.len() > 0,
        !text::is_white(rest.last()),
        rest.last() != '/',
    ensures
        meaning(scheme + "://"@ + rest) == Meaning::SearchQuery(scheme + "://"@ + rest),
{
    reveal_strlit("://");
    let s = scheme + "://"@ + rest;
    let n = scheme.len() as int;
    assert(s[0] == scheme[0]);
    assert(s.last() == rest.last());
    text::law_trimmed_stays(s);
    assert(s.subrange(n, n + 3) =~= "://"@);
    assert(text::at(s, "://"@, n));
    text::lemma_find_from(s, "://"@, 0);
    let k = text::find_in(s, "://"@)->0;
    assert(k == n) by {
        if k < n {
            assert(s.subrange(k, k + 3)[0] == ':');
            assert(s[k] == scheme[k]);
        }
    }
    assert(s.take(n) =~= scheme);
    // the host is the scheme
    let head = scheme.push(':');
    let tail = s.skip(n + 1);
    assert(s =~= head + tail);
    assert(tail[0] == '/');
    assert(!head.contains('/')) by {
        if head.contains('/') {
            let j = head.index_of('/');
            assert(head[j] == '/');
            if j < n {
                assert(scheme[j] == '/');
            }
        }
    }
    lemma_before_slash(head, tail);
    text::law_last_index(head, ':');
    assert(head[n] == ':');
    let i = text::last_index(head, ':')->0;
    assert(i == n) by {
        assert(head.contains(':'));
        if i < n {
            assert(head[n] != ':');
        }
    }
    assert(!head.skip(n).contains(']')) by {
        assert(head.skip(n) =~= seq![':']);
    }
    assert(head.take(n) =~= scheme);
    assert(host_of(before_slash(s)) == scheme);
    assert(!scheme.contains('.') && !scheme.contains(':')) by {
        assert forall|j: int| 0 <= j < n implies scheme[j] != '.' && scheme[j] != ':' by {}
    }
    text::lemma_one_piece(scheme, '.');
    let none = Seq::<char>::empty();
    assert(scheme + none =~= scheme);
    lemma_host_of(scheme, none);
    lemma_not_ipv6(scheme);
    assert(!is_ipv4(scheme));
    assert(scheme[0] != '[');
}

/// A host in square brackets that can stand in an address: a network address.
proof fn lemma_bracketed(g: Seq<char>, port: Seq<char>, path: Seq<char>)
    requires
        is_ipv6(g),
        forall|i: int| 0 <= i < g.len() ==> is_hex(#[trigger] g[i]) || g[i] == ':' || g[i] == '.',
        is_port(port),
        is_path(path),
    ensures
        ({
            let s = seq!['['] + g + seq![']'] + port + path;
            &&& meaning(s) == Meaning::Url("http://"@ + s)
            &&& absolute(s) == "http://"@ + s
        }),
{
    let hb = seq!['['] + g + seq![']'];
    let hp = hb + port;
    let s = hp + path;
    let n = hb.len() as int;
    assert(hb[0] == '[' && hb.last() == ']');
    assert(hb.subrange(1, n - 1) =~= g);
    assert(ip_literal(hb));
    assert forall|i: int| 0 <= i < n implies {
        let c = #[trigger] hb[i];
        c == '[' || c == ']' || is_hex(c) || c == ':' || c == '.'
    } by {
        if 0 < i < n - 1 {
            assert(hb[i] == g[i - 1]);
        }
    }
    assert forall|i: int| 0 <= i < s.len() implies !text::is_white(#[trigger] s[i]) by {
        if i < n {
            assert(s[i] == hb[i]);
        } else if i < hp.len() {
            assert(s[i] == port[i - n]);
        } else {
            assert(s[i] == path[i - hp.len()]);
        }
    }
    text::law_trimmed_stays(s);
    assert(!hp.contains('/')) by {
        if hp.contains('/') {
            let j = hp.index_of('/');
            assert(hp[j] == '/');
            if j < n {
                assert(hb[j] == '/');
            } else {
                assert(port[j - n] == '/');
            }
        }
    }
    lemma_before_slash(hp, path);
    // the port is cut off, the colons in the brackets are not
    text::law_last_index(hp, ':');
    assert(host_of(hp) == hb) by {
        if port.len() == 0 {
            assert(hp =~= hb);
            if text::last_index(hp, ':') is Some {
                let i = text::last_index(hp, ':')->0;
                assert(hp.skip(i)[n - 1 - i] == ']');
            }
        } else {
            assert(hp[n] == ':');
            assert(hp.contains(':'));
            let i = text::last_index(hp, ':')->0;
            if i > n {
                assert(hp[i] == port[i - n]);
            } else if i < n {
                assert(hp[n] != ':');
            }
            assert(hp.skip(n) =~= port);
            assert(!port.contains(']')) by {
                if port.contains(']') {
                    let j = port.index_of(']');
                    assert(port[j] == ']');
                }
            }
            assert(hp.take(n) =~= hb);
        }
    }
    // there is no scheme
    reveal_strlit("://");
    assert forall|i: int| !text::at(s, "://"@, i) by {
        if text::at(s, "://"@, i) {
            let cut = s.subrange(i, i + 3);
            assert(cut[0] == ':' && cut[1] == '/');
            assert(s[i] == ':' && s[i + 1] == '/');
            if i < n {
                assert(s[i] == hb[i]);
                assert(i < n - 1);
                assert(s[i + 1] == hb[i + 1]);
            } else if i < hp.len() {
                assert(port[i - n] == ':');
                assert(s[i + 1] == port[1]);
            } else {
                assert(path.subrange(i - hp.len(), i - hp.len() + 3) =~= cut);
                assert(text::at(path, "://"@, i - hp.len()));
            }
        }
    }
    text::lemma_find_from(s, "://"@, 0);
    assert(!text::begins(s, "about:"@)) by {
        reveal_strlit("about:");
        if text::begins(s, "about:"@) {
            assert(s.subrange(0, 6)[0] == 'a');
            assert(s[0] == hb[0]);
        }
    }
}

/// One to four hexadecimal digits, in letters of either case.
pub open spec fn is_hex_group(s: Seq<char>) -> bool {
    1 <= s.len() <= 4 && forall|i: int|
        0 <= i < s.len() ==> {
            let c = #[trigger] s[i];
            '0' <= c <= '9' || 'a' <= c <= 'f' || 'A' <= c <= 'F'
        }
}

/// What joining groups with colons gives: no two colons stand side by side, and none at an end.
proof fn lemma_groups_joined(groups: Seq<Seq<char>>)
    requires
        forall|i: int| 0 <= i < groups.len() ==> is_hex_group(#[trigger] groups[i]),
    ensures
        ({
            let s = text::joined(groups, seq![':']);
            &&& forall|i: int| 0 <= i < s.len() ==> is_hex(#[trigger] s[i]) || s[i] == ':'
            &&& forall|i: int| 0 <= i < s.len() - 1 && #[trigger] s[i] == ':' ==> s[i + 1] != ':'
            &&& s.len() > 0 ==> s[0] != ':' && s.last() != ':'
            &&& s.len() == 0 <==> groups.len() == 0
            &&& groups.len() > 0 ==> text::pieces(s, ':') == groups
        }),
    decreases groups.len(),
{
    let s = text::joined(groups, seq![':']);
    assert forall|i: int| 0 <= i < groups.len() implies !(#[trigger] groups[i]).contains(':') by {
        assert(is_hex_group(groups[i]));
    }
    if groups.len() > 0 {
        text::law_joined_pieces(groups, ':');
        let last = groups[groups.len() - 1];
        assert(is_hex_group(last));
        assert forall|i: int| 0 <= i < last.len() implies is_hex(#[trigger] last[i]) && last[i] != ':' by {}
        if groups.len() == 1 {
            assert(s =~= last);
        } else {
            let front = groups.drop_last();
            assert forall|i: int| 0 <= i < front.len() implies is_hex_group(#[trigger] front[i]) by {
                assert(front[i] == groups[i]);
            }
            lemma_groups_joined(front);
            let a = text::joined(front, seq![':']);
            assert(s =~= a + seq![':'] + last);
            assert forall|i: int| 0 <= i < s.len() implies is_hex(#[trigger] s[i]) || s[i] == ':' by {
                if i < a.len() {
                    assert(s[i] == a[i]);
                } else if i > a.len() {
                    assert(s[i] == last[i - a.len() - 1]);
                }
            }
            assert forall|i: int| 0 <= i < s.len() - 1 && #[trigger] s[i] == ':' implies s[i + 1]
                != ':' by {
                if i < a.len() {
                    assert(s[i] == a[i]);
                    if i < a.len() - 1 {
                        assert(s[i + 1] == a[i + 1]);
                    }
                } else {
                    assert(s[i + 1] == last[i - a.len()]);
                }
            }
            assert(s[0] == a[0]);
            assert(s.last() == last.last());
        }
    }
}

proof fn lemma_group_count(groups: Seq<Seq<char>>, tail: bool)
    requires
        groups.len() <= 8,
        forall|i: int| 0 <= i < groups.len() ==> is_hex_group(#[trigger] groups[i]),
    ensures
        group_count(text::joined(groups, seq![':']), tail) == Some(groups.len() as int),
{
    lemma_groups_joined(groups);
    assert forall|i: int| 0 <= i < groups.len() implies is_group(#[trigger] groups[i]) by {
        assert(is_hex_group(groups[i]));
        assert forall|j: int| 0 <= j < groups[i].len() implies is_hex(#[trigger] groups[i][j]) by {}
    }
    if groups.len() > 0 {
        assert(is_group(groups[groups.len() - 1]));
    }
}

/// Eight groups of hexadecimal digits with colons between them, in square brackets, with or without
/// a port and a path, are opened without encryption.
pub proof fn law_ipv6_is_address(groups: Seq<Seq<char>>, port: Seq<char>, path: Seq<char>)
    requires
        groups.len() == 8,
        forall|i: int| 0 <= i < groups.len() ==> is_hex_group(#[trigger] groups[i]),
        is_port(port),
        is_path(path),
    ensures
        ({
            let s = seq!['['] + text::joined(groups, seq![':']) + seq![']'] + port + path;
            &&& meaning(s) == Meaning::Url("http://"@ + s)
            &&& absolute(s) == "http://"@ + s
        }),
{
    let g = text::joined(groups, seq![':']);
    lemma_groups_joined(groups);
    lemma_group_count(groups, true);
    reveal_strlit("::");
    text::lemma_find_from(g, "::"@, 0);
    if text::find_in(g, "::"@) is Some {
        let k = text::find_in(g, "::"@)->0;
        assert(g.subrange(k, k + 2)[0] == ':' && g.subrange(k, k + 2)[1] == ':');
        assert(g[k] == ':' && g[k + 1] == ':');
    }
    lemma_bracketed(g, port, path);
}

/// Fewer groups, seven at most in all, before and behind two colons, in square brackets, are opened
/// without encryption just so.
pub proof fn law_short_ipv6_is_address(
    front: Seq<Seq<char>>,
    back: Seq<Seq<char>>,
    port: Seq<char>,
    path: Seq<char>,
)
    requires
        front.len() + back.len() <= 7,
        forall|i: int| 0 <= i < front.len() ==> is_hex_group(#[trigger] front[i]),
        forall|i: int| 0 <= i < back.len() ==> is_hex_group(#[trigger] back[i]),
        is_port(port),
        is_path(path),
    ensures
        ({
            let g = text::joined(front, seq![':']) + "::"@ + text::joined(back, seq![':']);
            let s = seq!['['] + g + seq![']'] + port + path;
            &&& meaning(s) == Meaning::Url("http://"@ + s)
            &&& absolute(s) == "http://"@ + s
        }),
{
    let a = text::joined(front, seq![':']);
    let b = text::joined(back, seq![':']);
    reveal_strlit("::");
    let g = a + "::"@ + b;
    let n = a.len() as int;
    lemma_groups_joined(front);
    lemma_groups_joined(back);
    lemma_group_count(front, false);
    lemma_group_count(back, true);
    text::lemma_find_from(g, "::"@, 0);
    assert(g.subrange(n, n + 2) =~= "::"@);
    assert(text::at(g, "::"@, n));
    let k = text::find_in(g, "::"@)->0;
    assert(k == n) by {
        if k < n {
            assert(g.subrange(k, k + 2)[0] == ':' && g.subrange(k, k + 2)[1] == ':');
            assert(g[k] == ':' && g[k + 1] == ':');
            assert(a[k] == ':');
            if k < n - 1 {
                assert(a[k + 1] == ':');
            }
        }
    }
    assert(g.take(n) =~= a);
    assert(g.skip(n + 2) =~= b);
    assert forall|i: int| 0 <= i < g.len() implies is_hex(#[trigger] g[i]) || g[i] == ':' || g[i]
        == '.' by {
        if i < n {
            assert(g[i] == a[i]);
        } else if i >= n + 2 {
            assert(g[i] == b[i - n - 2]);
        }
    }
    lemma_bracketed(g, port, path);
}

/// Groups that are not eight, or one of which has more than four digits, are no network address
/// where no two colons stand side by side: such a text in square brackets is searched for.
pub proof fn law_other_groups_searched(groups: Seq<Seq<char>>)
    requires
        groups.len() > 0,
        forall|i: int|
            0 <= i < groups.len() ==> (#[trigger] groups[i]).len() > 0 && forall|j: int|
                0 <= j < groups[i].len() ==> is_hex(#[trigger] groups[i][j]),
        groups.len() != 8 || exists|i: int| 0 <= i < 8 && (#[trigger] groups[i]).len() > 4,
    ensures
        !is_ipv6(text::joined(groups, seq![':'])),
        !ip_literal(seq!['['] + text::joined(groups, seq![':']) + seq![']']),
{
    let g = text::joined(groups, seq![':']);
    let ok = |c: char| is_hex(c) || c == ':';
    assert forall|i: int, j: int| 0 <= i < groups.len() && 0 <= j < groups[i].len() implies ok(
        #[trigger] groups[i][j],
    ) by {
        assert(groups[i].len() > 0);
    }
    text::lemma_joined_all(groups, seq![':'], ok);
    assert forall|i: int| 0 <= i < groups.len() implies !(#[trigger] groups[i]).contains(':') by {
        if groups[i].contains(':') {
            let j = groups[i].index_of(':');
            assert(is_hex(groups[i][j]));
        }
    }
    text::law_joined_pieces(groups, ':');
    assert(groups[0].len() > 0);
    lemma_joined_longer(groups, seq![':']);
    lemma_no_double(groups);
    text::lemma_find_from(g, "::"@, 0);
    assert(!g.contains('.')) by {
        if g.contains('.') {
            let j = g.index_of('.');
            assert(ok(g[j]));
        }
    }
    text::lemma_one_piece(g, '.');
    assert(!is_ipv4(g));
    let last = groups[groups.len() - 1];
    assert(!is_ipv4(last)) by {
        assert(!last.contains('.')) by {
            if last.contains('.') {
                let j = last.index_of('.');
                assert(groups[groups.len() - 1].len() > 0);
                assert(is_hex(last[j]));
            }
        }
        text::lemma_one_piece(last, '.');
    }
    assert(!is_ipv6(g)) by {
        if groups.len() == 8 {
            let i = choose|i: int| 0 <= i < 8 && (#[trigger] groups[i]).len() > 4;
            assert(!is_group(groups[i]));
        }
    }
    let hb = seq!['['] + g + seq![']'];
    assert(hb.subrange(1, hb.len() - 1) =~= g);
    assert(hb.last() == ']');
}

proof fn lemma_no_double(groups: Seq<Seq<char>>)
    requires
        groups.len() > 0,
        forall|i: int|
            0 <= i < groups.len() ==> (#[trigger] groups[i]).len() > 0 && !groups[i].contains(':'),
    ensures
        text::find_in(text::joined(groups, seq![':']), "::"@) is None,
{
    let g = text::joined(groups, seq![':']);
    reveal_strlit("::");
    text::law_joined_pieces(groups, ':');
    text::lemma_find_from(g, "::"@, 0);
    if text::find_in(g, "::"@) is Some {
        let k = text::find_in(g, "::"@)->0;
        assert(g.subrange(k, k + 2)[0] == ':' && g.subrange(k, k + 2)[1] == ':');
        assert(g[k] == ':' && g[k + 1] == ':');
        let a = g.take(k);
        let b = g.skip(k + 2);
        let mid = Seq::<char>::empty();
        let rest = mid.push(':') + b;
        assert(g =~= a.push(':') + rest);
        text::law_pieces_apart(a, rest, ':');
        text::law_pieces_apart(mid, b, ':');
        text::lemma_one_piece(mid, ':');
        text::law_pieces(a, ':');
        let n = text::pieces(a, ':').len() as int;
        assert(groups =~= text::pieces(a, ':') + (seq![mid] + text::pieces(b, ':')));
        assert(groups[n] == mid);
    }
}

/// A host name that stands in square brackets is an address all the same.
pub proof fn law_bracketed_domain(labels: Seq<Seq<char>>, end: Seq<char>)
    requires
        labels.len() > 0,
        forall|i: int| 0 <= i < labels.len() ==> is_label(#[trigger] labels[i]),
        is_top_label(end),
    ensures
        ({
            let s = seq!['['] + text::joined(labels.push(end), seq!['.']) + seq![']'];
            meaning(s) == Meaning::Url("https://"@ + s)
        }),
{
    let parts = labels.push(end);
    let host = text::joined(parts, seq!['.']);
    let none = Seq::<char>::empty();
    assert(host + none =~= host);
    assert(host + none + none =~= host);
    lemma_domain(labels, end, none, none);
    let s = seq!['['] + host + seq![']'];
    let ok = |c: char|
        'a' <= c <= 'z' || 'A' <= c <= 'Z' || '0' <= c <= '9' || c == '-' || c == '.';
    assert forall|i: int, j: int| 0 <= i < parts.len() && 0 <= j < parts[i].len() implies ok(
        #[trigger] parts[i][j],
    ) by {
        if i < labels.len() {
            assert(is_label(labels[i]));
            assert(parts[i] == labels[i]);
        }
    }
    text::lemma_joined_all(parts, seq!['.'], ok);
    assert forall|i: int| 0 <= i < s.len() implies {
        let c = #[trigger] s[i];
        c == '[' || c == ']' || ok(c)
    } by {
        if 0 < i < s.len() - 1 {
            assert(s[i] == host[i - 1]);
            assert(ok(host[i - 1]));
        }
    }
    assert(s[0] == '[' && s.last() == ']');
    text::law_trimmed_stays(s);
    assert(!s.contains(':') && !s.contains('/') && !s.contains(' ')) by {
        assert forall|i: int| 0 <= i < s.len() implies s[i] != ':' && s[i] != '/' && s[i] != ' ' by {
            let c = s[i];
            assert(c == '[' || c == ']' || ok(c));
        }
    }
    lemma_no_parts(s);
    assert(s.subrange(1, s.len() - 1) =~= host);
    let front = text::joined(labels, seq!['.']);
    assert(parts.drop_last() =~= labels);
    assert(host =~= front + seq!['.'] + end);
    assert(host.len() > 0);
    assert(host[0] != '[' && host.last() != ']') by {
        assert(ok(host[0]) && ok(host[host.len() - 1]));
    }
    // the brackets come off
    let one = Seq::new(1, |i: int| '[');
    assert(one =~= seq!['[']);
    assert(s =~= one + (host + seq![']']));
    text::law_strip_front(1, host + seq![']'], '[');
    let close = Seq::new(1, |i: int| ']');
    assert(close =~= seq![']']);
    text::law_strip_back(host, 1, ']');
    assert forall|i: int| 0 <= i < parts.len() implies !(#[trigger] parts[i]).contains('.') by {
        if i < labels.len() {
            assert(is_label(labels[i]));
            assert(parts[i] == labels[i]);
        }
    }
    text::law_joined_pieces(parts, '.');
    assert forall|i: int| 0 <= i < end.len() implies is_letter(#[trigger] end[i]) by {}
    assert(s[front.len() + 1int] == '.');
    assert(s.contains('.'));
    reveal_strlit("localhost");
    text::law_same_letters(s, "localhost"@);
    assert(!text::same_letters(s, "localhost"@)) by {
        if text::same_letters(s, "localhost"@) {
            assert(s[0] == '[');
            assert("localhost"@[0] == 'l');
        }
    }
    assert(host[0] != '[');
    assert(!is_ipv4(host) && !is_ipv6(host));
    assert(!ip_literal(s));
    assert(text::find_in(s, "://"@) is None);
    assert(!(text::has(s, "://"@))) by {
        text::lemma_find_from(s, "://"@, 0);
        reveal_strlit("://");
        if text::has(s, "://"@) {
            let i = choose|i: int| text::at(s, "://"@, i);
            assert(i >= 0);
        }
    }
    assert(!text::begins(s, "about:"@)) by {
        reveal_strlit("about:");
        if text::begins(s, "about:"@) {
            assert(s.subrange(0, 6)[0] == 'a');
        }
    }
    text::lemma_one_piece(s, '/');
    text::lemma_one_piece(s, ':');
}

/// What joining texts with colons gives, where no text is empty or holds a colon: no two colons
/// stand side by side, and none at an end.
proof fn lemma_parts_joined(parts: Seq<Seq<char>>)
    requires
        forall|i: int|
            0 <= i < parts.len() ==> (#[trigger] parts[i]).len() > 0 && !parts[i].contains(':'),
    ensures
        ({
            let s = text::joined(parts, seq![':']);
            &&& forall|i: int| 0 <= i < s.len() - 1 && #[trigger] s[i] == ':' ==> s[i + 1] != ':'
            &&& s.len() > 0 ==> s[0] != ':' && s.last() != ':'
            &&& s.len() == 0 <==> parts.len() == 0
            &&& parts.len() > 0 ==> text::pieces(s, ':') == parts
        }),
    decreases parts.len(),
{
    let s = text::joined(parts, seq![':']);
    if parts.len() > 0 {
        text::law_joined_pieces(parts, ':');
        let last = parts[parts.len() - 1];
        assert(last.len() > 0 && !last.contains(':'));
        assert forall|i: int| 0 <= i < last.len() implies #[trigger] last[i] != ':' by {
            if last[i] == ':' {
                assert(last.contains(':'));
            }
        }
        if parts.len() == 1 {
            assert(s =~= last);
        } else {
            let front = parts.drop_last();
            assert forall|i: int| 0 <= i < front.len() implies (#[trigger] front[i]).len() > 0
                && !front[i].contains(':') by {
                assert(front[i] == parts[i]);
            }
            lemma_parts_joined(front);
            let a = text::joined(front, seq![':']);
            assert(s =~= a + seq![':'] + last);
            assert forall|i: int| 0 <= i < s.len() - 1 && #[trigger] s[i] == ':' implies s[i + 1]
                != ':' by {
                if i < a.len() {
                    assert(s[i] == a[i]);
                    if i < a.len() - 1 {
                        assert(s[i + 1] == a[i + 1]);
                    }
                } else {
                    assert(s[i + 1] == last[i - a.len()]);
                }
            }
            assert(s[0] == a[0]);
            assert(s.last() == last.last());
        }
    }
}

/// Where the two colons stand that stand for the groups left out.
proof fn lemma_two_colons(front: Seq<Seq<char>>, back: Seq<Seq<char>>)
    requires
        forall|i: int|
            0 <= i < front.len() ==> (#[trigger] front[i]).len() > 0 && !front[i].contains(':'),
        forall|i: int|
            0 <= i < back.len() ==> (#[trigger] back[i]).len() > 0 && !back[i].contains(':'),
    ensures
        ({
            let a = text::joined(front, seq![':']);
            let b = text::joined(back, seq![':']);
            let g = a + "::"@ + b;
            &&& text::find_in(g, "::"@) == Some(a.len() as int)
            &&& g.take(a.len() as int) == a
            &&& g.skip(a.len() + 2int) == b
        }),
{
    let a = text::joined(front, seq![':']);
    let b = text::joined(back, seq![':']);
    reveal_strlit("::");
    let g = a + "::"@ + b;
    let n = a.len() as int;
    lemma_parts_joined(front);
    text::lemma_find_from(g, "::"@, 0);
    assert(g.subrange(n, n + 2) =~= "::"@);
    assert(text::at(g, "::"@, n));
    let k = text::find_in(g, "::"@)->0;
    assert(k == n) by {
        if k < n {
            assert(g.subrange(k, k + 2)[0] == ':' && g.subrange(k, k + 2)[1] == ':');
            assert(g[k] == ':' && g[k + 1] == ':');
            assert(a[k] == ':');
            if k < n - 1 {
                assert(a[k + 1] == ':');
            }
        }
    }
    assert(g.take(n) =~= a);
    assert(g.skip(n + 2) =~= b);
}

/// With two colons somewhere between them, texts without colons and dots make a network address
/// exactly if each is one to four hexadecimal digits and there are no more than seven.
pub proof fn law_short_ipv6(front: Seq<Seq<char>>, back: Seq<Seq<char>>)
    requires
        forall|i: int|
            0 <= i < front.len() ==> (#[trigger] front[i]).len() > 0 && !front[i].contains(':')
                && !front[i].contains('.'),
        forall|i: int|
            0 <= i < back.len() ==> (#[trigger] back[i]).len() > 0 && !back[i].contains(':')
                && !back[i].contains('.'),
    ensures
        is_ipv6(text::joined(front, seq![':']) + "::"@ + text::joined(back, seq![':'])) <==> {
            &&& front.len() + back.len() <= 7
            &&& forall|i: int| 0 <= i < front.len() ==> is_hex_group(#[trigger] front[i])
            &&& forall|i: int| 0 <= i < back.len() ==> is_hex_group(#[trigger] back[i])
        },
{
    lemma_two_colons(front, back);
    lemma_counted(front, false);
    lemma_counted(back, true);
}

proof fn lemma_counted(parts: Seq<Seq<char>>, tail: bool)
    requires
        forall|i: int|
            0 <= i < parts.len() ==> (#[trigger] parts[i]).len() > 0 && !parts[i].contains(':')
                && !parts[i].contains('.'),
    ensures
        ({
            let n = group_count(text::joined(parts, seq![':']), tail);
            let sound = parts.len() <= 8 && forall|i: int|
                0 <= i < parts.len() ==> is_hex_group(#[trigger] parts[i]);
            &&& n is Some <==> sound
            &&& sound ==> n == Some(parts.len() as int)
        }),
{
    lemma_parts_joined(parts);
    assert forall|i: int| 0 <= i < parts.len() implies is_group(#[trigger] parts[i])
        == is_hex_group(parts[i]) by {}
    if parts.len() > 0 {
        let last = parts[parts.len() - 1];
        assert(!last.contains('.'));
        text::lemma_one_piece(last, '.');
        assert(!is_ipv4(last));
        assert(is_group(last) == is_hex_group(last));
        let p = text::pieces(text::joined(parts, seq![':']), ':');
        assert(p == parts);
        if forall|i: int| 0 <= i < parts.len() ==> is_hex_group(#[trigger] parts[i]) {
            assert forall|i: int| 0 <= i < p.len() - 1 implies is_group(#[trigger] p[i]) by {
                assert(is_hex_group(parts[i]));
            }
        } else {
            let i = choose|i: int| 0 <= i < parts.len() && !is_hex_group(#[trigger] parts[i]);
            assert(!is_group(p[i]));
        }
    }
}

/// The last two groups may be written as four numbers with dots, which count for two: at the end of
/// eight groups without two colons, and behind two colons.
pub proof fn law_ipv6_ends_in_numbers(
    front: Seq<Seq<char>>,
    back: Seq<Seq<char>>,
    numbers: Seq<char>,
)
    requires
        forall|i: int| 0 <= i < front.len() ==> is_hex_group(#[trigger] front[i]),
        forall|i: int| 0 <= i < back.len() ==> is_hex_group(#[trigger] back[i]),
        is_ipv4(numbers),
        !numbers.contains(':'),
    ensures
        is_ipv6(
            text::joined(front, seq![':']) + "::"@ + text::joined(back.push(numbers), seq![':']),
        ) <==> front.len() + back.len() <= 5,
        is_ipv6(text::joined(back.push(numbers), seq![':'])) <==> back.len() == 6,
{
    let parts = back.push(numbers);
    assert(numbers.len() > 0) by {
        if numbers.len() == 0 {
            assert(!numbers.contains('.'));
            text::lemma_one_piece(numbers, '.');
        }
    }
    assert(numbers.contains('.')) by {
        if !numbers.contains('.') {
            text::lemma_one_piece(numbers, '.');
        }
    }
    assert(!is_group(numbers)) by {
        let j = numbers.index_of('.');
        assert(!is_hex(numbers[j]));
    }
    assert forall|i: int| 0 <= i < front.len() implies (#[trigger] front[i]).len() > 0
        && !front[i].contains(':') && !front[i].contains('.') by {
        assert(is_hex_group(front[i]));
    }
    assert forall|i: int| 0 <= i < parts.len() implies (#[trigger] parts[i]).len() > 0
        && !parts[i].contains(':') by {
        if i < back.len() {
            assert(is_hex_group(back[i]));
            assert(parts[i] == back[i]);
        }
    }
    lemma_parts_joined(parts);
    let b = text::joined(parts, seq![':']);
    let p = text::pieces(b, ':');
    assert(p == parts && p.last() == numbers);
    assert forall|i: int| 0 <= i < p.len() - 1 implies is_group(#[trigger] p[i]) by {
        assert(is_hex_group(back[i]));
    }
    lemma_counted(front, false);
    lemma_two_colons(front, parts);
    reveal_strlit("::");
    text::lemma_find_from(b, "::"@, 0);
    if text::find_in(b, "::"@) is Some {
        let k = text::find_in(b, "::"@)->0;
        assert(b.subrange(k, k + 2)[0] == ':' && b.subrange(k, k + 2)[1] == ':');
        assert(b[k] == ':' && b[k + 1] == ':');
    }
}

} // verus!
