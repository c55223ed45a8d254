//! The command palette: what it offers for what is typed, and what choosing a line does.

use vstd::prelude::*;
use vstd::string::*;
use nucleo_matcher::pattern::{CaseMatching, Normalization, Pattern};
use nucleo_matcher::{Config, Matcher, Utf32String};
use crate::db::bookmarks::BookmarkDbEntry;
use crate::db::history::HistoryDbEntry;
use crate::ipc_types::{PaletteItem, PaletteResults, Tab};
use crate::rank;
use crate::search;
use crate::search::SearchEngine;
use crate::text;

verus! {

// ---- titles ----

/// `s` without every `pre` at its front.
pub open spec fn strip_all(s: Seq<char>, pre: Seq<char>) -> Seq<char>
    decreases s.len(),
{
    if pre.len() > 0 && text::begins(s, pre) {
        strip_all(s.skip(pre.len() as int), pre)
    } else {
        s
    }
}

/// What stands between the first `://` of an address and the next slash or `://`.
pub open spec fn host_part(url: Seq<char>) -> Option<Seq<char>> {
    match text::find_in(url, "://"@) {
        Some(i) => {
            let rest = url.skip(i + 3);
            let part = match text::find_in(rest, "://"@) {
                Some(j) => rest.take(j),
                None => rest,
            };
            Some(text::pieces(part, '/')[0])
        },
        None => None,
    }
}

/// The title that a tab is shown with: its own, or the host of its address, or the address.
pub open spec fn display_title(title: Option<Seq<char>>, url: Seq<char>) -> Seq<char> {
    match title {
        Some(t) if text::trimmed(t).len() > 0 => t,
        _ => match host_part(url) {
            Some(h) if strip_all(h, "www."@).len() > 0 => strip_all(h, "www."@),
            _ => url,
        },
    }
}

fn strip_www(s: &str) -> (out: String)
    ensures
        out@ == strip_all(s@, "www."@),
    decreases s@.len(),
{
    proof {
        reveal_strlit("www.");
    }
    if text::starts_with(s, "www.") {
        let rest: String = text::skip(s, 4);
        strip_www(rest.as_str())
    } else {
        s.to_owned()
    }
}

fn find_host_part(url: &str) -> (out: Option<String>)
    ensures
        text::opt_view(out) == host_part(url@),
{
    proof {
        reveal_strlit("://");
    }
    match text::find(url, "://") {
        Some(i) => {
            let rest: String = text::skip(url, i + 3);
            let part: String = match text::find(rest.as_str(), "://") {
                Some(j) => text::take(rest.as_str(), j),
                None => rest,
            };
            let pieces: Vec<String> = text::split(part.as_str(), '/');
            let host: String = pieces[0].clone();
            assert(host@ == text::pieces(part@, '/')[0]);
            Some(host)
        },
        None => None,
    }
}

/// The title that a tab is shown with.
pub fn tab_display_title(title: &Option<String>, url: &str) -> (out: String)
    ensures
        out@ == display_title(text::opt_view(*title), url@),
{
    if let Some(t) = title {
        if !text::trim(t.as_str()).as_str().is_empty() {
            return t.clone();
        }
    }
    if let Some(h) = find_host_part(url) {
        let bare: String = strip_www(h.as_str());
        if !bare.as_str().is_empty() {
            return bare;
        }
    }
    url.to_owned()
}

// ---- fuzzy matching ----

/// The score of a text for a query, if it matches, and the positions in the text that matched.
pub uninterp spec fn fuzzy(query: Seq<char>, haystack: Seq<char>) -> (Option<u32>, Seq<u32>);

/// The longest word whose score stays within sixteen bits, a backslash counted twice.
pub const MAX_WORD: usize = 2520;

/// The longest query whose score stays within 32 bits.
pub const MAX_QUERY: usize = 50_000_000;

/// The length of the word that `s` ends in. Words end at a space, unless a backslash stands
/// before it. A backslash counts twice: it may be looked for twice.
pub open spec fn last_word(s: Seq<char>) -> int
    decreases s.len(),
{
    if s.len() == 0 || (s.last() == ' ' && !(s.len() >= 2 && s[s.len() - 2] == '\\')) {
        0
    } else if s.last() == '\\' {
        last_word(s.drop_last()) + 2
    } else {
        last_word(s.drop_last()) + 1
    }
}

/// A query whose words are all short enough to be scored in any text.
pub open spec fn scorable(query: Seq<char>) -> bool {
    forall|k: int| 0 <= k <= query.len() ==> last_word(#[trigger] query.take(k)) <= MAX_WORD
}

/// Whether the words of a query are all short enough to be scored in any text.
pub fn query_fits(query: &str) -> (out: bool)
    ensures
        out == scorable(query@),
{
    let x: Vec<char> = text::chars_of(query);
    let mut run: usize = 0;
    for i in 0..x.len()
        invariant
            x@ == query@,
            run == last_word(query@.take(i as int)),
            run <= MAX_WORD,
            forall|k: int| 0 <= k <= i ==> last_word(#[trigger] query@.take(k)) <= MAX_WORD,
    {
        proof {
            let t = query@.take(i + 1);
            assert(t.drop_last() =~= query@.take(i as int));
            assert(t.last() == query@[i as int]);
            if i > 0 {
                assert(t[t.len() - 2] == query@[i - 1]);
            }
        }
        if x[i] == ' ' && !(i > 0 && x[i - 1] == '\\') {
            run = 0;
        } else if x[i] == '\\' {
            run = run + 2;
        } else {
            run = run + 1;
        }
        if run > MAX_WORD {
            assert(last_word(query@.take(i + 1)) > MAX_WORD);
            return false;
        }
    }
    assert(query@.take(x@.len() as int) =~= query@);
    true
}

/// A character that a query can hold without its marks being looked for: it belongs to a script
/// whose letters the matcher does not strip of their marks.
pub open spec fn keeps_its_form(c: char) -> bool {
    ||| c < '\u{c0}'
    ||| '\u{370}' <= c < '\u{1d00}'
    ||| '\u{3000}' <= c < '\u{a000}'
    ||| '\u{ac00}' <= c < '\u{d7b0}'
}

/// A small letter that stands for another one where case is ignored.
pub open spec fn is_variant_letter(c: char) -> bool {
    ||| c == '\u{b5}'
    ||| c == '\u{17f}'
    ||| c == '\u{345}'
    ||| c == '\u{3c2}'
    ||| '\u{3d0}' <= c <= '\u{3d1}'
    ||| '\u{3d5}' <= c <= '\u{3d6}'
    ||| '\u{3f0}' <= c <= '\u{3f1}'
    ||| c == '\u{3f5}'
    ||| '\u{13f8}' <= c <= '\u{13fd}'
    ||| '\u{1c80}' <= c <= '\u{1c88}'
    ||| c == '\u{1e9b}'
    ||| c == '\u{1fbe}'
    ||| '\u{ab70}' <= c <= '\u{abbf}'
}

/// A query whose marks are not looked for.
pub open spec fn without_marks(query: Seq<char>) -> bool {
    forall|i: int| 0 <= i < query.len() ==> keeps_its_form(#[trigger] query[i])
}

/// The letter that a letter stands for where case is ignored, as far as letters are concerned for
/// which a variant letter stands too.
pub open spec fn folded(c: char) -> int {
    let n = c as int;
    if c == 'S' || n == 0x17f {
        's' as int
    } else if n == 0xb5 {
        0x3bc
    } else if n == 0x345 || n == 0x1fbe {
        0x3b9
    } else if 0x391 <= n <= 0x3a9 || 0x410 <= n <= 0x42f {
        n + 0x20
    } else if n == 0x3c2 {
        0x3c3
    } else if n == 0x3d0 {
        0x3b2
    } else if n == 0x3d1 || n == 0x3f4 {
        0x3b8
    } else if n == 0x3d5 {
        0x3c6
    } else if n == 0x3d6 {
        0x3c0
    } else if n == 0x3f0 {
        0x3ba
    } else if n == 0x3f1 {
        0x3c1
    } else if n == 0x3f5 {
        0x3b5
    } else if n == 0x462 || n == 0x1c87 {
        0x463
    } else if 0x13f8 <= n <= 0x13fd {
        n - 8
    } else if n == 0x1c80 {
        0x432
    } else if n == 0x1c81 {
        0x434
    } else if n == 0x1c82 {
        0x43e
    } else if n == 0x1c83 {
        0x441
    } else if n == 0x1c84 || n == 0x1c85 {
        0x442
    } else if n == 0x1c86 {
        0x44a
    } else if n == 0xa64a || n == 0x1c88 {
        0xa64b
    } else if n == 0x1e60 || n == 0x1e9b {
        0x1e61
    } else if 0xab70 <= n <= 0xabbf {
        n - 0x97d0
    } else {
        n
    }
}

/// No letter of the query is the one that a variant letter of the text stands for.
pub open spec fn no_clash(query: Seq<char>, haystack: Seq<char>) -> bool {
    forall|i: int, j: int|
        0 <= i < query.len() && 0 <= j < haystack.len() && is_variant_letter(#[trigger] haystack[j])
            ==> folded(#[trigger] query[i]) != folded(haystack[j])
}

fn has_no_marks(query: &Vec<char>) -> (out: bool)
    ensures
        out == without_marks(query@),
{
    for i in 0..query.len()
        invariant
            forall|j: int| 0 <= j < i ==> keeps_its_form(#[trigger] query@[j]),
    {
        let c: char = query[i];
        if !(c < '\u{c0}' || ('\u{370}' <= c && c < '\u{1d00}') || ('\u{3000}' <= c && c
            < '\u{a000}') || ('\u{ac00}' <= c && c < '\u{d7b0}')) {
            assert(!keeps_its_form(query@[i as int]));
            return false;
        }
    }
    true
}

fn fold_letter(c: char) -> (out: u32)
    ensures
        out == folded(c),
{
    let n: u32 = c as u32;
    if c == 'S' || n == 0x17f {
        0x73
    } else if n == 0xb5 {
        0x3bc
    } else if n == 0x345 || n == 0x1fbe {
        0x3b9
    } else if (0x391 <= n && n <= 0x3a9) || (0x410 <= n && n <= 0x42f) {
        n + 0x20
    } else if n == 0x3c2 {
        0x3c3
    } else if n == 0x3d0 {
        0x3b2
    } else if n == 0x3d1 || n == 0x3f4 {
        0x3b8
    } else if n == 0x3d5 {
        0x3c6
    } else if n == 0x3d6 {
        0x3c0
    } else if n == 0x3f0 {
        0x3ba
    } else if n == 0x3f1 {
        0x3c1
    } else if n == 0x3f5 {
        0x3b5
    } else if n == 0x462 || n == 0x1c87 {
        0x463
    } else if 0x13f8 <= n && n <= 0x13fd {
        n - 8
    } else if n == 0x1c80 {
        0x432
    } else if n == 0x1c81 {
        0x434
    } else if n == 0x1c82 {
        0x43e
    } else if n == 0x1c83 {
        0x441
    } else if n == 0x1c84 || n == 0x1c85 {
        0x442
    } else if n == 0x1c86 {
        0x44a
    } else if n == 0xa64a || n == 0x1c88 {
        0xa64b
    } else if n == 0x1e60 || n == 0x1e9b {
        0x1e61
    } else if 0xab70 <= n && n <= 0xabbf {
        n - 0x97d0
    } else {
        n
    }
}

fn is_variant(c: char) -> (out: bool)
    ensures
        out == is_variant_letter(c),
{
    c == '\u{b5}' || c == '\u{17f}' || c == '\u{345}' || c == '\u{3c2}' || ('\u{3d0}' <= c && c
        <= '\u{3d1}') || ('\u{3d5}' <= c && c <= '\u{3d6}') || ('\u{3f0}' <= c && c <= '\u{3f1}')
        || c == '\u{3f5}' || ('\u{13f8}' <= c && c <= '\u{13fd}') || ('\u{1c80}' <= c && c
        <= '\u{1c88}') || c == '\u{1e9b}' || c == '\u{1fbe}' || ('\u{ab70}' <= c && c
        <= '\u{abbf}')
}

fn has_no_clash(query: &Vec<char>, haystack: &Vec<char>) -> (out: bool)
    ensures
        out == no_clash(query@, haystack@),
{
    for j in 0..haystack.len()
        invariant
            forall|i: int, k: int|
                0 <= i < query@.len() && 0 <= k < j && is_variant_letter(#[trigger] haystack@[k])
                    ==> folded(#[trigger] query@[i]) != folded(haystack@[k]),
    {
        if is_variant(haystack[j]) {
            let letter: u32 = fold_letter(haystack[j]);
            for i in 0..query.len()
                invariant
                    j < haystack@.len(),
                    is_variant_letter(haystack@[j as int]),
                    letter == folded(haystack@[j as int]),
                    forall|k: int| 0 <= k < i ==> folded(#[trigger] query@[k]) != letter,
            {
                if fold_letter(query[i]) == letter {
                    assert(folded(query@[i as int]) == folded(haystack@[j as int]));
                    return false;
                }
            }
        }
    }
    true
}

/// A query and a text that can be matched: what could be found in the text is short enough to be
/// scored, and where marks are looked for, nothing in the query is what a variant letter of the
/// text stands for.
pub open spec fn can_score(query: Seq<char>, haystack: Seq<char>) -> bool {
    &&& query.len() <= MAX_QUERY
    &&& haystack.len() <= u32::MAX
    &&& haystack.len() * MAX_WORD <= usize::MAX
    &&& scorable(query) || haystack.len() <= MAX_WORD
    &&& without_marks(query) || no_clash(query, haystack)
}

/// Whether a query and a text can be matched.
pub fn can_match(query: &str, haystack: &str) -> (out: bool)
    ensures
        out == can_score(query@, haystack@),
{
    let q: Vec<char> = text::chars_of(query);
    let t: Vec<char> = text::chars_of(haystack);
    let n: usize = t.len();
    q.len() <= MAX_QUERY && n <= u32::MAX as usize && n <= usize::MAX / MAX_WORD && (n <= MAX_WORD
        || query_fits(query)) && (has_no_marks(&q) || has_no_clash(&q, &t))
}

/// `nucleo_matcher::pattern::Pattern::indices`, for the pattern that `Pattern::parse` reads from
/// the query, ignoring case and normalising smartly, in the default configuration. The score and
/// the positions depend on the query and the text alone. What is looked for is never longer than
/// its word with the backslashes counted twice, and no character of it adds more than 36 to the
/// score, so that no character of the query adds more than 72; every position lies in the text.
/// For a word with marks the matcher stops normalising, and then it folds small letters that stand
/// for others when it looks for a place to begin, but not when it scores; it fails where it begins
/// at such a letter, which takes the letter that it stands for in the query.
#[verifier::external_body]
fn fuzzy_indices(query: &str, haystack: &str) -> (out: (Option<u32>, Vec<u32>))
    requires
        can_score(query@, haystack@),
    ensures
        (out.0, out.1@) == fuzzy(query@, haystack@),
        out.0 matches Some(n) ==> n <= 72 * query@.len(),
        forall|i: int| 0 <= i < out.1@.len() ==> #[trigger] out.1@[i] < haystack@.len(),
{
    let mut matcher = Matcher::new(Config::DEFAULT);
    let pattern = Pattern::parse(query, CaseMatching::Ignore, Normalization::Smart);
    let mut indices: Vec<u32> = Vec::new();
    let text = Utf32String::from(haystack);
    let score = pattern.indices(text.slice(..), &mut matcher, &mut indices);
    (score, indices)
}

/// What is found of a query in a text; nothing where the two cannot be matched.
pub open spec fn found_in(query: Seq<char>, haystack: Seq<char>) -> (Option<u32>, Seq<u32>) {
    if can_score(query, haystack) {
        fuzzy(query, haystack)
    } else {
        (None, seq![])
    }
}

/// What is found of a query in a text; nothing where the two cannot be matched.
fn look_for(query: &str, haystack: &str) -> (out: (Option<u32>, Vec<u32>))
    ensures
        (out.0, out.1@) == found_in(query@, haystack@),
        out.0 matches Some(n) ==> n <= 72 * MAX_QUERY,
        forall|i: int| 0 <= i < out.1@.len() ==> #[trigger] out.1@[i] < u32::MAX,
{
    if can_match(query, haystack) {
        fuzzy_indices(query, haystack)
    } else {
        let none: Vec<u32> = Vec::new();
        assert(none@ =~= Seq::empty());
        (None, none)
    }
}

// ---- what the palette offers ----

/// A line of the palette.
pub struct Line {
    pub id: Seq<char>,
    pub item_type: Seq<char>,
    pub title: Seq<char>,
    pub url: Seq<char>,
    pub matched_ranges: Seq<(int, int)>,
}

/// Ranges over plain numbers.
pub open spec fn spans(v: Seq<(usize, usize)>) -> Seq<(int, int)> {
    v.map_values(|r: (usize, usize)| (r.0 as int, r.1 as int))
}

impl View for PaletteItem {
    type V = Line;

    open spec fn view(&self) -> Line {
        Line {
            id: self.id@,
            item_type: self.item_type@,
            title: self.title@,
            url: self.url@,
            matched_ranges: spans(self.matched_ranges@),
        }
    }
}

/// The lines of a list.
pub open spec fn lines(v: Seq<PaletteItem>) -> Seq<Line> {
    v.map_values(|i: PaletteItem| i@)
}

/// Something that the palette may offer. The bonus is added to its score.
pub struct Candidate {
    pub id: Seq<char>,
    pub item_type: Seq<char>,
    pub title: Seq<char>,
    pub url: Seq<char>,
    pub bonus: int,
}

/// Something that the palette may offer, in memory.
struct Entry {
    id: String,
    item_type: String,
    title: String,
    url: String,
    bonus: u32,
}

impl View for Entry {
    type V = Candidate;

    closed spec fn view(&self) -> Candidate {
        Candidate {
            id: self.id@,
            item_type: self.item_type@,
            title: self.title@,
            url: self.url@,
            bonus: self.bonus as int,
        }
    }
}

/// The candidates of a list.
spec fn candidates(v: Seq<Entry>) -> Seq<Candidate> {
    v.map_values(|e: Entry| e@)
}

/// The positions from the lowest to the highest.
pub open spec fn ascending(s: Seq<u32>) -> Seq<u32> {
    let keys = s.map_values(|x: u32| (-(x as int)) as i64);
    rank::ranking(keys, keys.len() as int).map_values(|i: int| s[i])
}

/// The runs of neighbouring positions in a list, each from its first position up to but not
/// including its second.
pub open spec fn runs(s: Seq<u32>) -> Seq<(int, int)>
    decreases s.len(),
{
    if s.len() == 0 {
        seq![]
    } else {
        let x = s.last() as int;
        let before = runs(s.drop_last());
        if before.len() > 0 && before.last().1 == x {
            before.drop_last().push((before.last().0, x + 1))
        } else {
            before.push((x, x + 1))
        }
    }
}

/// A score, or nothing where there is none.
pub open spec fn score_or_zero(s: Option<u32>) -> int {
    match s {
        Some(n) => n as int,
        None => 0,
    }
}

/// The score and the marked parts of the title of something whose title and address were matched
/// with these results: it is offered where one of them matched, with the better of the scores.
pub open spec fn verdict(
    title: (Option<u32>, Seq<u32>),
    url: (Option<u32>, Seq<u32>),
) -> Option<(int, Seq<(int, int)>)> {
    if title.0 is None && url.0 is None {
        None
    } else {
        let a = score_or_zero(title.0);
        let b = score_or_zero(url.0);
        Some(
            (
                if a > b {
                    a
                } else {
                    b
                },
                runs(ascending(title.1)),
            ),
        )
    }
}

fn sort_indices(s: &Vec<u32>) -> (out: Vec<u32>)
    ensures
        out@ == ascending(s@),
        out@.len() == s@.len(),
        forall|j: int| 0 <= j < out@.len() ==> s@.contains(#[trigger] out@[j]),
{
    let mut keys: Vec<i64> = Vec::new();
    let ghost want = s@.map_values(|x: u32| (-(x as int)) as i64);
    for i in 0..s.len()
        invariant
            want == s@.map_values(|x: u32| (-(x as int)) as i64),
            keys@ == want.take(i as int),
    {
        keys.push(-(s[i] as i64));
        assert(want.take(i + 1) =~= want.take(i as int).push(want[i as int]));
    }
    assert(want.take(s@.len() as int) =~= want);
    let order: Vec<usize> = rank::rank(&keys);
    proof {
        rank::law_ranking(want, want.len() as int);
    }
    let ghost all = rank::ranking(want, want.len() as int);
    let mut out: Vec<u32> = Vec::new();
    for i in 0..order.len()
        invariant
            all == rank::positions(order@),
            keys@.len() == s@.len(),
            forall|j: int| 0 <= j < order@.len() ==> #[trigger] order@[j] < keys@.len(),
            out@.len() == i,
            forall|j: int| 0 <= j < i ==> #[trigger] out@[j] == s@[all[j]],
            forall|j: int| 0 <= j < i ==> s@.contains(#[trigger] out@[j]),
    {
        let k: usize = order[i];
        assert(all[i as int] == k);
        out.push(s[k]);
        assert(s@.contains(s@[k as int]));
    }
    assert(out@ =~= ascending(s@));
    out
}

fn find_runs(s: &Vec<u32>) -> (out: Vec<(usize, usize)>)
    requires
        forall|j: int| 0 <= j < s@.len() ==> #[trigger] s@[j] < u32::MAX,
    ensures
        spans(out@) == runs(s@),
{
    let mut out: Vec<(usize, usize)> = Vec::new();
    if s.len() == 0 {
        assert(spans(out@) =~= runs(s@));
        return out;
    }
    let mut start: usize = s[0] as usize;
    let mut end: usize = start + 1;
    proof {
        assert(s@.take(1).drop_last() =~= Seq::empty());
        assert(runs(Seq::<u32>::empty()) =~= Seq::empty());
        assert(runs(s@.take(1)) =~= seq![(start as int, end as int)]);
        assert(spans(out@).push((start as int, end as int)) =~= runs(s@.take(1)));
    }
    for i in 1..s.len()
        invariant
            1 <= i <= s@.len(),
            forall|j: int| 0 <= j < s@.len() ==> #[trigger] s@[j] < u32::MAX,
            spans(out@).push((start as int, end as int)) == runs(s@.take(i as int)),
    {
        let idx: usize = s[i] as usize;
        let ghost before = runs(s@.take(i as int));
        proof {
            assert(s@.take(i + 1).drop_last() =~= s@.take(i as int));
            assert(before.last() == (start as int, end as int));
            assert(before.drop_last() =~= spans(out@));
        }
        if idx == end {
            end = idx + 1;
        } else {
            out.push((start, end));
            assert(spans(out@) =~= before);
            start = idx;
            end = idx + 1;
        }
    }
    assert(s@.take(s@.len() as int) =~= s@);
    let ghost done = out@;
    out.push((start, end));
    assert(spans(out@) =~= spans(done).push((start as int, end as int)));
    out
}

/// What matching the title and the address of something amounts to.
pub fn match_item(
    title: &(Option<u32>, Vec<u32>),
    url: &(Option<u32>, Vec<u32>),
) -> (out: Option<(u32, Vec<(usize, usize)>)>)
    requires
        forall|j: int| 0 <= j < title.1@.len() ==> #[trigger] title.1@[j] < u32::MAX,
    ensures
        match out {
            Some(m) => verdict((title.0, title.1@), (url.0, url.1@)) == Some(
                (m.0 as int, spans(m.1@)),
            ),
            None => verdict((title.0, title.1@), (url.0, url.1@)) is None,
        },
{
    if title.0.is_none() && url.0.is_none() {
        return None;
    }
    let a: u32 = match title.0 {
        Some(n) => n,
        None => 0,
    };
    let b: u32 = match url.0 {
        Some(n) => n,
        None => 0,
    };
    let score: u32 = if a > b {
        a
    } else {
        b
    };
    let sorted: Vec<u32> = sort_indices(&title.1);
    assert forall|j: int| 0 <= j < sorted@.len() implies #[trigger] sorted@[j] < u32::MAX by {
        let k = title.1@.index_of(sorted@[j]);
        assert(title.1@.contains(sorted@[j]));
        assert(title.1@[k] == sorted@[j]);
    }
    Some((score, find_runs(&sorted)))
}

/// What is offered of a candidate for a query, with its score; nothing where it does not match.
pub open spec fn offer(query: Seq<char>, c: Candidate) -> Option<(int, Line)> {
    match verdict(found_in(query, c.title), found_in(query, c.url)) {
        Some((score, ranges)) => Some(
            (
                score + c.bonus,
                Line {
                    id: c.id,
                    item_type: c.item_type,
                    title: c.title,
                    url: c.url,
                    matched_ranges: ranges,
                },
            ),
        ),
        None => None,
    }
}

/// All that is offered of the candidates for a query, with the scores, in their order.
pub open spec fn offers(query: Seq<char>, cs: Seq<Candidate>) -> Seq<(int, Line)>
    decreases cs.len(),
{
    if cs.len() == 0 {
        seq![]
    } else {
        let front = offers(query, cs.drop_last());
        match offer(query, cs.last()) {
            Some(o) => front.push(o),
            None => front,
        }
    }
}

/// The lines of the best offers, the best first, `limit` of them at most.
pub open spec fn best_lines(o: Seq<(int, Line)>, limit: nat) -> Seq<Line> {
    rank::best(o.map_values(|x: (int, Line)| x.0 as i64), limit).map_values(|i: int| o[i].1)
}

/// A candidate with a bonus such as pages get.
pub open spec fn fair(c: Candidate) -> bool {
    0 <= c.bonus <= 50
}

/// The same line once more.
fn copy_item(item: &PaletteItem) -> (out: PaletteItem)
    ensures
        out@ == item@,
{
    let mut ranges: Vec<(usize, usize)> = Vec::new();
    for i in 0..item.matched_ranges.len()
        invariant
            ranges@ == item.matched_ranges@.take(i as int),
    {
        ranges.push(item.matched_ranges[i]);
    }
    assert(ranges@ =~= item.matched_ranges@);
    PaletteItem {
        id: item.id.clone(),
        item_type: item.item_type.clone(),
        title: item.title.clone(),
        url: item.url.clone(),
        matched_ranges: ranges,
    }
}

/// The lines of the best candidates for a query, the best first, `limit` of them at most.
fn rank_candidates(query: &str, cs: &Vec<Entry>, limit: usize) -> (out: Vec<PaletteItem>)
    requires
        forall|i: int| 0 <= i < cs@.len() ==> fair(#[trigger] cs@[i]@),
    ensures
        lines(out@) == best_lines(offers(query@, candidates(cs@)), limit as nat),
{
    let mut found: Vec<PaletteItem> = Vec::new();
    let mut scores: Vec<i64> = Vec::new();
    let ghost all = candidates(cs@);
    let ghost mut o: Seq<(int, Line)> = seq![];
    assert(offers(query@, all.take(0)) =~= o);
    for i in 0..cs.len()
        invariant
            forall|j: int| 0 <= j < cs@.len() ==> fair(#[trigger] cs@[j]@),
            all == candidates(cs@),
            o == offers(query@, all.take(i as int)),
            found@.len() == o.len(),
            scores@.len() == o.len(),
            forall|j: int| 0 <= j < o.len() ==> (#[trigger] o[j]).1 == found@[j]@,
            forall|j: int| 0 <= j < o.len() ==> (#[trigger] o[j]).0 == scores@[j],
    {
        let c: &Entry = &cs[i];
        assert(fair(cs@[i as int]@));
        assert(all.take(i + 1).drop_last() =~= all.take(i as int));
        assert(all.take(i + 1).last() == c@);
        let by_title: (Option<u32>, Vec<u32>) = look_for(query, c.title.as_str());
        let by_url: (Option<u32>, Vec<u32>) = look_for(query, c.url.as_str());
        if let Some((score, ranges)) = match_item(&by_title, &by_url) {
            let total: u32 = score + c.bonus;
            let item: PaletteItem = PaletteItem {
                id: c.id.clone(),
                item_type: c.item_type.clone(),
                title: c.title.clone(),
                url: c.url.clone(),
                matched_ranges: ranges,
            };
            proof {
                assert(offer(query@, c@) == Some((total as int, item@)));
                o = o.push((total as int, item@));
            }
            found.push(item);
            scores.push(total as i64);
        }
    }
    assert(all.take(cs@.len() as int) =~= all);
    assert(scores@ =~= o.map_values(|x: (int, Line)| x.0 as i64));
    let order: Vec<usize> = rank::best_positions(&scores, limit);
    let ghost b = rank::best(scores@, limit as nat);
    let mut out: Vec<PaletteItem> = Vec::new();
    for i in 0..order.len()
        invariant
            b == rank::positions(order@),
            scores@.len() == found@.len() == o.len(),
            forall|j: int| 0 <= j < order@.len() ==> #[trigger] order@[j] < scores@.len(),
            forall|j: int| 0 <= j < o.len() ==> (#[trigger] o[j]).1 == found@[j]@,
            out@.len() == i,
            forall|j: int| 0 <= j < i ==> (#[trigger] out@[j])@ == o[b[j]].1,
    {
        let k: usize = order[i];
        assert(b[i as int] == k);
        assert(o[k as int].1 == found@[k as int]@);
        out.push(copy_item(&found[k]));
    }
    assert(lines(out@) =~= b.map_values(|i: int| o[i].1));
    out
}

/// The lines of the first candidates as they stand, `limit` of them at most.
pub open spec fn first_lines(cs: Seq<Candidate>, limit: nat) -> Seq<Line> {
    let n = if limit < cs.len() {
        limit
    } else {
        cs.len()
    };
    cs.take(n as int).map_values(
        |c: Candidate|
            Line {
                id: c.id,
                item_type: c.item_type,
                title: c.title,
                url: c.url,
                matched_ranges: seq![],
            },
    )
}

fn first_candidates(cs: &Vec<Entry>, limit: usize) -> (out: Vec<PaletteItem>)
    ensures
        lines(out@) == first_lines(candidates(cs@), limit as nat),
{
    let n: usize = if limit < cs.len() {
        limit
    } else {
        cs.len()
    };
    let mut out: Vec<PaletteItem> = Vec::new();
    let ghost want = first_lines(candidates(cs@), limit as nat);
    for i in 0..n
        invariant
            n <= cs@.len(),
            want == first_lines(candidates(cs@), limit as nat),
            want.len() == n,
            lines(out@) == want.take(i as int),
    {
        let c: &Entry = &cs[i];
        let item: PaletteItem = PaletteItem {
            id: c.id.clone(),
            item_type: c.item_type.clone(),
            title: c.title.clone(),
            url: c.url.clone(),
            matched_ranges: Vec::new(),
        };
        proof {
            assert(spans(item.matched_ranges@) =~= Seq::empty());
            assert(item@ == want[i as int]);
            assert(lines(out@.push(item)) =~= lines(out@).push(item@));
            assert(want.take(i + 1) =~= want.take(i as int).push(want[i as int]));
        }
        out.push(item);
    }
    assert(want.take(n as int) =~= want);
    out
}

/// What an open tab is offered as.
pub open spec fn tab_candidate(t: Tab) -> Candidate {
    Candidate {
        id: "tab:"@ + text::decimal_int(t.id as int),
        item_type: "tab"@,
        title: display_title(text::opt_view(t.title), t.url@),
        url: t.url@,
        bonus: 0,
    }
}

/// The title of a page, or its address where it has none.
pub open spec fn title_or_url(title: Seq<char>, url: Seq<char>) -> Seq<char> {
    if title.len() == 0 {
        url
    } else {
        title
    }
}

/// What a page often visited is worth more: one for each visit, fifty at most. A count below
/// zero, read as a number without a sign, is worth the most.
pub open spec fn visit_bonus(count: int) -> int {
    if 0 <= count < 50 {
        count
    } else {
        50
    }
}

/// What a visited page is offered as.
pub open spec fn history_candidate(h: HistoryDbEntry) -> Candidate {
    Candidate {
        id: "history:"@ + text::decimal_int(h.id as int),
        item_type: "history"@,
        title: title_or_url(h.title@, h.url@),
        url: h.url@,
        bonus: visit_bonus(h.visit_count as int),
    }
}

/// What a bookmark is offered as.
pub open spec fn bookmark_candidate(b: BookmarkDbEntry) -> Candidate {
    Candidate {
        id: "bookmark:"@ + text::decimal_int(b.id as int),
        item_type: "bookmark"@,
        title: title_or_url(b.title@, b.url@),
        url: b.url@,
        bonus: 0,
    }
}

/// The lines that are offered of the candidates of one kind: without a query the first of them;
/// with one the best, if the kind is asked for.
pub open spec fn offered(
    query: Seq<char>,
    asked: bool,
    cs: Seq<Candidate>,
    limit: nat,
) -> Seq<Line> {
    if query.len() == 0 {
        first_lines(cs, limit)
    } else if asked {
        best_lines(offers(query, cs), limit)
    } else {
        seq![]
    }
}

/// Whether a kind is asked for.
pub open spec fn in_scope(scope: Seq<char>, kind: Seq<char>) -> bool {
    scope == "all"@ || scope == kind
}

fn tab_entries(tabs: &Vec<Tab>) -> (out: Vec<Entry>)
    ensures
        candidates(out@) == tabs@.map_values(|t: Tab| tab_candidate(t)),
{
    let mut out: Vec<Entry> = Vec::new();
    for i in 0..tabs.len()
        invariant
            out@.len() == i,
            forall|j: int| 0 <= j < i ==> (#[trigger] out@[j])@ == tab_candidate(tabs@[j]),
    {
        let t: &Tab = &tabs[i];
        out.push(
            Entry {
                id: text::concat2("tab:", text::dec_i64(t.id as i64).as_str()),
                item_type: "tab".to_owned(),
                title: tab_display_title(&t.title, t.url.as_str()),
                url: t.url.clone(),
                bonus: 0,
            },
        );
    }
    assert(candidates(out@) =~= tabs@.map_values(|t: Tab| tab_candidate(t)));
    out
}

fn history_entries(history: &Vec<HistoryDbEntry>) -> (out: Vec<Entry>)
    ensures
        candidates(out@) == history@.map_values(|h: HistoryDbEntry| history_candidate(h)),
{
    let mut out: Vec<Entry> = Vec::new();
    for i in 0..history.len()
        invariant
            out@.len() == i,
            forall|j: int| 0 <= j < i ==> (#[trigger] out@[j])@ == history_candidate(history@[j]),
    {
        let h: &HistoryDbEntry = &history[i];
        let bonus: u32 = if 0 <= h.visit_count && h.visit_count < 50 {
            h.visit_count as u32
        } else {
            50
        };
        out.push(
            Entry {
                id: text::concat2("history:", text::dec_i64(h.id as i64).as_str()),
                item_type: "history".to_owned(),
                title: if h.title.as_str().is_empty() {
                    h.url.clone()
                } else {
                    h.title.clone()
                },
                url: h.url.clone(),
                bonus,
            },
        );
    }
    assert(candidates(out@) =~= history@.map_values(|h: HistoryDbEntry| history_candidate(h)));
    out
}

fn bookmark_entries(bookmarks: &Vec<BookmarkDbEntry>) -> (out: Vec<Entry>)
    ensures
        candidates(out@) == bookmarks@.map_values(|b: BookmarkDbEntry| bookmark_candidate(b)),
{
    let mut out: Vec<Entry> = Vec::new();
    for i in 0..bookmarks.len()
        invariant
            out@.len() == i,
            forall|j: int|
                0 <= j < i ==> (#[trigger] out@[j])@ == bookmark_candidate(bookmarks@[j]),
    {
        let b: &BookmarkDbEntry = &bookmarks[i];
        out.push(
            Entry {
                id: text::concat2("bookmark:", text::dec_i64(b.id as i64).as_str()),
                item_type: "bookmark".to_owned(),
                title: if b.title.as_str().is_empty() {
                    b.url.clone()
                } else {
                    b.title.clone()
                },
                url: b.url.clone(),
                bonus: 0,
            },
        );
    }
    assert(candidates(out@) =~= bookmarks@.map_values(
        |b: BookmarkDbEntry| bookmark_candidate(b),
    ));
    out
}

fn offer_lines(query: &str, asked: bool, cs: &Vec<Entry>, limit: usize) -> (out: Vec<PaletteItem>)
    requires
        forall|i: int| 0 <= i < candidates(cs@).len() ==> fair(#[trigger] candidates(cs@)[i]),
    ensures
        lines(out@) == offered(query@, asked, candidates(cs@), limit as nat),
{
    if query.is_empty() {
        first_candidates(cs, limit)
    } else if asked {
        assert forall|i: int| 0 <= i < cs@.len() implies fair(#[trigger] cs@[i]@) by {
            assert(candidates(cs@)[i] == cs@[i]@);
        }
        rank_candidates(query, cs, limit)
    } else {
        let out: Vec<PaletteItem> = Vec::new();
        assert(lines(out@) =~= Seq::empty());
        out
    }
}

/// What the palette offers for what is typed: open tabs, visited pages and bookmarks. A title or an
/// address that cannot be matched counts as one that does not match.
pub fn palette_query(
    input: &str,
    scope: &str,
    tabs: &Vec<Tab>,
    history: &Vec<HistoryDbEntry>,
    bookmarks: &Vec<BookmarkDbEntry>,
) -> (out: PaletteResults)
    ensures
        lines(out.open_tabs@) == offered(
            text::trimmed(input@),
            in_scope(scope@, "tabs"@),
            tabs@.map_values(|t: Tab| tab_candidate(t)),
            4,
        ),
        lines(out.history@) == offered(
            text::trimmed(input@),
            in_scope(scope@, "history"@),
            history@.map_values(|h: HistoryDbEntry| history_candidate(h)),
            6,
        ),
        lines(out.bookmarks@) == offered(
            text::trimmed(input@),
            in_scope(scope@, "bookmarks"@),
            bookmarks@.map_values(|b: BookmarkDbEntry| bookmark_candidate(b)),
            4,
        ),
{
    let query: String = text::trim(input);
    let q: &str = query.as_str();
    let all: bool = text::same(scope, "all");
    let tab_list: Vec<Entry> = tab_entries(tabs);
    let history_list: Vec<Entry> = history_entries(history);
    let bookmark_list: Vec<Entry> = bookmark_entries(bookmarks);
    PaletteResults {
        open_tabs: offer_lines(q, all || text::same(scope, "tabs"), &tab_list, 4),
        history: offer_lines(q, all || text::same(scope, "history"), &history_list, 6),
        bookmarks: offer_lines(q, all || text::same(scope, "bookmarks"), &bookmark_list, 4),
    }
}

/// A position lies in one of the ranges.
pub open spec fn covered(ranges: Seq<(int, int)>, x: int) -> bool {
    exists|k: int| 0 <= k < ranges.len() && (#[trigger] ranges[k]).0 <= x < ranges[k].1
}

/// Ranges from the front to the back, none of them empty, with a gap between any two.
pub open spec fn apart(ranges: Seq<(int, int)>) -> bool {
    &&& forall|k: int| 0 <= k < ranges.len() ==> (#[trigger] ranges[k]).0 < ranges[k].1
    &&& forall|k: int, l: int|
        0 <= k < l < ranges.len() ==> (#[trigger] ranges[k]).1 < (#[trigger] ranges[l]).0
}

/// The marked parts of a title hold the positions that matched and no others. Where no position
/// is named twice, they come from the front to the back, none is empty, and no two of them overlap
/// or touch.
pub proof fn law_marks_cover(s: Seq<u32>)
    ensures
        forall|x: int|
            #[trigger] covered(runs(ascending(s)), x) <==> exists|i: int|
                0 <= i < s.len() && #[trigger] s[i] == x,
        s.no_duplicates() ==> apart(runs(ascending(s))),
{
    let keys = s.map_values(|x: u32| (-(x as int)) as i64);
    let n = keys.len() as int;
    let order = rank::ranking(keys, n);
    let t = ascending(s);
    rank::law_ranking(keys, n);
    assert forall|i: int, j: int| 0 <= i < j < t.len() implies #[trigger] t[i] <= #[trigger] t[j]
        && (s.no_duplicates() ==> t[i] < t[j]) by {
        assert(t[i] == s[order[i]] && t[j] == s[order[j]]);
        assert(keys[order[i]] == -(s[order[i]] as int));
        assert(keys[order[j]] == -(s[order[j]] as int));
        assert(order[i] != order[j]);
    }
    lemma_runs(t);
    assert forall|x: int| #[trigger] covered(runs(t), x) <==> exists|i: int|
        0 <= i < s.len() && #[trigger] s[i] == x by {
        if covered(runs(t), x) {
            let j = choose|j: int| 0 <= j < t.len() && #[trigger] t[j] == x;
            assert(s[order[j]] == x);
        }
        if exists|i: int| 0 <= i < s.len() && #[trigger] s[i] == x {
            let i = choose|i: int| 0 <= i < s.len() && #[trigger] s[i] == x;
            rank::lemma_onto(order, n, i);
            let j = order.index_of(i);
            assert(t[j] == x);
        }
    }
}

proof fn lemma_runs(t: Seq<u32>)
    requires
        forall|i: int, j: int| 0 <= i < j < t.len() ==> #[trigger] t[i] <= #[trigger] t[j],
    ensures
        t.len() > 0 ==> runs(t).len() > 0 && runs(t).last().1 == t.last() + 1 && runs(t).last().0
            <= t.last(),
        t.len() == 0 ==> runs(t).len() == 0,
        forall|x: int|
            #[trigger] covered(runs(t), x) <==> exists|j: int|
                0 <= j < t.len() && #[trigger] t[j] == x,
        (forall|i: int, j: int| 0 <= i < j < t.len() ==> #[trigger] t[i] < #[trigger] t[j])
            ==> apart(runs(t)),
    decreases t.len(),
{
    if t.len() > 0 {
        let front = t.drop_last();
        let before = runs(front);
        let r = runs(t);
        let y = t.last() as int;
        assert forall|i: int, j: int| 0 <= i < j < front.len() implies #[trigger] front[i]
            <= #[trigger] front[j] by {
            assert(front[i] == t[i] && front[j] == t[j]);
        }
        lemma_runs(front);
        if front.len() > 0 {
            assert(front.last() == t[t.len() - 2]);
            assert(t[t.len() - 2] <= t[t.len() - 1]);
        }
        let joined = before.len() > 0 && before.last().1 == y;
        assert forall|x: int| #[trigger] covered(r, x) <==> covered(before, x) || x == y by {
            if covered(before, x) {
                let k = choose|k: int|
                    0 <= k < before.len() && (#[trigger] before[k]).0 <= x < before[k].1;
                assert(r[k].0 <= x < r[k].1);
            }
            if x == y {
                assert(r[r.len() - 1].0 <= x < r[r.len() - 1].1);
            }
            if covered(r, x) && x != y {
                let k = choose|k: int| 0 <= k < r.len() && (#[trigger] r[k]).0 <= x < r[k].1;
                assert(before[k].0 <= x < before[k].1);
            }
        }
        assert forall|x: int| #[trigger] covered(r, x) <==> exists|j: int|
            0 <= j < t.len() && #[trigger] t[j] == x by {
            assert(covered(r, x) <==> covered(before, x) || x == y);
            if covered(before, x) {
                let j = choose|j: int| 0 <= j < front.len() && #[trigger] front[j] == x;
                assert(t[j] == x);
            }
            if x == y {
                assert(t[t.len() - 1] == x);
            }
            if exists|j: int| 0 <= j < t.len() && #[trigger] t[j] == x {
                let j = choose|j: int| 0 <= j < t.len() && #[trigger] t[j] == x;
                if j < front.len() {
                    assert(front[j] == x);
                }
            }
        }
        if forall|i: int, j: int| 0 <= i < j < t.len() ==> #[trigger] t[i] < #[trigger] t[j] {
            assert forall|i: int, j: int| 0 <= i < j < front.len() implies #[trigger] front[i]
                < #[trigger] front[j] by {
                assert(front[i] == t[i] && front[j] == t[j]);
            }
            if front.len() > 0 {
                assert(t[t.len() - 2] < t[t.len() - 1]);
            }
            assert forall|k: int, l: int| 0 <= k < l < r.len() implies (#[trigger] r[k]).1 < (
            #[trigger] r[l]).0 by {
                assert(r[k] == before[k]);
                if l < before.len() {
                    assert(before[k].1 < before[l].0);
                    assert(r[l].0 == before[l].0);
                } else if k < before.len() - 1 {
                    assert(before[k].1 < before[before.len() - 1].0);
                }
            }
        }
    }
}

/// The palette never offers more lines of a kind than it has room for.
pub proof fn law_room(query: Seq<char>, asked: bool, cs: Seq<Candidate>, limit: nat)
    ensures
        offered(query, asked, cs, limit).len() <= limit,
{
    let keys = offers(query, cs).map_values(|x: (int, Line)| x.0 as i64);
    rank::law_ranking(keys, keys.len() as int);
}

/// Every line that is offered for a query comes from a candidate that matches it.
pub proof fn law_lines_match(query: Seq<char>, cs: Seq<Candidate>, limit: nat, k: int)
    requires
        0 <= k < best_lines(offers(query, cs), limit).len(),
    ensures
        exists|i: int|
            0 <= i < cs.len() && (#[trigger] offer(query, cs[i])) is Some && (offer(query, cs[i])->0).1
                == best_lines(offers(query, cs), limit)[k],
{
    let o = offers(query, cs);
    let keys = o.map_values(|x: (int, Line)| x.0 as i64);
    rank::law_ranking(keys, keys.len() as int);
    let b = rank::best(keys, limit);
    lemma_offers_from(query, cs, b[k]);
}

/// The lines that are offered for a query come from the best to the worst, and nothing that
/// matches better than one of them is left out.
pub proof fn law_best_lines_first(query: Seq<char>, cs: Seq<Candidate>, limit: nat)
    requires
        forall|i: int| 0 <= i < cs.len() ==> fair(#[trigger] cs[i]),
    ensures
        ({
            let o = offers(query, cs);
            let b = rank::best(o.map_values(|x: (int, Line)| x.0 as i64), limit);
            &&& best_lines(o, limit) == b.map_values(|i: int| o[i].1)
            &&& b.no_duplicates()
            &&& forall|k: int| 0 <= k < b.len() ==> 0 <= #[trigger] b[k] < o.len()
            &&& forall|k: int, l: int|
                0 <= k < l < b.len() ==> o[#[trigger] b[k]].0 >= o[#[trigger] b[l]].0
            &&& forall|k: int, j: int|
                0 <= k < b.len() && 0 <= j < o.len() && !b.contains(j) ==> o[#[trigger] b[k]].0 >= (
                #[trigger] o[j]).0
        }),
{
    let o = offers(query, cs);
    let keys = o.map_values(|x: (int, Line)| x.0 as i64);
    let b = rank::best(keys, limit);
    rank::law_best(keys, limit);
    lemma_scores_fit(query, cs);
    assert forall|k: int, l: int| 0 <= k < l < b.len() implies o[#[trigger] b[k]].0
        >= o[#[trigger] b[l]].0 by {
        assert(keys[b[k]] == o[b[k]].0);
        assert(keys[b[l]] == o[b[l]].0);
    }
    assert forall|k: int, j: int|
        0 <= k < b.len() && 0 <= j < o.len() && !b.contains(j) implies o[#[trigger] b[k]].0 >= (
    #[trigger] o[j]).0 by {
        assert(keys[b[k]] == o[b[k]].0);
        assert(keys[j] == o[j].0);
    }
}

proof fn lemma_scores_fit(query: Seq<char>, cs: Seq<Candidate>)
    requires
        forall|i: int| 0 <= i < cs.len() ==> fair(#[trigger] cs[i]),
    ensures
        forall|j: int|
            0 <= j < offers(query, cs).len() ==> 0 <= (#[trigger] offers(query, cs)[j]).0 <= u32::MAX
                + 50,
    decreases cs.len(),
{
    if cs.len() > 0 {
        let front = cs.drop_last();
        assert forall|i: int| 0 <= i < front.len() implies fair(#[trigger] front[i]) by {
            assert(cs[i] == front[i]);
        }
        lemma_scores_fit(query, front);
        let c = cs.last();
        assert(fair(cs[cs.len() - 1]));
        assert(score_or_zero(found_in(query, c.title).0) <= u32::MAX);
        assert(score_or_zero(found_in(query, c.url).0) <= u32::MAX);
        let o = offers(query, cs);
        assert forall|j: int| 0 <= j < o.len() implies 0 <= (#[trigger] o[j]).0 <= u32::MAX + 50 by {
            if j < offers(query, front).len() {
                assert(o[j] == offers(query, front)[j]);
            } else {
                assert(offer(query, c) == Some(o[j]));
            }
        }
    }
}

proof fn lemma_offers_from(query: Seq<char>, cs: Seq<Candidate>, j: int)
    requires
        0 <= j < offers(query, cs).len(),
    ensures
        exists|i: int|
            0 <= i < cs.len() && (#[trigger] offer(query, cs[i])) == Some(offers(query, cs)[j]),
    decreases cs.len(),
{
    let front = offers(query, cs.drop_last());
    if j < front.len() {
        lemma_offers_from(query, cs.drop_last(), j);
        let i = choose|i: int|
            0 <= i < cs.drop_last().len() && (#[trigger] offer(query, cs.drop_last()[i])) == Some(
                front[j],
            );
        assert(offer(query, cs[i]) == Some(offers(query, cs)[j]));
    } else {
        assert(offer(query, cs[cs.len() - 1]) == Some(offers(query, cs)[j]));
    }
}

// ---- choosing a line ----

/// The template that searches from the palette go to where no engine is named.
pub const PALETTE_SEARCH: &'static str = "https://duckduckgo.com/?q=%s";

/// The address that a line leads to: what was typed, as an address or as a search, for a line
/// that searches; else the line's own.
pub open spec fn line_target(
    id: Seq<char>,
    url: Seq<char>,
    engines: Seq<SearchEngine>,
) -> Seq<char> {
    if text::begins(id, "search:"@) {
        search::address_for(url, engines, PALETTE_SEARCH@)
    } else {
        url
    }
}

/// The address that a line leads to.
pub fn palette_target(id: &str, url: &str, engines: &[SearchEngine]) -> (out: String)
    ensures
        out@ == line_target(id@, url@, engines@),
{
    if text::starts_with(id, "search:") {
        search::resolve_input(url, engines, PALETTE_SEARCH)
    } else {
        url.to_owned()
    }
}

/// What choosing a line does.
#[derive(Clone, Copy, PartialEq, Eq, Debug, Structural)]
pub enum OpenAction {
    /// The tab comes to the front.
    Activate(i32),
    /// The tab goes to the address.
    Navigate(i32),
    /// A tab is made for the address.
    Create { background: bool },
    /// A window is made for the address.
    NewWindow,
}

/// What choosing a line does, by the way in which it is to be opened; `active` is the tab in
/// front. A line with a tab's number that is no number is refused, and so is an unknown way.
pub open spec fn line_action(
    id: Seq<char>,
    disposition: Seq<char>,
    active: Option<i32>,
) -> Result<OpenAction, Seq<char>> {
    if disposition == "current-tab"@ {
        if text::begins(id, "tab:"@) {
            match text::int_value(id.skip(4)) {
                Some(n) if i32::MIN <= n <= i32::MAX => Ok(OpenAction::Activate(n as i32)),
                _ => Err(text::parse_complaint(id.skip(4))),
            }
        } else {
            match active {
                Some(tab) => Ok(OpenAction::Navigate(tab)),
                None => Ok(OpenAction::Create { background: false }),
            }
        }
    } else if disposition == "new-tab-foreground"@ {
        Ok(OpenAction::Create { background: false })
    } else if disposition == "new-tab-background"@ {
        Ok(OpenAction::Create { background: true })
    } else if disposition == "new-window"@ {
        Ok(OpenAction::NewWindow)
    } else {
        Err("Unknown disposition: "@ + disposition)
    }
}

/// What choosing a line does.
pub fn palette_open(id: &str, disposition: &str, active: Option<i32>) -> (out: Result<
    OpenAction,
    String,
>)
    ensures
        match (line_action(id@, disposition@, active), out) {
            (Ok(a), Ok(b)) => a == b,
            (Err(a), Err(b)) => a == b@,
            _ => false,
        },
{
    proof {
        reveal_strlit("tab:");
    }
    if text::same(disposition, "current-tab") {
        if text::starts_with(id, "tab:") {
            let number: String = text::skip(id, 4);
            match text::parse_i32(number.as_str()) {
                Ok(n) => Ok(OpenAction::Activate(n)),
                Err(e) => Err(e),
            }
        } else {
            match active {
                Some(tab) => Ok(OpenAction::Navigate(tab)),
                None => Ok(OpenAction::Create { background: false }),
            }
        }
    } else if text::same(disposition, "new-tab-foreground") {
        Ok(OpenAction::Create { background: false })
    } else if text::same(disposition, "new-tab-background") {
        Ok(OpenAction::Create { background: true })
    } else if text::same(disposition, "new-window") {
        Ok(OpenAction::NewWindow)
    } else {
        Err(text::concat2("Unknown disposition: ", disposition))
    }
}

// ---- what the lines show ----

/// A text and a query of ordinary length without marked letters can always be matched.
pub proof fn law_ordinary_text_matched(query: Seq<char>, haystack: Seq<char>)
    requires
        query.len() <= 1260,
        haystack.len() <= 1_000_000,
        forall|i: int| 0 <= i < query.len() ==> (#[trigger] query[i]) as int <= 0xbf,
    ensures
        found_in(query, haystack) == fuzzy(query, haystack),
{
    assert forall|k: int| 0 <= k <= query.len() implies last_word(#[trigger] query.take(k))
        <= MAX_WORD by {
        lemma_word_bound(query.take(k));
    }
    assert(haystack.len() * 2520 <= 0xffff_ffff);
    assert(without_marks(query));
}

proof fn lemma_word_bound(s: Seq<char>)
    ensures
        last_word(s) <= 2 * s.len(),
    decreases s.len(),
{
    if s.len() > 0 {
        lemma_word_bound(s.drop_last());
    }
}

/// Something is offered where its title or its address matches, and only there. It counts for as
/// much as the better of the two.
pub proof fn law_verdict(title: (Option<u32>, Seq<u32>), url: (Option<u32>, Seq<u32>))
    ensures
        verdict(title, url) is None <==> title.0 is None && url.0 is None,
        verdict(title, url) matches Some(v) ==> {
            &&& title.0 matches Some(a) ==> v.0 >= a
            &&& url.0 matches Some(b) ==> v.0 >= b
            &&& (title.0 is Some && v.0 == title.0->0) || (url.0 is Some && v.0 == url.0->0)
            &&& forall|x: int|
                #[trigger] covered(v.1, x) <==> exists|i: int|
                    0 <= i < title.1.len() && #[trigger] title.1[i] == x
        },
{
    law_marks_cover(title.1);
}

/// A visited page is worth one more for each visit, up to fifty; a count below zero is worth the
/// most.
pub proof fn law_visit_bonus(count: int)
    ensures
        count == 0 ==> visit_bonus(count) == 0,
        0 <= count < 50 ==> visit_bonus(count + 1) == visit_bonus(count) + 1,
        count >= 50 || count < 0 ==> visit_bonus(count) == 50,
{
}

/// A line shows a candidate, and where there is a query, its title or its address matches.
spec fn line_from(query: Seq<char>, line: Line, c: Candidate) -> bool {
    &&& line.id == c.id
    &&& line.item_type == c.item_type
    &&& line.title == c.title
    &&& line.url == c.url
    &&& query.len() == 0 ==> line.matched_ranges.len() == 0
    &&& query.len() > 0 ==> found_in(query, c.title).0 is Some || found_in(query, c.url).0 is Some
}

proof fn lemma_line_from(query: Seq<char>, asked: bool, cs: Seq<Candidate>, limit: nat, k: int) -> (i: int)
    requires
        0 <= k < offered(query, asked, cs, limit).len(),
    ensures
        0 <= i < cs.len(),
        line_from(query, offered(query, asked, cs, limit)[k], cs[i]),
        query.len() == 0 ==> i == k,
{
    if query.len() == 0 {
        k
    } else {
        law_lines_match(query, cs, limit, k);
        choose|i: int|
            0 <= i < cs.len() && (#[trigger] offer(query, cs[i])) is Some && (offer(query, cs[i])->0).1
                == best_lines(offers(query, cs), limit)[k]
    }
}

/// Every history line shows a visited page under its number, with its address and with its title,
/// for which the address stands where it has none; where something is searched for, the title or
/// the page's address matches. Where nothing is, the pages come as they are listed.
pub proof fn law_history_lines(
    query: Seq<char>,
    asked: bool,
    history: Seq<HistoryDbEntry>,
    limit: nat,
    k: int,
)
    requires
        0 <= k < offered(
            query,
            asked,
            history.map_values(|h: HistoryDbEntry| history_candidate(h)),
            limit,
        ).len(),
    ensures
        ({
            let line = offered(
                query,
                asked,
                history.map_values(|h: HistoryDbEntry| history_candidate(h)),
                limit,
            )[k];
            exists|i: int|
                0 <= i < history.len() && ({
                    let h = #[trigger] history[i];
                    &&& line.id == "history:"@ + text::decimal_int(h.id as int)
                    &&& line.item_type == "history"@
                    &&& line.url == h.url@
                    &&& h.title@.len() > 0 ==> line.title == h.title@
                    &&& h.title@.len() == 0 ==> line.title == h.url@
                    &&& query.len() > 0 ==> found_in(query, line.title).0 is Some || found_in(
                        query,
                        h.url@,
                    ).0 is Some
                    &&& query.len() == 0 ==> i == k
                })
        }),
{
    let cs = history.map_values(|h: HistoryDbEntry| history_candidate(h));
    let i = lemma_line_from(query, asked, cs, limit, k);
    assert(cs[i] == history_candidate(history[i]));
}

/// Every bookmark line shows a bookmark under its number, with its address and with its title, for
/// which the address stands where it has none; where something is searched for, the title or the
/// address matches. Where nothing is, the bookmarks come as they are listed.
pub proof fn law_bookmark_lines(
    query: Seq<char>,
    asked: bool,
    bookmarks: Seq<BookmarkDbEntry>,
    limit: nat,
    k: int,
)
    requires
        0 <= k < offered(
            query,
            asked,
            bookmarks.map_values(|b: BookmarkDbEntry| bookmark_candidate(b)),
            limit,
        ).len(),
    ensures
        ({
            let line = offered(
                query,
                asked,
                bookmarks.map_values(|b: BookmarkDbEntry| bookmark_candidate(b)),
                limit,
            )[k];
            exists|i: int|
                0 <= i < bookmarks.len() && ({
                    let b = #[trigger] bookmarks[i];
                    &&& line.id == "bookmark:"@ + text::decimal_int(b.id as int)
                    &&& line.item_type == "bookmark"@
                    &&& line.url == b.url@
                    &&& b.title@.len() > 0 ==> line.title == b.title@
                    &&& b.title@.len() == 0 ==> line.title == b.url@
                    &&& query.len() > 0 ==> found_in(query, line.title).0 is Some || found_in(
                        query,
                        b.url@,
                    ).0 is Some
                    &&& query.len() == 0 ==> i == k
                })
        }),
{
    let cs = bookmarks.map_values(|b: BookmarkDbEntry| bookmark_candidate(b));
    let i = lemma_line_from(query, asked, cs, limit, k);
    assert(cs[i] == bookmark_candidate(bookmarks[i]));
}

/// Every tab line shows an open tab under its number, with its address and the title that it is
/// shown with; where something is searched for, that title or the address matches. Where nothing
/// is, the tabs come as they are listed.
pub proof fn law_tab_lines(query: Seq<char>, asked: bool, tabs: Seq<Tab>, limit: nat, k: int)
    requires
        0 <= k < offered(query, asked, tabs.map_values(|t: Tab| tab_candidate(t)), limit).len(),
    ensures
        ({
            let line = offered(query, asked, tabs.map_values(|t: Tab| tab_candidate(t)), limit)[k];
            exists|i: int|
                0 <= i < tabs.len() && ({
                    let t = #[trigger] tabs[i];
                    &&& line.id == "tab:"@ + text::decimal_int(t.id as int)
                    &&& line.item_type == "tab"@
                    &&& line.url == t.url@
                    &&& line.title == display_title(text::opt_view(t.title), t.url@)
                    &&& query.len() > 0 ==> found_in(query, line.title).0 is Some || found_in(
                        query,
                        t.url@,
                    ).0 is Some
                    &&& query.len() == 0 ==> i == k
                })
        }),
{
    let cs = tabs.map_values(|t: Tab| tab_candidate(t));
    let i = lemma_line_from(query, asked, cs, limit, k);
    assert(cs[i] == tab_candidate(tabs[i]));
}

/// Where nothing is searched for, as many lines are offered as there are candidates, up to the
/// limit. Of a kind that is not asked for nothing is offered for a query.
pub proof fn law_lines_without_query(
    query: Seq<char>,
    asked: bool,
    cs: Seq<Candidate>,
    limit: nat,
)
    ensures
        query.len() == 0 && limit <= cs.len() ==> offered(query, asked, cs, limit).len() == limit,
        query.len() == 0 && limit >= cs.len() ==> offered(query, asked, cs, limit).len() == cs.len(),
        query.len() > 0 && !asked ==> offered(query, asked, cs, limit).len() == 0,
{
}

proof fn lemma_offered_once(query: Seq<char>, cs: Seq<Candidate>, i: int) -> (j: int)
    requires
        0 <= i < cs.len(),
        offer(query, cs[i]) is Some,
    ensures
        0 <= j < offers(query, cs).len(),
        offers(query, cs)[j] == offer(query, cs[i])->0,
        offers(query, cs).len() <= cs.len(),
    decreases cs.len(),
{
    let front = offers(query, cs.drop_last());
    lemma_offers_fewer(query, cs);
    if i == cs.len() - 1 {
        front.len() as int
    } else {
        lemma_offered_once(query, cs.drop_last(), i)
    }
}

proof fn lemma_offers_fewer(query: Seq<char>, cs: Seq<Candidate>)
    ensures
        offers(query, cs).len() <= cs.len(),
    decreases cs.len(),
{
    if cs.len() > 0 {
        lemma_offers_fewer(query, cs.drop_last());
    }
}

/// Nothing that matches is left out where there is room: where fewer lines are offered than there
/// is room for, or there are no more candidates than lines.
pub proof fn law_matches_offered(query: Seq<char>, cs: Seq<Candidate>, limit: nat, i: int)
    requires
        query.len() > 0,
        0 <= i < cs.len(),
        found_in(query, cs[i].title).0 is Some || found_in(query, cs[i].url).0 is Some,
        offered(query, true, cs, limit).len() < limit || cs.len() <= limit,
    ensures
        exists|k: int|
            0 <= k < offered(query, true, cs, limit).len() && ({
                let line = #[trigger] offered(query, true, cs, limit)[k];
                line.id == cs[i].id && line.url == cs[i].url && line.title == cs[i].title
            }),
{
    let o = offers(query, cs);
    let j = lemma_offered_once(query, cs, i);
    let keys = o.map_values(|x: (int, Line)| x.0 as i64);
    let all = rank::ranking(keys, keys.len() as int);
    rank::law_ranking(keys, keys.len() as int);
    rank::lemma_onto(all, o.len() as int, j);
    let k = all.index_of(j);
    assert(all[k] == j);
    assert(rank::best(keys, limit) =~= all);
    assert(offered(query, true, cs, limit)[k] == o[j].1);
}

/// A visited page whose address matches is among the history lines where there is room.
pub proof fn law_page_found_by_url(
    query: Seq<char>,
    history: Seq<HistoryDbEntry>,
    limit: nat,
    i: int,
)
    requires
        query.len() > 0,
        0 <= i < history.len() <= limit,
        found_in(query, history[i].url@).0 is Some || (history[i].title@.len() > 0 && found_in(
            query,
            history[i].title@,
        ).0 is Some),
    ensures
        ({
            let lines = offered(
                query,
                true,
                history.map_values(|h: HistoryDbEntry| history_candidate(h)),
                limit,
            );
            exists|k: int|
                0 <= k < lines.len() && (#[trigger] lines[k]).id == "history:"@ + text::decimal_int(
                    history[i].id as int,
                ) && lines[k].url == history[i].url@
        }),
{
    let cs = history.map_values(|h: HistoryDbEntry| history_candidate(h));
    assert(cs[i] == history_candidate(history[i]));
    law_matches_offered(query, cs, limit, i);
}

/// What a matching page counts for: the better of what its title and its address match with, and
/// one for each visit up to fifty.
pub proof fn law_page_points(query: Seq<char>, h: HistoryDbEntry)
    requires
        h.visit_count >= 0,
    ensures
        ({
            let visits = if h.visit_count > 50 {
                50
            } else {
                h.visit_count as int
            };
            let title = found_in(
                query,
                if h.title@.len() > 0 {
                    h.title@
                } else {
                    h.url@
                },
            ).0;
            let url = found_in(query, h.url@).0;
            match offer(query, history_candidate(h)) {
                Some(o) => {
                    &&& title matches Some(a) ==> o.0 >= a + visits
                    &&& url matches Some(b) ==> o.0 >= b + visits
                    &&& (title is Some && o.0 == title->0 + visits) || (url is Some && o.0 == url->0
                        + visits)
                },
                None => title is None && url is None,
            }
        }),
{
}

/// Tabs and bookmarks count for what they match with and nothing else.
pub proof fn law_plain_points(query: Seq<char>, t: Tab, b: BookmarkDbEntry)
    ensures
        tab_candidate(t).bonus == 0,
        bookmark_candidate(b).bonus == 0,
        forall|c: Candidate|
            c.bonus == 0 ==> (#[trigger] offer(query, c) matches Some(o) ==> {
                ||| found_in(query, c.title).0 is Some && o.0 == found_in(query, c.title).0->0
                ||| found_in(query, c.url).0 is Some && o.0 == found_in(query, c.url).0->0
            }),
{
}

/// Of two lines that are offered for a query, the first shows a candidate that counts for no less
/// than the one that the second shows.
pub proof fn law_lines_in_order(query: Seq<char>, cs: Seq<Candidate>, limit: nat, k: int, l: int)
    requires
        query.len() > 0,
        forall|i: int| 0 <= i < cs.len() ==> fair(#[trigger] cs[i]),
        0 <= k < l < offered(query, true, cs, limit).len(),
    ensures
        exists|i: int, j: int|
            0 <= i < cs.len() && 0 <= j < cs.len() && ({
                let a = #[trigger] offer(query, cs[i]);
                let b = #[trigger] offer(query, cs[j]);
                a is Some && b is Some && (a->0).1 == offered(query, true, cs, limit)[k] && (b->0).1
                    == offered(query, true, cs, limit)[l] && (a->0).0 >= (b->0).0
            }),
{
    let o = offers(query, cs);
    let top = rank::best(o.map_values(|x: (int, Line)| x.0 as i64), limit);
    law_best_lines_first(query, cs, limit);
    lemma_offers_from(query, cs, top[k]);
    lemma_offers_from(query, cs, top[l]);
    let i = choose|i: int|
        0 <= i < cs.len() && (#[trigger] offer(query, cs[i])) == Some(offers(query, cs)[top[k]]);
    let j = choose|j: int|
        0 <= j < cs.len() && (#[trigger] offer(query, cs[j])) == Some(offers(query, cs)[top[l]]);
    assert(o[top[k]].0 >= o[top[l]].0);
    assert(offer(query, cs[i]) is Some && offer(query, cs[j]) is Some);
}

/// A candidate that matches is shown, or every line shows one that counts for no less.
pub proof fn law_left_out_for_better(
    query: Seq<char>,
    cs: Seq<Candidate>,
    limit: nat,
    i: int,
    k: int,
)
    requires
        query.len() > 0,
        forall|i: int| 0 <= i < cs.len() ==> fair(#[trigger] cs[i]),
        0 <= i < cs.len(),
        offer(query, cs[i]) is Some,
        0 <= k < offered(query, true, cs, limit).len(),
        !offered(query, true, cs, limit).contains((offer(query, cs[i])->0).1),
    ensures
        exists|j: int|
            0 <= j < cs.len() && ({
                let b = #[trigger] offer(query, cs[j]);
                b is Some && (b->0).1 == offered(query, true, cs, limit)[k] && (b->0).0 >= (offer(
                    query,
                    cs[i],
                )->0).0
            }),
{
    let o = offers(query, cs);
    let top = rank::best(o.map_values(|x: (int, Line)| x.0 as i64), limit);
    let lines = offered(query, true, cs, limit);
    law_best_lines_first(query, cs, limit);
    let p = lemma_offered_once(query, cs, i);
    if top.contains(p) {
        let q = top.index_of(p);
        assert(lines[q] == o[p].1);
    }
    lemma_offers_from(query, cs, top[k]);
    let j = choose|j: int|
        0 <= j < cs.len() && (#[trigger] offer(query, cs[j])) == Some(offers(query, cs)[top[k]]);
    assert(o[top[k]].0 >= o[p].0);
    assert(offer(query, cs[j]) is Some);
}

/// All kinds are in the scope `all`, and each of them in the scope of its name, in which no other
/// one is.
pub proof fn law_scopes(scope: Seq<char>, kind: Seq<char>)
    ensures
        scope != "all"@ && scope != kind ==> !in_scope(scope, kind),
        in_scope("all"@, "tabs"@) && in_scope("all"@, "history"@) && in_scope("all"@, "bookmarks"@),
        in_scope("tabs"@, "tabs"@) && !in_scope("tabs"@, "history"@) && !in_scope(
            "tabs"@,
            "bookmarks"@,
        ),
        in_scope("history"@, "history"@) && !in_scope("history"@, "tabs"@) && !in_scope(
            "history"@,
            "bookmarks"@,
        ),
        in_scope("bookmarks"@, "bookmarks"@) && !in_scope("bookmarks"@, "tabs"@) && !in_scope(
            "bookmarks"@,
            "history"@,
        ),
{
    reveal_strlit("all");
    reveal_strlit("tabs");
    reveal_strlit("history");
    reveal_strlit("bookmarks");
    assert("all"@.len() == 3 && "tabs"@.len() == 4 && "history"@.len() == 7 && "bookmarks"@.len()
        == 9);
}

/// A tab with a title that is not blank is shown with it.
pub proof fn law_titled_tab(title: Seq<char>, url: Seq<char>, i: int)
    requires
        0 <= i < title.len(),
        !text::is_white(title[i]),
    ensures
        display_title(Some(title), url) == title,
{
    let (a, b) = text::law_trimmed_whole(title);
    if text::trimmed(title).len() == 0 {
        if i < a.len() {
            assert(title[i] == a[i]);
        } else {
            assert(title[i] == b[i - a.len()]);
        }
    }
}

/// A tab without a title, or with a blank one, is shown with the host of its address, port and all,
/// but without a `www.` in front.
pub proof fn law_untitled_tab(
    title: Option<Seq<char>>,
    scheme: Seq<char>,
    www: bool,
    host: Seq<char>,
    rest: Seq<char>,
)
    requires
        title matches Some(t) ==> text::all_white(t),
        !scheme.contains(':'),
        host.len() > 0,
        !host.contains('/'),
        host.last() != ':',
        !text::begins(host, "www."@),
        rest.len() == 0 || rest[0] == '/',
    ensures
        ({
            let front = if www {
                "www."@ + host
            } else {
                host
            };
            display_title(title, scheme + "://"@ + front + rest) == host
        }),
{
    let front = if www {
        "www."@ + host
    } else {
        host
    };
    let url = scheme + "://"@ + front + rest;
    let n = scheme.len() as int;
    reveal_strlit("://");
    reveal_strlit("www.");
    if title is Some {
        let t = title->0;
        let none = Seq::<char>::empty();
        text::law_trimmed(t, none, none);
        assert(t + none + none =~= t);
    }
    // the first "://" stands behind the scheme
    assert(url.subrange(n, n + 3) =~= "://"@);
    assert(text::at(url, "://"@, n));
    text::lemma_find_from(url, "://"@, 0);
    assert(text::find_in(url, "://"@) == Some(n)) by {
        let k = text::find_in(url, "://"@)->0;
        if k < n {
            assert(url.subrange(k, k + 3)[0] == ':');
            assert(scheme[k] == ':');
        }
    }
    let tail = front + rest;
    assert(url.skip(n + 3) =~= tail);
    // the next one stands behind the host
    text::lemma_find_from(tail, "://"@, 0);
    assert(front.last() == host.last());
    assert(!front.contains('/')) by {
        if front.contains('/') {
            let j = front.index_of('/');
            assert(front[j] == '/');
            if www {
                assert(j >= 4);
                assert(host[j - 4] == '/');
            }
        }
    }
    let part = match text::find_in(tail, "://"@) {
        Some(j) => tail.take(j),
        None => tail,
    };
    if text::find_in(tail, "://"@) is Some {
        let j = text::find_in(tail, "://"@)->0;
        let cut = tail.subrange(j, j + 3);
        assert(cut[0] == ':' && cut[1] == '/');
        assert(tail[j] == ':' && tail[j + 1] == '/');
        assert(j >= front.len()) by {
            if j + 1 < front.len() {
                assert(front[j + 1] == '/');
            } else if j + 1 == front.len() {
                assert(front.last() == ':');
            }
        }
        assert(part =~= front + rest.take(j - front.len()));
        text::law_first_piece(front, rest.take(j - front.len()), '/');
    } else {
        text::law_first_piece(front, rest, '/');
    }
    assert(host_part(url) == Some(front));
    if www {
        assert(front.subrange(0, 4) =~= "www."@);
        assert(front.skip(4) =~= host);
        assert(strip_all(host, "www."@) == host);
        assert(strip_all(front, "www."@) == host);
    }
}

/// A tab without a title whose address has no scheme is shown with the address.
pub proof fn law_tab_shown_by_url(url: Seq<char>)
    requires
        !(text::has(url, "://"@)),
    ensures
        display_title(None, url) == url,
{
    text::lemma_find_from(url, "://"@, 0);
}

/// Choosing the line of a tab in place brings that very tab to the front; choosing the line of a
/// page or a bookmark sends the tab in front to it, or makes a tab where there is none.
pub proof fn law_lines_chosen(
    t: Tab,
    h: HistoryDbEntry,
    b: BookmarkDbEntry,
    active: Option<i32>,
)
    ensures
        line_action(tab_candidate(t).id, "current-tab"@, active) == Ok::<OpenAction, Seq<char>>(
            OpenAction::Activate(t.id),
        ),
        active matches Some(a) ==> line_action(
            history_candidate(h).id,
            "current-tab"@,
            active,
        ) == Ok::<OpenAction, Seq<char>>(OpenAction::Navigate(a)) && line_action(
            bookmark_candidate(b).id,
            "current-tab"@,
            active,
        ) == Ok::<OpenAction, Seq<char>>(OpenAction::Navigate(a)),
        active is None ==> line_action(history_candidate(h).id, "current-tab"@, active) == Ok::<
            OpenAction,
            Seq<char>,
        >(OpenAction::Create { background: false }) && line_action(
            bookmark_candidate(b).id,
            "current-tab"@,
            active,
        ) == Ok::<OpenAction, Seq<char>>(OpenAction::Create { background: false }),
{
    reveal_strlit("tab:");
    reveal_strlit("history:");
    reveal_strlit("bookmark:");
    let id = tab_candidate(t).id;
    assert(id.subrange(0, 4) =~= "tab:"@);
    assert(id.skip(4) =~= text::decimal_int(t.id as int));
    text::law_number_read_back(t.id as int);
    let hid = history_candidate(h).id;
    let bid = bookmark_candidate(b).id;
    assert(!text::begins(hid, "tab:"@)) by {
        if text::begins(hid, "tab:"@) {
            assert(hid.subrange(0, 4)[0] == 't');
            assert(hid[0] == 'h');
        }
    }
    assert(!text::begins(bid, "tab:"@)) by {
        if text::begins(bid, "tab:"@) {
            assert(bid.subrange(0, 4)[0] == 't');
            assert(bid[0] == 'b');
        }
    }
}

/// Whatever the line, it can be opened in a new tab, in front or behind, or in a new window; no
/// other way is known.
pub proof fn law_ways_to_open(id: Seq<char>, way: Seq<char>, active: Option<i32>)
    ensures
        line_action(id, "new-tab-foreground"@, active) == Ok::<OpenAction, Seq<char>>(
            OpenAction::Create { background: false },
        ),
        line_action(id, "new-tab-background"@, active) == Ok::<OpenAction, Seq<char>>(
            OpenAction::Create { background: true },
        ),
        line_action(id, "new-window"@, active) == Ok::<OpenAction, Seq<char>>(
            OpenAction::NewWindow,
        ),
        way != "current-tab"@ && way != "new-tab-foreground"@ && way != "new-tab-background"@ && way
            != "new-window"@ ==> line_action(id, way, active) is Err,
{
    reveal_strlit("current-tab");
    reveal_strlit("new-tab-foreground");
    reveal_strlit("new-tab-background");
    reveal_strlit("new-window");
    assert("current-tab"@.len() == 11 && "new-window"@.len() == 10);
    assert("new-tab-foreground"@[8] == 'f' && "new-tab-background"@[8] == 'b');
    assert("new-tab-foreground"@.len() == 18 && "new-tab-background"@.len() == 18);
}

/// A line of the palette that is no search leads to its own address, whatever that is.
pub proof fn law_plain_line_target(
    t: Tab,
    h: HistoryDbEntry,
    b: BookmarkDbEntry,
    engines: Seq<SearchEngine>,
)
    ensures
        line_target(tab_candidate(t).id, tab_candidate(t).url, engines) == t.url@,
        line_target(history_candidate(h).id, history_candidate(h).url, engines) == h.url@,
        line_target(bookmark_candidate(b).id, bookmark_candidate(b).url, engines) == b.url@,
{
    reveal_strlit("search:");
    reveal_strlit("tab:");
    reveal_strlit("history:");
    reveal_strlit("bookmark:");
    let ids = seq![tab_candidate(t).id, history_candidate(h).id, bookmark_candidate(b).id];
    assert forall|i: int| 0 <= i < 3 implies !text::begins(#[trigger] ids[i], "search:"@) by {
        if text::begins(ids[i], "search:"@) {
            assert(ids[i].subrange(0, 7)[0] == 's');
            assert(ids[i][0] == 's');
        }
    }
    assert(!text::begins(ids[0], "search:"@) && !text::begins(ids[1], "search:"@) && !text::begins(
        ids[2],
        "search:"@,
    ));
}

/// A line that searches leads to where the line would lead in the address bar, with the engine that
/// the program comes with as the default one: to the search for what was typed where that is a word
/// without dots, colons, slashes and spaces.
pub proof fn law_search_line_target(
    id: Seq<char>,
    word: Seq<char>,
    engines: Seq<SearchEngine>,
    other: Seq<char>,
)
    requires
        word.len() > 0,
        word.len() != 9,
        text::no_white(word),
        !word.contains('.'),
        !word.contains(':'),
        !word.contains('/'),
    ensures
        line_target("search:"@ + id, word, engines) == "https://duckduckgo.com/?q="@
            + search::percent_encoded(word),
        line_target("search:"@ + id, other, engines) == search::address_for(
            other,
            engines,
            search::default_template(None),
        ),
{
    reveal_strlit("search:");
    reveal_strlit("%s");
    reveal_strlit("https://duckduckgo.com/?q=");
    reveal_strlit("https://duckduckgo.com/?q=%s");
    assert(("search:"@ + id).subrange(0, 7) =~= "search:"@);
    search::law_words_are_searched(word);
    text::law_trimmed_stays(word);
    assert(search::is_first_word(word, word.len() as int));
    let front = "https://duckduckgo.com/?q="@;
    let none = Seq::<char>::empty();
    assert(front + "%s"@ + none =~= PALETTE_SEARCH@);
    search::law_template_filled(word, engines, front, none, word.len() as int);
    assert(front + search::percent_encoded(word) + none =~= front + search::percent_encoded(word));
}

/// A query of one word without backslashes can be scored in any text where it has 2520 characters
/// or fewer; a backslash counts twice.
pub proof fn law_word_limit(word: Seq<char>)
    requires
        !word.contains(' '),
    ensures
        !word.contains('\\') ==> (scorable(word) <==> word.len() <= 2520),
        scorable(word) ==> word.len() <= 2520,
        2 * word.len() <= 2520 ==> scorable(word),
{
    assert(word.take(word.len() as int) =~= word);
    lemma_word_length(word);
    assert forall|k: int| 0 <= k <= word.len() implies last_word(#[trigger] word.take(k)) <= 2 * k && (
    !word.contains('\\') ==> last_word(word.take(k)) == k) by {
        let t = word.take(k);
        assert(!t.contains(' ')) by {
            if t.contains(' ') {
                let j = t.index_of(' ');
                assert(word[j] == ' ');
            }
        }
        if t.contains('\\') {
            let j = t.index_of('\\');
            assert(word[j] == '\\');
        }
        lemma_word_length(t);
    }
    if scorable(word) {
        assert(last_word(word.take(word.len() as int)) <= MAX_WORD);
    }
}

proof fn lemma_word_length(s: Seq<char>)
    requires
        !s.contains(' '),
    ensures
        s.len() <= last_word(s) <= 2 * s.len(),
        !s.contains('\\') ==> last_word(s) == s.len(),
    decreases s.len(),
{
    if s.len() > 0 {
        let front = s.drop_last();
        assert(s[s.len() - 1] == s.last());
        assert(!front.contains(' ')) by {
            if front.contains(' ') {
                let j = front.index_of(' ');
                assert(s[j] == ' ');
            }
        }
        if front.contains('\\') {
            let j = front.index_of('\\');
            assert(s[j] == '\\');
        }
        lemma_word_length(front);
    }
}

/// A variant letter stands for another letter, which is not a variant of its own.
pub proof fn law_variant_letters(c: char)
    requires
        is_variant_letter(c),
    ensures
        folded(c) != c as int,
        forall|d: char| d as int == #[trigger] folded(c) ==> folded(d) == d as int,
{
}

/// A text and a query that can be matched are of a length that can be scored, and where the query
/// has marks, no letter of it is the one that a variant letter of the text stands for.
pub proof fn law_can_score(query: Seq<char>, haystack: Seq<char>, i: int, j: int)
    requires
        can_score(query, haystack),
    ensures
        query.len() <= 50_000_000,
        haystack.len() <= 0xffff_ffff,
        haystack.len() <= 2520 || scorable(query),
        0 <= i < query.len() && 0 <= j < haystack.len() && is_variant_letter(haystack[j])
            && !without_marks(query) ==> folded(query[i]) != folded(haystack[j]),
{
}

/// Every letter that stands for another one is a capital or a variant letter.
pub proof fn law_letters_that_stand_for_others(c: char)
    requires
        folded(c) != c as int,
    ensures
        is_variant_letter(c) || c == 'S' || '\u{391}' <= c <= '\u{3a9}' || '\u{410}' <= c <= '\u{42f}'
            || c == '\u{3f4}' || c == '\u{462}' || c == '\u{a64a}' || c == '\u{1e60}',
{
}

/// Where the text has no variant letter, no query clashes with it, and none does where the query is
/// empty; a query clashes with a text where it does with a part of it.
pub proof fn law_clashes(query: Seq<char>, haystack: Seq<char>, more: Seq<char>)
    ensures
        (forall|j: int| 0 <= j < haystack.len() ==> !is_variant_letter(#[trigger] haystack[j]))
            ==> no_clash(query, haystack),
        query.len() == 0 ==> no_clash(query, haystack),
        no_clash(query, haystack + more) <==> no_clash(query, haystack) && no_clash(query, more),
{
    let all = haystack + more;
    if no_clash(query, haystack) && no_clash(query, more) {
        assert forall|i: int, j: int|
            0 <= i < query.len() && 0 <= j < all.len() && is_variant_letter(#[trigger] all[j])
                implies folded(#[trigger] query[i]) != folded(all[j]) by {
            if j < haystack.len() {
                assert(all[j] == haystack[j]);
            } else {
                assert(all[j] == more[j - haystack.len()]);
            }
        }
    }
    if no_clash(query, all) {
        assert forall|i: int, j: int|
            0 <= i < query.len() && 0 <= j < haystack.len() && is_variant_letter(
                #[trigger] haystack[j],
            ) implies folded(#[trigger] query[i]) != folded(haystack[j]) by {
            assert(all[j] == haystack[j]);
        }
        assert forall|i: int, j: int|
            0 <= i < query.len() && 0 <= j < more.len() && is_variant_letter(#[trigger] more[j])
                implies folded(#[trigger] query[i]) != folded(more[j]) by {
            assert(all[j + haystack.len()] == more[j]);
        }
    }
}

} // verus!
