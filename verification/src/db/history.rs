//! Pages that were visited.

use vstd::prelude::*;
use vstd::string::*;
use crate::rank;
use crate::text;

verus! {

/// A visited page as it is read for ranking.
pub struct HistoryDbEntry {
    pub id: i32,
    pub url: String,
    pub title: String,
    pub visit_count: i32,
    /// Seconds since 1970.
    pub last_visit: i64,
    pub typed_count: i32,
}

/// What is on record of the visits to one page.
pub struct Visits {
    pub title: Option<String>,
    pub visit_count: i64,
    /// Seconds since 1970.
    pub last_visit: i64,
    pub typed_count: i64,
}

/// The seconds of a day.
pub const DAY: i64 = 86_400;

/// How much a visit counts, by the seconds that have passed since the last one.
pub open spec fn weight(age: int) -> int {
    if age < 4 * DAY {
        100
    } else if age < 14 * DAY {
        70
    } else if age < 31 * DAY {
        50
    } else if age < 90 * DAY {
        30
    } else {
        10
    }
}

/// How often and how recently a page was visited, as one number.
pub open spec fn frecency(e: HistoryDbEntry, now: i64) -> int {
    e.visit_count * weight(now - e.last_visit)
}

/// How often and how recently a page was visited, as one number.
pub fn frecency_of(e: &HistoryDbEntry, now: i64) -> (out: i64)
    ensures
        out == frecency(*e, now),
{
    let age: i128 = now as i128 - e.last_visit as i128;
    let w: i64 = if age < 345_600 {
        100
    } else if age < 1_209_600 {
        70
    } else if age < 2_678_400 {
        50
    } else if age < 7_776_000 {
        30
    } else {
        10
    };
    assert(w == weight(age as int));
    assert(-214_748_364_800 <= e.visit_count * w <= 214_748_364_700) by (nonlinear_arith)
        requires
            i32::MIN <= e.visit_count <= i32::MAX,
            10 <= w <= 100,
    ;
    e.visit_count as i64 * w
}

/// The frecencies of a list of pages.
pub open spec fn frecencies(entries: Seq<HistoryDbEntry>, now: i64) -> Seq<i64> {
    entries.map_values(|e: HistoryDbEntry| frecency(e, now) as i64)
}

impl HistoryDbEntry {
    /// The same entry once more.
    pub fn copy(&self) -> (out: HistoryDbEntry)
        ensures
            out == *self,
    {
        HistoryDbEntry {
            id: self.id,
            url: self.url.clone(),
            title: self.title.clone(),
            visit_count: self.visit_count,
            last_visit: self.last_visit,
            typed_count: self.typed_count,
        }
    }
}

/// The pages with the highest frecency, the highest first.
pub fn get_top_history_by_frecency(
    entries: &Vec<HistoryDbEntry>,
    now: i64,
    limit: usize,
) -> (out: Vec<HistoryDbEntry>)
    ensures
        out@ == rank::best(frecencies(entries@, now), limit as nat).map_values(|i: int| entries@[i]),
{
    let mut keys: Vec<i64> = Vec::new();
    for i in 0..entries.len()
        invariant
            keys@ == frecencies(entries@.take(i as int), now),
    {
        assert(entries@.take(i + 1) =~= entries@.take(i as int).push(entries@[i as int]));
        keys.push(frecency_of(&entries[i], now));
        assert(keys@ =~= frecencies(entries@.take(i + 1), now));
    }
    assert(entries@.take(entries@.len() as int) =~= entries@);
    let order: Vec<usize> = rank::best_positions(&keys, limit);
    let ghost b = rank::best(frecencies(entries@, now), limit as nat);
    let mut out: Vec<HistoryDbEntry> = Vec::new();
    for i in 0..order.len()
        invariant
            b == rank::positions(order@),
            keys@.len() == entries@.len(),
            forall|j: int| 0 <= j < order@.len() ==> #[trigger] order@[j] < keys@.len(),
            out@.len() == i,
            forall|j: int| 0 <= j < i ==> #[trigger] out@[j] == entries@[b[j]],
    {
        let k: usize = order[i];
        assert(b[i as int] == k);
        out.push(entries[k].copy());
    }
    assert(out@ =~= b.map_values(|i: int| entries@[i]));
    out
}

/// What is on record of a page once it has been visited again, or for the first time. A page
/// keeps its title where none is given.
pub open spec fn is_visited(
    before: Option<Visits>,
    title: Option<String>,
    typed: bool,
    now: i64,
    after: Visits,
) -> bool {
    let typed_inc: int = if typed {
        1
    } else {
        0
    };
    &&& after.last_visit == now
    &&& match before {
        None => {
            &&& after.title == title
            &&& after.visit_count == 1
            &&& after.typed_count == typed_inc
        },
        Some(v) => {
            &&& after.title == if title is Some {
                title
            } else {
                v.title
            }
            &&& after.visit_count == v.visit_count + 1
            &&& after.typed_count == v.typed_count + typed_inc
        },
    }
}

/// Notes a visit. `typed` says that the address was typed or chosen, not followed.
pub fn record_visit(
    before: Option<Visits>,
    title: Option<String>,
    typed: bool,
    now: i64,
) -> (after: Visits)
    requires
        before matches Some(v) ==> v.visit_count < i64::MAX && v.typed_count < i64::MAX,
    ensures
        is_visited(before, title, typed, now, after),
{
    let typed_inc: i64 = if typed {
        1
    } else {
        0
    };
    match before {
        None => Visits { title, visit_count: 1, last_visit: now, typed_count: typed_inc },
        Some(v) => Visits {
            title: if title.is_some() {
                title
            } else {
                v.title
            },
            visit_count: v.visit_count + 1,
            last_visit: now,
            typed_count: v.typed_count + typed_inc,
        },
    }
}

/// Notes a visit to an address that was followed.
pub fn add_history_entry(before: Option<Visits>, title: Option<String>, now: i64) -> (after: Visits)
    requires
        before matches Some(v) ==> v.visit_count < i64::MAX && v.typed_count < i64::MAX,
    ensures
        is_visited(before, title, false, now, after),
{
    record_visit(before, title, false, now)
}

/// What the full-text index is asked for: the words with quotation marks blanked out, the last
/// of them as a prefix. Without words there is nothing to ask, and the latest pages are shown.
pub open spec fn index_query(query: Seq<char>) -> Option<Seq<char>> {
    let q = text::trimmed(query);
    if q.len() == 0 {
        None
    } else {
        Some(text::replaced(q, "\""@, " "@) + "*"@)
    }
}

/// What the full-text index is asked for, if anything.
pub fn search_history(query: &str) -> (out: Option<String>)
    ensures
        text::opt_view(out) == index_query(query@),
{
    let q: String = text::trim(query);
    if q.as_str().is_empty() {
        return None;
    }
    proof {
        reveal_strlit("\"");
    }
    let clean: String = text::replace(q.as_str(), "\"", " ");
    Some(text::concat2(clean.as_str(), "*"))
}

/// Which pages are to be forgotten.
pub enum Deletion {
    All,
    Ids(Vec<i32>),
    Nothing,
}

/// Which pages are to be forgotten, by the mode that was asked for.
pub fn history_delete(mode: &str, ids: Option<Vec<i32>>) -> (out: Deletion)
    ensures
        mode@ == "all"@ ==> out is All,
        mode@ == "ids"@ ==> match (ids, out) {
            (Some(list), Deletion::Ids(chosen)) => chosen == list,
            (None, Deletion::Ids(chosen)) => chosen@.len() == 0,
            _ => false,
        },
        mode@ != "all"@ && mode@ != "ids"@ ==> out is Nothing,
{
    proof {
        reveal_strlit("all");
        reveal_strlit("ids");
        assert("all"@[0] != "ids"@[0]);
    }
    if text::same(mode, "all") {
        Deletion::All
    } else if text::same(mode, "ids") {
        match ids {
            Some(list) => Deletion::Ids(list),
            None => Deletion::Ids(Vec::new()),
        }
    } else {
        Deletion::Nothing
    }
}

/// A visit makes a page count for at least as much as before: its visits grow by one, and no
/// older one counts for more than the latest.
pub proof fn law_visit_raises(count: int, last_visit: int, now: int)
    requires
        count >= 0,
        last_visit <= now,
    ensures
        (count + 1) * weight(0) >= count * weight(now - last_visit) + 100,
{
    assert((count + 1) * 100 >= count * weight(now - last_visit) + 100) by (nonlinear_arith)
        requires
            count >= 0,
            weight(now - last_visit) <= 100,
    ;
}

/// Of two pages with the same last visit, the one with more visits counts for more. Each further
/// visit adds one hundred where the last one was less than four days ago, seventy within two weeks,
/// fifty within 31 days, thirty within 90 days, and ten later. A page without visits counts for
/// nothing.
pub proof fn law_more_visits(a: HistoryDbEntry, b: HistoryDbEntry, now: i64)
    requires
        a.last_visit == b.last_visit,
    ensures
        a.visit_count < b.visit_count ==> frecency(a, now) < frecency(b, now),
        b.visit_count == a.visit_count + 1 ==> frecency(b, now) == frecency(a, now) + (if now
            - a.last_visit < 345_600 {
            100int
        } else if now - a.last_visit < 1_209_600 {
            70
        } else if now - a.last_visit < 2_678_400 {
            50
        } else if now - a.last_visit < 7_776_000 {
            30
        } else {
            10
        }),
        a.visit_count == 0 ==> frecency(a, now) == 0,
{
    let w = weight(now - a.last_visit);
    let m = a.visit_count as int;
    let n = b.visit_count as int;
    assert(m < n ==> m * w < n * w) by (nonlinear_arith)
        requires
            w > 0,
    ;
    assert(n == m + 1 ==> n * w == m * w + w) by (nonlinear_arith);
    assert(m == 0 ==> m * w == 0) by (nonlinear_arith);
}

/// Of two pages with as many visits, the one that was visited later counts for no less; for ten
/// times as much where its visit is less than four days ago and the other one 90 days or more.
pub proof fn law_later_visit(a: HistoryDbEntry, b: HistoryDbEntry, now: i64)
    requires
        a.visit_count == b.visit_count,
        a.visit_count >= 0,
        a.last_visit <= b.last_visit,
    ensures
        frecency(a, now) <= frecency(b, now),
        now - a.last_visit >= 7_776_000 && now - b.last_visit < 345_600 ==> frecency(b, now) == 10
            * frecency(a, now),
{
    let v = weight(now - a.last_visit);
    let w = weight(now - b.last_visit);
    let n = a.visit_count as int;
    assert(v <= w);
    assert(n * v <= n * w) by (nonlinear_arith)
        requires
            n >= 0,
            v <= w,
    ;
    assert(w == 10 * v ==> n * w == 10 * (n * v)) by (nonlinear_arith);
}

proof fn lemma_frecency_fits(e: HistoryDbEntry, now: i64)
    ensures
        frecency(e, now) as i64 == frecency(e, now),
{
    let w = weight(now - e.last_visit);
    let n = e.visit_count as int;
    assert(-214_748_364_800 <= n * w <= 214_748_364_700) by (nonlinear_arith)
        requires
            i32::MIN <= n <= i32::MAX,
            10 <= w <= 100,
    ;
}

/// Where a page is listed among the first, every page with the same last visit and more visits is
/// listed before it.
pub proof fn law_more_visited_listed_before(
    entries: Seq<HistoryDbEntry>,
    now: i64,
    limit: nat,
    k: int,
    j: int,
)
    requires
        0 <= k < rank::best(frecencies(entries, now), limit).len(),
        0 <= j < entries.len(),
        entries[j].last_visit == entries[rank::best(frecencies(entries, now), limit)[k]].last_visit,
        entries[j].visit_count > entries[rank::best(
            frecencies(entries, now),
            limit,
        )[k]].visit_count,
    ensures
        exists|l: int| 0 <= l < k && #[trigger] rank::best(frecencies(entries, now), limit)[l] == j,
{
    let keys = frecencies(entries, now);
    let top = rank::best(keys, limit);
    let i = top[k];
    rank::law_best(keys, limit);
    law_more_visits(entries[i], entries[j], now);
    lemma_frecency_fits(entries[i], now);
    lemma_frecency_fits(entries[j], now);
    assert(keys[i] < keys[j]);
    assert(top.contains(j)) by {
        if !top.contains(j) {
            assert(keys[top[k]] >= keys[j]);
        }
    }
    let l = top.index_of(j);
    assert(top[l] == j);
    if l > k {
        assert(keys[top[k]] >= keys[top[l]]);
    }
}

/// As many pages are listed as there are, up to the limit, and none of them twice.
pub proof fn law_listed_once(entries: Seq<HistoryDbEntry>, now: i64, limit: nat)
    ensures
        ({
            let top = rank::best(frecencies(entries, now), limit);
            &&& limit >= entries.len() ==> top.len() == entries.len()
            &&& limit < entries.len() ==> top.len() == limit
            &&& top.no_duplicates()
            &&& forall|k: int| 0 <= k < top.len() ==> 0 <= #[trigger] top[k] < entries.len()
        }),
{
    rank::law_best(frecencies(entries, now), limit);
}

/// A page that is visited twice has been visited twice, last at the second time; a visit by a typed
/// address counts as such. A title that is given replaces the one that is there, and none is lost.
pub proof fn law_two_visits(
    first: Option<String>,
    second: Option<String>,
    typed: (bool, bool),
    times: (i64, i64),
    before: Visits,
    after: Visits,
)
    requires
        is_visited(None, first, typed.0, times.0, before),
        is_visited(Some(before), second, typed.1, times.1, after),
    ensures
        before.visit_count == 1,
        after.visit_count == 2,
        after.last_visit == times.1,
        !typed.0 && !typed.1 ==> after.typed_count == 0,
        typed.0 != typed.1 ==> after.typed_count == 1,
        typed.0 && typed.1 ==> after.typed_count == 2,
        second is Some ==> after.title == second,
        second is None ==> after.title == first,
{
}

/// A visit adds one to the visits of a page, and one to those by a typed address where it is such.
pub proof fn law_visit_counted(
    before: Visits,
    title: Option<String>,
    typed: bool,
    now: i64,
    after: Visits,
)
    requires
        is_visited(Some(before), title, typed, now, after),
    ensures
        after.visit_count - before.visit_count == 1,
        typed ==> after.typed_count - before.typed_count == 1,
        !typed ==> after.typed_count == before.typed_count,
        after.last_visit == now,
        before.title is Some ==> after.title is Some,
        title is Some ==> after.title == title,
{
}

/// What the index is asked for is what was typed, free of white space at its ends, character by
/// character, with a space for each quotation mark and a star at the end. It is not asked for white
/// space alone.
pub proof fn law_index_query(pre: Seq<char>, words: Seq<char>, post: Seq<char>)
    requires
        text::all_white(pre),
        text::all_white(post),
        words.len() > 0 ==> !text::is_white(words[0]) && !text::is_white(words.last()),
    ensures
        words.len() == 0 ==> index_query(pre + words + post) is None,
        words.len() > 0 ==> match index_query(pre + words + post) {
            Some(q) => {
                &&& q.len() == words.len() + 1
                &&& q.last() == '*'
                &&& forall|i: int|
                    0 <= i < words.len() ==> #[trigger] q[i] == if words[i] == '"' {
                        ' '
                    } else {
                        words[i]
                    }
            },
            None => false,
        },
{
    reveal_strlit("\"");
    reveal_strlit(" ");
    reveal_strlit("*");
    assert("\""@ =~= seq!['"']);
    assert(" "@ =~= seq![' ']);
    text::law_trimmed(pre, words, post);
    text::law_replaced_char(words, '"', ' ');
}

} // verus!
