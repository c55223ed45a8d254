//! Tabs that leave no trace: they are held in memory alone.

use vstd::prelude::*;
use vstd::string::*;
use std::collections::HashSet;
use crate::db::tabs_repo;
use crate::ipc_types::Tab;
use crate::text;

verus! {

broadcast use vstd::std_specs::hash::group_hash_axioms;

/// How many closed tabs of a window can be opened again.
pub const CLOSED_LIMIT: usize = 25;

/// The tabs and windows that leave no trace, and the closed tabs that can be opened again, the
/// latest last.
pub struct IncognitoStore {
    pub tabs: Vec<Tab>,
    pub windows: HashSet<i32>,
    pub closed: Vec<Tab>,
}

/// The position of the first tab with the given number, from `i` on.
pub open spec fn tab_from(tabs: Seq<Tab>, id: i32, i: int) -> Option<int>
    decreases tabs.len() - i,
{
    if i >= tabs.len() {
        None
    } else if tabs[i].id == id {
        Some(i)
    } else {
        tab_from(tabs, id, i + 1)
    }
}

/// The position of the first tab with the given number.
pub open spec fn tab_position(tabs: Seq<Tab>, id: i32) -> Option<int> {
    tab_from(tabs, id, 0)
}

/// The tabs with the first one of the given number changed.
pub open spec fn revised(tabs: Seq<Tab>, id: i32, change: spec_fn(Tab) -> Tab) -> Seq<Tab> {
    match tab_position(tabs, id) {
        Some(i) => tabs.update(i, change(tabs[i])),
        None => tabs,
    }
}

/// The lowest number of the tabs, or 0 if none is negative.
pub open spec fn least_id(tabs: Seq<Tab>) -> int
    decreases tabs.len(),
{
    if tabs.len() == 0 {
        0
    } else {
        let least = least_id(tabs.drop_last());
        if tabs.last().id < least {
            tabs.last().id as int
        } else {
            least
        }
    }
}

/// The tabs that are not in the window, in their order.
pub open spec fn outside(tabs: Seq<Tab>, window_id: i32) -> Seq<Tab> {
    tabs.filter(|t: Tab| t.window_id != window_id)
}

/// The tabs that are in the window, in their order.
pub open spec fn inside(tabs: Seq<Tab>, window_id: i32) -> Seq<Tab> {
    tabs.filter(|t: Tab| t.window_id == window_id)
}

/// A tab that was just made.
pub open spec fn is_new_tab(
    t: Tab,
    id: int,
    window_id: i32,
    url: String,
    order_key: Seq<char>,
    created_at: i64,
) -> bool {
    &&& t.id == id
    &&& t.window_id == window_id
    &&& t.url == url
    &&& t.title is None
    &&& t.favicon_id is None
    &&& !t.pinned
    &&& !t.muted
    &&& t.order_key@ == order_key
    &&& t.scroll_y == 0
    &&& t.last_active == Some(created_at)
    &&& t.created_at == created_at
}

/// No number is below the least one.
pub proof fn lemma_least_id(tabs: Seq<Tab>)
    ensures
        least_id(tabs) <= 0,
        forall|i: int| 0 <= i < tabs.len() ==> least_id(tabs) <= (#[trigger] tabs[i]).id,
    decreases tabs.len(),
{
    if tabs.len() > 0 {
        lemma_least_id(tabs.drop_last());
        assert forall|i: int| 0 <= i < tabs.len() implies least_id(tabs) <= (
        #[trigger] tabs[i]).id by {
            if i < tabs.len() - 1 {
                assert(tabs.drop_last()[i] == tabs[i]);
            }
        }
    }
}

/// Whether a tab is held in memory alone: its number tells.
pub fn is_private(id: i32) -> (out: bool)
    ensures
        out == (id < 0),
{
    id < 0
}

/// Whether what a page does is kept from the record: its tab is held in memory alone, or its window
/// leaves no trace.
pub fn is_off_record(id: i32, private_window: bool) -> (out: bool)
    ensures
        out == (private_window || id < 0),
{
    private_window || is_private(id)
}

fn find_tab(tabs: &Vec<Tab>, id: i32) -> (out: Option<usize>)
    ensures
        match out {
            Some(i) => tab_position(tabs@, id) == Some(i as int) && i < tabs@.len() && tabs@[i
                as int].id == id,
            None => tab_position(tabs@, id) is None,
        },
{
    for i in 0..tabs.len()
        invariant
            tab_from(tabs@, id, 0) == tab_from(tabs@, id, i as int),
    {
        if tabs[i].id == id {
            return Some(i);
        }
    }
    None
}

/// The number for a new tab: below all others and below zero.
fn next_id(tabs: &Vec<Tab>) -> (out: i32)
    requires
        least_id(tabs@) > i32::MIN,
    ensures
        out == least_id(tabs@) - 1,
{
    let mut least: i32 = 0;
    for i in 0..tabs.len()
        invariant
            least == least_id(tabs@.take(i as int)),
    {
        assert(tabs@.take(i + 1).drop_last() =~= tabs@.take(i as int));
        if tabs[i].id < least {
            least = tabs[i].id;
        }
    }
    assert(tabs@.take(tabs@.len() as int) =~= tabs@);
    least - 1
}

impl IncognitoStore {
    /// A store that holds nothing.
    pub fn new() -> (out: Self)
        ensures
            out.tabs@ == Seq::<Tab>::empty(),
            out.windows@ == Set::<i32>::empty(),
            out.closed@ == Seq::<Tab>::empty(),
    {
        IncognitoStore { tabs: Vec::new(), windows: HashSet::new(), closed: Vec::new() }
    }
}

/// Notes that a window leaves no trace.
pub fn register_incognito_window(store: &mut IncognitoStore, window_id: i32)
    ensures
        final(store).windows@ == old(store).windows@.insert(window_id),
        final(store).tabs == old(store).tabs,
        final(store).closed == old(store).closed,
{
    store.windows.insert(window_id);
}

/// Whether a window leaves no trace.
pub fn is_incognito_window(store: &IncognitoStore, window_id: i32) -> (out: bool)
    ensures
        out == store.windows@.contains(window_id),
{
    store.windows.contains(&window_id)
}

/// The tab with the given number.
pub fn get_incognito_tab(store: &IncognitoStore, id: i32) -> (out: Option<Tab>)
    ensures
        out == match tab_position(store.tabs@, id) {
            Some(i) => Some(store.tabs@[i]),
            None => None,
        },
{
    match find_tab(&store.tabs, id) {
        Some(i) => Some(store.tabs[i].copy()),
        None => None,
    }
}

/// Makes a tab in a window, with a number that no other has.
pub fn create_incognito_tab(
    store: &mut IncognitoStore,
    window_id: i32,
    url: String,
    order_key: String,
    created_at: i64,
) -> (out: Tab)
    requires
        least_id(old(store).tabs@) > i32::MIN,
    ensures
        is_new_tab(
            out,
            least_id(old(store).tabs@) - 1,
            window_id,
            url,
            order_key@,
            created_at,
        ),
        out.order_key == order_key,
        out.id < 0,
        forall|i: int| 0 <= i < old(store).tabs@.len() ==> out.id != (
        #[trigger] old(store).tabs@[i]).id,
        final(store).tabs@ == old(store).tabs@.push(out),
        final(store).windows@ == old(store).windows@.insert(window_id),
        final(store).closed == old(store).closed,
{
    proof {
        lemma_least_id(store.tabs@);
    }
    let id: i32 = next_id(&store.tabs);
    register_incognito_window(store, window_id);
    let tab: Tab = Tab {
        id,
        window_id,
        url,
        title: None,
        favicon_id: None,
        pinned: false,
        muted: false,
        order_key,
        scroll_y: 0,
        last_active: Some(created_at),
        created_at,
    };
    store.tabs.push(tab.copy());
    tab
}

/// Makes a tab at the front of a window.
pub fn add_incognito_tab(
    store: &mut IncognitoStore,
    window_id: i32,
    url: String,
    created_at: i64,
)
    requires
        least_id(old(store).tabs@) > i32::MIN,
    ensures
        final(store).tabs@.len() == old(store).tabs@.len() + 1,
        final(store).tabs@.drop_last() == old(store).tabs@,
        is_new_tab(
            final(store).tabs@.last(),
            least_id(old(store).tabs@) - 1,
            window_id,
            url,
            "a"@,
            created_at,
        ),
        final(store).windows@ == old(store).windows@.insert(window_id),
        final(store).closed == old(store).closed,
{
    create_incognito_tab(store, window_id, url, "a".to_owned(), created_at);
    assert(store.tabs@.drop_last() =~= old(store).tabs@);
}

/// Pins a tab or lets it go.
pub fn set_incognito_pinned(store: &mut IncognitoStore, id: i32, pinned: bool)
    ensures
        final(store).tabs@ == revised(old(store).tabs@, id, |t: Tab| Tab { pinned, ..t }),
        final(store).windows == old(store).windows,
        final(store).closed == old(store).closed,
{
    if let Some(i) = find_tab(&store.tabs, id) {
        store.tabs[i].pinned = pinned;
    }
}

/// Silences a tab or lets it be heard.
pub fn set_incognito_muted(store: &mut IncognitoStore, id: i32, muted: bool)
    ensures
        final(store).tabs@ == revised(old(store).tabs@, id, |t: Tab| Tab { muted, ..t }),
        final(store).windows == old(store).windows,
        final(store).closed == old(store).closed,
{
    if let Some(i) = find_tab(&store.tabs, id) {
        store.tabs[i].muted = muted;
    }
}

/// Gives a tab another place in its window.
pub fn reorder_incognito_tab(store: &mut IncognitoStore, id: i32, order_key: String)
    ensures
        final(store).tabs@ == revised(old(store).tabs@, id, |t: Tab| Tab { order_key, ..t }),
        final(store).windows == old(store).windows,
        final(store).closed == old(store).closed,
{
    if let Some(i) = find_tab(&store.tabs, id) {
        store.tabs[i].order_key = order_key;
    }
}

/// Notes when a tab was last in front.
pub fn update_incognito_tab_last_active(store: &mut IncognitoStore, id: i32, last_active: i64)
    ensures
        final(store).tabs@ == revised(
            old(store).tabs@,
            id,
            |t: Tab| Tab { last_active: Some(last_active), ..t },
        ),
        final(store).windows == old(store).windows,
        final(store).closed == old(store).closed,
{
    if let Some(i) = find_tab(&store.tabs, id) {
        store.tabs[i].last_active = Some(last_active);
    }
}

/// Notes what a tab shows. A tab keeps its title where none is given.
pub fn update_incognito_tab(
    store: &mut IncognitoStore,
    id: i32,
    url: String,
    title: Option<String>,
    scroll_y: u64,
)
    ensures
        final(store).tabs@ == revised(
            old(store).tabs@,
            id,
            |t: Tab|
                Tab {
                    url,
                    title: if title is Some {
                        title
                    } else {
                        t.title
                    },
                    scroll_y,
                    ..t
                },
        ),
        final(store).windows == old(store).windows,
        final(store).closed == old(store).closed,
{
    if let Some(i) = find_tab(&store.tabs, id) {
        store.tabs[i].url = url;
        if title.is_some() {
            store.tabs[i].title = title;
        }
        store.tabs[i].scroll_y = scroll_y;
    }
}

/// The tabs that do not have the given number, in their order.
pub open spec fn others(tabs: Seq<Tab>, id: i32) -> Seq<Tab> {
    tabs.filter(|t: Tab| t.id != id)
}

/// Forgets a tab.
pub fn delete_incognito_tab(store: &mut IncognitoStore, id: i32)
    ensures
        final(store).tabs@ == others(old(store).tabs@, id),
        final(store).windows == old(store).windows,
        final(store).closed == old(store).closed,
{
    let mut kept: Vec<Tab> = Vec::new();
    assert(others(store.tabs@.take(0), id) =~= Seq::empty()) by {
        reveal(Seq::filter);
    }
    for i in 0..store.tabs.len()
        invariant
            kept@ == others(store.tabs@.take(i as int), id),
    {
        proof {
            reveal(Seq::filter);
            assert(store.tabs@.take(i + 1).drop_last() =~= store.tabs@.take(i as int));
        }
        if store.tabs[i].id != id {
            kept.push(store.tabs[i].copy());
        }
    }
    assert(store.tabs@.take(store.tabs@.len() as int) =~= store.tabs@);
    store.tabs = kept;
}

/// Forgets a window and its tabs.
pub fn unregister_incognito_window(store: &mut IncognitoStore, window_id: i32)
    ensures
        final(store).windows@ == old(store).windows@.remove(window_id),
        final(store).tabs@ == outside(old(store).tabs@, window_id),
        final(store).closed == old(store).closed,
{
    store.windows.remove(&window_id);
    let mut kept: Vec<Tab> = Vec::new();
    assert(outside(store.tabs@.take(0), window_id) =~= Seq::empty()) by {
        reveal(Seq::filter);
    }
    for i in 0..store.tabs.len()
        invariant
            kept@ == outside(store.tabs@.take(i as int), window_id),
    {
        proof {
            reveal(Seq::filter);
            assert(store.tabs@.take(i + 1).drop_last() =~= store.tabs@.take(i as int));
        }
        if store.tabs[i].window_id != window_id {
            kept.push(store.tabs[i].copy());
        }
    }
    assert(store.tabs@.take(store.tabs@.len() as int) =~= store.tabs@);
    store.tabs = kept;
}

/// Forgets all tabs and windows.
pub fn clear_all_incognito_tabs(store: &mut IncognitoStore)
    ensures
        final(store).tabs@ == Seq::<Tab>::empty(),
        final(store).windows@ == Set::<i32>::empty(),
        final(store).closed == old(store).closed,
{
    store.tabs.clear();
    store.windows.clear();
}

// ---- listing ----

/// `tabs`, which is in order, with `t` put behind every tab that does not come after it.
pub open spec fn placed(tabs: Seq<Tab>, t: Tab) -> Seq<Tab>
    decreases tabs.len(),
{
    if tabs.len() > 0 && text::precedes(t.order_key@, tabs.last().order_key@) {
        placed(tabs.drop_last(), t).push(tabs.last())
    } else {
        tabs.push(t)
    }
}

/// The tabs in the order of their keys; those with one key stay in the order they had.
pub open spec fn in_order(tabs: Seq<Tab>) -> Seq<Tab>
    decreases tabs.len(),
{
    if tabs.len() == 0 {
        tabs
    } else {
        placed(in_order(tabs.drop_last()), tabs.last())
    }
}

/// Puts a tab into a list that is in order.
fn place(tabs: &mut Vec<Tab>, t: Tab)
    ensures
        final(tabs)@ == placed(old(tabs)@, t),
{
    let ghost all = tabs@;
    let mut n: usize = tabs.len();
    let ghost mut tail: Seq<Tab> = Seq::empty();
    assert(all.take(n as int) =~= all);
    assert(placed(all, t) + tail =~= placed(all, t));
    while n > 0 && text::less(t.order_key.as_str(), tabs[n - 1].order_key.as_str())
        invariant
            tabs@ == all,
            n <= all.len(),
            tail == all.skip(n as int),
            placed(all, t) == placed(all.take(n as int), t) + tail,
        decreases n,
    {
        proof {
            let front = all.take(n as int);
            assert(front.last() == all[n - 1]);
            assert(front.drop_last() =~= all.take(n - 1));
            tail = all.skip(n - 1);
            assert(placed(front, t) + all.skip(n as int) =~= placed(all.take(n - 1), t) + tail);
        }
        n = n - 1;
    }
    proof {
        if n > 0 {
            assert(all.take(n as int).last() == all[n - 1]);
        }
        assert(placed(all, t) =~= all.take(n as int).push(t) + all.skip(n as int));
        assert(all.insert(n as int, t) =~= all.take(n as int).push(t) + all.skip(n as int));
    }
    tabs.insert(n, t);
}

/// The tabs of a window in their order.
pub fn list_incognito_tabs(store: &IncognitoStore, window_id: i32) -> (out: Vec<Tab>)
    ensures
        out@ == in_order(inside(store.tabs@, window_id)),
{
    let mut out: Vec<Tab> = Vec::new();
    assert(inside(store.tabs@.take(0), window_id) =~= Seq::empty()) by {
        reveal(Seq::filter);
    }
    for i in 0..store.tabs.len()
        invariant
            out@ == in_order(inside(store.tabs@.take(i as int), window_id)),
    {
        let ghost before = inside(store.tabs@.take(i as int), window_id);
        proof {
            reveal(Seq::filter);
            assert(store.tabs@.take(i + 1).drop_last() =~= store.tabs@.take(i as int));
        }
        if store.tabs[i].window_id == window_id {
            proof {
                let now = inside(store.tabs@.take(i + 1), window_id);
                assert(now == before.push(store.tabs@[i as int]));
                assert(now.drop_last() =~= before);
            }
            place(&mut out, store.tabs[i].copy());
        }
    }
    assert(store.tabs@.take(store.tabs@.len() as int) =~= store.tabs@);
    out
}

/// A listing leaves no tab out, adds none, and is in the order of the keys.
pub proof fn law_listing(tabs: Seq<Tab>)
    ensures
        in_order(tabs).to_multiset() == tabs.to_multiset(),
        forall|i: int, j: int|
            0 <= i < j < in_order(tabs).len() ==> !text::precedes(
                #[trigger] in_order(tabs)[j].order_key@,
                #[trigger] in_order(tabs)[i].order_key@,
            ),
    decreases tabs.len(),
{
    if tabs.len() > 0 {
        let front = tabs.drop_last();
        law_listing(front);
        lemma_placed(in_order(front), tabs.last());
        assert(tabs =~= front.push(tabs.last()));
        vstd::seq_lib::to_multiset_build(front, tabs.last());
    }
}

/// What can be ordered two by two can be ordered three by three.
proof fn lemma_precedes_through(a: Seq<char>, b: Seq<char>, c: Seq<char>)
    requires
        !text::precedes(b, a),
        !text::precedes(c, b),
    ensures
        !text::precedes(c, a),
{
    text::lemma_order_total(a, b);
    text::lemma_order_total(b, c);
    text::lemma_order_total(a, c);
    if a != b && b != c {
        text::lemma_precedes_chain(a, b, c);
    }
}

proof fn lemma_placed(tabs: Seq<Tab>, t: Tab)
    requires
        forall|i: int, j: int|
            0 <= i < j < tabs.len() ==> !text::precedes(
                #[trigger] tabs[j].order_key@,
                #[trigger] tabs[i].order_key@,
            ),
    ensures
        placed(tabs, t).to_multiset() == tabs.to_multiset().insert(t),
        placed(tabs, t).len() == tabs.len() + 1,
        forall|i: int, j: int|
            0 <= i < j < placed(tabs, t).len() ==> !text::precedes(
                #[trigger] placed(tabs, t)[j].order_key@,
                #[trigger] placed(tabs, t)[i].order_key@,
            ),
        forall|i: int|
            0 <= i < placed(tabs, t).len() ==> placed(tabs, t)[i] == t || tabs.contains(
                #[trigger] placed(tabs, t)[i],
            ),
    decreases tabs.len(),
{
    let p = placed(tabs, t);
    if tabs.len() > 0 && text::precedes(t.order_key@, tabs.last().order_key@) {
        let front = tabs.drop_last();
        let last = tabs.last();
        let q = placed(front, t);
        lemma_placed(front, t);
        assert(tabs =~= front.push(last));
        vstd::seq_lib::to_multiset_build(front, last);
        vstd::seq_lib::to_multiset_build(q, last);
        assert(p.to_multiset() =~= tabs.to_multiset().insert(t));
        assert forall|i: int| 0 <= i < p.len() implies p[i] == t || tabs.contains(
            #[trigger] p[i],
        ) by {
            if i < q.len() {
                assert(p[i] == q[i]);
                if q[i] != t {
                    let k = front.index_of(q[i]);
                    assert(tabs[k] == q[i]);
                }
            } else {
                assert(tabs[tabs.len() - 1] == p[i]);
            }
        }
        text::lemma_order_total(t.order_key@, last.order_key@);
        assert forall|i: int, j: int| 0 <= i < j < p.len() implies !text::precedes(
            #[trigger] p[j].order_key@,
            #[trigger] p[i].order_key@,
        ) by {
            assert(p[i] == q[i]);
            if j < q.len() {
                assert(p[j] == q[j]);
            } else {
                assert(p[j] == last);
                if q[i] != t {
                    let k = front.index_of(q[i]);
                    assert(tabs[k] == q[i]);
                    assert(tabs[tabs.len() - 1] == last);
                }
            }
        }
    } else {
        vstd::seq_lib::to_multiset_build(tabs, t);
        assert forall|i: int| 0 <= i < p.len() implies p[i] == t || tabs.contains(
            #[trigger] p[i],
        ) by {
            if i < tabs.len() {
                assert(tabs[i] == p[i]);
            }
        }
        assert forall|i: int, j: int| 0 <= i < j < p.len() implies !text::precedes(
            #[trigger] p[j].order_key@,
            #[trigger] p[i].order_key@,
        ) by {
            assert(p[i] == tabs[i]);
            if j < tabs.len() {
                assert(p[j] == tabs[j]);
            } else {
                let last = tabs.last();
                if i < tabs.len() - 1 {
                    assert(!text::precedes(
                        tabs[tabs.len() - 1].order_key@,
                        tabs[i].order_key@,
                    ));
                    lemma_precedes_through(tabs[i].order_key@, last.order_key@, t.order_key@);
                }
            }
        }
    }
}

/// Tabs whose keys go up from one to the next.
pub open spec fn rising(tabs: Seq<Tab>) -> bool {
    forall|i: int, j: int|
        0 <= i < j < tabs.len() ==> text::precedes(
            (#[trigger] tabs[i]).order_key@,
            (#[trigger] tabs[j]).order_key@,
        )
}

/// The first tab with the number is in the window, and no other tab of the window has it.
pub open spec fn known_by(tabs: Seq<Tab>, window_id: i32, id: i32) -> bool {
    &&& tab_position(tabs, id) matches Some(m) && tabs[m].window_id == window_id
    &&& forall|j: int|
        0 <= j < tabs.len() && tab_position(tabs, id) != Some(j) && (
        #[trigger] tabs[j]).window_id == window_id ==> tabs[j].id != id
}

/// A key that belongs between the tabs before position `p` and those from there on.
pub open spec fn fits_at(tabs: Seq<Tab>, key: Seq<char>, p: int) -> bool {
    &&& 0 <= p <= tabs.len()
    &&& p > 0 ==> text::precedes(tabs[p - 1].order_key@, key)
    &&& p < tabs.len() ==> text::precedes(key, tabs[p].order_key@)
}

/// A tab that is given a key between those of two neighbours comes to stand between them. The
/// other tabs of its window stay as they are, in their order, and so do those of other windows.
pub proof fn law_moved_listing(tabs: Seq<Tab>, window_id: i32, id: i32, order_key: String, p: int)
    requires
        known_by(tabs, window_id, id),
        rising(in_order(inside(tabs, window_id))),
        fits_at(others(in_order(inside(tabs, window_id)), id), order_key@, p),
    ensures
        ({
            let after = revised(tabs, id, |t: Tab| Tab { order_key, ..t });
            let listed = in_order(inside(tabs, window_id));
            let moved = tabs[tab_position(tabs, id)->0];
            &&& listed.contains(moved)
            &&& moved.id == id
            &&& in_order(inside(after, window_id)) == others(listed, id).insert(
                p,
                Tab { order_key, ..moved },
            )
            &&& rising(in_order(inside(after, window_id)))
            &&& forall|w: i32|
                w != window_id ==> #[trigger] in_order(inside(after, w)) == in_order(
                    inside(tabs, w),
                )
        }),
{
    let group = inside(tabs, window_id);
    let listed = in_order(group);
    let m = tab_position(tabs, id)->0;
    lemma_tab_from(tabs, id, 0);
    let moved = tabs[m];
    let to = Tab { order_key, ..moved };
    let after = revised(tabs, id, |t: Tab| Tab { order_key, ..t });
    law_listing(group);
    lemma_filter_members(tabs, |t: Tab| t.window_id == window_id);
    assert forall|a: int| 0 <= a < listed.len() implies tabs.contains(#[trigger] listed[a])
        && listed[a].window_id == window_id by {
        vstd::seq_lib::to_multiset_contains(listed, listed[a]);
        vstd::seq_lib::to_multiset_contains(group, listed[a]);
        let g = group.index_of(listed[a]);
        assert(group[g] == listed[a]);
    }
    assert(listed.contains(moved)) by {
        assert(group.contains(tabs[m]));
        vstd::seq_lib::to_multiset_contains(group, moved);
        vstd::seq_lib::to_multiset_contains(listed, moved);
    }
    let k = listed.index_of(moved);
    assert(after == tabs.update(m, to));
    // No other tab of the listing has the number.
    assert forall|a: int| 0 <= a < listed.len() && a != k implies (#[trigger] listed[a]).id != id by {
        if listed[a].id == id {
            assert(tabs.contains(listed[a]));
            let q = tabs.index_of(listed[a]);
            assert(tabs[q].window_id == window_id);
            assert(listed[a] == listed[k]);
            text::lemma_order_total(moved.order_key@, moved.order_key@);
            if a < k {
                assert(text::precedes(listed[a].order_key@, listed[k].order_key@));
            } else {
                assert(text::precedes(listed[k].order_key@, listed[a].order_key@));
            }
        }
    }
    let rest = others(listed, id);
    lemma_others(listed, id, k);
    let want = rest.insert(p, to);
    lemma_rising_insert(rest, to, p);
    lemma_inside_update(tabs, m, to, window_id);
    law_listing(inside(after, window_id));
    vstd::seq_lib::to_multiset_remove(listed, k);
    vstd::seq_lib::to_multiset_insert(rest, p, to);
    assert(in_order(inside(after, window_id)).to_multiset() =~= want.to_multiset()) by {
        let x = inside(after, window_id).to_multiset();
        assert(x.insert(moved) == group.to_multiset().insert(to));
        vstd::seq_lib::to_multiset_contains(listed, moved);
        assert(x =~= group.to_multiset().remove(moved).insert(to)) by {
            assert(x =~= x.insert(moved).remove(moved));
        }
    }
    lemma_one_order(in_order(inside(after, window_id)), want);
    assert forall|w: i32| w != window_id implies #[trigger] in_order(inside(after, w)) == in_order(
        inside(tabs, w),
    ) by {
        lemma_inside_update_elsewhere(tabs, m, to, w);
    }
}

proof fn lemma_filter_members(tabs: Seq<Tab>, keep: spec_fn(Tab) -> bool)
    ensures
        forall|j: int|
            0 <= j < tabs.filter(keep).len() ==> tabs.contains(#[trigger] tabs.filter(keep)[j])
                && keep(tabs.filter(keep)[j]),
    decreases tabs.len(),
{
    reveal(Seq::filter);
    if tabs.len() > 0 {
        let front = tabs.drop_last();
        lemma_filter_members(front, keep);
        let f = front.filter(keep);
        let g = tabs.filter(keep);
        assert forall|j: int| 0 <= j < g.len() implies tabs.contains(#[trigger] g[j]) && keep(
            g[j],
        ) by {
            if j < f.len() {
                assert(f[j] == g[j]);
                let k = front.index_of(f[j]);
                assert(tabs[k] == g[j]);
            } else {
                assert(tabs[tabs.len() - 1] == g[j]);
            }
        }
    }
}

/// Where no two tabs have one number, every tab is known by its own.
pub proof fn law_known_by_number(tabs: Seq<Tab>, m: int)
    requires
        sound(tabs),
        0 <= m < tabs.len(),
    ensures
        known_by(tabs, tabs[m].window_id, tabs[m].id),
        tab_position(tabs, tabs[m].id) == Some(m),
{
    lemma_own_from(tabs, m, 0);
    assert forall|j: int|
        0 <= j < tabs.len() && tab_position(tabs, tabs[m].id) != Some(j) && (
        #[trigger] tabs[j]).window_id == tabs[m].window_id implies tabs[j].id != tabs[m].id by {
        if j < m {
            assert(tabs[j].id != tabs[m].id);
        } else {
            assert(tabs[m].id != tabs[j].id);
        }
    }
}

proof fn lemma_own_from(tabs: Seq<Tab>, m: int, i: int)
    requires
        sound(tabs),
        0 <= i <= m < tabs.len(),
    ensures
        tab_from(tabs, tabs[m].id, i) == Some(m),
    decreases m - i,
{
    if i < m {
        assert(tabs[i].id != tabs[m].id);
        lemma_own_from(tabs, m, i + 1);
    }
}

proof fn lemma_others_none(tabs: Seq<Tab>, id: i32)
    requires
        forall|i: int| 0 <= i < tabs.len() ==> (#[trigger] tabs[i]).id != id,
    ensures
        others(tabs, id) == tabs,
    decreases tabs.len(),
{
    reveal(Seq::filter);
    if tabs.len() > 0 {
        lemma_others_none(tabs.drop_last(), id);
        assert(tabs[tabs.len() - 1].id != id);
        assert(tabs.drop_last().push(tabs.last()) =~= tabs);
    }
}

proof fn lemma_others(tabs: Seq<Tab>, id: i32, k: int)
    requires
        0 <= k < tabs.len(),
        tabs[k].id == id,
        forall|i: int| 0 <= i < tabs.len() && i != k ==> (#[trigger] tabs[i]).id != id,
    ensures
        others(tabs, id) == tabs.remove(k),
    decreases tabs.len(),
{
    reveal(Seq::filter);
    let front = tabs.drop_last();
    if k == tabs.len() - 1 {
        lemma_others_none(front, id);
        assert(tabs.remove(k) =~= front);
    } else {
        lemma_others(front, id, k);
        assert(tabs[tabs.len() - 1].id != id);
        assert(tabs.remove(k) =~= front.remove(k).push(tabs.last()));
    }
}

proof fn lemma_rising_insert(tabs: Seq<Tab>, t: Tab, p: int)
    requires
        rising(tabs),
        fits_at(tabs, t.order_key@, p),
    ensures
        rising(tabs.insert(p, t)),
{
    let all = tabs.insert(p, t);
    assert forall|i: int, j: int| 0 <= i < j < all.len() implies text::precedes(
        (#[trigger] all[i]).order_key@,
        (#[trigger] all[j]).order_key@,
    ) by {
        if j == p {
            if i < p - 1 {
                assert(text::precedes(tabs[i].order_key@, tabs[p - 1].order_key@));
                text::lemma_precedes_chain(
                    tabs[i].order_key@,
                    tabs[p - 1].order_key@,
                    t.order_key@,
                );
            }
        } else if i == p {
            if j - 1 > p {
                assert(text::precedes(tabs[p].order_key@, tabs[j - 1].order_key@));
                text::lemma_precedes_chain(
                    t.order_key@,
                    tabs[p].order_key@,
                    tabs[j - 1].order_key@,
                );
            }
        } else {
            let a = if i < p {
                i
            } else {
                i - 1
            };
            let b = if j < p {
                j
            } else {
                j - 1
            };
            assert(all[i] == tabs[a] && all[j] == tabs[b]);
        }
    }
}

/// A tab is placed where its key fits.
pub proof fn lemma_placed_at(tabs: Seq<Tab>, t: Tab, p: int)
    requires
        rising(tabs),
        fits_at(tabs, t.order_key@, p),
    ensures
        placed(tabs, t) == tabs.insert(p, t),
        rising(tabs.insert(p, t)),
    decreases tabs.len(),
{
    lemma_rising_insert(tabs, t, p);
    if p < tabs.len() {
        let front = tabs.drop_last();
        let n = tabs.len() - 1;
        assert forall|i: int, j: int| 0 <= i < j < n implies text::precedes(
            (#[trigger] front[i]).order_key@,
            (#[trigger] front[j]).order_key@,
        ) by {
            assert(text::precedes(tabs[i].order_key@, tabs[j].order_key@));
        }
        if p < n {
            assert(text::precedes(tabs[p].order_key@, tabs[n].order_key@));
            text::lemma_precedes_chain(t.order_key@, tabs[p].order_key@, tabs[n].order_key@);
        }
        lemma_placed_at(front, t, p);
        assert(tabs.insert(p, t) =~= front.insert(p, t).push(tabs.last()));
    } else {
        if tabs.len() > 0 {
            text::lemma_order_total(tabs[p - 1].order_key@, t.order_key@);
        }
        assert(tabs.insert(p, t) =~= tabs.push(t));
    }
}

/// Changing one tab of a window changes one tab of those that are in it.
proof fn lemma_inside_update(tabs: Seq<Tab>, m: int, to: Tab, window_id: i32)
    requires
        0 <= m < tabs.len(),
        tabs[m].window_id == window_id,
        to.window_id == window_id,
    ensures
        inside(tabs.update(m, to), window_id).to_multiset().insert(tabs[m]) == inside(
            tabs,
            window_id,
        ).to_multiset().insert(to),
    decreases tabs.len(),
{
    reveal(Seq::filter);
    let front = tabs.drop_last();
    let last = tabs.last();
    let g = inside(front, window_id);
    if m == tabs.len() - 1 {
        assert(tabs.update(m, to).drop_last() =~= front);
        vstd::seq_lib::to_multiset_build(g, last);
        vstd::seq_lib::to_multiset_build(g, to);
        assert(g.to_multiset().insert(to).insert(last) =~= g.to_multiset().insert(last).insert(to));
    } else {
        lemma_inside_update(front, m, to, window_id);
        assert(tabs.update(m, to).drop_last() =~= front.update(m, to));
        assert(front[m] == tabs[m]);
        let h = inside(front.update(m, to), window_id);
        if last.window_id == window_id {
            vstd::seq_lib::to_multiset_build(g, last);
            vstd::seq_lib::to_multiset_build(h, last);
            assert(h.to_multiset().insert(last).insert(tabs[m]) =~= h.to_multiset().insert(
                tabs[m],
            ).insert(last));
            assert(g.to_multiset().insert(last).insert(to) =~= g.to_multiset().insert(to).insert(
                last,
            ));
        }
    }
}

proof fn lemma_inside_update_elsewhere(tabs: Seq<Tab>, m: int, to: Tab, window_id: i32)
    requires
        0 <= m < tabs.len(),
        tabs[m].window_id != window_id,
        to.window_id != window_id,
    ensures
        inside(tabs.update(m, to), window_id) == inside(tabs, window_id),
    decreases tabs.len(),
{
    reveal(Seq::filter);
    let front = tabs.drop_last();
    if m == tabs.len() - 1 {
        assert(tabs.update(m, to).drop_last() =~= front);
    } else {
        lemma_inside_update_elsewhere(front, m, to, window_id);
        assert(tabs.update(m, to).drop_last() =~= front.update(m, to));
    }
}

/// There is but one order for tabs whose keys all differ.
proof fn lemma_one_order(a: Seq<Tab>, b: Seq<Tab>)
    requires
        a.to_multiset() == b.to_multiset(),
        rising(b),
        forall|i: int, j: int|
            0 <= i < j < a.len() ==> !text::precedes(
                #[trigger] a[j].order_key@,
                #[trigger] a[i].order_key@,
            ),
    ensures
        a == b,
    decreases a.len(),
{
    vstd::seq_lib::to_multiset_len(a);
    vstd::seq_lib::to_multiset_len(b);
    if a.len() == 0 {
        assert(a =~= b);
    } else {
        let n = a.len() - 1;
        if a[n] != b[n] {
            vstd::seq_lib::to_multiset_contains(a, a[n]);
            vstd::seq_lib::to_multiset_contains(b, a[n]);
            vstd::seq_lib::to_multiset_contains(b, b[n]);
            vstd::seq_lib::to_multiset_contains(a, b[n]);
            assert(a.contains(a[n]));
            assert(b.contains(b[n]));
            let i = a.index_of(b[n]);
            let j = b.index_of(a[n]);
            assert(a[i] == b[n] && b[j] == a[n]);
            assert(text::precedes(b[j].order_key@, b[n].order_key@));
            assert(!text::precedes(a[n].order_key@, a[i].order_key@));
        }
        vstd::seq_lib::to_multiset_remove(a, n);
        vstd::seq_lib::to_multiset_remove(b, n);
        assert(a.remove(n) =~= a.drop_last());
        assert(b.remove(n) =~= b.drop_last());
        assert forall|i: int, j: int| 0 <= i < j < n implies !text::precedes(
            #[trigger] a.drop_last()[j].order_key@,
            #[trigger] a.drop_last()[i].order_key@,
        ) by {
            assert(!text::precedes(a[j].order_key@, a[i].order_key@));
        }
        assert forall|i: int, j: int| 0 <= i < j < n implies text::precedes(
            (#[trigger] b.drop_last()[i]).order_key@,
            (#[trigger] b.drop_last()[j]).order_key@,
        ) by {
            assert(text::precedes(b[i].order_key@, b[j].order_key@));
        }
        lemma_one_order(a.drop_last(), b.drop_last());
        assert(a =~= a.drop_last().push(a[n]));
        assert(b =~= b.drop_last().push(b[n]));
    }
}

// ---- closed tabs ----

/// The position of the first tab of the window, from `i` on.
pub open spec fn first_inside(tabs: Seq<Tab>, window_id: i32, i: int) -> Option<int>
    decreases tabs.len() - i,
{
    if i >= tabs.len() {
        None
    } else if tabs[i].window_id == window_id {
        Some(i)
    } else {
        first_inside(tabs, window_id, i + 1)
    }
}

/// The position of the last tab of the window.
pub open spec fn last_inside(tabs: Seq<Tab>, window_id: i32) -> Option<int>
    decreases tabs.len(),
{
    if tabs.len() == 0 {
        None
    } else if tabs.last().window_id == window_id {
        Some(tabs.len() - 1)
    } else {
        last_inside(tabs.drop_last(), window_id)
    }
}

/// The closed tabs once `tab` is one of them: the oldest of its window is given up where there
/// would be too many.
pub open spec fn after_close(closed: Seq<Tab>, tab: Tab) -> Seq<Tab> {
    let all = closed.push(tab);
    if inside(all, tab.window_id).len() > CLOSED_LIMIT {
        all.remove(first_inside(all, tab.window_id, 0)->0)
    } else {
        all
    }
}

/// The tab that is opened again.
pub open spec fn reopened(closed: Seq<Tab>, window_id: i32) -> Option<Tab> {
    match last_inside(closed, window_id) {
        Some(i) => Some(closed[i]),
        None => None,
    }
}

/// The closed tabs once the latest of the window is open again.
pub open spec fn after_reopen(closed: Seq<Tab>, window_id: i32) -> Seq<Tab> {
    match last_inside(closed, window_id) {
        Some(i) => closed.remove(i),
        None => closed,
    }
}

proof fn lemma_first_inside(tabs: Seq<Tab>, window_id: i32, i: int)
    requires
        0 <= i <= tabs.len(),
        exists|j: int| i <= j < tabs.len() && (#[trigger] tabs[j]).window_id == window_id,
    ensures
        first_inside(tabs, window_id, i) is Some,
        i <= first_inside(tabs, window_id, i)->0 < tabs.len(),
        tabs[first_inside(tabs, window_id, i)->0].window_id == window_id,
        forall|j: int|
            i <= j < first_inside(tabs, window_id, i)->0 ==> (#[trigger] tabs[j]).window_id
                != window_id,
    decreases tabs.len() - i,
{
    if tabs[i].window_id != window_id {
        lemma_first_inside(tabs, window_id, i + 1);
    }
}

/// Taking one tab out leaves the tabs of the other windows as they were, and one fewer of its
/// own.
proof fn lemma_inside_remove(tabs: Seq<Tab>, i: int, window_id: i32)
    requires
        0 <= i < tabs.len(),
    ensures
        inside(tabs.remove(i), window_id).len() == inside(tabs, window_id).len() - if tabs[i].window_id
            == window_id {
            1int
        } else {
            0
        },
    decreases tabs.len(),
{
    reveal(Seq::filter);
    let front = tabs.drop_last();
    if i == tabs.len() - 1 {
        assert(tabs.remove(i) =~= front);
    } else {
        lemma_inside_remove(front, i, window_id);
        assert(tabs.remove(i).drop_last() =~= front.remove(i));
        assert(tabs.remove(i).last() == tabs.last());
        assert(front[i] == tabs[i]);
    }
}

/// One tab more is one more in its own window.
pub proof fn lemma_inside_push(tabs: Seq<Tab>, t: Tab, window_id: i32)
    ensures
        inside(tabs.push(t), window_id) == if t.window_id == window_id {
            inside(tabs, window_id).push(t)
        } else {
            inside(tabs, window_id)
        },
{
    reveal(Seq::filter);
    assert(tabs.push(t).drop_last() =~= tabs);
}

/// Keeps a closed tab so that it can be opened again; of each window only the latest ones.
pub fn push_closed_incognito(store: &mut IncognitoStore, tab: Tab)
    ensures
        final(store).closed@ == after_close(old(store).closed@, tab),
        final(store).tabs == old(store).tabs,
        final(store).windows == old(store).windows,
{
    let win: i32 = tab.window_id;
    store.closed.push(tab);
    let mut count: usize = 0;
    let mut first: Option<usize> = None;
    let ghost all = store.closed@;
    assert(inside(all.take(0), win) =~= Seq::empty()) by {
        reveal(Seq::filter);
    }
    for i in 0..store.closed.len()
        invariant
            all == store.closed@,
            count == inside(all.take(i as int), win).len(),
            count <= i,
            match first {
                Some(k) => k < all.len() && first_inside(all, win, 0) == Some(k as int),
                None => count == 0 && first_inside(all, win, 0) == first_inside(all, win, i as int),
            },
    {
        proof {
            reveal(Seq::filter);
            assert(all.take(i + 1).drop_last() =~= all.take(i as int));
        }
        if store.closed[i].window_id == win {
            count = count + 1;
            if first.is_none() {
                first = Some(i);
            }
        }
    }
    assert(all.take(all.len() as int) =~= all);
    if count > CLOSED_LIMIT {
        if let Some(k) = first {
            store.closed.remove(k);
        }
    }
}

/// The tab of a window that was closed last; it is no longer among the closed ones.
pub fn pop_closed_incognito(store: &mut IncognitoStore, window_id: i32) -> (out: Option<Tab>)
    ensures
        out == reopened(old(store).closed@, window_id),
        final(store).closed@ == after_reopen(old(store).closed@, window_id),
        final(store).tabs == old(store).tabs,
        final(store).windows == old(store).windows,
{
    let mut n: usize = store.closed.len();
    let ghost all = store.closed@;
    assert(all.take(n as int) =~= all);
    while n > 0
        invariant
            all == store.closed@,
            all == old(store).closed@,
            store.tabs == old(store).tabs,
            store.windows == old(store).windows,
            n <= all.len(),
            last_inside(all, window_id) == last_inside(all.take(n as int), window_id),
        decreases n,
    {
        assert(all.take(n as int).drop_last() =~= all.take(n - 1));
        if store.closed[n - 1].window_id == window_id {
            return Some(store.closed.remove(n - 1));
        }
        n = n - 1;
    }
    None
}

/// Opening again right after closing gives back the tab that was closed. Where the window had
/// fewer closed tabs than are kept, the closed tabs are then as before.
pub proof fn law_reopen_after_close(closed: Seq<Tab>, tab: Tab)
    ensures
        reopened(after_close(closed, tab), tab.window_id) == Some(tab),
        inside(closed, tab.window_id).len() < CLOSED_LIMIT ==> after_reopen(
            after_close(closed, tab),
            tab.window_id,
        ) == closed,
{
    let all = closed.push(tab);
    let win = tab.window_id;
    lemma_inside_push(closed, tab, win);
    if inside(all, win).len() > CLOSED_LIMIT {
        assert(inside(closed, win).len() > 0);
        lemma_inside_member(closed, win);
        let j = choose|j: int| 0 <= j < closed.len() && (#[trigger] closed[j]).window_id == win;
        assert(all[j].window_id == win);
        lemma_first_inside(all, win, 0);
        let k = first_inside(all, win, 0)->0;
        if k > j {
            assert(all[j].window_id != win);
        }
        assert(all.remove(k).last() == tab);
    } else {
        assert(all.last() == tab);
        assert(all.remove(all.len() - 1) =~= closed);
    }
}

proof fn lemma_inside_member(tabs: Seq<Tab>, window_id: i32)
    requires
        inside(tabs, window_id).len() > 0,
    ensures
        exists|j: int| 0 <= j < tabs.len() && (#[trigger] tabs[j]).window_id == window_id,
    decreases tabs.len(),
{
    reveal(Seq::filter);
    if tabs.len() > 0 {
        let front = tabs.drop_last();
        if tabs.last().window_id == window_id {
            assert(tabs[tabs.len() - 1].window_id == window_id);
        } else {
            lemma_inside_member(front, window_id);
            let j = choose|j: int|
                0 <= j < front.len() && (#[trigger] front[j]).window_id == window_id;
            assert(tabs[j].window_id == window_id);
        }
    }
}

/// Never are more closed tabs kept for a window than the limit.
pub proof fn law_closed_limit(closed: Seq<Tab>, tab: Tab)
    requires
        forall|w: i32| (#[trigger] inside(closed, w)).len() <= CLOSED_LIMIT,
    ensures
        forall|w: i32| (#[trigger] inside(after_close(closed, tab), w)).len() <= CLOSED_LIMIT,
{
    let all = closed.push(tab);
    let win = tab.window_id;
    assert forall|w: i32| (#[trigger] inside(after_close(closed, tab), w)).len()
        <= CLOSED_LIMIT by {
        lemma_inside_push(closed, tab, w);
        lemma_inside_push(closed, tab, win);
        assert(inside(closed, w).len() <= CLOSED_LIMIT);
        assert(inside(closed, win).len() <= CLOSED_LIMIT);
        if inside(all, win).len() > CLOSED_LIMIT {
            lemma_inside_member(all, win);
            lemma_first_inside(all, win, 0);
            let k = first_inside(all, win, 0)->0;
            lemma_inside_remove(all, k, w);
        }
    }
}

/// A tab that is closed comes on top of the closed tabs of its window, of which the latest stay.
/// The closed tabs of other windows stay as they are.
pub proof fn law_push_closed(closed: Seq<Tab>, tab: Tab)
    requires
        inside(closed, tab.window_id).len() <= CLOSED_LIMIT,
    ensures
        inside(after_close(closed, tab), tab.window_id) == tabs_repo::newest(
            inside(closed, tab.window_id).push(tab),
            CLOSED_LIMIT as nat,
        ),
        forall|w: i32|
            w != tab.window_id ==> #[trigger] inside(after_close(closed, tab), w) == inside(
                closed,
                w,
            ),
{
    let all = closed.push(tab);
    let win = tab.window_id;
    lemma_inside_push(closed, tab, win);
    assert forall|w: i32| w != win implies #[trigger] inside(after_close(closed, tab), w) == inside(
        closed,
        w,
    ) by {
        lemma_inside_push(closed, tab, w);
        if inside(all, win).len() > CLOSED_LIMIT {
            lemma_inside_member(all, win);
            lemma_first_inside(all, win, 0);
            lemma_inside_without(all, first_inside(all, win, 0)->0, w);
        }
    }
    if inside(all, win).len() > CLOSED_LIMIT {
        lemma_inside_member(all, win);
        lemma_first_inside(all, win, 0);
        lemma_inside_without_first(all, first_inside(all, win, 0)->0, win);
        assert(inside(all, win).skip(1) =~= inside(all, win).drop_first());
    }
}

/// The tab that is opened again is the one on top of the closed tabs of its window, which it
/// leaves; where there is none, nothing happens. The closed tabs of other windows stay as they
/// are.
pub proof fn law_pop_closed(closed: Seq<Tab>, window_id: i32)
    ensures
        reopened(closed, window_id) == if inside(closed, window_id).len() == 0 {
            None
        } else {
            Some(inside(closed, window_id).last())
        },
        inside(closed, window_id).len() == 0 ==> after_reopen(closed, window_id) == closed,
        inside(closed, window_id).len() > 0 ==> inside(after_reopen(closed, window_id), window_id)
            == inside(closed, window_id).drop_last(),
        forall|w: i32|
            w != window_id ==> #[trigger] inside(after_reopen(closed, window_id), w) == inside(
                closed,
                w,
            ),
{
    lemma_last_inside(closed, window_id);
    if let Some(i) = last_inside(closed, window_id) {
        assert forall|w: i32| w != window_id implies #[trigger] inside(
            after_reopen(closed, window_id),
            w,
        ) == inside(closed, w) by {
            lemma_inside_without(closed, i, w);
        }
    }
}

proof fn lemma_inside_without(tabs: Seq<Tab>, i: int, window_id: i32)
    requires
        0 <= i < tabs.len(),
        tabs[i].window_id != window_id,
    ensures
        inside(tabs.remove(i), window_id) == inside(tabs, window_id),
    decreases tabs.len(),
{
    reveal(Seq::filter);
    let front = tabs.drop_last();
    if i == tabs.len() - 1 {
        assert(tabs.remove(i) =~= front);
    } else {
        lemma_inside_without(front, i, window_id);
        assert(tabs.remove(i).drop_last() =~= front.remove(i));
        assert(tabs.remove(i).last() == tabs.last());
    }
}

proof fn lemma_inside_none(tabs: Seq<Tab>, window_id: i32)
    requires
        forall|j: int| 0 <= j < tabs.len() ==> (#[trigger] tabs[j]).window_id != window_id,
    ensures
        inside(tabs, window_id) == Seq::<Tab>::empty(),
    decreases tabs.len(),
{
    reveal(Seq::filter);
    if tabs.len() > 0 {
        assert(tabs[tabs.len() - 1].window_id != window_id);
        lemma_inside_none(tabs.drop_last(), window_id);
    }
}

proof fn lemma_inside_without_first(tabs: Seq<Tab>, i: int, window_id: i32)
    requires
        0 <= i < tabs.len(),
        tabs[i].window_id == window_id,
        forall|j: int| 0 <= j < i ==> (#[trigger] tabs[j]).window_id != window_id,
    ensures
        inside(tabs, window_id).len() > 0,
        inside(tabs.remove(i), window_id) == inside(tabs, window_id).drop_first(),
    decreases tabs.len(),
{
    reveal(Seq::filter);
    let front = tabs.drop_last();
    if i == tabs.len() - 1 {
        lemma_inside_none(front, window_id);
        assert(tabs.remove(i) =~= front);
        assert(inside(tabs, window_id).drop_first() =~= Seq::<Tab>::empty());
    } else {
        lemma_inside_without_first(front, i, window_id);
        assert(tabs.remove(i).drop_last() =~= front.remove(i));
        assert(tabs.remove(i).last() == tabs.last());
        assert(inside(front, window_id).push(tabs.last()).drop_first() =~= inside(
            front,
            window_id,
        ).drop_first().push(tabs.last()));
    }
}

proof fn lemma_last_inside(tabs: Seq<Tab>, window_id: i32)
    ensures
        match last_inside(tabs, window_id) {
            Some(i) => {
                &&& 0 <= i < tabs.len()
                &&& tabs[i].window_id == window_id
                &&& inside(tabs, window_id).len() > 0
                &&& inside(tabs, window_id).last() == tabs[i]
                &&& inside(tabs.remove(i), window_id) == inside(tabs, window_id).drop_last()
            },
            None => inside(tabs, window_id).len() == 0,
        },
    decreases tabs.len(),
{
    reveal(Seq::filter);
    if tabs.len() > 0 {
        let front = tabs.drop_last();
        if tabs.last().window_id == window_id {
            assert(tabs.remove(tabs.len() - 1) =~= front);
            assert(inside(front, window_id).push(tabs.last()).drop_last() =~= inside(
                front,
                window_id,
            ));
        } else {
            lemma_last_inside(front, window_id);
            if let Some(i) = last_inside(front, window_id) {
                assert(tabs.remove(i).drop_last() =~= front.remove(i));
                assert(tabs.remove(i).last() == tabs.last());
            }
        }
    }
}

/// The closed tabs once tabs of the window were opened again `k` times.
pub open spec fn after_reopens(closed: Seq<Tab>, window_id: i32, k: nat) -> Seq<Tab>
    decreases k,
{
    if k == 0 {
        closed
    } else {
        after_reopen(after_reopens(closed, window_id, (k - 1) as nat), window_id)
    }
}

/// The closed tabs once several were closed, one after the other.
pub open spec fn after_closes(closed: Seq<Tab>, tabs: Seq<Tab>) -> Seq<Tab>
    decreases tabs.len(),
{
    if tabs.len() == 0 {
        closed
    } else {
        after_close(after_closes(closed, tabs.drop_last()), tabs.last())
    }
}

/// Tabs that are opened again one after the other come in the turn opposite to that in which they
/// were closed: as many as are kept, then none. The closed tabs of other windows stay as they
/// are.
pub proof fn law_closed_in_turn(closed: Seq<Tab>, tabs: Seq<Tab>, window_id: i32, k: nat)
    requires
        forall|w: i32| (#[trigger] inside(closed, w)).len() <= CLOSED_LIMIT,
    ensures
        ({
            let all = inside(closed, window_id) + inside(tabs, window_id);
            let after = after_closes(closed, tabs);
            &&& inside(after, window_id) == tabs_repo::newest(all, CLOSED_LIMIT as nat)
            &&& reopened(after_reopens(after, window_id, k), window_id) == if k < all.len() && k
                < CLOSED_LIMIT {
                Some(all[all.len() - 1 - k])
            } else {
                None
            }
            &&& forall|w: i32|
                w != window_id ==> #[trigger] inside(after_reopens(after, window_id, k), w)
                    == inside(after, w)
        }),
{
    let after = after_closes(closed, tabs);
    lemma_closes(closed, tabs);
    lemma_reopens(after, window_id, k);
    law_pop_closed(after_reopens(after, window_id, k), window_id);
    assert(inside(after, window_id) == tabs_repo::newest(
        inside(closed, window_id) + inside(tabs, window_id),
        CLOSED_LIMIT as nat,
    ));
}

proof fn lemma_closes(closed: Seq<Tab>, tabs: Seq<Tab>)
    requires
        forall|w: i32| (#[trigger] inside(closed, w)).len() <= CLOSED_LIMIT,
    ensures
        forall|w: i32| #[trigger]
            inside(after_closes(closed, tabs), w) == tabs_repo::newest(
                inside(closed, w) + inside(tabs, w),
                CLOSED_LIMIT as nat,
            ),
    decreases tabs.len(),
{
    let keep = CLOSED_LIMIT as nat;
    assert forall|w: i32| #[trigger]
        inside(after_closes(closed, tabs), w) == tabs_repo::newest(
            inside(closed, w) + inside(tabs, w),
            keep,
        ) by {
        if tabs.len() == 0 {
            lemma_inside_none(tabs, w);
            assert(inside(closed, w).len() <= CLOSED_LIMIT);
            assert(inside(closed, w) + inside(tabs, w) =~= inside(closed, w));
        } else {
            let front = tabs.drop_last();
            let tab = tabs.last();
            lemma_closes(closed, front);
            let before = after_closes(closed, front);
            assert(inside(before, tab.window_id) == tabs_repo::newest(
                inside(closed, tab.window_id) + inside(front, tab.window_id),
                keep,
            ));
            law_push_closed(before, tab);
            assert(front.push(tab) =~= tabs);
            lemma_inside_push(front, tab, w);
            let so_far = inside(closed, w) + inside(front, w);
            if tab.window_id == w {
                assert(inside(closed, w) + inside(tabs, w) =~= so_far.push(tab));
                assert(tabs_repo::newest(tabs_repo::newest(so_far, keep).push(tab), keep)
                    =~= tabs_repo::newest(so_far.push(tab), keep));
            } else {
                assert(inside(before, w) == tabs_repo::newest(so_far, keep));
            }
        }
    }
}

proof fn lemma_reopens(closed: Seq<Tab>, window_id: i32, k: nat)
    ensures
        inside(after_reopens(closed, window_id, k), window_id) == if k < inside(
            closed,
            window_id,
        ).len() {
            inside(closed, window_id).take(inside(closed, window_id).len() - k)
        } else {
            seq![]
        },
        forall|w: i32|
            w != window_id ==> #[trigger] inside(after_reopens(closed, window_id, k), w) == inside(
                closed,
                w,
            ),
    decreases k,
{
    let s = inside(closed, window_id);
    if k == 0 {
        if s.len() > 0 {
            assert(s.take(s.len() as int) =~= s);
        } else {
            assert(s =~= seq![]);
        }
    } else {
        let less = (k - 1) as nat;
        lemma_reopens(closed, window_id, less);
        law_pop_closed(after_reopens(closed, window_id, less), window_id);
        if less < s.len() {
            assert(s.take(s.len() - less).drop_last() =~= s.take(s.len() - k));
            if k >= s.len() {
                assert(s.take(s.len() - k) =~= seq![]);
            }
        }
    }
}

/// A window that is forgotten leaves no tab behind.
pub proof fn law_no_trace(tabs: Seq<Tab>, window_id: i32)
    ensures
        forall|i: int|
            0 <= i < outside(tabs, window_id).len() ==> (
            #[trigger] outside(tabs, window_id)[i]).window_id != window_id,
    decreases tabs.len(),
{
    reveal(Seq::filter);
    if tabs.len() > 0 {
        law_no_trace(tabs.drop_last(), window_id);
    }
}

/// Tabs that leave no trace have numbers below zero, which no tab on record has, and no two of
/// them have the same.
pub open spec fn sound(tabs: Seq<Tab>) -> bool {
    &&& forall|i: int| 0 <= i < tabs.len() ==> (#[trigger] tabs[i]).id < 0
    &&& forall|i: int, j: int|
        0 <= i < j < tabs.len() ==> (#[trigger] tabs[i]).id != (#[trigger] tabs[j]).id
}

/// Making a tab keeps the numbers sound.
pub proof fn law_sound_create(tabs: Seq<Tab>, t: Tab)
    requires
        sound(tabs),
        t.id == least_id(tabs) - 1,
    ensures
        sound(tabs.push(t)),
{
    lemma_least_id(tabs);
}

/// Changing a tab in anything but its number keeps the numbers sound.
pub proof fn law_sound_revise(tabs: Seq<Tab>, id: i32, change: spec_fn(Tab) -> Tab)
    requires
        sound(tabs),
        forall|t: Tab| (#[trigger] change(t)).id == t.id,
    ensures
        sound(revised(tabs, id, change)),
{
    lemma_tab_from(tabs, id, 0);
    if let Some(k) = tab_position(tabs, id) {
        let after = revised(tabs, id, change);
        assert(change(tabs[k]).id == tabs[k].id);
        assert forall|i: int| 0 <= i < after.len() implies (#[trigger] after[i]).id == tabs[i].id by {}
        assert forall|i: int, j: int| 0 <= i < j < after.len() implies (#[trigger] after[i]).id != (
        #[trigger] after[j]).id by {
            assert(tabs[i].id != tabs[j].id);
        }
        assert forall|i: int| 0 <= i < after.len() implies (#[trigger] after[i]).id < 0 by {
            assert(tabs[i].id < 0);
        }
    }
}

proof fn lemma_tab_from(tabs: Seq<Tab>, id: i32, i: int)
    requires
        0 <= i <= tabs.len(),
    ensures
        tab_from(tabs, id, i) matches Some(k) ==> i <= k < tabs.len() && tabs[k].id == id,
    decreases tabs.len() - i,
{
    if i < tabs.len() && tabs[i].id != id {
        lemma_tab_from(tabs, id, i + 1);
    }
}

/// Forgetting a tab or a window keeps the numbers sound.
pub proof fn law_sound_forget(tabs: Seq<Tab>, id: i32, window_id: i32)
    requires
        sound(tabs),
    ensures
        sound(others(tabs, id)),
        sound(outside(tabs, window_id)),
{
    lemma_sound_filter(tabs, |t: Tab| t.id != id);
    lemma_sound_filter(tabs, |t: Tab| t.window_id != window_id);
}

proof fn lemma_sound_filter(tabs: Seq<Tab>, keep: spec_fn(Tab) -> bool)
    requires
        sound(tabs),
    ensures
        sound(tabs.filter(keep)),
    decreases tabs.len(),
{
    reveal(Seq::filter);
    if tabs.len() > 0 {
        let front = tabs.drop_last();
        assert(sound(front)) by {
            assert forall|i: int| 0 <= i < front.len() implies (#[trigger] front[i]).id < 0 by {
                assert(tabs[i].id < 0);
            }
            assert forall|i: int, j: int| 0 <= i < j < front.len() implies (
            #[trigger] front[i]).id != (#[trigger] front[j]).id by {
                assert(tabs[i].id != tabs[j].id);
            }
        }
        lemma_sound_filter(front, keep);
        lemma_filter_members(front, keep);
        let f = front.filter(keep);
        let g = tabs.filter(keep);
        assert(tabs[tabs.len() - 1].id < 0);
        assert forall|i: int| 0 <= i < g.len() implies (#[trigger] g[i]).id < 0 by {
            if i < f.len() {
                assert(f[i] == g[i]);
            }
        }
        assert forall|i: int, j: int| 0 <= i < j < g.len() implies (#[trigger] g[i]).id != (
        #[trigger] g[j]).id by {
            assert(f[i] == g[i]);
            if j < f.len() {
                assert(f[j] == g[j]);
            } else {
                let k = front.index_of(f[i]);
                assert(front.contains(f[i]));
                assert(tabs[k].id != tabs[tabs.len() - 1].id);
            }
        }
    }
}

// ---- what these amount to ----

/// Of the tabs with one number the first is found, and it is found where there is one.
pub proof fn law_tab_found(tabs: Seq<Tab>, id: i32)
    ensures
        match tab_position(tabs, id) {
            Some(k) => 0 <= k < tabs.len() && tabs[k].id == id && forall|j: int|
                0 <= j < k ==> (#[trigger] tabs[j]).id != id,
            None => forall|j: int| 0 <= j < tabs.len() ==> (#[trigger] tabs[j]).id != id,
        },
{
    lemma_tab_first(tabs, id, 0);
}

proof fn lemma_tab_first(tabs: Seq<Tab>, id: i32, i: int)
    requires
        0 <= i <= tabs.len(),
    ensures
        match tab_from(tabs, id, i) {
            Some(k) => i <= k < tabs.len() && tabs[k].id == id && forall|j: int|
                i <= j < k ==> (#[trigger] tabs[j]).id != id,
            None => forall|j: int| i <= j < tabs.len() ==> (#[trigger] tabs[j]).id != id,
        },
    decreases tabs.len() - i,
{
    if i < tabs.len() && tabs[i].id != id {
        lemma_tab_first(tabs, id, i + 1);
    }
}

/// Changing a tab changes that tab alone: no tab comes or goes, and every tab with another number
/// stays as it was, in its place.
pub proof fn law_revised(tabs: Seq<Tab>, id: i32, change: spec_fn(Tab) -> Tab, i: int)
    requires
        0 <= i < tabs.len(),
    ensures
        revised(tabs, id, change).len() == tabs.len(),
        tabs[i].id != id ==> revised(tabs, id, change)[i] == tabs[i],
        tabs[i].id == id && (forall|j: int| 0 <= j < i ==> (#[trigger] tabs[j]).id != id) ==> revised(
            tabs,
            id,
            change,
        )[i] == change(tabs[i]),
{
    law_tab_found(tabs, id);
}

/// The least number is that of a tab, or 0 where no tab has one below it. The number of a new tab
/// is the next below.
pub proof fn law_least_id(tabs: Seq<Tab>)
    ensures
        least_id(tabs) <= 0,
        forall|i: int| 0 <= i < tabs.len() ==> least_id(tabs) <= (#[trigger] tabs[i]).id,
        least_id(tabs) < 0 ==> exists|i: int|
            0 <= i < tabs.len() && (#[trigger] tabs[i]).id == least_id(tabs),
    decreases tabs.len(),
{
    lemma_least_id(tabs);
    if tabs.len() > 0 && least_id(tabs) < 0 {
        let front = tabs.drop_last();
        law_least_id(front);
        if least_id(tabs) == least_id(front) {
            let i = choose|i: int| 0 <= i < front.len() && (#[trigger] front[i]).id == least_id(front);
            assert(tabs[i].id == least_id(tabs));
        } else {
            assert(tabs[tabs.len() - 1].id == least_id(tabs));
        }
    }
}

/// The tabs in a window, those outside it and those without a number are chosen one by one: of two
/// lists as of each of them, in their order.
pub proof fn law_chosen_tabs(a: Seq<Tab>, b: Seq<Tab>, t: Tab, window_id: i32, id: i32)
    ensures
        inside(a + b, window_id) == inside(a, window_id) + inside(b, window_id),
        outside(a + b, window_id) == outside(a, window_id) + outside(b, window_id),
        others(a + b, id) == others(a, id) + others(b, id),
        t.window_id == window_id ==> inside(seq![t], window_id) == seq![t] && outside(
            seq![t],
            window_id,
        ).len() == 0,
        t.window_id != window_id ==> outside(seq![t], window_id) == seq![t] && inside(
            seq![t],
            window_id,
        ).len() == 0,
        t.id == id ==> others(seq![t], id).len() == 0,
        t.id != id ==> others(seq![t], id) == seq![t],
{
    let one = seq![t];
    let none = Seq::<Tab>::empty();
    text::lemma_filter_apart(a, b, |t: Tab| t.window_id == window_id);
    text::lemma_filter_apart(a, b, |t: Tab| t.window_id != window_id);
    text::lemma_filter_apart(a, b, |t: Tab| t.id != id);
    reveal(Seq::filter);
    assert(one.drop_last() =~= none);
    assert(one.last() == t);
    assert(none.push(t) =~= one);
    assert(inside(one.drop_last(), window_id) =~= none);
    assert(outside(one.drop_last(), window_id) =~= none);
    assert(others(one.drop_last(), id) =~= none);
    assert(inside(one, window_id) == if t.window_id == window_id {
        none.push(t)
    } else {
        none
    });
    assert(outside(one, window_id) == if t.window_id != window_id {
        none.push(t)
    } else {
        none
    });
    assert(others(one, id) == if t.id != id {
        none.push(t)
    } else {
        none
    });
}

/// Tabs with one and the same key are listed in the order in which they were made.
pub proof fn law_listing_stable(tabs: Seq<Tab>, key: Seq<char>)
    requires
        forall|i: int| 0 <= i < tabs.len() ==> (#[trigger] tabs[i]).order_key@ == key,
    ensures
        in_order(tabs) == tabs,
    decreases tabs.len(),
{
    if tabs.len() > 0 {
        let front = tabs.drop_last();
        assert forall|i: int| 0 <= i < front.len() implies (#[trigger] front[i]).order_key@ == key by {
            assert(front[i] == tabs[i]);
        }
        law_listing_stable(front, key);
        text::lemma_order_total(key, key);
        assert(tabs[tabs.len() - 1].order_key@ == key);
        if front.len() > 0 {
            assert(front[front.len() - 1].order_key@ == key);
        }
        assert(front.push(tabs.last()) =~= tabs);
    }
}

/// A new tab shows what it was made for, in its window and its place; it has no title and no
/// picture, is neither pinned nor silenced, and counts as used when it was made.
pub proof fn law_new_tab(
    t: Tab,
    id: int,
    window_id: i32,
    url: String,
    order_key: Seq<char>,
    created_at: i64,
)
    requires
        is_new_tab(t, id, window_id, url, order_key, created_at),
    ensures
        t.id == id && t.window_id == window_id && t.url == url && t.order_key@ == order_key,
        t.title is None && t.favicon_id is None && t.pinned == false && t.muted == false,
        t.scroll_y == 0 && t.last_active == Some(created_at) && t.created_at == created_at,
{
}

/// Of each window the last twenty-five closed tabs can be opened again.
pub proof fn law_twenty_five_kept(tabs: Seq<Tab>, window_id: i32)
    ensures
        inside(tabs, window_id).len() <= 25 ==> inside(after_closes(seq![], tabs), window_id)
            == inside(tabs, window_id),
        inside(tabs, window_id).len() > 25 ==> inside(after_closes(seq![], tabs), window_id)
            == inside(tabs, window_id).skip(inside(tabs, window_id).len() - 25),
{
    let none = Seq::<Tab>::empty();
    assert forall|w: i32| (#[trigger] inside(none, w)).len() <= CLOSED_LIMIT by {
        lemma_inside_none(none, w);
    }
    law_closed_in_turn(none, tabs, window_id, 0);
    lemma_inside_none(none, window_id);
    assert(inside(none, window_id) + inside(tabs, window_id) =~= inside(tabs, window_id));
}

} // verus!
