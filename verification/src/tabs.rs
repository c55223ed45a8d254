//! Making, moving, copying and closing tabs.

use vstd::prelude::*;
use vstd::string::*;
use crate::db::tabs_repo;
use crate::fractional_index;
use crate::incognito;
use crate::incognito::IncognitoStore;
use crate::ipc_types;
use crate::ipc_types::Tab;
use crate::text;

verus! {

/// The place of a new tab: behind all tabs of its window, which are given in their order.
pub open spec fn key_behind(tabs: Seq<Tab>) -> Seq<char> {
    fractional_index::key_between(
        if tabs.len() == 0 {
            None
        } else {
            Some(tabs.last().order_key@)
        },
        None,
    )
}

/// The place of a new tab: behind all tabs of its window, which are given in their order.
pub fn key_for_new_tab(tabs: &Vec<Tab>) -> (out: String)
    ensures
        out@ == key_behind(tabs@),
{
    if tabs.len() == 0 {
        fractional_index::generate_key_between(None, None)
    } else {
        fractional_index::generate_key_between(
            Some(tabs[tabs.len() - 1].order_key.as_str()),
            None,
        )
    }
}

/// A tab that has not been put on record yet: it has no number, no title and no picture, is
/// neither pinned nor silenced, and stands at its top.
pub open spec fn is_fresh(
    t: Tab,
    window_id: int,
    url: Seq<char>,
    order_key: Seq<char>,
    last_active: Option<i64>,
    created_at: i64,
) -> bool {
    &&& t.id == 0
    &&& t.window_id == window_id
    &&& t.url@ == url
    &&& t.title is None
    &&& t.favicon_id is None
    &&& !t.pinned
    &&& !t.muted
    &&& t.order_key@ == order_key
    &&& t.scroll_y == 0
    &&& t.last_active == last_active
    &&& t.created_at == created_at
}

/// A tab that has not been put on record yet.
pub fn fresh_tab(
    window_id: i32,
    url: String,
    order_key: String,
    last_active: Option<i64>,
    created_at: i64,
) -> (out: Tab)
    ensures
        is_fresh(out, window_id as int, url@, order_key@, last_active, created_at),
{
    Tab {
        id: 0,
        window_id,
        url,
        title: None,
        favicon_id: None,
        pinned: false,
        muted: false,
        order_key,
        scroll_y: 0,
        last_active,
        created_at,
    }
}

/// The first tab of a window that is made at the given time.
pub fn first_tab(window_id: i32, url: String, now: i64) -> (out: Tab)
    ensures
        is_fresh(out, window_id as int, url@, "a"@, Some(now), now),
{
    fresh_tab(window_id, url, "a".to_owned(), Some(now), now)
}

/// What a new tab is to be, where something was left open: it belongs to the first window, shows
/// nothing and comes to the front.
pub struct TabRequest {
    pub window_id: i32,
    pub url: String,
    pub background: bool,
}

/// What a new tab is to be.
pub fn tab_request(
    url: Option<String>,
    background: Option<bool>,
    window_id: Option<i32>,
) -> (out: TabRequest)
    ensures
        out.window_id == match window_id {
            Some(w) => w as int,
            None => 1,
        },
        out.url@ == match text::opt_view(url) {
            Some(u) => u,
            None => "about:blank"@,
        },
        out.background == match background {
            Some(b) => b,
            None => false,
        },
{
    TabRequest {
        window_id: match window_id {
            Some(w) => w,
            None => 1,
        },
        url: match url {
            Some(u) => u,
            None => "about:blank".to_owned(),
        },
        background: match background {
            Some(b) => b,
            None => false,
        },
    }
}

/// The tab that is put on record for a request, given the tabs of its window in their order.
pub fn tabs_create_impl(
    request: TabRequest,
    tabs: &Vec<Tab>,
    created_at: i64,
) -> (out: Tab)
    ensures
        is_fresh(
            out,
            request.window_id as int,
            request.url@,
            key_behind(tabs@),
            None,
            created_at,
        ),
{
    fresh_tab(request.window_id, request.url, key_for_new_tab(tabs), None, created_at)
}

/// Makes a tab in a window that leaves no trace, behind its other tabs.
pub fn create_incognito(store: &mut IncognitoStore, request: TabRequest, now: i64) -> (out: Tab)
    requires
        incognito::least_id(old(store).tabs@) > i32::MIN,
    ensures
        incognito::is_new_tab(
            out,
            incognito::least_id(old(store).tabs@) - 1,
            request.window_id,
            request.url,
            key_behind(
                incognito::in_order(incognito::inside(old(store).tabs@, request.window_id)),
            ),
            now,
        ),
        final(store).tabs@ == old(store).tabs@.push(out),
        final(store).windows@ == old(store).windows@.insert(request.window_id),
        final(store).closed == old(store).closed,
{
    let tabs: Vec<Tab> = incognito::list_incognito_tabs(store, request.window_id);
    let key: String = key_for_new_tab(&tabs);
    incognito::create_incognito_tab(store, request.window_id, request.url, key, now)
}

// ---- moving ----

/// The first position, from `i` on, of the tab with the given number.
pub open spec fn position_of(tabs: Seq<Tab>, id: i32) -> Option<int> {
    incognito::tab_position(tabs, id)
}

/// The key that puts the tab `id` before the tab `before_id`, or behind all others, given the
/// tabs of its window in their order; an error where there is no such tab.
pub open spec fn moved_key(
    tabs: Seq<Tab>,
    id: i32,
    before_id: Option<i32>,
) -> Result<Seq<char>, Seq<char>> {
    let rest = incognito::others(tabs, id);
    match before_id {
        None => Ok(key_behind(rest)),
        Some(b) => match position_of(rest, b) {
            None => Err("before_id tab not found in window"@),
            Some(i) => Ok(
                fractional_index::key_between(
                    if i == 0 {
                        None
                    } else {
                        Some(rest[i - 1].order_key@)
                    },
                    Some(rest[i].order_key@),
                ),
            ),
        },
    }
}

fn without_tab(tabs: &Vec<Tab>, id: i32) -> (out: Vec<Tab>)
    ensures
        out@ == incognito::others(tabs@, id),
{
    let mut kept: Vec<Tab> = Vec::new();
    assert(incognito::others(tabs@.take(0), id) =~= Seq::empty()) by {
        reveal(Seq::filter);
    }
    for i in 0..tabs.len()
        invariant
            kept@ == incognito::others(tabs@.take(i as int), id),
    {
        proof {
            reveal(Seq::filter);
            assert(tabs@.take(i + 1).drop_last() =~= tabs@.take(i as int));
        }
        if tabs[i].id != id {
            kept.push(tabs[i].copy());
        }
    }
    assert(tabs@.take(tabs@.len() as int) =~= tabs@);
    kept
}

fn find_position(tabs: &Vec<Tab>, id: i32) -> (out: Option<usize>)
    ensures
        match out {
            Some(i) => position_of(tabs@, id) == Some(i as int) && i < tabs@.len(),
            None => position_of(tabs@, id) is None,
        },
{
    for i in 0..tabs.len()
        invariant
            position_of(tabs@, id) == incognito::tab_from(tabs@, id, i as int),
    {
        if tabs[i].id == id {
            return Some(i);
        }
    }
    None
}

/// The key that moves a tab.
pub fn tabs_reorder(tabs: &Vec<Tab>, id: i32, before_id: Option<i32>) -> (out: Result<
    String,
    String,
>)
    ensures
        match (moved_key(tabs@, id, before_id), out) {
            (Ok(a), Ok(b)) => a == b@,
            (Err(a), Err(b)) => a == b@,
            _ => false,
        },
{
    let rest: Vec<Tab> = without_tab(tabs, id);
    match before_id {
        None => Ok(key_for_new_tab(&rest)),
        Some(b) => match find_position(&rest, b) {
            None => Err("before_id tab not found in window".to_owned()),
            Some(i) => if i == 0 {
                Ok(
                    fractional_index::generate_key_between(
                        None,
                        Some(rest[0].order_key.as_str()),
                    ),
                )
            } else {
                Ok(
                    fractional_index::generate_key_between(
                        Some(rest[i - 1].order_key.as_str()),
                        Some(rest[i].order_key.as_str()),
                    ),
                )
            },
        },
    }
}

/// Tabs whose keys were made by the program and go up from one to the next.
pub open spec fn well_ordered(tabs: Seq<Tab>) -> bool {
    &&& forall|i: int|
        0 <= i < tabs.len() ==> fractional_index::tidy((#[trigger] tabs[i]).order_key@)
    &&& forall|i: int, j: int|
        0 <= i < j < tabs.len() ==> text::precedes(
            (#[trigger] tabs[i]).order_key@,
            (#[trigger] tabs[j]).order_key@,
        )
}

/// The key of a new tab comes after those of all tabs of its window, and is again one of the
/// program's own.
pub proof fn law_new_tab_last(tabs: Seq<Tab>)
    requires
        well_ordered(tabs),
    ensures
        fractional_index::tidy(key_behind(tabs)),
        forall|i: int|
            0 <= i < tabs.len() ==> text::precedes(
                (#[trigger] tabs[i]).order_key@,
                key_behind(tabs),
            ),
        forall|t: Tab|
            t.order_key@ == key_behind(tabs) ==> #[trigger] well_ordered(tabs.push(t)),
{
    let left = if tabs.len() == 0 {
        None
    } else {
        Some(tabs.last().order_key@)
    };
    if tabs.len() > 0 {
        assert(fractional_index::tidy(tabs[tabs.len() - 1].order_key@));
    }
    fractional_index::law_tidy_keys(left, None);
    assert forall|i: int| 0 <= i < tabs.len() implies text::precedes(
        (#[trigger] tabs[i]).order_key@,
        key_behind(tabs),
    ) by {
        if i < tabs.len() - 1 {
            assert(text::precedes(tabs[i].order_key@, tabs[tabs.len() - 1].order_key@));
            text::lemma_precedes_chain(
                tabs[i].order_key@,
                tabs.last().order_key@,
                key_behind(tabs),
            );
        }
    }
    assert forall|t: Tab| t.order_key@ == key_behind(tabs) implies #[trigger] well_ordered(
        tabs.push(t),
    ) by {
        let all = tabs.push(t);
        assert forall|i: int| 0 <= i < all.len() implies fractional_index::tidy(
            (#[trigger] all[i]).order_key@,
        ) by {
            if i < tabs.len() {
                assert(all[i] == tabs[i]);
            }
        }
        assert forall|i: int, j: int| 0 <= i < j < all.len() implies text::precedes(
            (#[trigger] all[i]).order_key@,
            (#[trigger] all[j]).order_key@,
        ) by {
            assert(all[i] == tabs[i]);
            if j < tabs.len() {
                assert(all[j] == tabs[j]);
            }
        }
    }
}

/// A tab that is moved before another comes to stand before it and behind all that stood before
/// it.
pub proof fn law_moved_between(tabs: Seq<Tab>, id: i32, before_id: i32)
    requires
        well_ordered(incognito::others(tabs, id)),
        moved_key(tabs, id, Some(before_id)) is Ok,
    ensures
        ({
            let rest = incognito::others(tabs, id);
            let i = position_of(rest, before_id)->0;
            let key = moved_key(tabs, id, Some(before_id))->Ok_0;
            &&& 0 <= i < rest.len()
            &&& rest[i].id == before_id
            &&& fractional_index::tidy(key)
            &&& text::precedes(key, rest[i].order_key@)
            &&& i > 0 ==> text::precedes(rest[i - 1].order_key@, key)
        }),
{
    let rest = incognito::others(tabs, id);
    lemma_position(rest, before_id, 0);
    let i = position_of(rest, before_id)->0;
    assert(fractional_index::tidy(rest[i].order_key@));
    if i > 0 {
        assert(fractional_index::tidy(rest[i - 1].order_key@));
        assert(text::precedes(rest[i - 1].order_key@, rest[i].order_key@));
        fractional_index::law_tidy_keys(Some(rest[i - 1].order_key@), Some(rest[i].order_key@));
    } else {
        fractional_index::law_tidy_keys(None, Some(rest[i].order_key@));
    }
}

/// A tab that is moved before another is listed right before it; the other tabs of its window
/// stay as they are, in their order.
pub proof fn law_moved_before_listed(
    tabs: Seq<Tab>,
    window_id: i32,
    id: i32,
    before_id: i32,
    order_key: String,
)
    requires
        incognito::known_by(tabs, window_id, id),
        well_ordered(incognito::in_order(incognito::inside(tabs, window_id))),
        moved_key(
            incognito::in_order(incognito::inside(tabs, window_id)),
            id,
            Some(before_id),
        ) == Ok::<Seq<char>, Seq<char>>(order_key@),
    ensures
        ({
            let listed = incognito::in_order(incognito::inside(tabs, window_id));
            let rest = incognito::others(listed, id);
            let i = position_of(rest, before_id)->0;
            let moved = tabs[position_of(tabs, id)->0];
            let after = incognito::revised(tabs, id, |t: Tab| Tab { order_key, ..t });
            &&& moved.id == id
            &&& 0 <= i < rest.len()
            &&& rest[i].id == before_id
            &&& incognito::in_order(incognito::inside(after, window_id)) == rest.insert(
                i,
                Tab { order_key, ..moved },
            )
        }),
{
    let listed = incognito::in_order(incognito::inside(tabs, window_id));
    let rest = incognito::others(listed, id);
    lemma_others_ordered(listed, id);
    law_moved_between(listed, id, before_id);
    incognito::law_moved_listing(
        tabs,
        window_id,
        id,
        order_key,
        position_of(rest, before_id)->0,
    );
}

proof fn lemma_others_ordered(tabs: Seq<Tab>, id: i32)
    requires
        well_ordered(tabs),
    ensures
        well_ordered(incognito::others(tabs, id)),
        forall|j: int|
            0 <= j < incognito::others(tabs, id).len() ==> tabs.contains(
                #[trigger] incognito::others(tabs, id)[j],
            ),
    decreases tabs.len(),
{
    reveal(Seq::filter);
    if tabs.len() > 0 {
        let front = tabs.drop_last();
        let n = tabs.len() - 1;
        assert(well_ordered(front)) by {
            assert forall|i: int| 0 <= i < n implies fractional_index::tidy(
                (#[trigger] front[i]).order_key@,
            ) by {
                assert(tabs[i] == front[i]);
            }
            assert forall|i: int, j: int| 0 <= i < j < n implies text::precedes(
                (#[trigger] front[i]).order_key@,
                (#[trigger] front[j]).order_key@,
            ) by {
                assert(tabs[i] == front[i] && tabs[j] == front[j]);
            }
        }
        lemma_others_ordered(front, id);
        let f = incognito::others(front, id);
        let g = incognito::others(tabs, id);
        assert forall|j: int| 0 <= j < g.len() implies tabs.contains(#[trigger] g[j]) by {
            if j < f.len() {
                let k = front.index_of(f[j]);
                assert(front.contains(f[j]));
                assert(tabs[k] == g[j]);
            } else {
                assert(tabs[n] == g[j]);
            }
        }
        assert forall|i: int| 0 <= i < g.len() implies fractional_index::tidy(
            (#[trigger] g[i]).order_key@,
        ) by {
            let k = tabs.index_of(g[i]);
            assert(tabs[k] == g[i]);
        }
        assert forall|i: int, j: int| 0 <= i < j < g.len() implies text::precedes(
            (#[trigger] g[i]).order_key@,
            (#[trigger] g[j]).order_key@,
        ) by {
            assert(g[i] == f[i]);
            if j < f.len() {
                assert(g[j] == f[j]);
            } else {
                let k = front.index_of(f[i]);
                assert(front.contains(f[i]));
                assert(text::precedes(tabs[k].order_key@, tabs[n].order_key@));
            }
        }
    }
}

proof fn lemma_position(tabs: Seq<Tab>, id: i32, i: int)
    requires
        0 <= i <= tabs.len(),
    ensures
        incognito::tab_from(tabs, id, i) matches Some(k) ==> i <= k < tabs.len() && tabs[k].id
            == id,
    decreases tabs.len() - i,
{
    if i < tabs.len() && tabs[i].id != id {
        lemma_position(tabs, id, i + 1);
    }
}

// ---- copying ----

/// The place of a copy: right behind the tab that it is a copy of.
pub open spec fn copy_key(tabs: Seq<Tab>, source: Tab) -> Seq<char> {
    let i = position_of(tabs, source.id)->0;
    fractional_index::key_between(
        Some(source.order_key@),
        if i == tabs.len() - 1 {
            None
        } else {
            Some(tabs[i + 1].order_key@)
        },
    )
}

/// The place of a copy of a tab, given the tabs of its window in their order.
pub fn key_for_copy(tabs: &Vec<Tab>, source: &Tab) -> (out: String)
    requires
        position_of(tabs@, source.id) is Some,
    ensures
        out@ == copy_key(tabs@, *source),
{
    proof {
        lemma_position(tabs@, source.id, 0);
    }
    match find_position(tabs, source.id) {
        Some(i) => if i == tabs.len() - 1 {
            fractional_index::generate_key_between(Some(source.order_key.as_str()), None)
        } else {
            fractional_index::generate_key_between(
                Some(source.order_key.as_str()),
                Some(tabs[i + 1].order_key.as_str()),
            )
        },
        None => String::new(),
    }
}

/// The copy of a tab as it is put on record: it shows the same at the same place, but is not
/// pinned.
pub fn tabs_duplicate(source: &Tab, tabs: &Vec<Tab>, created_at: i64) -> (out: Tab)
    requires
        position_of(tabs@, source.id) is Some,
    ensures
        out.order_key@ == copy_key(tabs@, *source),
        out == (Tab {
            id: 0,
            pinned: false,
            order_key: out.order_key,
            last_active: None,
            created_at,
            ..*source
        }),
{
    Tab {
        id: 0,
        window_id: source.window_id,
        url: source.url.clone(),
        title: ipc_types::copy_text(&source.title),
        favicon_id: source.favicon_id,
        pinned: false,
        muted: source.muted,
        order_key: key_for_copy(tabs, source),
        scroll_y: source.scroll_y,
        last_active: None,
        created_at,
    }
}

/// The key of a copy comes after that of the tab that it is a copy of and before that of the next
/// one, and is again one of the program's own.
pub proof fn law_copy_follows(tabs: Seq<Tab>, source: Tab)
    requires
        well_ordered(tabs),
        position_of(tabs, source.id) is Some,
        tabs[position_of(tabs, source.id)->0].order_key@ == source.order_key@,
    ensures
        ({
            let i = position_of(tabs, source.id)->0;
            let key = copy_key(tabs, source);
            &&& 0 <= i < tabs.len()
            &&& fractional_index::tidy(key)
            &&& text::precedes(source.order_key@, key)
            &&& i + 1 < tabs.len() ==> text::precedes(key, tabs[i + 1].order_key@)
        }),
{
    lemma_position(tabs, source.id, 0);
    let i = position_of(tabs, source.id)->0;
    assert(fractional_index::tidy(tabs[i].order_key@));
    if i + 1 < tabs.len() {
        assert(fractional_index::tidy(tabs[i + 1].order_key@));
        assert(text::precedes(tabs[i].order_key@, tabs[i + 1].order_key@));
        fractional_index::law_tidy_keys(Some(source.order_key@), Some(tabs[i + 1].order_key@));
    } else {
        fractional_index::law_tidy_keys(Some(source.order_key@), None);
    }
}

/// A copy is listed right behind the tab that it is a copy of. The other tabs stay as they are,
/// in their order, and the copy can be copied in its turn.
pub proof fn law_copy_listed(rows: Seq<Tab>, source: Tab, copy: Tab)
    requires
        well_ordered(incognito::in_order(rows)),
        position_of(incognito::in_order(rows), source.id) is Some,
        incognito::in_order(rows)[position_of(incognito::in_order(rows), source.id)->0] == source,
        copy.order_key@ == copy_key(incognito::in_order(rows), source),
    ensures
        ({
            let listed = incognito::in_order(rows);
            let i = position_of(listed, source.id)->0;
            &&& 0 <= i < listed.len()
            &&& incognito::in_order(rows.push(copy)) == listed.insert(i + 1, copy)
            &&& well_ordered(incognito::in_order(rows.push(copy)))
        }),
{
    let listed = incognito::in_order(rows);
    let i = position_of(listed, source.id)->0;
    law_copy_follows(listed, source);
    assert(rows.push(copy).drop_last() =~= rows);
    incognito::lemma_placed_at(listed, copy, i + 1);
    let after = listed.insert(i + 1, copy);
    assert forall|j: int| 0 <= j < after.len() implies fractional_index::tidy(
        (#[trigger] after[j]).order_key@,
    ) by {
        if j <= i {
            assert(after[j] == listed[j]);
        } else if j > i + 1 {
            assert(after[j] == listed[j - 1]);
        }
    }
}

/// A copy of a tab that leaves no trace is listed right behind it; nothing changes in the other
/// windows.
pub proof fn law_incognito_copy_listed(tabs: Seq<Tab>, source: Tab, copy: Tab)
    requires
        well_ordered(incognito::in_order(incognito::inside(tabs, source.window_id))),
        position_of(
            incognito::in_order(incognito::inside(tabs, source.window_id)),
            source.id,
        ) is Some,
        incognito::in_order(incognito::inside(tabs, source.window_id))[position_of(
            incognito::in_order(incognito::inside(tabs, source.window_id)),
            source.id,
        )->0] == source,
        copy.window_id == source.window_id,
        copy.order_key@ == copy_key(
            incognito::in_order(incognito::inside(tabs, source.window_id)),
            source,
        ),
    ensures
        ({
            let listed = incognito::in_order(incognito::inside(tabs, source.window_id));
            let i = position_of(listed, source.id)->0;
            incognito::in_order(incognito::inside(tabs.push(copy), source.window_id))
                == listed.insert(i + 1, copy)
        }),
        forall|w: i32|
            w != source.window_id ==> #[trigger] incognito::inside(tabs.push(copy), w)
                == incognito::inside(tabs, w),
{
    assert forall|w: i32| w != source.window_id implies #[trigger] incognito::inside(
        tabs.push(copy),
        w,
    ) == incognito::inside(tabs, w) by {
        incognito::lemma_inside_push(tabs, copy, w);
    }
    incognito::lemma_inside_push(tabs, copy, source.window_id);
    law_copy_listed(incognito::inside(tabs, source.window_id), source, copy);
}

// ---- closing and opening again ----

/// What follows when a tab has been closed.
#[derive(Clone, Copy, PartialEq, Eq, Debug, Structural)]
pub enum AfterClose {
    /// Nothing: the tab was not in front.
    Nothing,
    /// Another tab comes to the front.
    Activate(i32),
    /// No tab is left, and the window shows its start page.
    ShowStartPage,
}

/// What follows when a tab has been closed, given the tabs that are left in its window, whose
/// number is 0 where it is not known.
pub fn after_close(was_active: bool, window_id: i32, remaining: &Vec<Tab>) -> (out: AfterClose)
    ensures
        out == if !was_active || window_id == 0 {
            AfterClose::Nothing
        } else if remaining@.len() == 0 {
            AfterClose::ShowStartPage
        } else {
            AfterClose::Activate(remaining@.last().id)
        },
{
    if !was_active || window_id == 0 {
        AfterClose::Nothing
    } else if remaining.len() == 0 {
        AfterClose::ShowStartPage
    } else {
        AfterClose::Activate(remaining[remaining.len() - 1].id)
    }
}

/// Closes a tab that leaves no trace; it can be opened again as long as its window is there.
pub fn close_incognito(store: &mut IncognitoStore, id: i32)
    ensures
        final(store).tabs@ == incognito::others(old(store).tabs@, id),
        final(store).closed@ == match incognito::tab_position(old(store).tabs@, id) {
            Some(i) => incognito::after_close(old(store).closed@, old(store).tabs@[i]),
            None => old(store).closed@,
        },
        final(store).windows == old(store).windows,
{
    if let Some(t) = incognito::get_incognito_tab(store, id) {
        incognito::push_closed_incognito(store, t);
    }
    incognito::delete_incognito_tab(store, id);
}

/// A closed tab as it is put on record again: with a number of its own, and not yet used.
pub open spec fn row_again(t: Tab) -> Tab {
    Tab { id: 0, last_active: None, ..t }
}

/// A closed tab as it is put on record again: with a number of its own, and not yet used.
pub fn reopened_row(t: Tab) -> (out: Tab)
    ensures
        out == row_again(t),
{
    let mut out: Tab = t;
    out.id = 0;
    out.last_active = None;
    out
}

/// Opening again right after closing puts the tab that was closed on record again, as it was: it
/// belongs to the same window, shows the same at the same place, and only its number and when it
/// was last in front are new. Where the window had fewer closed tabs than are kept, the closed
/// tabs are then as before. Where a window has no closed tab, there is none to open again.
pub proof fn law_stored_tab_comes_back(rows: Seq<(i32, Tab)>, id: i32, tab: Tab, window_id: i32)
    requires
        tabs_repo::numbered(rows),
        forall|i: int| 0 <= i < rows.len() ==> (#[trigger] rows[i]).0 < id,
    ensures
        ({
            let after = tabs_repo::after_push(rows, id, tab);
            let back = tabs_repo::popped(after, tab.window_id);
            &&& back is Some
            &&& row_again(back->0) == (Tab { id: 0, last_active: None, ..tab })
            &&& tabs_repo::stack(rows, tab.window_id).len() < tabs_repo::CLOSED_TABS_KEPT
                ==> tabs_repo::stack(tabs_repo::after_pop(after, tab.window_id), tab.window_id)
                == tabs_repo::stack(rows, tab.window_id)
        }),
        tabs_repo::popped(rows, window_id) is None <==> tabs_repo::stack(rows, window_id).len()
            == 0,
{
    let after = tabs_repo::after_push(rows, id, tab);
    let before = tabs_repo::stack(rows, tab.window_id);
    tabs_repo::law_push(rows, id, tab);
    tabs_repo::law_pop(after, tab.window_id);
    tabs_repo::law_pop(rows, window_id);
    assert(before.push(tab).drop_last() =~= before);
}

/// Opens the tab of a window that was closed last, where the window leaves no trace. It gets a
/// number of its own and keeps its address, its place and whether it is pinned.
pub fn reopen_incognito(store: &mut IncognitoStore, window_id: i32, now: i64) -> (out: Option<Tab>)
    requires
        incognito::least_id(old(store).tabs@) > i32::MIN,
    ensures
        match incognito::reopened(old(store).closed@, window_id) {
            None => {
                &&& out is None
                &&& final(store).tabs == old(store).tabs
                &&& final(store).closed@ == old(store).closed@
                &&& final(store).windows == old(store).windows
            },
            Some(t) => {
                let id = (incognito::least_id(old(store).tabs@) - 1) as i32;
                &&& out == Some(Tab { id, ..t })
                &&& final(store).closed@ == incognito::after_reopen(old(store).closed@, window_id)
                &&& final(store).windows@ == old(store).windows@.insert(window_id)
                &&& final(store).tabs@.len() == old(store).tabs@.len() + 1
                &&& final(store).tabs@.drop_last() == old(store).tabs@
                &&& final(store).tabs@.last() == (Tab {
                    id,
                    window_id,
                    url: t.url,
                    title: None,
                    favicon_id: None,
                    pinned: t.pinned,
                    muted: false,
                    order_key: t.order_key,
                    scroll_y: 0,
                    last_active: Some(now),
                    created_at: now,
                })
            },
        },
{
    match incognito::pop_closed_incognito(store, window_id) {
        None => None,
        Some(t) => {
            let ghost before = store.tabs@;
            let made: Tab = incognito::create_incognito_tab(
                store,
                window_id,
                t.url.clone(),
                t.order_key.clone(),
                now,
            );
            let ghost with_made = store.tabs@;
            incognito::set_incognito_pinned(store, made.id, t.pinned);
            proof {
                lemma_position_last(with_made, made.id);
                assert(store.tabs@.drop_last() =~= before);
            }
            let mut out: Tab = t;
            out.id = made.id;
            Some(out)
        },
    }
}

/// A tab whose number no other has is found at the end.
proof fn lemma_position_last(tabs: Seq<Tab>, id: i32)
    requires
        tabs.len() > 0,
        tabs.last().id == id,
        forall|i: int| 0 <= i < tabs.len() - 1 ==> (#[trigger] tabs[i]).id != id,
    ensures
        incognito::tab_position(tabs, id) == Some(tabs.len() - 1),
{
    lemma_position_from(tabs, id, 0);
}

proof fn lemma_position_from(tabs: Seq<Tab>, id: i32, i: int)
    requires
        0 <= i < tabs.len(),
        tabs.last().id == id,
        forall|k: int| i <= k < tabs.len() - 1 ==> (#[trigger] tabs[k]).id != id,
    ensures
        incognito::tab_from(tabs, id, i) == Some(tabs.len() - 1),
    decreases tabs.len() - i,
{
    if i < tabs.len() - 1 {
        lemma_position_from(tabs, id, i + 1);
    }
}

/// Makes a copy of a tab that leaves no trace, right behind it.
pub fn duplicate_incognito(store: &mut IncognitoStore, source: &Tab, now: i64) -> (out: Tab)
    requires
        incognito::least_id(old(store).tabs@) > i32::MIN,
        position_of(
            incognito::in_order(incognito::inside(old(store).tabs@, source.window_id)),
            source.id,
        ) is Some,
    ensures
        ({
            let id = (incognito::least_id(old(store).tabs@) - 1) as i32;
            let listed = incognito::in_order(
                incognito::inside(old(store).tabs@, source.window_id),
            );
            &&& out.order_key@ == copy_key(listed, *source)
            &&& out == (Tab {
                id,
                favicon_id: None,
                pinned: false,
                order_key: out.order_key,
                last_active: Some(now),
                created_at: now,
                ..*source
            })
        }),
        final(store).tabs@ == old(store).tabs@.push(out),
        final(store).windows@ == old(store).windows@.insert(source.window_id),
        final(store).closed == old(store).closed,
{
    let tabs: Vec<Tab> = incognito::list_incognito_tabs(store, source.window_id);
    let key: String = key_for_copy(&tabs, source);
    let ghost before = store.tabs@;
    let mut tab: Tab = incognito::create_incognito_tab(
        store,
        source.window_id,
        source.url.clone(),
        key,
        now,
    );
    proof {
        lemma_position_last(store.tabs@, tab.id);
    }
    tab.title = ipc_types::copy_text(&source.title);
    tab.muted = source.muted;
    tab.scroll_y = source.scroll_y;
    incognito::update_incognito_tab(
        store,
        tab.id,
        tab.url.clone(),
        ipc_types::copy_text(&tab.title),
        tab.scroll_y,
    );
    proof {
        lemma_position_last(store.tabs@, tab.id);
    }
    incognito::set_incognito_muted(store, tab.id, tab.muted);
    assert(store.tabs@ =~= before.push(tab));
    tab
}

// ---- what a page reports ----

/// A tab as it is put on record when its page goes away.
pub fn with_snapshot(tab: Tab, url: String, title: String, scroll_y: u64) -> (out: Tab)
    ensures
        out == (Tab { url, title: Some(title), scroll_y, ..tab }),
{
    let mut out: Tab = tab;
    out.url = url;
    out.title = Some(title);
    out.scroll_y = scroll_y;
    out
}

/// A tab as it is put on record when it comes to the front.
pub fn with_last_active(tab: Tab, now: i64) -> (out: Tab)
    ensures
        out == (Tab { last_active: Some(now), ..tab }),
{
    let mut out: Tab = tab;
    out.last_active = Some(now);
    out
}

// ---- what these amount to ----

/// A tab that is moved behind all others comes behind every other tab of its window.
pub proof fn law_moved_last(tabs: Seq<Tab>, id: i32)
    requires
        well_ordered(incognito::others(tabs, id)),
    ensures
        moved_key(tabs, id, None) matches Ok(key) && fractional_index::tidy(key) && forall|i: int|
            0 <= i < incognito::others(tabs, id).len() ==> text::precedes(
                (#[trigger] incognito::others(tabs, id)[i]).order_key@,
                key,
            ),
{
    law_new_tab_last(incognito::others(tabs, id));
}

/// A tab can be moved before any other tab of its window, and before no tab that is not there; not
/// before itself.
pub proof fn law_move_refused(tabs: Seq<Tab>, id: i32, before_id: i32)
    ensures
        moved_key(tabs, id, Some(before_id)) is Ok <==> before_id != id && exists|i: int|
            0 <= i < tabs.len() && (#[trigger] tabs[i]).id == before_id,
        moved_key(tabs, id, Some(id)) is Err,
        moved_key(tabs, id, Some(before_id)) matches Err(e) ==> e == "before_id tab not found in window"@,
        moved_key(tabs, id, None) is Ok,
{
    let rest = incognito::others(tabs, id);
    incognito::law_tab_found(rest, before_id);
    incognito::law_tab_found(rest, id);
    lemma_others_members(tabs, id);
    if before_id != id && exists|i: int| 0 <= i < tabs.len() && (#[trigger] tabs[i]).id == before_id {
        let i = choose|i: int| 0 <= i < tabs.len() && (#[trigger] tabs[i]).id == before_id;
        assert(rest.contains(tabs[i]));
        let k = rest.index_of(tabs[i]);
        assert(rest[k].id == before_id);
    }
    if position_of(rest, before_id) is Some {
        let k = position_of(rest, before_id)->0;
        assert(tabs.contains(rest[k]));
        let i = tabs.index_of(rest[k]);
        assert(tabs[i].id == before_id);
        assert(rest[k].id != id);
    }
    if position_of(rest, id) is Some {
        let k = position_of(rest, id)->0;
        assert(rest[k].id != id);
    }
}

proof fn lemma_others_members(tabs: Seq<Tab>, id: i32)
    ensures
        forall|j: int|
            0 <= j < incognito::others(tabs, id).len() ==> tabs.contains(
                #[trigger] incognito::others(tabs, id)[j],
            ) && incognito::others(tabs, id)[j].id != id,
        forall|i: int|
            0 <= i < tabs.len() && (#[trigger] tabs[i]).id != id ==> incognito::others(
                tabs,
                id,
            ).contains(tabs[i]),
    decreases tabs.len(),
{
    reveal(Seq::filter);
    if tabs.len() > 0 {
        let front = tabs.drop_last();
        let n = tabs.len() - 1;
        lemma_others_members(front, id);
        let f = incognito::others(front, id);
        let g = incognito::others(tabs, id);
        assert forall|j: int| 0 <= j < g.len() implies tabs.contains(#[trigger] g[j]) && g[j].id
            != id by {
            if j < f.len() {
                assert(f[j] == g[j]);
                let k = front.index_of(f[j]);
                assert(tabs[k] == g[j]);
            } else {
                assert(tabs[n] == g[j]);
            }
        }
        assert forall|i: int| 0 <= i < tabs.len() && (#[trigger] tabs[i]).id != id implies g.contains(
            tabs[i],
        ) by {
            if i < n {
                assert(front[i] == tabs[i]);
                assert(f.contains(front[i]));
                let k = f.index_of(front[i]);
                assert(g[k] == tabs[i]);
            } else {
                assert(g[g.len() - 1] == tabs[i]);
            }
        }
    }
}

/// The first tab of a window stands in the middle of all places, so that there is room on both
/// sides of it.
pub proof fn law_first_tab_key()
    ensures
        key_behind(seq![]) == seq!['m'],
{
}

/// A fresh tab has its window, its address, its place and its times, and nothing else: no number,
/// no title, no picture; it is neither pinned nor silenced and stands at its top.
pub proof fn law_fresh_tab(
    t: Tab,
    window_id: int,
    url: Seq<char>,
    order_key: Seq<char>,
    last_active: Option<i64>,
    created_at: i64,
)
    requires
        is_fresh(t, window_id, url, order_key, last_active, created_at),
    ensures
        t.id == 0 && t.window_id == window_id && t.url@ == url && t.order_key@ == order_key,
        t.title is None && t.favicon_id is None && t.pinned == false && t.muted == false,
        t.scroll_y == 0 && t.last_active == last_active && t.created_at == created_at,
{
}

/// What comes back of a closed tab is all that was there of it but its number and its use.
pub proof fn law_row_again(t: Tab)
    ensures
        row_again(t).id == 0 && row_again(t).last_active is None,
        row_again(t).window_id == t.window_id && row_again(t).url == t.url && row_again(t).title
            == t.title && row_again(t).favicon_id == t.favicon_id,
        row_again(t).pinned == t.pinned && row_again(t).muted == t.muted && row_again(t).order_key
            == t.order_key && row_again(t).scroll_y == t.scroll_y && row_again(t).created_at
            == t.created_at,
{
}

} // verus!
