//! Which tabs have a page of their own, which sleep and which are only remembered.

use vstd::prelude::*;
use vstd::string::*;
use std::collections::HashMap;
use crate::text;
use crate::windows;

verus! {

broadcast use vstd::std_specs::hash::group_hash_axioms;

/// How many tabs may have a page before the least recently used one gives its page up.
pub const MAX_LOADED: usize = 5;

/// After how many nanoseconds in the background a tab goes to sleep.
pub const IDLE_LIMIT: u64 = 300_000_000_000;

/// After how many nanoseconds in the background a pinned tab goes to sleep.
pub const PINNED_IDLE_LIMIT: u64 = 1_800_000_000_000;

/// What a tab of the pool has: no page, a running page or a sleeping page. Times are nanoseconds
/// since the program began.
#[derive(Clone, Copy, PartialEq, Eq, Debug, Structural)]
pub enum TabState {
    Cold,
    Live { last_active: u64 },
    Suspended { last_active: u64 },
}

/// The contents of a pool.
pub struct Pool {
    pub tabs: Map<i32, TabState>,
    pub active: Option<i32>,
    /// Most recently used first.
    pub mru: Seq<i32>,
}

/// The tabs of the program, each with its state; the one in front; and the order in which they
/// were last used.
pub struct TabPool {
    tabs: HashMap<i32, TabState>,
    active_tab_id: Option<i32>,
    mru: Vec<i32>,
}

/// Whether a state has a page.
pub open spec fn has_page(s: TabState) -> bool {
    s is Live || s is Suspended
}

/// When a tab with a page was last in front.
pub open spec fn used_at(s: TabState) -> int {
    match s {
        TabState::Cold => 0,
        TabState::Live { last_active } => last_active as int,
        TabState::Suspended { last_active } => last_active as int,
    }
}

/// The tabs that have a page.
pub open spec fn loaded(tabs: Map<i32, TabState>) -> Set<i32> {
    tabs.dom().filter(|id: i32| has_page(tabs[id]))
}

/// `mru` with `id` moved, or put, to its front.
#[verifier::opaque]
pub open spec fn touched(mru: Seq<i32>, id: i32) -> Seq<i32> {
    seq![id] + without(mru, id)
}

/// `ids` without `id`.
pub open spec fn without(ids: Seq<i32>, id: i32) -> Seq<i32> {
    ids.filter(|x: i32| x != id)
}

/// The tab to switch to, given the tabs from the most recently used one on: the one used before
/// the present one or, backwards, the one whose use lies back furthest. There is none with fewer
/// than two tabs.
pub open spec fn switch_target(mru: Seq<i32>, forward: bool) -> Option<i32> {
    if mru.len() < 2 {
        None
    } else if forward {
        Some(mru[1])
    } else {
        Some(mru.last())
    }
}

/// The tabs from the most recently used one on, once the tabs `ids` were brought to the front, one
/// after the other.
pub open spec fn used_in_turn(mru: Seq<i32>, ids: Seq<i32>) -> Seq<i32>
    decreases ids.len(),
{
    if ids.len() == 0 {
        mru
    } else {
        touched(used_in_turn(mru, ids.drop_last()), ids.last())
    }
}

/// The turn in which a tab was last brought to the front; -1 where it never was.
pub open spec fn last_use(ids: Seq<i32>, id: i32) -> int
    decreases ids.len(),
{
    if ids.len() == 0 {
        -1
    } else if ids.last() == id {
        ids.len() - 1
    } else {
        last_use(ids.drop_last(), id)
    }
}

impl View for TabPool {
    type V = Pool;

    closed spec fn view(&self) -> Pool {
        Pool { tabs: self.tabs@, active: self.active_tab_id, mru: self.mru@ }
    }
}

impl Default for TabPool {
    fn default() -> (out: Self)
        ensures
            out@.tabs == Map::<i32, TabState>::empty(),
            out@.active is None,
            out@.mru == Seq::<i32>::empty(),
    {
        TabPool { tabs: HashMap::new(), active_tab_id: None, mru: Vec::new() }
    }
}

/// Whether the list holds the number.
pub fn has_id(ids: &Vec<i32>, id: i32) -> (out: bool)
    ensures
        out == ids@.contains(id),
{
    for i in 0..ids.len()
        invariant
            forall|j: int| 0 <= j < i ==> ids@[j] != id,
    {
        if ids[i] == id {
            assert(ids@[i as int] == id);
            return true;
        }
    }
    false
}

/// The list without the number.
pub fn drop_id(ids: &Vec<i32>, id: i32) -> (out: Vec<i32>)
    ensures
        out@ == without(ids@, id),
{
    let mut out: Vec<i32> = Vec::new();
    assert(without(ids@.take(0), id) =~= Seq::empty()) by {
        reveal(Seq::filter);
    }
    for i in 0..ids.len()
        invariant
            out@ == without(ids@.take(i as int), id),
    {
        proof {
            reveal(Seq::filter);
            assert(ids@.take(i + 1).drop_last() =~= ids@.take(i as int));
        }
        if ids[i] != id {
            out.push(ids[i]);
        }
    }
    assert(ids@.take(ids@.len() as int) =~= ids@);
    out
}

proof fn lemma_take_contains(s: Seq<i32>, i: int)
    requires
        0 <= i < s.len(),
        s.no_duplicates(),
    ensures
        forall|x: i32| #[trigger] s.take(i + 1).contains(x) <==> s.take(i).contains(x) || x == s[i],
        !s.take(i).contains(s[i]),
{
    assert forall|x: i32| #[trigger] s.take(i + 1).contains(x) <==> s.take(i).contains(x) || x
        == s[i] by {
        if s.take(i).contains(x) {
            let j = s.take(i).index_of(x);
            assert(s.take(i + 1)[j] == x);
        }
        if s.take(i + 1).contains(x) {
            let j = s.take(i + 1).index_of(x);
            if j < i {
                assert(s.take(i)[j] == x);
            }
        }
        assert(s.take(i + 1)[i] == s[i]);
    }
    if s.take(i).contains(s[i]) {
        let j = s.take(i).index_of(s[i]);
        assert(s[j] == s[i]);
    }
}

proof fn lemma_push_contains(s: Seq<i32>, x: i32)
    ensures
        forall|y: i32| #[trigger] s.push(x).contains(y) <==> s.contains(y) || y == x,
        s.no_duplicates() && !s.contains(x) ==> s.push(x).no_duplicates(),
{
    assert(s.push(x)[s.len() as int] == x);
    assert forall|y: i32| #[trigger] s.push(x).contains(y) <==> s.contains(y) || y == x by {
        if s.contains(y) {
            let j = s.index_of(y);
            assert(s.push(x)[j] == y);
        }
    }
    if s.no_duplicates() && !s.contains(x) {
        assert forall|a: int, b: int| 0 <= a < b < s.push(x).len() implies s.push(x)[a] != s.push(
            x,
        )[b] by {
            assert(s.contains(s.push(x)[a]));
        }
    }
}

/// Dropping a number keeps the others, in their order and without repetition.
pub proof fn lemma_without(ids: Seq<i32>, id: i32)
    ensures
        !without(ids, id).contains(id),
        ids.no_duplicates() ==> without(ids, id).no_duplicates(),
        forall|x: i32| x != id ==> (#[trigger] without(ids, id).contains(x) <==> ids.contains(x)),
    decreases ids.len(),
{
    reveal(Seq::filter);
    if ids.len() > 0 {
        let front = ids.drop_last();
        lemma_without(front, id);
        let w = without(front, id);
        assert(without(ids, id) == if ids.last() != id {
            w.push(ids.last())
        } else {
            w
        });
        assert(ids =~= front.push(ids.last()));
        assert forall|x: i32| x != id implies (#[trigger] without(ids, id).contains(x)
            <==> ids.contains(x)) by {
            assert(w.contains(x) <==> front.contains(x));
            if without(ids, id).contains(x) {
                let k = without(ids, id).index_of(x);
                if k < w.len() {
                    assert(w[k] == x);
                    let j = front.index_of(x);
                    assert(ids[j] == x);
                } else {
                    assert(ids[ids.len() - 1] == x);
                }
            }
            if ids.contains(x) {
                let j = ids.index_of(x);
                if j < front.len() {
                    assert(front[j] == x);
                    let k = w.index_of(x);
                    assert(without(ids, id)[k] == x);
                } else {
                    assert(without(ids, id)[w.len() as int] == x);
                }
            }
        }
        if without(ids, id).contains(id) {
            let k = without(ids, id).index_of(id);
            if k < w.len() {
                assert(w[k] == id);
            }
            assert(false);
        }
        if ids.no_duplicates() {
            assert(front.no_duplicates());
            if ids.last() != id {
                if w.contains(ids.last()) {
                    assert(front.contains(ids.last()));
                    let j = front.index_of(ids.last());
                    assert(ids[j] == ids[ids.len() - 1]);
                }
                assert forall|a: int, b: int|
                    0 <= a < b < without(ids, id).len() implies without(ids, id)[a] != without(
                    ids,
                    id,
                )[b] by {
                    if b == w.len() {
                        assert(w[a] == without(ids, id)[a]);
                        assert(w.contains(w[a]));
                    }
                }
            }
        }
    }
}

// ---- the least recently used tab ----

/// A tab that may lose its page: it has one, is not in front, makes no sound and is not pinned.
pub open spec fn evictable(
    tabs: Map<i32, TabState>,
    active: Option<i32>,
    audible: Seq<i32>,
    pinned: Seq<i32>,
    id: i32,
) -> bool {
    &&& tabs.contains_key(id)
    &&& has_page(tabs[id])
    &&& active != Some(id)
    &&& !audible.contains(id)
    &&& !pinned.contains(id)
}

/// The tab that loses its page next: of those that may, one that was used least recently.
pub open spec fn is_victim(
    tabs: Map<i32, TabState>,
    active: Option<i32>,
    audible: Seq<i32>,
    pinned: Seq<i32>,
    id: i32,
) -> bool {
    &&& evictable(tabs, active, audible, pinned, id)
    &&& forall|other: i32| #[trigger]
        evictable(tabs, active, audible, pinned, other) ==> used_at(tabs[id]) <= used_at(
            tabs[other],
        )
}

/// No tab may lose its page.
pub open spec fn none_evictable(
    tabs: Map<i32, TabState>,
    active: Option<i32>,
    audible: Seq<i32>,
    pinned: Seq<i32>,
) -> bool {
    forall|id: i32| !#[trigger] evictable(tabs, active, audible, pinned, id)
}

/// Taking the pages of `ids` away, one after the other, makes room in `before` and leaves
/// `after`: each is the next to lose its page, and none is taken once there is room.
pub open spec fn makes_room(
    before: Map<i32, TabState>,
    active: Option<i32>,
    audible: Seq<i32>,
    pinned: Seq<i32>,
    ids: Seq<i32>,
    after: Map<i32, TabState>,
) -> bool
    decreases ids.len(),
{
    if ids.len() == 0 {
        &&& after == before
        &&& loaded(before).len() < MAX_LOADED || none_evictable(before, active, audible, pinned)
    } else {
        &&& loaded(before).len() >= MAX_LOADED
        &&& is_victim(before, active, audible, pinned, ids[0])
        &&& makes_room(
            before.insert(ids[0], TabState::Cold),
            active,
            audible,
            pinned,
            ids.skip(1),
            after,
        )
    }
}

/// What is given back of the tabs' pages: the tab without a page is no longer loaded, the others
/// are as before.
pub proof fn lemma_cold(tabs: Map<i32, TabState>, id: i32)
    ensures
        loaded(tabs.insert(id, TabState::Cold)) == loaded(tabs).remove(id),
{
    assert(loaded(tabs.insert(id, TabState::Cold)) =~= loaded(tabs).remove(id));
}

// ---- putting tabs to sleep ----

/// The time that has passed; none where the clock stands before `since`.
pub open spec fn elapsed(since: u64, now: u64) -> int {
    if now >= since {
        now - since
    } else {
        0
    }
}

/// A tab in the background whose running page may be put to sleep: it makes no sound.
pub open spec fn may_sleep(p: Pool, audible: Seq<i32>, id: i32) -> bool {
    &&& p.tabs.contains_key(id)
    &&& p.tabs[id] is Live
    &&& p.active != Some(id)
    &&& !audible.contains(id)
}

/// A tab that has been in the background for long enough to be put to sleep.
pub open spec fn is_idle(
    p: Pool,
    audible: Seq<i32>,
    pinned: Seq<i32>,
    now: u64,
    id: i32,
) -> bool {
    &&& may_sleep(p, audible, id)
    &&& elapsed(used_at(p.tabs[id]) as u64, now) > if pinned.contains(id) {
        PINNED_IDLE_LIMIT
    } else {
        IDLE_LIMIT
    }
}

/// The number of the window that a tab is in, as the list has it; 0 where it does not say.
pub open spec fn window_of(windows: Seq<(i32, i32)>, id: i32) -> int
    decreases windows.len(),
{
    if windows.len() == 0 {
        0
    } else if windows[0].0 == id {
        windows[0].1 as int
    } else {
        window_of(windows.skip(1), id)
    }
}

fn find_window(windows: &Vec<(i32, i32)>, id: i32) -> (out: i32)
    ensures
        out == window_of(windows@, id),
{
    assert(windows@.skip(0) =~= windows@);
    for i in 0..windows.len()
        invariant
            window_of(windows@, id) == window_of(windows@.skip(i as int), id),
    {
        if windows[i].0 == id {
            return windows[i].1;
        }
        assert(windows@.skip(i as int).skip(1) =~= windows@.skip(i + 1));
    }
    0
}

/// What the parts of the user interface are told of a tab with a page.
pub open spec fn state_word(s: TabState) -> Seq<char> {
    if s is Live {
        "live"@
    } else {
        "suspended"@
    }
}

/// What going to an address asks for.
#[derive(Clone, Copy, PartialEq, Eq, Debug, Structural)]
pub enum Navigation {
    /// The tab's page goes there.
    InPlace,
    /// The tab's page is closed, and the tab comes to the front without it.
    Close,
    /// The address is noted down, and the tab comes to the front.
    Load,
}

// ---- bringing a tab to the front ----

/// How the tab that comes to the front gets its page.
#[derive(Clone, Copy, PartialEq, Eq, Debug, Structural)]
pub enum Show {
    /// It has none: an empty tab shows the start page of the window itself.
    Blank,
    /// Its page runs and becomes visible.
    Existing,
    /// Its page sleeps, is woken and becomes visible.
    Resume,
    /// A page is to be made for it.
    Create,
}

/// What is known of a tab that is to come to the front.
pub struct TabPlace {
    pub window_id: i32,
    pub url: String,
}

/// Where and how a tab comes to the front, and the tabs that lose their pages for it.
pub struct Stage {
    pub window_label: String,
    pub show: Show,
    pub evicted: Vec<i32>,
}

/// What bringing a tab to the front asks for: the pages to hide, the one of them whose place is
/// to be noted, and what follows.
pub struct Activation {
    pub hide: Vec<i32>,
    pub refresh: Option<i32>,
    pub outcome: Result<Stage, String>,
}

/// An address that shows nothing.
pub open spec fn is_blank(url: Seq<char>) -> bool {
    url.len() == 0 || url == "about:blank"@
}

/// Whether an address shows nothing.
pub fn is_blank_url(url: &str) -> (out: bool)
    ensures
        out == is_blank(url@),
{
    url.is_empty() || text::same(url, "about:blank")
}

/// The pool as soon as the tab is wanted in front, whatever comes of it.
pub open spec fn wanted(p: Pool, id: i32) -> Pool {
    Pool {
        tabs: if p.tabs.contains_key(id) {
            p.tabs
        } else {
            p.tabs.insert(id, TabState::Cold)
        },
        active: Some(id),
        mru: touched(p.mru, id),
    }
}

/// The tab that was in front and has to make way for `id`, where it has a page.
pub open spec fn leaving(p: Pool, id: i32) -> Option<i32> {
    match p.active {
        Some(a) if a != id && loaded(p.tabs).contains(a) => Some(a),
        _ => None,
    }
}

/// How the tab gets its page, by the state it is in.
pub open spec fn way_to_show(state: TabState, blank: bool) -> Show {
    if blank {
        Show::Blank
    } else {
        match state {
            TabState::Cold => Show::Create,
            TabState::Live { .. } => Show::Existing,
            TabState::Suspended { .. } => Show::Resume,
        }
    }
}

/// The tabs once the tab has come to the front in the given way; `evicted` lose their pages.
pub open spec fn shown(
    p: Pool,
    id: i32,
    blank: bool,
    now: u64,
    audible: Seq<i32>,
    pinned: Seq<i32>,
    evicted: Seq<i32>,
    after: Pool,
) -> bool {
    match way_to_show(p.tabs[id], blank) {
        Show::Blank => {
            &&& evicted.len() == 0
            &&& after == Pool { tabs: p.tabs.insert(id, TabState::Cold), ..p }
        },
        Show::Create => {
            &&& makes_room(p.tabs, p.active, audible, pinned, evicted, after.tabs)
            &&& after == Pool { tabs: after.tabs, ..p }
        },
        _ => {
            &&& evicted.len() == 0
            &&& after == Pool { tabs: p.tabs.insert(id, TabState::Live { last_active: now }), ..p }
        },
    }
}

/// Why there is no such tab.
pub open spec fn missing_tab(id: i32) -> Seq<char> {
    if id < 0 {
        "Tab not found in incognito store"@
    } else {
        "Tab not found in database"@
    }
}

impl TabPool {
    /// No tab is listed twice among those last used, and there is an end to the tabs.
    pub open spec fn wf(&self) -> bool {
        &&& self@.mru.no_duplicates()
        &&& self@.tabs.dom().finite()
    }

    /// A pool without tabs.
    pub fn new() -> (out: Self)
        ensures
            out.wf(),
            out@.tabs == Map::<i32, TabState>::empty(),
            out@.active is None,
            out@.mru == Seq::<i32>::empty(),
    {
        Self::default()
    }

    pub fn set_active_tab_id(&mut self, id: Option<i32>)
        ensures
            final(self)@ == (Pool { active: id, ..old(self)@ }),
    {
        self.active_tab_id = id;
    }

    pub fn get_active_tab_id(&self) -> (out: Option<i32>)
        ensures
            out == self@.active,
    {
        self.active_tab_id
    }

    /// Whether the tab's page sleeps.
    pub fn is_tab_suspended(&self, id: i32) -> (out: bool)
        ensures
            out == (self@.tabs.contains_key(id) && self@.tabs[id] is Suspended),
    {
        match self.tabs.get(&id) {
            Some(TabState::Suspended { .. }) => true,
            _ => false,
        }
    }

    /// Whether the tab has a page.
    pub fn is_loaded(&self, id: i32) -> (out: bool)
        ensures
            out == loaded(self@.tabs).contains(id),
    {
        match self.tabs.get(&id) {
            Some(TabState::Suspended { .. }) => true,
            Some(TabState::Live { .. }) => true,
            _ => false,
        }
    }

    /// Whether the tab has a page that runs, so that it can take the keyboard.
    pub fn is_live(&self, id: i32) -> (out: bool)
        ensures
            out == (self@.tabs.contains_key(id) && self@.tabs[id] is Live),
    {
        match self.tabs.get(&id) {
            Some(TabState::Live { .. }) => true,
            _ => false,
        }
    }

    /// All tabs of the pool, in no particular order.
    fn ids(&self) -> (out: Vec<i32>)
        ensures
            out@.no_duplicates(),
            out@.to_set() == self@.tabs.dom(),
    {
        let mut out: Vec<i32> = Vec::new();
        for k in it: self.tabs.keys()
            invariant
                out@ == it.seq().take(it.index()).unref(),
                it.seq().no_duplicates(),
                it.seq().unref().to_set() == self.tabs@.dom(),
                it.index() == it.seq().len() ==> out@ == it.seq().unref(),
        {
            assert(it.seq().take(it.index() + 1) =~= it.seq().take(it.index()).push(
                it.seq()[it.index()],
            ));
            out.push(*k);
        }
        out
    }

    /// The tabs that have a page, in no particular order.
    pub fn loaded_tabs(&self) -> (out: Vec<i32>)
        ensures
            out@.no_duplicates(),
            out@.to_set() == loaded(self@.tabs),
    {
        let ids: Vec<i32> = self.ids();
        let mut out: Vec<i32> = Vec::new();
        for i in 0..ids.len()
            invariant
                ids@.no_duplicates(),
                ids@.to_set() == self@.tabs.dom(),
                out@.no_duplicates(),
                forall|x: i32|
                    out@.contains(x) <==> loaded(self@.tabs).contains(x) && ids@.take(
                        i as int,
                    ).contains(x),
        {
            let id: i32 = ids[i];
            proof {
                lemma_take_contains(ids@, i as int);
                assert(ids@.contains(id));
                assert(self@.tabs.contains_key(id));
            }
            if self.is_loaded(id) {
                proof {
                    lemma_push_contains(out@, id);
                }
                out.push(id);
            }
        }
        assert(ids@.take(ids@.len() as int) =~= ids@);
        assert(out@.to_set() =~= loaded(self@.tabs)) by {
            assert forall|x: i32| loaded(self@.tabs).contains(x) implies out@.contains(x) by {
                assert(ids@.to_set().contains(x));
            }
        }
        out
    }

    /// How many tabs have a page.
    pub fn get_active_count(&self) -> (out: usize)
        ensures
            out == loaded(self@.tabs).len(),
    {
        let ids: Vec<i32> = self.loaded_tabs();
        proof {
            ids@.unique_seq_to_set();
        }
        ids.len()
    }

    /// Forgets the tab. The answer is whether it had a page, which is then to be closed.
    pub fn remove_tab(&mut self, id: i32) -> (had_page: bool)
        requires
            old(self).wf(),
        ensures
            final(self).wf(),
            had_page == loaded(old(self)@.tabs).contains(id),
            final(self)@.tabs == old(self)@.tabs.remove(id),
            final(self)@.active == if old(self)@.active == Some(id) {
                None
            } else {
                old(self)@.active
            },
            final(self)@.mru == without(old(self)@.mru, id),
    {
        proof {
            lemma_without(self.mru@, id);
        }
        let had_page: bool = match self.tabs.remove(&id) {
            Some(TabState::Live { .. }) => true,
            Some(TabState::Suspended { .. }) => true,
            _ => false,
        };
        if let Some(active) = self.active_tab_id {
            if active == id {
                self.active_tab_id = None;
            }
        }
        self.mru = drop_id(&self.mru, id);
        assert(self@.tabs =~= old(self)@.tabs.remove(id));
        had_page
    }

    /// Takes the tab's page away but keeps the tab. The answer is whether it had a page, which is
    /// then to be closed.
    pub fn discard_tab(&mut self, id: i32) -> (had_page: bool)
        requires
            old(self).wf(),
        ensures
            final(self).wf(),
            had_page == loaded(old(self)@.tabs).contains(id),
            final(self)@.tabs == old(self)@.tabs.insert(id, TabState::Cold),
            final(self)@.active == if old(self)@.active == Some(id) {
                None
            } else {
                old(self)@.active
            },
            final(self)@.mru == without(old(self)@.mru, id),
    {
        proof {
            lemma_without(self.mru@, id);
        }
        let had_page: bool = self.is_loaded(id);
        self.tabs.insert(id, TabState::Cold);
        if let Some(active) = self.active_tab_id {
            if active == id {
                self.active_tab_id = None;
            }
        }
        self.mru = drop_id(&self.mru, id);
        had_page
    }

    /// Makes the tab the most recently used one.
    fn touch_mru(&mut self, id: i32)
        requires
            old(self).wf(),
        ensures
            final(self).wf(),
            final(self)@ == (Pool { mru: touched(old(self)@.mru, id), ..old(self)@ }),
    {
        proof {
            reveal(touched);
            lemma_without(self.mru@, id);
        }
        let rest: Vec<i32> = drop_id(&self.mru, id);
        let ghost tail = rest@;
        let mut mru: Vec<i32> = rest;
        mru.insert(0, id);
        assert(mru@ =~= touched(old(self)@.mru, id));
        assert forall|a: int, b: int| 0 <= a < b < mru@.len() implies mru@[a] != mru@[b] by {
            assert(mru@[b] == tail[b - 1]);
            assert(tail.contains(tail[b - 1]));
        }
        self.mru = mru;
    }

    /// The tab to switch to: the one used before the present one or, backwards, the one whose
    /// use lies back furthest. There is none with fewer than two tabs.
    pub fn mru_target(&self, forward: bool) -> (out: Option<i32>)
        ensures
            out == switch_target(self@.mru, forward),
    {
        if self.mru.len() < 2 {
            return None;
        }
        if forward {
            Some(self.mru[1])
        } else {
            Some(self.mru[self.mru.len() - 1])
        }
    }

    /// Takes the page of the least recently used tab that may lose it. Its page is then to be
    /// closed, once what it shows has been noted down.
    pub fn evict_lru(&mut self, audible: &Vec<i32>, pinned: &Vec<i32>) -> (victim: Option<i32>)
        ensures
            match victim {
                Some(id) => {
                    &&& is_victim(old(self)@.tabs, old(self)@.active, audible@, pinned@, id)
                    &&& final(self)@ == (Pool {
                        tabs: old(self)@.tabs.insert(id, TabState::Cold),
                        ..old(self)@
                    })
                },
                None => {
                    &&& none_evictable(old(self)@.tabs, old(self)@.active, audible@, pinned@)
                    &&& final(self)@ == old(self)@
                },
            },
    {
        let ids: Vec<i32> = self.loaded_tabs();
        let ghost tabs = self@.tabs;
        let ghost active = self@.active;
        let mut victim: Option<i32> = None;
        let mut oldest: u64 = 0;
        for i in 0..ids.len()
            invariant
                tabs == self@.tabs,
                active == self@.active,
                ids@.to_set() == loaded(tabs),
                match victim {
                    Some(id) => {
                        &&& evictable(tabs, active, audible@, pinned@, id)
                        &&& oldest == used_at(tabs[id])
                        &&& forall|j: int|
                            0 <= j < i && evictable(
                                tabs,
                                active,
                                audible@,
                                pinned@,
                                #[trigger] ids@[j],
                            ) ==> oldest <= used_at(tabs[ids@[j]])
                    },
                    None => forall|j: int|
                        0 <= j < i ==> !evictable(
                            tabs,
                            active,
                            audible@,
                            pinned@,
                            #[trigger] ids@[j],
                        ),
                },
        {
            let id: i32 = ids[i];
            assert(ids@.to_set().contains(id));
            let is_active: bool = match self.active_tab_id {
                Some(a) => a == id,
                None => false,
            };
            let used: u64 = match self.tabs.get(&id) {
                Some(TabState::Live { last_active }) => *last_active,
                Some(TabState::Suspended { last_active }) => *last_active,
                _ => 0,
            };
            assert(used == used_at(tabs[id]));
            if !is_active && !has_id(audible, id) && !has_id(pinned, id) {
                if victim.is_none() || used < oldest {
                    victim = Some(id);
                    oldest = used;
                }
            }
        }
        assert forall|other: i32| evictable(
            tabs,
            active,
            audible@,
            pinned@,
            other,
        ) implies ids@.contains(other) by {
            assert(loaded(tabs).contains(other));
            assert(ids@.to_set().contains(other));
        }
        if let Some(id) = victim {
            self.tabs.insert(id, TabState::Cold);
            assert forall|other: i32| #[trigger]
                evictable(tabs, active, audible@, pinned@, other) implies used_at(tabs[id])
                <= used_at(tabs[other]) by {
                assert(ids@.contains(other));
                let j = ids@.index_of(other);
                assert(ids@[j] == other);
            }
        } else {
            assert forall|other: i32| !#[trigger]
                evictable(tabs, active, audible@, pinned@, other) by {
                if evictable(tabs, active, audible@, pinned@, other) {
                    assert(ids@.contains(other));
                    let j = ids@.index_of(other);
                    assert(ids@[j] == other);
                }
            }
        }
        victim
    }

    /// Takes pages away, least recently used first, until one more fits or no tab may lose its
    /// page. The pages of the tabs in the answer are to be closed.
    pub fn make_room(&mut self, audible: &Vec<i32>, pinned: &Vec<i32>) -> (evicted: Vec<i32>)
        ensures
            makes_room(
                old(self)@.tabs,
                old(self)@.active,
                audible@,
                pinned@,
                evicted@,
                final(self)@.tabs,
            ),
            final(self)@ == (Pool { tabs: final(self)@.tabs, ..old(self)@ }),
            final(self)@.tabs.dom().finite(),
        decreases loaded(old(self)@.tabs).len(),
    {
        if self.get_active_count() < MAX_LOADED {
            return Vec::new();
        }
        match self.evict_lru(audible, pinned) {
            None => Vec::new(),
            Some(id) => {
                proof {
                    let before = loaded(old(self)@.tabs);
                    assert(before.contains(id));
                    assert(before.finite()) by {
                        assert(before.subset_of(old(self).tabs@.dom()));
                        vstd::set_lib::lemma_set_subset_finite(old(self).tabs@.dom(), before);
                    }
                    lemma_cold(old(self)@.tabs, id);
                }
                let mut evicted: Vec<i32> = self.make_room(audible, pinned);
                let ghost rest = evicted@;
                evicted.insert(0, id);
                assert(evicted@.skip(1) =~= rest);
                evicted
            },
        }
    }

    /// Gives the tab its page in the way that its state asks for.
    fn show_tab(
        &mut self,
        id: i32,
        blank: bool,
        now: u64,
        audible: &Vec<i32>,
        pinned: &Vec<i32>,
    ) -> (out: (Show, Vec<i32>))
        requires
            old(self)@.tabs.contains_key(id),
        ensures
            out.0 == way_to_show(old(self)@.tabs[id], blank),
            shown(old(self)@, id, blank, now, audible@, pinned@, out.1@, final(self)@),
    {
        if blank {
            self.tabs.insert(id, TabState::Cold);
            return (Show::Blank, Vec::new());
        }
        let state: TabState = match self.tabs.get(&id) {
            Some(s) => *s,
            None => TabState::Cold,
        };
        match state {
            TabState::Live { .. } => {
                self.tabs.insert(id, TabState::Live { last_active: now });
                (Show::Existing, Vec::new())
            },
            TabState::Suspended { .. } => {
                self.tabs.insert(id, TabState::Live { last_active: now });
                (Show::Resume, Vec::new())
            },
            TabState::Cold => (Show::Create, self.make_room(audible, pinned)),
        }
    }

    /// Brings the tab to the front. `found` is what is on record of it, `open` the names of the
    /// open windows, `audible` the tabs that make sound and `pinned` the pinned ones.
    pub fn activate_tab(
        &mut self,
        id: i32,
        found: Result<Option<TabPlace>, String>,
        open: &Vec<String>,
        audible: &Vec<i32>,
        pinned: &Vec<i32>,
        now: u64,
    ) -> (out: Activation)
        requires
            old(self).wf(),
        ensures
            final(self).wf(),
            out.hide@.no_duplicates(),
            out.hide@.to_set() == loaded(old(self)@.tabs).remove(id),
            out.refresh == leaving(old(self)@, id),
            final(self)@.mru == touched(old(self)@.mru, id),
            match (found, out.outcome) {
                (Err(e), r) => r == Err::<Stage, String>(e) && final(self)@ == wanted(
                    old(self)@,
                    id,
                ),
                (Ok(None), Err(e)) => e@ == missing_tab(id) && final(self)@ == wanted(
                    old(self)@,
                    id,
                ),
                (Ok(None), Ok(_)) => false,
                (Ok(Some(place)), r) => {
                    let name = windows::window_name(place.window_id as int, text::views(open@));
                    match r {
                        Err(e) => {
                            &&& !text::views(open@).contains(name)
                            &&& e@ == "Parent window "@ + name + " not found"@
                            &&& final(self)@ == wanted(old(self)@, id)
                        },
                        Ok(stage) => {
                            let p = wanted(old(self)@, id);
                            &&& text::views(open@).contains(name)
                            &&& stage.window_label@ == name
                            &&& stage.show == way_to_show(p.tabs[id], is_blank(place.url@))
                            &&& shown(
                                p,
                                id,
                                is_blank(place.url@),
                                now,
                                audible@,
                                pinned@,
                                stage.evicted@,
                                final(self)@,
                            )
                        },
                    }
                },
            },
    {
        let all: Vec<i32> = self.loaded_tabs();
        let refresh: Option<i32> = match self.active_tab_id {
            Some(a) => if a != id && self.is_loaded(a) {
                Some(a)
            } else {
                None
            },
            None => None,
        };
        let hide: Vec<i32> = drop_id(&all, id);
        proof {
            lemma_without(all@, id);
            assert forall|x: i32| hide@.to_set().contains(x) <==> loaded(old(self)@.tabs).remove(
                id,
            ).contains(x) by {
                assert(all@.to_set().contains(x) == all@.contains(x));
                if x != id {
                    assert(hide@.contains(x) <==> all@.contains(x));
                }
            }
            assert(hide@.to_set() =~= loaded(old(self)@.tabs).remove(id));
        }
        self.active_tab_id = Some(id);
        self.touch_mru(id);
        if !self.tabs.contains_key(&id) {
            self.tabs.insert(id, TabState::Cold);
        }
        assert(self@ == wanted(old(self)@, id));
        let place: TabPlace = match found {
            Err(e) => {
                return Activation { hide, refresh, outcome: Err(e) };
            },
            Ok(None) => {
                let why: String = if id < 0 {
                    "Tab not found in incognito store".to_owned()
                } else {
                    "Tab not found in database".to_owned()
                };
                return Activation { hide, refresh, outcome: Err(why) };
            },
            Ok(Some(place)) => place,
        };
        let label: String = windows::window_label(place.window_id, open);
        if !text::lists(open, label.as_str()) {
            let why: String = text::concat3("Parent window ", label.as_str(), " not found");
            return Activation { hide, refresh, outcome: Err(why) };
        }
        let blank: bool = is_blank_url(place.url.as_str());
        let (show, evicted) = self.show_tab(id, blank, now, audible, pinned);
        Activation { hide, refresh, outcome: Ok(Stage { window_label: label, show, evicted }) }
    }

    /// Notes that a page has been made for the tab.
    pub fn page_created(&mut self, id: i32, now: u64)
        ensures
            final(self)@ == (Pool {
                tabs: old(self)@.tabs.insert(id, TabState::Live { last_active: now }),
                ..old(self)@
            }),
    {
        self.tabs.insert(id, TabState::Live { last_active: now });
    }

    /// The tabs that have been in the background for long enough to be put to sleep, in no
    /// particular order.
    pub fn suspend_idle(&self, audible: &Vec<i32>, pinned: &Vec<i32>, now: u64) -> (out: Vec<i32>)
        ensures
            out@.no_duplicates(),
            forall|id: i32| out@.contains(id) <==> is_idle(self@, audible@, pinned@, now, id),
    {
        let ids: Vec<i32> = self.loaded_tabs();
        let mut out: Vec<i32> = Vec::new();
        for i in 0..ids.len()
            invariant
                ids@.no_duplicates(),
                ids@.to_set() == loaded(self@.tabs),
                out@.no_duplicates(),
                forall|id: i32|
                    out@.contains(id) <==> is_idle(self@, audible@, pinned@, now, id) && ids@.take(
                        i as int,
                    ).contains(id),
        {
            let id: i32 = ids[i];
            proof {
                lemma_take_contains(ids@, i as int);
                assert(ids@.to_set().contains(id));
            }
            let is_active: bool = match self.active_tab_id {
                Some(a) => a == id,
                None => false,
            };
            let mut idle: bool = false;
            if let Some(TabState::Live { last_active }) = self.tabs.get(&id) {
                if !is_active && !has_id(audible, id) {
                    let limit: u64 = if has_id(pinned, id) {
                        PINNED_IDLE_LIMIT
                    } else {
                        IDLE_LIMIT
                    };
                    idle = now >= *last_active && now - *last_active > limit;
                }
            }
            assert(idle == is_idle(self@, audible@, pinned@, now, id));
            if idle {
                proof {
                    lemma_push_contains(out@, id);
                }
                out.push(id);
            }
        }
        assert(ids@.take(ids@.len() as int) =~= ids@);
        assert forall|id: i32| is_idle(self@, audible@, pinned@, now, id) implies out@.contains(
            id,
        ) by {
            assert(loaded(self@.tabs).contains(id));
            assert(ids@.to_set().contains(id));
        }
        out
    }

    /// The tabs of a window that may be put to sleep at once, in no particular order. `windows`
    /// says which window each tab is in.
    pub fn suspend_all(
        &self,
        windows: &Vec<(i32, i32)>,
        window_id: i32,
        audible: &Vec<i32>,
    ) -> (out: Vec<i32>)
        ensures
            out@.no_duplicates(),
            forall|id: i32|
                out@.contains(id) <==> may_sleep(self@, audible@, id) && window_of(windows@, id)
                    == window_id,
    {
        let ids: Vec<i32> = self.loaded_tabs();
        let mut out: Vec<i32> = Vec::new();
        for i in 0..ids.len()
            invariant
                ids@.no_duplicates(),
                ids@.to_set() == loaded(self@.tabs),
                out@.no_duplicates(),
                forall|id: i32|
                    out@.contains(id) <==> may_sleep(self@, audible@, id) && window_of(
                        windows@,
                        id,
                    ) == window_id && ids@.take(i as int).contains(id),
        {
            let id: i32 = ids[i];
            proof {
                lemma_take_contains(ids@, i as int);
                assert(ids@.to_set().contains(id));
            }
            let is_active: bool = match self.active_tab_id {
                Some(a) => a == id,
                None => false,
            };
            if self.is_live(id) && !is_active && !has_id(audible, id) && find_window(windows, id)
                == window_id {
                proof {
                    lemma_push_contains(out@, id);
                }
                out.push(id);
            }
        }
        assert(ids@.take(ids@.len() as int) =~= ids@);
        assert forall|id: i32| may_sleep(self@, audible@, id) implies ids@.contains(id) by {
            assert(loaded(self@.tabs).contains(id));
            assert(ids@.to_set().contains(id));
        }
        out
    }

    /// Notes whether the tab's page could be put to sleep; if not, it runs on.
    pub fn suspend_finished(&mut self, id: i32, suspended: bool)
        ensures
            final(self)@ == (Pool {
                tabs: if suspended && old(self)@.tabs.contains_key(id) && old(
                    self,
                )@.tabs[id] is Live {
                    old(self)@.tabs.insert(
                        id,
                        TabState::Suspended { last_active: old(self)@.tabs[id]->Live_last_active },
                    )
                } else {
                    old(self)@.tabs
                },
                ..old(self)@
            }),
    {
        if !suspended {
            return;
        }
        let state: TabState = match self.tabs.get(&id) {
            Some(s) => *s,
            None => TabState::Cold,
        };
        if let TabState::Live { last_active } = state {
            self.tabs.insert(id, TabState::Suspended { last_active });
        }
    }

    /// The tabs with a page, each with a word for its state, in no particular order.
    pub fn loaded_states(&self) -> (out: Vec<(i32, &'static str)>)
        ensures
            out@.map_values(|e: (i32, &'static str)| e.0).no_duplicates(),
            out@.map_values(|e: (i32, &'static str)| e.0).to_set() == loaded(self@.tabs),
            forall|i: int|
                0 <= i < out@.len() ==> (#[trigger] out@[i]).1@ == state_word(
                    self@.tabs[out@[i].0],
                ),
    {
        let ids: Vec<i32> = self.loaded_tabs();
        let mut out: Vec<(i32, &'static str)> = Vec::new();
        for i in 0..ids.len()
            invariant
                ids@.to_set() == loaded(self@.tabs),
                out@.len() == i,
                forall|j: int|
                    0 <= j < i ==> (#[trigger] out@[j]).0 == ids@[j] && out@[j].1@ == state_word(
                        self@.tabs[ids@[j]],
                    ),
        {
            let id: i32 = ids[i];
            assert(ids@.to_set().contains(id));
            let word: &'static str = if self.is_live(id) {
                "live"
            } else {
                "suspended"
            };
            out.push((id, word));
        }
        assert(out@.map_values(|e: (i32, &'static str)| e.0) =~= ids@);
        out
    }

    /// The tab in front, where it has a page that can be told something.
    pub fn with_active_view(&self) -> (out: Result<i32, String>)
        ensures
            match (self@.active, out) {
                (None, Err(e)) => e@ == "No active tab"@,
                (Some(id), Err(e)) => !loaded(self@.tabs).contains(id) && e@
                    == "Active tab has no live view"@,
                (Some(id), Ok(x)) => x == id && loaded(self@.tabs).contains(id),
                (None, Ok(_)) => false,
            },
    {
        match self.active_tab_id {
            None => Err("No active tab".to_owned()),
            Some(id) => if self.is_loaded(id) {
                Ok(id)
            } else {
                Err("Active tab has no live view".to_owned())
            },
        }
    }

    /// Sends a tab of the pool to an address.
    pub fn navigate_tab(&mut self, id: i32, url: &str) -> (out: Result<Navigation, String>)
        ensures
            match out {
                Err(e) => {
                    &&& !old(self)@.tabs.contains_key(id)
                    &&& e@ == "Tab not found"@
                    &&& final(self)@ == old(self)@
                },
                Ok(n) => {
                    &&& old(self)@.tabs.contains_key(id)
                    &&& n == if !loaded(old(self)@.tabs).contains(id) {
                        Navigation::Load
                    } else if is_blank(url@) {
                        Navigation::Close
                    } else {
                        Navigation::InPlace
                    }
                    &&& final(self)@ == if n == Navigation::Close {
                        Pool { tabs: old(self)@.tabs.insert(id, TabState::Cold), ..old(self)@ }
                    } else {
                        old(self)@
                    }
                },
            },
    {
        if !self.tabs.contains_key(&id) {
            return Err("Tab not found".to_owned());
        }
        if !self.is_loaded(id) {
            return Ok(Navigation::Load);
        }
        if is_blank_url(url) {
            self.tabs.insert(id, TabState::Cold);
            Ok(Navigation::Close)
        } else {
            Ok(Navigation::InPlace)
        }
    }
}

// ---- what holds of the pool as a whole ----

/// Only background tabs that make no sound and are not pinned ever lose their page to make room;
/// they keep their place in the pool, and every other tab is left as it was.
pub proof fn law_room_spares(
    before: Map<i32, TabState>,
    active: Option<i32>,
    audible: Seq<i32>,
    pinned: Seq<i32>,
    ids: Seq<i32>,
    after: Map<i32, TabState>,
)
    requires
        makes_room(before, active, audible, pinned, ids, after),
    ensures
        forall|id: i32| #[trigger]
            ids.contains(id) ==> evictable(before, active, audible, pinned, id) && after[id]
                == TabState::Cold,
        forall|id: i32| !ids.contains(id) ==> #[trigger] after[id] == before[id],
        after.dom() == before.dom(),
        loaded(after).len() < MAX_LOADED || none_evictable(after, active, audible, pinned),
    decreases ids.len(),
{
    if ids.len() > 0 {
        let next = before.insert(ids[0], TabState::Cold);
        let rest = ids.skip(1);
        law_room_spares(next, active, audible, pinned, rest, after);
        assert(after.dom() =~= before.dom());
        assert forall|id: i32| #[trigger] ids.contains(id) implies evictable(
            before,
            active,
            audible,
            pinned,
            id,
        ) && after[id] == TabState::Cold by {
            let k = ids.index_of(id);
            if rest.contains(id) {
                assert(evictable(next, active, audible, pinned, id));
            } else if k > 0 {
                assert(rest[k - 1] == id);
            } else {
                assert(after[id] == next[id]);
            }
        }
        assert forall|id: i32| !ids.contains(id) implies #[trigger] after[id] == before[id] by {
            if rest.contains(id) {
                let k = rest.index_of(id);
                assert(ids[k + 1] == id);
            }
            assert(ids[0] != id);
            assert(after[id] == next[id]);
        }
    }
}

/// Once room has been made and the tab in front has got its page, no more than five tabs have
/// one, unless no further tab may lose its page.
pub proof fn law_page_limit(
    before: Map<i32, TabState>,
    id: i32,
    audible: Seq<i32>,
    pinned: Seq<i32>,
    ids: Seq<i32>,
    after: Map<i32, TabState>,
    now: u64,
)
    requires
        before.dom().finite(),
        makes_room(before, Some(id), audible, pinned, ids, after),
    ensures
        loaded(after.insert(id, TabState::Live { last_active: now })).len() <= MAX_LOADED
            || none_evictable(after, Some(id), audible, pinned),
{
    law_room_spares(before, Some(id), audible, pinned, ids, after);
    let full = after.insert(id, TabState::Live { last_active: now });
    assert(loaded(after).subset_of(after.dom()));
    vstd::set_lib::lemma_set_subset_finite(after.dom(), loaded(after));
    assert(loaded(full) =~= loaded(after).insert(id));
}

/// Where a number stands once in a list, dropping it takes out that one place.
proof fn lemma_without_at(s: Seq<i32>, k: int)
    requires
        s.no_duplicates(),
        0 <= k < s.len(),
    ensures
        without(s, s[k]) == s.remove(k),
    decreases s.len(),
{
    reveal(Seq::filter);
    let front = s.drop_last();
    let x = s[k];
    if k == s.len() - 1 {
        assert forall|i: int| 0 <= i < front.len() implies front[i] != x by {}
        lemma_without_absent(front, x);
        assert(s.remove(k) =~= front);
    } else {
        assert(front[k] == x);
        lemma_without_at(front, k);
        assert(s.last() != x);
        assert(s.remove(k) =~= front.remove(k).push(s.last()));
    }
}

proof fn lemma_without_absent(s: Seq<i32>, x: i32)
    requires
        forall|i: int| 0 <= i < s.len() ==> s[i] != x,
    ensures
        without(s, x) == s,
    decreases s.len(),
{
    reveal(Seq::filter);
    if s.len() > 0 {
        lemma_without_absent(s.drop_last(), x);
        assert(s.last() != x);
        assert(s =~= s.drop_last().push(s.last()));
    }
}

/// Switching to the tab used before and then once more comes back to the first one.
pub proof fn law_switch_back(mru: Seq<i32>)
    requires
        mru.no_duplicates(),
        mru.len() >= 2,
    ensures
        touched(mru, mru[1])[0] == mru[1],
        touched(mru, mru[1])[1] == mru[0],
        touched(touched(mru, mru[1]), mru[0]) == mru,
{
    reveal(touched);
    lemma_without_at(mru, 1);
    let t = touched(mru, mru[1]);
    assert(t =~= seq![mru[1]] + mru.remove(1));
    assert(t[1] == mru[0]);
    assert forall|a: int, b: int| 0 <= a < b < t.len() implies t[a] != t[b] by {
        let a2 = if a == 0 {
            1int
        } else if a == 1 {
            0int
        } else {
            a
        };
        let b2 = if b == 1 {
            0int
        } else {
            b
        };
        assert(t[a] == mru[a2]);
        assert(t[b] == mru[b2]);
    }
    lemma_without_at(t, 1);
    assert(touched(t, mru[0]) =~= mru);
}

/// Tabs in the order in which they were last brought to the front, the present one first, each one
/// once, and none besides those that were.
pub open spec fn by_last_use(mru: Seq<i32>, ids: Seq<i32>) -> bool {
    &&& mru.no_duplicates()
    &&& forall|x: i32| #[trigger] mru.contains(x) <==> ids.contains(x)
    &&& forall|i: int, j: int|
        0 <= i < j < mru.len() ==> last_use(ids, #[trigger] mru[i]) > last_use(
            ids,
            #[trigger] mru[j],
        )
}

proof fn lemma_last_use(ids: Seq<i32>, id: i32)
    ensures
        -1 <= last_use(ids, id) < ids.len(),
    decreases ids.len(),
{
    if ids.len() > 0 {
        lemma_last_use(ids.drop_last(), id);
    }
}

/// Dropping a number keeps the others in the order of their turns.
proof fn lemma_without_turns(s: Seq<i32>, x: i32, ids: Seq<i32>)
    requires
        forall|i: int, j: int|
            0 <= i < j < s.len() ==> last_use(ids, #[trigger] s[i]) > last_use(
                ids,
                #[trigger] s[j],
            ),
    ensures
        forall|i: int, j: int|
            0 <= i < j < without(s, x).len() ==> last_use(ids, #[trigger] without(s, x)[i])
                > last_use(ids, #[trigger] without(s, x)[j]),
    decreases s.len(),
{
    if s.len() > 0 {
        let front = s.drop_last();
        let n = s.len() - 1;
        assert forall|i: int, j: int| 0 <= i < j < front.len() implies last_use(
            ids,
            #[trigger] front[i],
        ) > last_use(ids, #[trigger] front[j]) by {
            assert(s[i] == front[i] && s[j] == front[j]);
        }
        lemma_without_turns(front, x, ids);
        lemma_without(front, x);
        let f = without(front, x);
        let g = without(s, x);
        assert(g == if s.last() != x {
            f.push(s.last())
        } else {
            f
        }) by {
            reveal(Seq::filter);
        }
        assert forall|i: int, j: int| 0 <= i < j < g.len() implies last_use(ids, #[trigger] g[i])
            > last_use(ids, #[trigger] g[j]) by {
            assert(f[i] == g[i]);
            if j < f.len() {
                assert(f[j] == g[j]);
            } else {
                assert(f.contains(f[i]));
                assert(f[i] != x);
                assert(front.contains(f[i]));
                let k = front.index_of(f[i]);
                assert(s[k] == f[i]);
                assert(last_use(ids, s[k]) > last_use(ids, s[n]));
            }
        }
    }
}

/// Bringing one more tab to the front keeps the order.
proof fn lemma_touched_turns(before: Seq<i32>, front: Seq<i32>, x: i32)
    requires
        by_last_use(before, front),
    ensures
        by_last_use(touched(before, x), front.push(x)),
{
    let ids = front.push(x);
    let t = touched(before, x);
    let rest = without(before, x);
    assert(t.len() == rest.len() + 1 && t[0] == x && forall|i: int|
        0 < i < t.len() ==> #[trigger] t[i] == rest[i - 1]) by {
        reveal(touched);
    }
    assert(ids.drop_last() =~= front);
    assert(last_use(ids, x) == front.len());
    lemma_without(before, x);
    lemma_without_turns(before, x, front);
    assert forall|i: int| 0 < i < t.len() implies #[trigger] t[i] != x && last_use(ids, t[i])
        == last_use(front, rest[i - 1]) && last_use(ids, t[i]) < front.len() by {
        assert(rest.contains(rest[i - 1]));
        lemma_last_use(front, rest[i - 1]);
    }
    assert forall|i: int, j: int| 0 <= i < j < t.len() implies last_use(ids, #[trigger] t[i])
        > last_use(ids, #[trigger] t[j]) by {
        if i > 0 {
            assert(last_use(front, rest[i - 1]) > last_use(front, rest[j - 1]));
        }
    }
    assert forall|a: int, b: int| 0 <= a < b < t.len() implies t[a] != t[b] by {
        assert(last_use(ids, t[a]) > last_use(ids, t[b]));
    }
    assert forall|y: i32| #[trigger] t.contains(y) <==> ids.contains(y) by {
        assert(ids[front.len() as int] == x);
        if y != x {
            assert(rest.contains(y) <==> before.contains(y));
            assert(before.contains(y) <==> front.contains(y));
            if t.contains(y) {
                let k = t.index_of(y);
                assert(rest[k - 1] == y);
                let m = front.index_of(y);
                assert(ids[m] == y);
            }
            if ids.contains(y) {
                let m = ids.index_of(y);
                assert(front[m] == y);
                let k = rest.index_of(y);
                assert(t[k + 1] == y);
            }
        }
    }
}

/// The tabs are listed by when they were last brought to the front.
pub proof fn law_most_recent_first(ids: Seq<i32>)
    ensures
        by_last_use(used_in_turn(seq![], ids), ids),
    decreases ids.len(),
{
    if ids.len() > 0 {
        law_most_recent_first(ids.drop_last());
        lemma_touched_turns(used_in_turn(seq![], ids.drop_last()), ids.drop_last(), ids.last());
        assert(ids.drop_last().push(ids.last()) =~= ids);
    } else {
        assert forall|x: i32| #[trigger] used_in_turn(seq![], ids).contains(x) <==> ids.contains(
            x,
        ) by {}
    }
}

/// After three different tabs were brought to the front, one after the other, switching forward
/// leads to the one before the last. Where no other tab was ever brought to the front, switching
/// backward leads to the first of them.
pub proof fn law_switch_targets(ids: Seq<i32>, a: i32, b: i32, c: i32)
    requires
        a != b,
        b != c,
        a != c,
    ensures
        switch_target(used_in_turn(seq![], ids.push(a).push(b).push(c)), true) == Some(b),
        (forall|i: int|
            0 <= i < ids.len() ==> #[trigger] ids[i] == a || ids[i] == b || ids[i] == c)
            ==> switch_target(used_in_turn(seq![], ids.push(a).push(b).push(c)), false) == Some(a),
{
    let n = ids.len() as int;
    let one = ids.push(a);
    let two = one.push(b);
    let all = two.push(c);
    let t = used_in_turn(seq![], all);
    law_most_recent_first(all);
    assert(one.drop_last() =~= ids);
    assert(two.drop_last() =~= one);
    assert(all.drop_last() =~= two);
    assert(last_use(all, c) == n + 2);
    assert(last_use(two, b) == n + 1);
    assert(last_use(all, b) == n + 1);
    assert(last_use(one, a) == n);
    assert(last_use(two, a) == n);
    assert(last_use(all, a) == n);
    assert(all[n] == a && all[n + 1] == b && all[n + 2] == c);
    assert(t.contains(a) && t.contains(b) && t.contains(c));
    let pa = t.index_of(a);
    let pb = t.index_of(b);
    let pc = t.index_of(c);
    assert(t[pa] == a && t[pb] == b && t[pc] == c);
    assert forall|i: int| 0 <= i < t.len() implies last_use(all, #[trigger] t[i]) < n + 3 by {
        lemma_last_use(all, t[i]);
    }
    if pc > 0 {
        assert(last_use(all, t[0]) > last_use(all, t[pc]));
    }
    if pb > 1 {
        assert(last_use(all, t[0]) > last_use(all, t[1]));
        assert(last_use(all, t[1]) > last_use(all, t[pb]));
    }
    if pa > 2 {
        assert(last_use(all, t[1]) > last_use(all, t[2]));
        assert(last_use(all, t[2]) > last_use(all, t[pa]));
    }
    assert(pc == 0 && pb == 1 && pa == 2);
    if forall|i: int| 0 <= i < ids.len() ==> #[trigger] ids[i] == a || ids[i] == b || ids[i] == c {
        if t.len() > 3 {
            let x = t[3];
            assert(t.contains(x));
            assert(all.contains(x));
            let k = all.index_of(x);
            assert(all[k] == x);
            if k < n {
                assert(ids[k] == x);
            }
            assert(t[3] != t[0] && t[3] != t[1] && t[3] != t[2]);
        }
    }
}

/// Where fewer than two tabs were brought to the front, there is none to switch to, however often
/// the one was.
pub proof fn law_nothing_to_switch_to(ids: Seq<i32>, a: i32, forward: bool)
    requires
        forall|i: int| 0 <= i < ids.len() ==> #[trigger] ids[i] == a,
    ensures
        switch_target(used_in_turn(seq![], ids), forward) is None,
{
    let t = used_in_turn(seq![], ids);
    law_most_recent_first(ids);
    if t.len() >= 2 {
        assert(t.contains(t[0]) && t.contains(t[1]));
        let i = ids.index_of(t[0]);
        let j = ids.index_of(t[1]);
        assert(ids.contains(t[0]) && ids.contains(t[1]));
        assert(ids[i] == t[0] && ids[j] == t[1]);
        assert(t[0] != t[1]);
    }
}

// ---- single tabs ----

/// The tab in front, tabs that make sound, pinned tabs and tabs without a page never lose a page;
/// any other tab with a page may.
pub proof fn law_evictable(
    tabs: Map<i32, TabState>,
    active: Option<i32>,
    audible: Seq<i32>,
    pinned: Seq<i32>,
    id: i32,
)
    ensures
        active == Some(id) || audible.contains(id) || pinned.contains(id) || !tabs.contains_key(id)
            || tabs[id] == TabState::Cold ==> !evictable(tabs, active, audible, pinned, id),
        active != Some(id) && !audible.contains(id) && !pinned.contains(id) && tabs.contains_key(id)
            && tabs[id] != TabState::Cold ==> evictable(tabs, active, audible, pinned, id),
{
}

/// When a tab with a page was last in front, whether it runs or sleeps.
pub open spec fn was_used(s: TabState, at: u64) -> bool {
    s == (TabState::Live { last_active: at }) || s == (TabState::Suspended { last_active: at })
}

/// The tab that loses its page was used no later than any other that may lose it, whether they run
/// or sleep.
pub proof fn law_victim_oldest(
    tabs: Map<i32, TabState>,
    active: Option<i32>,
    audible: Seq<i32>,
    pinned: Seq<i32>,
    victim: i32,
    other: i32,
    at: u64,
    then: u64,
)
    requires
        is_victim(tabs, active, audible, pinned, victim),
        evictable(tabs, active, audible, pinned, other),
        was_used(tabs[victim], at),
        was_used(tabs[other], then),
    ensures
        at <= then,
{
}

/// Room is made only where five tabs or more have a page, and until fewer than five have one.
pub proof fn law_five_pages(
    before: Map<i32, TabState>,
    active: Option<i32>,
    audible: Seq<i32>,
    pinned: Seq<i32>,
    ids: Seq<i32>,
    after: Map<i32, TabState>,
)
    requires
        before.dom().finite(),
        makes_room(before, active, audible, pinned, ids, after),
    ensures
        loaded(before).len() < 5 ==> ids.len() == 0 && after == before,
        loaded(before).len() >= 5 && ids.len() > 0 ==> loaded(after).len() >= 4,
        loaded(after).len() < 5 || forall|id: i32| !#[trigger] evictable(
            after,
            active,
            audible,
            pinned,
            id,
        ),
    decreases ids.len(),
{
    law_room_spares(before, active, audible, pinned, ids, after);
    if ids.len() > 0 {
        let next = before.insert(ids[0], TabState::Cold);
        lemma_cold(before, ids[0]);
        assert(loaded(before).subset_of(before.dom()));
        vstd::set_lib::lemma_set_subset_finite(before.dom(), loaded(before));
        assert(loaded(before).contains(ids[0]));
        assert(next.dom().finite());
        law_five_pages(next, active, audible, pinned, ids.skip(1), after);
    }
}

/// A tab goes to sleep five minutes after it was last in front, a pinned one after thirty; never
/// the tab in front or one that makes sound, and none whose page does not run.
pub proof fn law_idle(
    p: Pool,
    audible: Seq<i32>,
    pinned: Seq<i32>,
    now: u64,
    id: i32,
    at: u64,
)
    ensures
        p.active == Some(id) || audible.contains(id) || !p.tabs.contains_key(id) ==> !is_idle(
            p,
            audible,
            pinned,
            now,
            id,
        ),
        p.tabs.contains_key(id) && !(p.tabs[id] is Live) ==> !is_idle(p, audible, pinned, now, id),
        p.active != Some(id) && !audible.contains(id) && p.tabs.contains_key(id) && p.tabs[id] == (
        TabState::Live { last_active: at }) && !pinned.contains(id) ==> (is_idle(
            p,
            audible,
            pinned,
            now,
            id,
        ) <==> now - at > 300 * 1_000_000_000),
        p.active != Some(id) && !audible.contains(id) && p.tabs.contains_key(id) && p.tabs[id] == (
        TabState::Live { last_active: at }) && pinned.contains(id) ==> (is_idle(
            p,
            audible,
            pinned,
            now,
            id,
        ) <==> now - at > 1800 * 1_000_000_000),
{
}

/// All tabs of a window whose pages run may be put to sleep at once, but for the one in front and
/// those that make sound.
pub proof fn law_may_sleep(p: Pool, audible: Seq<i32>, id: i32)
    ensures
        may_sleep(p, audible, id) <==> p.tabs.contains_key(id) && p.tabs[id] is Live && p.active
            != Some(id) && !audible.contains(id),
{
}

/// The window of a tab is the one that the first entry for it names; without one it is 0.
pub proof fn law_window_of(windows: Seq<(i32, i32)>, id: i32, k: int)
    requires
        0 <= k <= windows.len(),
        forall|i: int| 0 <= i < k ==> (#[trigger] windows[i]).0 != id,
        k < windows.len() ==> windows[k].0 == id,
    ensures
        k < windows.len() ==> window_of(windows, id) == windows[k].1,
        k == windows.len() ==> window_of(windows, id) == 0,
    decreases windows.len(),
{
    if k > 0 {
        let rest = windows.skip(1);
        assert forall|i: int| 0 <= i < k - 1 implies (#[trigger] rest[i]).0 != id by {
            assert(rest[i] == windows[i + 1]);
        }
        assert(windows[0].0 != id);
        law_window_of(rest, id, k - 1);
    }
}

/// An address of the web shows something.
pub proof fn law_blank(rest: Seq<char>)
    ensures
        is_blank(seq![]),
        is_blank("about:blank"@),
        rest.len() > 0 && rest[0] != 'a' ==> !is_blank(rest),
        rest.len() > 0 && rest.len() != 11 ==> !is_blank(rest),
{
    reveal_strlit("about:blank");
}

/// A tab that is wanted in front is the active one and the most recently used one, whatever it was
/// before; it is in the pool, and no other tab changes.
pub proof fn law_wanted(p: Pool, id: i32, other: i32)
    ensures
        wanted(p, id).active == Some(id),
        wanted(p, id).mru.len() > 0 && wanted(p, id).mru[0] == id,
        wanted(p, id).tabs.contains_key(id),
        p.tabs.contains_key(id) ==> wanted(p, id).tabs[id] == p.tabs[id],
        !p.tabs.contains_key(id) ==> wanted(p, id).tabs[id] == TabState::Cold,
        other != id ==> (wanted(p, id).tabs.contains_key(other) <==> p.tabs.contains_key(other)),
        other != id && p.tabs.contains_key(other) ==> wanted(p, id).tabs[other] == p.tabs[other],
        other != id ==> (wanted(p, id).mru.contains(other) <==> p.mru.contains(other)),
{
    reveal(touched);
    lemma_without(p.mru, id);
    let rest = without(p.mru, id);
    let t = touched(p.mru, id);
    if other != id {
        assert(rest.contains(other) <==> p.mru.contains(other));
        if rest.contains(other) {
            let k = rest.index_of(other);
            assert(t[k + 1] == other);
        }
        if t.contains(other) {
            let k = t.index_of(other);
            assert(rest[k - 1] == other);
        }
    }
}

/// The tab that was in front has its place noted where it has a page and is not the one that comes
/// to the front.
pub proof fn law_leaving(p: Pool, id: i32, a: i32)
    ensures
        p.active is None ==> leaving(p, id) is None,
        p.active == Some(id) ==> leaving(p, id) is None,
        p.active == Some(a) && a != id && p.tabs.contains_key(a) && p.tabs[a] != TabState::Cold
            ==> leaving(p, id) == Some(a),
        p.active == Some(a) && (!p.tabs.contains_key(a) || p.tabs[a] == TabState::Cold) ==> leaving(
            p,
            id,
        ) is None,
{
}

/// A page that runs is shown, one that sleeps is woken, and one is made where there is none; an
/// empty tab shows no page at all.
pub proof fn law_way_to_show(at: u64, state: TabState)
    ensures
        way_to_show(TabState::Live { last_active: at }, false) == Show::Existing,
        way_to_show(TabState::Suspended { last_active: at }, false) == Show::Resume,
        way_to_show(TabState::Cold, false) == Show::Create,
        way_to_show(state, true) == Show::Blank,
{
}

/// Bringing a tab to the front that has a page leaves every other tab as it was, and counts as its
/// use; an empty tab gives its page up.
pub proof fn law_shown(
    p: Pool,
    id: i32,
    blank: bool,
    now: u64,
    audible: Seq<i32>,
    pinned: Seq<i32>,
    evicted: Seq<i32>,
    after: Pool,
    other: i32,
)
    requires
        shown(p, id, blank, now, audible, pinned, evicted, after),
        p.tabs.contains_key(id),
    ensures
        after.active == p.active,
        after.mru == p.mru,
        blank ==> after.tabs[id] == TabState::Cold && evicted.len() == 0,
        !blank && p.tabs[id] != TabState::Cold ==> after.tabs[id] == (TabState::Live {
            last_active: now,
        }) && evicted.len() == 0,
        other != id && (blank || p.tabs[id] != TabState::Cold) ==> (after.tabs.contains_key(other)
            <==> p.tabs.contains_key(other)) && (p.tabs.contains_key(other) ==> after.tabs[other]
            == p.tabs[other]),
{
}

} // verus!
