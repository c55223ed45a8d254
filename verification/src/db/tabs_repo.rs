//! Which rows of a growing list are given up, and which of them comes back first.

use vstd::prelude::*;
use crate::ipc_types::Tab;
use crate::rank;

verus! {

/// How many closed tabs of a window can be opened again.
pub const CLOSED_TABS_KEPT: usize = 25;

/// How many past sessions are kept.
pub const SESSIONS_KEPT: usize = 5;

/// The numbers of the rows as keys of a ranking.
pub open spec fn row_keys(ids: Seq<i32>) -> Seq<i64> {
    ids.map_values(|id: i32| id as i64)
}

/// The rows that are given up where only the `keep` latest, those with the highest numbers, stay;
/// the latest first.
pub open spec fn surplus(ids: Seq<i32>, keep: nat) -> Seq<i32> {
    let order = rank::ranking(row_keys(ids), ids.len() as int);
    if keep < order.len() {
        order.skip(keep as int).map_values(|i: int| ids[i])
    } else {
        seq![]
    }
}

/// The rows that are given up where only the `keep` latest stay.
pub fn rows_to_drop(ids: &Vec<i32>, keep: usize) -> (out: Vec<i32>)
    ensures
        out@ == surplus(ids@, keep as nat),
{
    let mut keys: Vec<i64> = Vec::new();
    for i in 0..ids.len()
        invariant
            keys@.len() == i,
            forall|j: int| 0 <= j < i ==> #[trigger] keys@[j] == ids@[j],
    {
        keys.push(ids[i] as i64);
    }
    assert(keys@ =~= row_keys(ids@));
    let order: Vec<usize> = rank::rank(&keys);
    let ghost all = rank::ranking(row_keys(ids@), ids@.len() as int);
    proof {
        rank::law_ranking(keys@, keys@.len() as int);
    }
    let mut out: Vec<i32> = Vec::new();
    if keep < order.len() {
        for i in keep..order.len()
            invariant
                keep <= i <= order@.len(),
                all.len() == order@.len(),
                keys@.len() == ids@.len(),
                forall|j: int| 0 <= j < order@.len() ==> #[trigger] all[j] == order@[j],
                forall|j: int| 0 <= j < order@.len() ==> #[trigger] order@[j] < keys@.len(),
                out@.len() == i - keep,
                forall|j: int| 0 <= j < i - keep ==> #[trigger] out@[j] == ids@[all[j + keep]],
        {
            let k: usize = order[i];
            assert(all[i as int] == k);
            out.push(ids[k]);
        }
        assert(out@ =~= all.skip(keep as int).map_values(|i: int| ids@[i]));
    }
    out
}

/// The rows of a window's closed tabs that are given up after one more tab was closed.
pub fn push_closed_tab(ids: &Vec<i32>) -> (out: Vec<i32>)
    ensures
        out@ == surplus(ids@, CLOSED_TABS_KEPT as nat),
{
    rows_to_drop(ids, CLOSED_TABS_KEPT)
}

/// The latest of a number of rows: the one with the highest number.
pub open spec fn latest(ids: Seq<i32>) -> Option<i32>
    decreases ids.len(),
{
    if ids.len() == 0 {
        None
    } else {
        match latest(ids.drop_last()) {
            Some(id) if id >= ids.last() => Some(id),
            _ => Some(ids.last()),
        }
    }
}

/// The row of the tab that is opened again: the one that was closed last.
pub fn pop_closed_tab(ids: &Vec<i32>) -> (out: Option<i32>)
    ensures
        out == latest(ids@),
{
    let mut out: Option<i32> = None;
    for i in 0..ids.len()
        invariant
            out == latest(ids@.take(i as int)),
    {
        assert(ids@.take(i + 1).drop_last() =~= ids@.take(i as int));
        let id: i32 = ids[i];
        out = match out {
            Some(best) if best >= id => Some(best),
            _ => Some(id),
        };
    }
    assert(ids@.take(ids@.len() as int) =~= ids@);
    out
}

proof fn lemma_latest(ids: Seq<i32>)
    ensures
        match latest(ids) {
            Some(id) => ids.contains(id) && forall|i: int|
                0 <= i < ids.len() ==> #[trigger] ids[i] <= id,
            None => ids.len() == 0,
        },
    decreases ids.len(),
{
    if ids.len() > 0 {
        let front = ids.drop_last();
        lemma_latest(front);
        assert(ids[ids.len() - 1] == ids.last());
        assert forall|i: int| 0 <= i < ids.len() implies #[trigger] ids[i] <= latest(ids)->0 by {
            if i < front.len() {
                assert(front[i] == ids[i]);
            }
        }
        if let Some(id) = latest(front) {
            let k = front.index_of(id);
            assert(ids[k] == id);
        }
    }
}

/// The tab that was closed last is never given up, and it is the one that is opened again.
pub proof fn law_last_closed_comes_back(ids: Seq<i32>, id: i32)
    requires
        ids.no_duplicates(),
        forall|i: int| 0 <= i < ids.len() ==> #[trigger] ids[i] < id,
    ensures
        latest(ids.push(id)) == Some(id),
        !surplus(ids.push(id), CLOSED_TABS_KEPT as nat).contains(id),
{
    let all = ids.push(id);
    lemma_latest(all);
    assert(all[all.len() - 1] == id);
    assert(all.no_duplicates());
    let s = surplus(all, CLOSED_TABS_KEPT as nat);
    let keys = row_keys(all);
    let n = all.len() as int;
    let order = rank::ranking(keys, n);
    rank::law_ranking(keys, n);
    if s.contains(id) {
        let i = s.index_of(id);
        assert(s[i] == all[order[i + CLOSED_TABS_KEPT]]);
        assert(keys[order[0]] >= keys[order[i + CLOSED_TABS_KEPT]]);
        assert(all[order[0]] == keys[order[0]]);
        assert(order[0] == n - 1);
        assert(order[i + CLOSED_TABS_KEPT] == n - 1);
    }
}

/// Of a list that is trimmed after each row, never more than `keep` rows stay, and those that
/// are given up are older than those that stay.
pub proof fn law_trimmed(ids: Seq<i32>, keep: nat)
    requires
        ids.no_duplicates(),
    ensures
        surplus(ids, keep).len() == if keep < ids.len() {
            ids.len() - keep
        } else {
            0
        },
        forall|i: int, j: int|
            0 <= i < surplus(ids, keep).len() && 0 <= j < ids.len() && !surplus(
                ids,
                keep,
            ).contains(ids[j]) ==> #[trigger] surplus(ids, keep)[i] < #[trigger] ids[j],
{
    let keys = row_keys(ids);
    let n = ids.len() as int;
    let order = rank::ranking(keys, n);
    rank::law_ranking(keys, n);
    let s = surplus(ids, keep);
    assert forall|i: int, j: int|
        0 <= i < s.len() && 0 <= j < n && !s.contains(ids[j]) implies #[trigger] s[i]
        < #[trigger] ids[j] by {
        let a = order[i + keep];
        rank::lemma_onto(order, n, j);
        let p = order.index_of(j);
        assert(order[p] == j);
        if p >= keep {
            assert(s[p - keep] == ids[j]);
        } else {
            assert(keys[order[p]] >= keys[order[i + keep]]);
            if ids[j] == ids[a] {
                assert(j == a);
                assert(order[p] == order[i + keep]);
            }
        }
    }
}

// ---- the closed tabs on record ----

/// Rows of closed tabs, each with its number and the tab as it was when it was closed. Every row
/// has a higher number than those that came on record before it.
pub open spec fn numbered(rows: Seq<(i32, Tab)>) -> bool {
    forall|i: int, j: int|
        0 <= i < j < rows.len() ==> (#[trigger] rows[i]).0 < (#[trigger] rows[j]).0
}

/// The rows of a window.
pub open spec fn rows_of(rows: Seq<(i32, Tab)>, window_id: i32) -> Seq<(i32, Tab)> {
    rows.filter(|r: (i32, Tab)| r.1.window_id == window_id)
}

/// The numbers of rows.
pub open spec fn numbers(rows: Seq<(i32, Tab)>) -> Seq<i32> {
    rows.map_values(|r: (i32, Tab)| r.0)
}

/// The closed tabs of a window, the latest last.
pub open spec fn stack(rows: Seq<(i32, Tab)>, window_id: i32) -> Seq<Tab> {
    rows_of(rows, window_id).map_values(|r: (i32, Tab)| r.1)
}

/// The rows once a tab was closed: it has come on record, and the rows of its window that are
/// given up have gone.
pub open spec fn after_push(rows: Seq<(i32, Tab)>, id: i32, tab: Tab) -> Seq<(i32, Tab)> {
    let all = rows.push((id, tab));
    let gone = surplus(numbers(rows_of(all, tab.window_id)), CLOSED_TABS_KEPT as nat);
    all.filter(|r: (i32, Tab)| !gone.contains(r.0))
}

/// The tab of a window that is opened again.
pub open spec fn popped(rows: Seq<(i32, Tab)>, window_id: i32) -> Option<Tab> {
    match latest(numbers(rows_of(rows, window_id))) {
        Some(id) => Some(rows[numbers(rows).index_of(id)].1),
        None => None,
    }
}

/// The rows once a tab of the window was opened again.
pub open spec fn after_pop(rows: Seq<(i32, Tab)>, window_id: i32) -> Seq<(i32, Tab)> {
    match latest(numbers(rows_of(rows, window_id))) {
        Some(id) => rows.filter(|r: (i32, Tab)| r.0 != id),
        None => rows,
    }
}

/// The last of a number of tabs, `keep` of them at most.
pub open spec fn newest(tabs: Seq<Tab>, keep: nat) -> Seq<Tab> {
    if tabs.len() > keep {
        tabs.skip(tabs.len() - keep)
    } else {
        tabs
    }
}

/// The rows once several tabs were closed, one after the other.
pub open spec fn after_pushes(rows: Seq<(i32, Tab)>, closed: Seq<(i32, Tab)>) -> Seq<(i32, Tab)>
    decreases closed.len(),
{
    if closed.len() == 0 {
        rows
    } else {
        after_push(after_pushes(rows, closed.drop_last()), closed.last().0, closed.last().1)
    }
}

/// The rows once tabs of the window were opened again `k` times.
pub open spec fn after_pops(rows: Seq<(i32, Tab)>, window_id: i32, k: nat) -> Seq<(i32, Tab)>
    decreases k,
{
    if k == 0 {
        rows
    } else {
        after_pop(after_pops(rows, window_id, (k - 1) as nat), window_id)
    }
}

/// A tab that is closed comes on top of the closed tabs of its window, of which the latest stay.
/// The closed tabs of other windows stay as they are.
pub proof fn law_push(rows: Seq<(i32, Tab)>, id: i32, tab: Tab)
    requires
        numbered(rows),
        forall|i: int| 0 <= i < rows.len() ==> (#[trigger] rows[i]).0 < id,
    ensures
        numbered(after_push(rows, id, tab)),
        forall|i: int|
            0 <= i < after_push(rows, id, tab).len() ==> (#[trigger] after_push(
                rows,
                id,
                tab,
            )[i]).0 <= id,
        stack(after_push(rows, id, tab), tab.window_id) == newest(
            stack(rows, tab.window_id).push(tab),
            CLOSED_TABS_KEPT as nat,
        ),
        forall|w: i32|
            w != tab.window_id ==> #[trigger] stack(after_push(rows, id, tab), w) == stack(rows, w),
{
    let all = rows.push((id, tab));
    let win = tab.window_id;
    let keep = CLOSED_TABS_KEPT as nat;
    let own = rows_of(all, win);
    let gone = surplus(numbers(own), keep);
    let stays = |r: (i32, Tab)| !gone.contains(r.0);
    lemma_part(all, stays);
    lemma_part(all, |r: (i32, Tab)| r.1.window_id == win);
    lemma_surplus(own, keep);
    lemma_twice(all, stays, |r: (i32, Tab)| r.1.window_id == win);
    reveal(Seq::filter);
    assert(all.drop_last() =~= rows);
    assert(own == rows_of(rows, win).push((id, tab)));
    assert(stack(all, win) =~= stack(rows, win).push(tab));
    if own.len() > keep {
        let k = own.len() - keep;
        lemma_tail(own, stays, k);
        assert(own.skip(k).map_values(|r: (i32, Tab)| r.1) =~= stack(all, win).skip(k));
    } else {
        lemma_tail(own, stays, 0);
        assert(own.skip(0) =~= own);
    }
    assert forall|w: i32| w != win implies #[trigger] stack(after_push(rows, id, tab), w) == stack(
        rows,
        w,
    ) by {
        let far = rows_of(all, w);
        lemma_part(all, |r: (i32, Tab)| r.1.window_id == w);
        lemma_twice(all, stays, |r: (i32, Tab)| r.1.window_id == w);
        assert forall|i: int| 0 <= i < far.len() implies stays(#[trigger] far[i]) by {
            if gone.contains(far[i].0) {
                let j = choose|j: int|
                    0 <= j < own.len() - keep && (#[trigger] own[j]).0 == far[i].0;
                lemma_same_row(all, own[j], far[i]);
            }
        }
        lemma_tail(far, stays, 0);
        assert(far.skip(0) =~= far);
        assert(far == rows_of(rows, w));
    }
}

/// The tab that is opened again is the one on top of the closed tabs of its window, which it
/// leaves; where there is none, nothing happens. The closed tabs of other windows stay as they
/// are.
pub proof fn law_pop(rows: Seq<(i32, Tab)>, window_id: i32)
    requires
        numbered(rows),
    ensures
        numbered(after_pop(rows, window_id)),
        popped(rows, window_id) == if stack(rows, window_id).len() == 0 {
            None
        } else {
            Some(stack(rows, window_id).last())
        },
        stack(rows, window_id).len() == 0 ==> after_pop(rows, window_id) == rows,
        stack(rows, window_id).len() > 0 ==> stack(after_pop(rows, window_id), window_id) == stack(
            rows,
            window_id,
        ).drop_last(),
        forall|w: i32|
            w != window_id ==> #[trigger] stack(after_pop(rows, window_id), w) == stack(rows, w),
{
    let own = rows_of(rows, window_id);
    lemma_part(rows, |r: (i32, Tab)| r.1.window_id == window_id);
    lemma_latest(numbers(own));
    if own.len() > 0 {
        let n = own.len() - 1;
        let top = own[n];
        let id = top.0;
        let best = latest(numbers(own))->0;
        let b = numbers(own).index_of(best);
        assert(numbers(own)[b] == best);
        assert(numbers(own)[n] == id);
        assert(best == id) by {
            if b < n {
                assert(own[b].0 < own[n].0);
            }
        }
        let p = rows.index_of(top);
        assert(rows.contains(top));
        assert(numbers(rows)[p] == id);
        let q = numbers(rows).index_of(id);
        assert(numbers(rows).contains(id));
        assert(rows[q].0 == id);
        lemma_same_row(rows, rows[q], top);
        let stays = |r: (i32, Tab)| r.0 != id;
        lemma_part(rows, stays);
        lemma_twice(rows, stays, |r: (i32, Tab)| r.1.window_id == window_id);
        assert(own.filter(stays) == own.drop_last()) by {
            reveal(Seq::filter);
            let front = own.drop_last();
            assert forall|i: int| 0 <= i < front.len() implies stays(#[trigger] front[i]) by {
                assert(own[i].0 < own[n].0);
            }
            lemma_tail(front, stays, 0);
            assert(front.skip(0) =~= front);
        }
        assert(stack(after_pop(rows, window_id), window_id) =~= stack(rows, window_id).drop_last());
        assert forall|w: i32| w != window_id implies #[trigger] stack(
            after_pop(rows, window_id),
            w,
        ) == stack(rows, w) by {
            let far = rows_of(rows, w);
            lemma_part(rows, |r: (i32, Tab)| r.1.window_id == w);
            lemma_twice(rows, stays, |r: (i32, Tab)| r.1.window_id == w);
            assert forall|i: int| 0 <= i < far.len() implies stays(#[trigger] far[i]) by {
                if far[i].0 == id {
                    lemma_same_row(rows, far[i], top);
                }
            }
            lemma_tail(far, stays, 0);
            assert(far.skip(0) =~= far);
        }
    }
}

/// Tabs that are opened again one after the other come in the turn opposite to that in which they
/// were closed, each as it was closed: as many as are kept, then none. The closed tabs of other
/// windows stay as they are.
pub proof fn law_closed_in_turn(
    rows: Seq<(i32, Tab)>,
    closed: Seq<(i32, Tab)>,
    window_id: i32,
    k: nat,
)
    requires
        numbered(rows + closed),
        stack(rows, window_id).len() <= CLOSED_TABS_KEPT,
    ensures
        ({
            let all = stack(rows, window_id) + stack(closed, window_id);
            let after = after_pushes(rows, closed);
            &&& stack(after, window_id) == newest(all, CLOSED_TABS_KEPT as nat)
            &&& popped(after_pops(after, window_id, k), window_id) == if k < all.len() && k
                < CLOSED_TABS_KEPT {
                Some(all[all.len() - 1 - k])
            } else {
                None
            }
            &&& forall|w: i32|
                w != window_id ==> #[trigger] stack(after_pops(after, window_id, k), w) == stack(
                    after,
                    w,
                )
        }),
{
    let after = after_pushes(rows, closed);
    lemma_pushes(rows, closed, window_id);
    lemma_pops(after, window_id, k);
    law_pop(after_pops(after, window_id, k), window_id);
}

proof fn lemma_pushes(rows: Seq<(i32, Tab)>, closed: Seq<(i32, Tab)>, window_id: i32)
    requires
        numbered(rows + closed),
        stack(rows, window_id).len() <= CLOSED_TABS_KEPT,
    ensures
        numbered(after_pushes(rows, closed)),
        forall|i: int|
            0 <= i < after_pushes(rows, closed).len() ==> (#[trigger] after_pushes(
                rows,
                closed,
            )[i]).0 <= (rows + closed).last().0,
        stack(after_pushes(rows, closed), window_id) == newest(
            stack(rows, window_id) + stack(closed, window_id),
            CLOSED_TABS_KEPT as nat,
        ),
    decreases closed.len(),
{
    let keep = CLOSED_TABS_KEPT as nat;
    let all = rows + closed;
    if closed.len() == 0 {
        reveal(Seq::filter);
        assert(all =~= rows);
        assert(stack(rows, window_id) + stack(closed, window_id) =~= stack(rows, window_id));
        assert forall|i: int| 0 <= i < rows.len() implies (#[trigger] rows[i]).0
            <= rows.last().0 by {
            if i < rows.len() - 1 {
                assert(rows[i].0 < rows[rows.len() - 1].0);
            }
        }
    } else {
        let front = closed.drop_last();
        let (id, tab) = closed.last();
        let n = all.len() - 1;
        let earlier = rows + front;
        assert(earlier =~= all.drop_last());
        assert forall|i: int, j: int| 0 <= i < j < earlier.len() implies (#[trigger] earlier[i]).0
            < (#[trigger] earlier[j]).0 by {
            assert(all[i].0 < all[j].0);
        }
        lemma_pushes(rows, front, window_id);
        let before = after_pushes(rows, front);
        assert(all[n] == closed.last());
        assert forall|i: int| 0 <= i < before.len() implies (#[trigger] before[i]).0 < id by {
            if earlier.len() > 0 {
                assert(earlier.last() == all[n - 1]);
                assert(all[n - 1].0 < all[n].0);
            } else {
                assert(rows.len() == 0 && front.len() == 0);
            }
        }
        law_push(before, id, tab);
        assert(rows_of(closed, window_id) == if tab.window_id == window_id {
            rows_of(front, window_id).push((id, tab))
        } else {
            rows_of(front, window_id)
        }) by {
            reveal(Seq::filter);
        }
        let base = stack(rows, window_id);
        if tab.window_id == window_id {
            assert(stack(closed, window_id) =~= stack(front, window_id).push(tab));
            let so_far = base + stack(front, window_id);
            assert(base + stack(closed, window_id) =~= so_far.push(tab));
            assert(newest(newest(so_far, keep).push(tab), keep) =~= newest(
                so_far.push(tab),
                keep,
            ));
        }
    }
}

proof fn lemma_pops(rows: Seq<(i32, Tab)>, window_id: i32, k: nat)
    requires
        numbered(rows),
    ensures
        numbered(after_pops(rows, window_id, k)),
        stack(after_pops(rows, window_id, k), window_id) == if k < stack(rows, window_id).len() {
            stack(rows, window_id).take(stack(rows, window_id).len() - k)
        } else {
            seq![]
        },
        forall|w: i32|
            w != window_id ==> #[trigger] stack(after_pops(rows, window_id, k), w) == stack(
                rows,
                w,
            ),
    decreases k,
{
    let s = stack(rows, window_id);
    if k == 0 {
        if s.len() > 0 {
            assert(s.take(s.len() as int) =~= s);
        } else {
            assert(s =~= seq![]);
        }
    } else {
        let less = (k - 1) as nat;
        lemma_pops(rows, window_id, less);
        let before = after_pops(rows, window_id, less);
        law_pop(before, window_id);
        if less < s.len() {
            assert(s.take(s.len() - less).drop_last() =~= s.take(s.len() - k));
            if k >= s.len() {
                assert(s.take(s.len() - k) =~= seq![]);
            }
        }
    }
}

/// What is chosen from rows is among them, in their order.
proof fn lemma_part(rows: Seq<(i32, Tab)>, keep: spec_fn((i32, Tab)) -> bool)
    ensures
        forall|j: int|
            0 <= j < rows.filter(keep).len() ==> rows.contains(#[trigger] rows.filter(keep)[j])
                && keep(rows.filter(keep)[j]),
        numbered(rows) ==> numbered(rows.filter(keep)),
    decreases rows.len(),
{
    reveal(Seq::filter);
    if rows.len() > 0 {
        let front = rows.drop_last();
        let n = rows.len() - 1;
        lemma_part(front, keep);
        let f = front.filter(keep);
        let g = rows.filter(keep);
        assert forall|j: int| 0 <= j < g.len() implies rows.contains(#[trigger] g[j]) && keep(
            g[j],
        ) by {
            if j < f.len() {
                assert(f[j] == g[j]);
                let k = front.index_of(f[j]);
                assert(rows[k] == g[j]);
            } else {
                assert(rows[n] == g[j]);
            }
        }
        if numbered(rows) {
            assert(numbered(front)) by {
                assert forall|i: int, j: int| 0 <= i < j < front.len() implies (
                #[trigger] front[i]).0 < (#[trigger] front[j]).0 by {
                    assert(rows[i].0 < rows[j].0);
                }
            }
            assert forall|i: int, j: int| 0 <= i < j < g.len() implies (#[trigger] g[i]).0 < (
            #[trigger] g[j]).0 by {
                assert(f[i] == g[i]);
                if j < f.len() {
                    assert(f[j] == g[j]);
                } else {
                    let k = front.index_of(f[i]);
                    assert(front.contains(f[i]));
                    assert(rows[k].0 < rows[n].0);
                }
            }
        }
    }
}

/// In which turn two choices are made does not matter.
proof fn lemma_twice(
    rows: Seq<(i32, Tab)>,
    a: spec_fn((i32, Tab)) -> bool,
    b: spec_fn((i32, Tab)) -> bool,
)
    ensures
        rows.filter(a).filter(b) == rows.filter(b).filter(a),
    decreases rows.len(),
{
    reveal(Seq::filter);
    if rows.len() > 0 {
        let front = rows.drop_last();
        let last = rows.last();
        lemma_twice(front, a, b);
        assert(front.filter(a).push(last).drop_last() =~= front.filter(a));
        assert(front.filter(b).push(last).drop_last() =~= front.filter(b));
    }
}

/// A choice that takes everything from some place on, and nothing before it.
proof fn lemma_tail(rows: Seq<(i32, Tab)>, keep: spec_fn((i32, Tab)) -> bool, k: int)
    requires
        0 <= k <= rows.len(),
        forall|i: int| 0 <= i < k ==> !keep(#[trigger] rows[i]),
        forall|i: int| k <= i < rows.len() ==> keep(#[trigger] rows[i]),
    ensures
        rows.filter(keep) == rows.skip(k),
    decreases rows.len(),
{
    reveal(Seq::filter);
    if rows.len() > 0 {
        let front = rows.drop_last();
        let n = rows.len() - 1;
        assert forall|i: int| 0 <= i < n implies front[i] == #[trigger] rows[i] by {}
        if k <= n {
            lemma_tail(front, keep, k);
            assert(keep(rows[n]));
            assert(rows.skip(k) =~= front.skip(k).push(rows.last()));
        } else {
            lemma_tail(front, keep, n);
            assert(!keep(rows[n]));
            assert(rows.skip(k) =~= front.skip(n));
        }
    } else {
        assert(rows.skip(k) =~= rows);
    }
}

/// Two rows with one number are the same row.
proof fn lemma_same_row(rows: Seq<(i32, Tab)>, a: (i32, Tab), b: (i32, Tab))
    requires
        numbered(rows),
        rows.contains(a),
        rows.contains(b),
        a.0 == b.0,
    ensures
        a == b,
{
    let i = rows.index_of(a);
    let j = rows.index_of(b);
    if i < j {
        assert(rows[i].0 < rows[j].0);
    } else if j < i {
        assert(rows[j].0 < rows[i].0);
    }
}

/// Keys that go up are ranked from the last to the first.
proof fn lemma_ranking_of_rising(keys: Seq<i64>, n: int)
    requires
        0 <= n <= keys.len(),
        forall|i: int, j: int| 0 <= i < j < keys.len() ==> #[trigger] keys[i] < #[trigger] keys[j],
    ensures
        rank::ranking(keys, n) == Seq::new(n as nat, |i: int| n - 1 - i),
    decreases n,
{
    let want = Seq::new(n as nat, |i: int| n - 1 - i);
    if n > 0 {
        let before = rank::ranking(keys, n - 1);
        lemma_ranking_of_rising(keys, n - 1);
        lemma_ranked_first(before, keys, n - 1);
        assert(seq![n - 1] + before =~= want);
    } else {
        assert(rank::ranking(keys, n) =~= want);
    }
}

proof fn lemma_ranked_first(order: Seq<int>, keys: Seq<i64>, i: int)
    requires
        forall|j: int| 0 <= j < order.len() ==> keys[#[trigger] order[j]] < keys[i],
    ensures
        rank::ranked_in(order, keys, i) == seq![i] + order,
    decreases order.len(),
{
    if order.len() > 0 {
        let front = order.drop_last();
        assert(keys[order[order.len() - 1]] < keys[i]);
        assert forall|j: int| 0 <= j < front.len() implies keys[#[trigger] front[j]] < keys[i] by {
            assert(front[j] == order[j]);
        }
        lemma_ranked_first(front, keys, i);
        assert((seq![i] + front).push(order.last()) =~= seq![i] + order);
    } else {
        assert(order.push(i) =~= seq![i] + order);
    }
}

/// The rows that are given up are the first ones, down to those that are kept.
proof fn lemma_surplus(rows: Seq<(i32, Tab)>, keep: nat)
    requires
        numbered(rows),
    ensures
        forall|x: i32|
            #[trigger] surplus(numbers(rows), keep).contains(x) <==> exists|j: int|
                0 <= j < rows.len() - keep && (#[trigger] rows[j]).0 == x,
        forall|j: int|
            0 <= j < rows.len() ==> (surplus(numbers(rows), keep).contains(
                (#[trigger] rows[j]).0,
            ) <==> j < rows.len() - keep),
{
    let ids = numbers(rows);
    let keys = row_keys(ids);
    let n = ids.len() as int;
    let order = rank::ranking(keys, n);
    let s = surplus(ids, keep);
    assert forall|i: int, j: int| 0 <= i < j < keys.len() implies #[trigger] keys[i]
        < #[trigger] keys[j] by {
        assert(rows[i].0 < rows[j].0);
    }
    lemma_ranking_of_rising(keys, n);
    assert forall|x: i32| #[trigger] s.contains(x) <==> exists|j: int|
        0 <= j < rows.len() - keep && (#[trigger] rows[j]).0 == x by {
        if s.contains(x) {
            let i = s.index_of(x);
            assert(s[i] == ids[order[i + keep]]);
            assert(rows[n - 1 - (i + keep)].0 == x);
        }
        if exists|j: int| 0 <= j < rows.len() - keep && (#[trigger] rows[j]).0 == x {
            let j = choose|j: int| 0 <= j < rows.len() - keep && (#[trigger] rows[j]).0 == x;
            let i = n - 1 - j - keep;
            assert(s[i] == ids[order[i + keep]]);
            assert(order[i + keep] == j);
        }
    }
    assert forall|j: int| 0 <= j < rows.len() implies (s.contains((#[trigger] rows[j]).0) <==> j
        < rows.len() - keep) by {
        if s.contains(rows[j].0) {
            let k = choose|k: int|
                0 <= k < rows.len() - keep && (#[trigger] rows[k]).0 == rows[j].0;
            if k < j {
                assert(rows[k].0 < rows[j].0);
            } else if j < k {
                assert(rows[j].0 < rows[k].0);
            }
        }
    }
}

/// Of each window the last twenty-five closed tabs can be opened again, each as it was closed.
pub proof fn law_twenty_five_kept(closed: Seq<(i32, Tab)>, window_id: i32)
    requires
        numbered(closed),
    ensures
        stack(closed, window_id).len() <= 25 ==> stack(after_pushes(seq![], closed), window_id)
            == stack(closed, window_id),
        stack(closed, window_id).len() > 25 ==> stack(after_pushes(seq![], closed), window_id)
            == stack(closed, window_id).skip(stack(closed, window_id).len() - 25),
{
    let none = Seq::<(i32, Tab)>::empty();
    assert(none + closed =~= closed);
    assert(rows_of(none, window_id) =~= none) by {
        reveal(Seq::filter);
    }
    assert(stack(none, window_id) =~= Seq::empty());
    law_closed_in_turn(none, closed, window_id, 0);
    assert(stack(none, window_id) + stack(closed, window_id) =~= stack(closed, window_id));
}

/// The latest row is the one with the highest number, wherever it stands; there is none only where
/// there are no rows.
pub proof fn law_latest(ids: Seq<i32>, i: int)
    ensures
        latest(ids) is None <==> ids.len() == 0,
        latest(ids) matches Some(id) ==> ids.contains(id),
        0 <= i < ids.len() ==> latest(ids) is Some && ids[i] <= latest(ids)->0,
{
    lemma_latest(ids);
}

/// Of rows that were numbered as they came, all but the last ones are given up, as many of these
/// staying as are kept.
pub proof fn law_first_rows_given_up(rows: Seq<(i32, Tab)>, keep: nat, j: int)
    requires
        numbered(rows),
        0 <= j < rows.len(),
    ensures
        surplus(numbers(rows), keep).contains(rows[j].0) <==> j < rows.len() - keep,
{
    lemma_surplus(rows, keep);
}

} // verus!
