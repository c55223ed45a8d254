//! Putting things in order by a number.

use vstd::prelude::*;

verus! {

/// `order`, which goes from high keys to low ones, with `i` put behind everything whose key is
/// not lower.
pub open spec fn ranked_in(order: Seq<int>, keys: Seq<i64>, i: int) -> Seq<int>
    decreases order.len(),
{
    if order.len() > 0 && keys[order.last()] < keys[i] {
        ranked_in(order.drop_last(), keys, i).push(order.last())
    } else {
        order.push(i)
    }
}

/// The first `n` positions from the highest key to the lowest; of equal keys the earlier position
/// comes first.
pub open spec fn ranking(keys: Seq<i64>, n: int) -> Seq<int>
    decreases n,
{
    if n <= 0 {
        seq![]
    } else {
        ranked_in(ranking(keys, n - 1), keys, n - 1)
    }
}

/// Positions as plain numbers.
pub open spec fn positions(v: Seq<usize>) -> Seq<int> {
    v.map_values(|x: usize| x as int)
}

fn insert_ranked(order: &mut Vec<usize>, keys: &Vec<i64>, i: usize)
    requires
        i < keys@.len(),
        forall|j: int| 0 <= j < old(order)@.len() ==> #[trigger] old(order)@[j] < keys@.len(),
    ensures
        positions(final(order)@) == ranked_in(positions(old(order)@), keys@, i as int),
        forall|j: int| 0 <= j < final(order)@.len() ==> #[trigger] final(order)@[j] < keys@.len(),
{
    let ghost all = positions(order@);
    let mut n: usize = order.len();
    assert(all.take(n as int) =~= all);
    assert(ranked_in(all, keys@, i as int) + all.skip(n as int) =~= ranked_in(
        all,
        keys@,
        i as int,
    ));
    while n > 0 && keys[order[n - 1]] < keys[i]
        invariant
            order@ == old(order)@,
            all == positions(order@),
            i < keys@.len(),
            forall|j: int| 0 <= j < order@.len() ==> #[trigger] order@[j] < keys@.len(),
            n <= order@.len(),
            ranked_in(all, keys@, i as int) == ranked_in(all.take(n as int), keys@, i as int)
                + all.skip(n as int),
        decreases n,
    {
        proof {
            let front = all.take(n as int);
            assert(front.last() == order@[n - 1] as int);
            assert(front.drop_last() =~= all.take(n - 1));
            assert(ranked_in(front, keys@, i as int) + all.skip(n as int) =~= ranked_in(
                all.take(n - 1),
                keys@,
                i as int,
            ) + all.skip(n - 1));
        }
        n = n - 1;
    }
    proof {
        if n > 0 {
            assert(all.take(n as int).last() == order@[n - 1] as int);
        }
        assert(ranked_in(all, keys@, i as int) =~= all.take(n as int).push(i as int) + all.skip(
            n as int,
        ));
    }
    order.insert(n, i);
    assert(positions(order@) =~= all.take(n as int).push(i as int) + all.skip(n as int));
}

/// All positions from the highest key to the lowest.
pub fn rank(keys: &Vec<i64>) -> (out: Vec<usize>)
    ensures
        positions(out@) == ranking(keys@, keys@.len() as int),
        forall|j: int| 0 <= j < out@.len() ==> #[trigger] out@[j] < keys@.len(),
{
    let mut out: Vec<usize> = Vec::new();
    assert(positions(out@) =~= ranking(keys@, 0));
    for i in 0..keys.len()
        invariant
            positions(out@) == ranking(keys@, i as int),
            forall|j: int| 0 <= j < out@.len() ==> #[trigger] out@[j] < keys@.len(),
    {
        insert_ranked(&mut out, keys, i);
    }
    out
}

/// The first positions of a ranking, `limit` of them at most.
pub open spec fn best(keys: Seq<i64>, limit: nat) -> Seq<int> {
    let all = ranking(keys, keys.len() as int);
    if limit < all.len() {
        all.take(limit as int)
    } else {
        all
    }
}

/// The positions with the highest keys, `limit` of them at most, from the highest key on.
pub fn best_positions(keys: &Vec<i64>, limit: usize) -> (out: Vec<usize>)
    ensures
        positions(out@) == best(keys@, limit as nat),
        forall|j: int| 0 <= j < out@.len() ==> #[trigger] out@[j] < keys@.len(),
{
    let mut out: Vec<usize> = rank(keys);
    if limit < out.len() {
        let ghost all = out@;
        out.truncate(limit);
        assert(positions(out@) =~= positions(all).take(limit as int));
    }
    out
}

/// A ranking names each position once, from the highest key to the lowest, equal keys in the
/// order of their positions.
pub proof fn law_ranking(keys: Seq<i64>, n: int)
    requires
        0 <= n <= keys.len(),
    ensures
        ranking(keys, n).len() == n,
        ranking(keys, n).no_duplicates(),
        forall|j: int| 0 <= j < n ==> 0 <= #[trigger] ranking(keys, n)[j] < n,
        forall|a: int, b: int|
            0 <= a < b < n ==> {
                let x = #[trigger] ranking(keys, n)[a];
                let y = #[trigger] ranking(keys, n)[b];
                keys[x] > keys[y] || (keys[x] == keys[y] && x < y)
            },
    decreases n,
{
    if n > 0 {
        law_ranking(keys, n - 1);
        lemma_ranked_in(ranking(keys, n - 1), keys, n - 1);
        let r = ranking(keys, n);
        assert forall|j: int| 0 <= j < n implies 0 <= #[trigger] r[j] < n by {
            if r[j] != n - 1 {
                let q = ranking(keys, n - 1);
                let k = q.index_of(r[j]);
                assert(q.contains(r[j]));
            }
        }
    }
}

/// `a` comes before `b` in a ranking.
spec fn above(keys: Seq<i64>, a: int, b: int) -> bool {
    keys[a] > keys[b] || (keys[a] == keys[b] && a < b)
}

proof fn lemma_ranked_in(order: Seq<int>, keys: Seq<i64>, i: int)
    requires
        forall|j: int| 0 <= j < order.len() ==> 0 <= #[trigger] order[j] < i,
        forall|a: int, b: int|
            0 <= a < b < order.len() ==> above(keys, #[trigger] order[a], #[trigger] order[b]),
    ensures
        ranked_in(order, keys, i).len() == order.len() + 1,
        forall|j: int|
            0 <= j <= order.len() ==> #[trigger] ranked_in(order, keys, i)[j] == i
                || order.contains(ranked_in(order, keys, i)[j]),
        forall|a: int, b: int|
            0 <= a < b <= order.len() ==> above(
                keys,
                #[trigger] ranked_in(order, keys, i)[a],
                #[trigger] ranked_in(order, keys, i)[b],
            ),
        ranked_in(order, keys, i).no_duplicates(),
    decreases order.len(),
{
    let r = ranked_in(order, keys, i);
    if order.len() > 0 && keys[order.last()] < keys[i] {
        let front = order.drop_last();
        let last = order.last();
        lemma_ranked_in(front, keys, i);
        let q = ranked_in(front, keys, i);
        assert forall|j: int| 0 <= j <= order.len() implies #[trigger] r[j] == i
            || order.contains(r[j]) by {
            if j < q.len() {
                assert(r[j] == q[j]);
                if q[j] != i {
                    let k = front.index_of(q[j]);
                    assert(order[k] == q[j]);
                }
            } else {
                assert(order[order.len() - 1] == r[j]);
            }
        }
        assert forall|a: int, b: int| 0 <= a < b <= order.len() implies above(
            keys,
            #[trigger] r[a],
            #[trigger] r[b],
        ) by {
            assert(r[a] == q[a]);
            if b < q.len() {
                assert(r[b] == q[b]);
            } else {
                assert(r[b] == last);
                if q[a] != i {
                    let k = front.index_of(q[a]);
                    assert(order[k] == q[a]);
                    assert(order[order.len() - 1] == last);
                }
            }
        }
    } else {
        assert forall|j: int| 0 <= j <= order.len() implies #[trigger] r[j] == i
            || order.contains(r[j]) by {
            if j < order.len() {
                assert(order[j] == r[j]);
            }
        }
        assert forall|a: int, b: int| 0 <= a < b <= order.len() implies above(
            keys,
            #[trigger] r[a],
            #[trigger] r[b],
        ) by {
            assert(r[a] == order[a]);
            if b < order.len() {
                assert(r[b] == order[b]);
            } else {
                assert(r[b] == i);
                let last = order[order.len() - 1];
                if a < order.len() - 1 {
                    assert(above(keys, order[a], last));
                }
                assert(0 <= order[a] < i);
            }
        }
    }
    assert forall|a: int, b: int| 0 <= a < b < r.len() implies r[a] != r[b] by {
        assert(above(keys, r[a], r[b]));
    }
}

/// A list without repetition of `n` numbers below `n` holds each of them.
pub proof fn lemma_onto(order: Seq<int>, n: int, j: int)
    requires
        order.len() == n,
        order.no_duplicates(),
        forall|k: int| 0 <= k < n ==> 0 <= #[trigger] order[k] < n,
        0 <= j < n,
    ensures
        order.contains(j),
{
    let all = vstd::set_lib::set_int_range(0, n);
    vstd::set_lib::lemma_int_range(0, n);
    order.unique_seq_to_set();
    assert(order.to_set().subset_of(all)) by {
        assert forall|x: int| order.to_set().contains(x) implies all.contains(x) by {
            let k = order.index_of(x);
            assert(order[k] == x);
        }
    }
    vstd::set_lib::lemma_len_subset(order.to_set(), all);
    vstd::set_lib::lemma_subset_equality(order.to_set(), all);
    assert(order.to_set().contains(j));
}

/// The best positions are as many as there are, up to the limit; they come from the highest key
/// to the lowest, and no position that is left out has a higher key than one of them.
pub proof fn law_best(keys: Seq<i64>, limit: nat)
    ensures
        best(keys, limit).len() == if limit < keys.len() {
            limit
        } else {
            keys.len()
        },
        best(keys, limit).no_duplicates(),
        forall|a: int| 0 <= a < best(keys, limit).len() ==> 0 <= #[trigger] best(keys, limit)[a]
            < keys.len(),
        forall|a: int, b: int|
            0 <= a < b < best(keys, limit).len() ==> keys[#[trigger] best(keys, limit)[a]]
                >= keys[#[trigger] best(keys, limit)[b]],
        forall|a: int, j: int|
            0 <= a < best(keys, limit).len() && 0 <= j < keys.len() && !best(keys, limit).contains(
                j,
            ) ==> keys[#[trigger] best(keys, limit)[a]] >= #[trigger] keys[j],
{
    let n = keys.len() as int;
    law_ranking(keys, n);
    let all = ranking(keys, n);
    let top = best(keys, limit);
    assert forall|a: int, b: int| 0 <= a < b < top.len() implies keys[#[trigger] top[a]]
        >= keys[#[trigger] top[b]] by {
        assert(top[a] == all[a]);
        assert(top[b] == all[b]);
    }
    assert forall|a: int, j: int|
        0 <= a < top.len() && 0 <= j < n && !top.contains(j) implies keys[#[trigger] top[a]]
        >= #[trigger] keys[j] by {
        lemma_onto(all, n, j);
        let p = all.index_of(j);
        assert(all[p] == j);
        if p < top.len() {
            assert(top[p] == j);
        }
        assert(top[a] == all[a]);
    }
}

} // verus!
