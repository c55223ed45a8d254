//! Pages that were kept.

use vstd::prelude::*;
use vstd::string::*;
use crate::ipc_types::Bookmark;

verus! {

/// A kept page as it is on record.
pub struct BookmarkDbEntry {
    pub id: i32,
    pub url: String,
    pub title: String,
    pub folder_id: Option<i32>,
    pub tags: Option<String>,
    pub position: i32,
    /// Seconds since 1970.
    pub created_at: i64,
}

/// The highest of the positions, or -1.
pub open spec fn highest(positions: Seq<i32>) -> int
    decreases positions.len(),
{
    if positions.len() == 0 {
        -1
    } else if positions.len() == 1 {
        positions[0] as int
    } else {
        let rest = highest(positions.drop_last());
        if positions.last() > rest {
            positions.last() as int
        } else {
            rest
        }
    }
}

/// The position behind all others; 0 where there is no such number.
pub open spec fn position_behind(positions: Seq<i32>) -> int {
    if highest(positions) < i32::MAX {
        highest(positions) + 1
    } else {
        0
    }
}

/// The position of a new bookmark, given those of the others.
pub fn next_position(positions: &Vec<i32>) -> (out: i32)
    ensures
        out == position_behind(positions@),
{
    if positions.len() == 0 {
        return 0;
    }
    let mut high: i32 = positions[0];
    assert(positions@.take(1) =~= seq![positions@[0]]);
    for i in 1..positions.len()
        invariant
            1 <= i <= positions@.len(),
            high == highest(positions@.take(i as int)),
    {
        assert(positions@.take(i + 1).drop_last() =~= positions@.take(i as int));
        if positions[i] > high {
            high = positions[i];
        }
    }
    assert(positions@.take(positions@.len() as int) =~= positions@);
    if high < i32::MAX {
        high + 1
    } else {
        0
    }
}

/// A new bookmark stands behind all others.
pub proof fn law_new_bookmark_last(positions: Seq<i32>)
    requires
        highest(positions) < i32::MAX,
    ensures
        forall|i: int|
            0 <= i < positions.len() ==> (#[trigger] positions[i]) < position_behind(positions),
    decreases positions.len(),
{
    if positions.len() > 1 {
        let front = positions.drop_last();
        law_new_bookmark_last(front);
        assert forall|i: int| 0 <= i < positions.len() implies (#[trigger] positions[i])
            < position_behind(positions) by {
            if i < positions.len() - 1 {
                assert(front[i] == positions[i]);
            }
        }
    }
}

/// What the user interface is shown of the bookmarks.
pub fn bookmarks_list(entries: Vec<BookmarkDbEntry>) -> (out: Vec<Bookmark>)
    ensures
        out@ == entries@.map_values(
            |b: BookmarkDbEntry|
                Bookmark { id: b.id, url: b.url, title: b.title, position: b.position },
        ),
{
    let mut out: Vec<Bookmark> = Vec::new();
    for i in 0..entries.len()
        invariant
            out@.len() == i,
            forall|j: int|
                0 <= j < i ==> #[trigger] out@[j] == (Bookmark {
                    id: entries@[j].id,
                    url: entries@[j].url,
                    title: entries@[j].title,
                    position: entries@[j].position,
                }),
    {
        let b: &BookmarkDbEntry = &entries[i];
        out.push(
            Bookmark {
                id: b.id,
                url: b.url.clone(),
                title: b.title.clone(),
                position: b.position,
            },
        );
    }
    out
}

/// The first bookmark stands at position 0. Any other stands right behind the last one, unless that
/// stands at the highest position there is; then it stands at 0.
pub proof fn law_position_behind(positions: Seq<i32>)
    ensures
        positions.len() == 0 ==> position_behind(positions) == 0,
        positions.len() > 0 ==> exists|i: int|
            0 <= i < positions.len() && (#[trigger] positions[i] + 1 == position_behind(positions) || (
            positions[i] == i32::MAX && position_behind(positions) == 0)),
        (exists|i: int| 0 <= i < positions.len() && #[trigger] positions[i] == i32::MAX) ==> position_behind(
            positions,
        ) == 0,
{
    lemma_highest(positions);
    if positions.len() > 0 {
        let i = choose|i: int| 0 <= i < positions.len() && #[trigger] positions[i] == highest(positions);
        assert(positions[i] + 1 == position_behind(positions) || positions[i] == i32::MAX);
    }
}

proof fn lemma_highest(positions: Seq<i32>)
    ensures
        positions.len() > 0 ==> exists|i: int|
            0 <= i < positions.len() && #[trigger] positions[i] == highest(positions),
        forall|i: int| 0 <= i < positions.len() ==> #[trigger] positions[i] <= highest(positions),
    decreases positions.len(),
{
    if positions.len() == 1 {
        assert(positions[0] == highest(positions));
    } else if positions.len() > 1 {
        let front = positions.drop_last();
        lemma_highest(front);
        let k = choose|i: int| 0 <= i < front.len() && #[trigger] front[i] == highest(front);
        assert(positions[k] == highest(front));
        assert(positions[positions.len() - 1] == positions.last());
        assert forall|i: int| 0 <= i < positions.len() implies #[trigger] positions[i] <= highest(
            positions,
        ) by {
            if i < front.len() {
                assert(front[i] == positions[i]);
            }
        }
    }
}

} // verus!
