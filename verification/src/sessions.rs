//! What comes back of the tabs when the program starts again.

use vstd::prelude::*;
use crate::ipc_types::Tab;

verus! {

/// The tabs of the first window, in their order, each without its number and as if it had never
/// been used.
pub open spec fn restored(saved: Seq<Tab>) -> Seq<Tab>
    decreases saved.len(),
{
    if saved.len() == 0 {
        saved
    } else {
        let front = restored(saved.drop_last());
        if saved.last().window_id == 1 {
            front.push(Tab { id: 0, last_active: None, ..saved.last() })
        } else {
            front
        }
    }
}

/// The tabs that are put on record again from a session that was saved.
pub fn session_restore_last(saved: &Vec<Tab>) -> (out: Vec<Tab>)
    ensures
        out@ == restored(saved@),
{
    let mut out: Vec<Tab> = Vec::new();
    for i in 0..saved.len()
        invariant
            out@ == restored(saved@.take(i as int)),
    {
        assert(saved@.take(i + 1).drop_last() =~= saved@.take(i as int));
        if saved[i].window_id == 1 {
            let mut t: Tab = saved[i].copy();
            t.id = 0;
            t.last_active = None;
            out.push(t);
        }
    }
    assert(saved@.take(saved@.len() as int) =~= saved@);
    out
}

/// All that comes back is in the first window and gets numbers of its own.
pub proof fn law_restored_fresh(saved: Seq<Tab>)
    ensures
        forall|i: int|
            0 <= i < restored(saved).len() ==> (#[trigger] restored(saved)[i]).window_id == 1
                && restored(saved)[i].id == 0 && restored(saved)[i].last_active is None,
        restored(saved).len() <= saved.len(),
    decreases saved.len(),
{
    if saved.len() > 0 {
        law_restored_fresh(saved.drop_last());
    }
}

/// Every tab of the first window comes back as it was saved, but for its number and its use.
pub proof fn law_restored_complete(saved: Seq<Tab>, i: int)
    requires
        0 <= i < saved.len(),
        saved[i].window_id == 1,
    ensures
        restored(saved).contains(Tab { id: 0, last_active: None, ..saved[i] }),
    decreases saved.len(),
{
    let t = Tab { id: 0, last_active: None, ..saved[i] };
    let all = restored(saved);
    if i == saved.len() - 1 {
        assert(all[all.len() - 1] == t);
    } else {
        let front = saved.drop_last();
        assert(front[i] == saved[i]);
        law_restored_complete(front, i);
        let k = restored(front).index_of(t);
        assert(all[k] == t);
    }
}

/// What comes back of two lists of tabs is what comes back of the first and then what comes back of
/// the second: the tabs come back in the order in which they were saved, each once.
pub proof fn law_restored_in_order(a: Seq<Tab>, b: Seq<Tab>)
    ensures
        restored(a + b) == restored(a) + restored(b),
    decreases b.len(),
{
    if b.len() == 0 {
        assert(a + b =~= a);
        assert(restored(a) + restored(b) =~= restored(a));
    } else {
        law_restored_in_order(a, b.drop_last());
        assert((a + b).drop_last() =~= a + b.drop_last());
        assert((a + b).last() == b.last());
        assert(restored(a + b) =~= restored(a) + restored(b));
    }
}

/// A tab of the first window comes back as it was saved but for its number and its use; a tab of
/// any other window does not.
pub proof fn law_restored_tab(t: Tab)
    ensures
        t.window_id == 1 ==> {
            &&& restored(seq![t]).len() == 1
            &&& ({
                let r = restored(seq![t])[0];
                &&& r.id == 0 && r.last_active is None
                &&& r.window_id == 1 && r.url == t.url && r.title == t.title && r.favicon_id
                    == t.favicon_id
                &&& r.pinned == t.pinned && r.muted == t.muted && r.order_key == t.order_key
                &&& r.scroll_y == t.scroll_y && r.created_at == t.created_at
            })
        },
        t.window_id != 1 ==> restored(seq![t]).len() == 0,
{
    let none = seq![t].drop_last();
    assert(none =~= Seq::empty());
    assert(restored(none).len() == 0);
}

} // verus!
