//! Addresses behind sequences of keys.

use vstd::prelude::*;
use crate::ipc_types::QuickLaunchItem;

verus! {

/// How an item is put on record.
#[derive(Clone, Copy, PartialEq, Eq, Debug, Structural)]
pub enum Storing {
    /// As a new row, with a number of its own.
    Insert,
    /// In the place of the row with its number.
    Replace,
}

/// How an item is put on record: one without a number is new.
pub fn set_quick_launch(item: &QuickLaunchItem) -> (out: Storing)
    ensures
        out == if item.id == 0 {
            Storing::Insert
        } else {
            Storing::Replace
        },
{
    if item.id == 0 {
        Storing::Insert
    } else {
        Storing::Replace
    }
}

} // verus!
