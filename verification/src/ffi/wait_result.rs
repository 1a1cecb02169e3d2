//! What waiting for a change of a native journal reports.
use vstd::prelude::*;

verus! {

/// The journal did not change.
pub const SD_JOURNAL_NOP: i32 = 0;

/// Entries were appended to the end of the journal.
pub const SD_JOURNAL_APPEND: i32 = 1;

/// Journal files were added or removed, so that entries may have appeared or
/// gone at any place.
pub const SD_JOURNAL_INVALIDATE: i32 = 2;

} // verus!
