//! The flags with which a native journal is opened.
use vstd::prelude::*;

verus! {

/// Only the volatile journal files.
pub const SD_JOURNAL_RUNTIME_ONLY: i32 = 2;

/// The journal files of the system.
pub const SD_JOURNAL_SYSTEM: i32 = 4;

/// The journal files of the current user.
pub const SD_JOURNAL_CURRENT_USER: i32 = 8;

/// The path is the root of an operating system tree.
pub const SD_JOURNAL_OS_ROOT: i32 = 16;

} // verus!
