//! The constants of the native journal interface.
pub mod flags;
pub mod wait_result;
