//! Structured queries, service discovery and live tailing over a
//! field-indexed, append-only log journal.
//!
//! The journal is held as an in-memory sequence of timestamped records. Each
//! record carries raw data items of the form `FIELD=value`; a handle filters
//! them with equality matches, walks them forward with a cursor and lists the
//! distinct values of a field. The query, discovery and tail engines are
//! built on those primitives, and their contracts are stated over a
//! mathematical model of the journal. What is taken on trust is little and
//! is said where it stands: the errno numbers of libc, and what a few
//! functions of `std::time::Duration` return.
pub mod error;
pub mod text;
pub mod journal;
pub mod query;
pub mod discover;
pub mod tail;
pub mod ffi;

pub use discover::{discover_services, Host, Hosts};
pub use error::JournalError;
pub use journal::Journal;
pub use query::{query_journal, Entry, Query};
pub use tail::{JournalIterator, JournalTail, TailConfig};
