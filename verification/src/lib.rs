//! Byte-level scanning core for a source-text lexer.
//!
//! The crate has two layers:
//!
//! * [`table`] holds the 256-entry byte classification tables: the
//!   unconstrained [`table::ByteMatchTable`] and the validated
//!   [`table::SafeByteMatchTable`], whose construction guarantees that a scan
//!   driven by it can only halt on a UTF-8 character boundary.
//! * [`scan`] holds the source cursor and the batched scanning algorithm that
//!   advances the cursor to the first byte a table classifies as a match,
//!   subject to an optional reconsideration predicate, and hands the outcome
//!   to one of two caller-supplied continuations.

pub mod scan;
pub mod table;

pub use scan::{scan, scan_plain, Source, SEARCH_BATCH_SIZE};
pub use table::{entries_from_pred, ByteMatchTable, ClassifierTable, SafeByteMatchTable};
