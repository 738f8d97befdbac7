//! Incremental mailbox statistics.
//!
//! The library keeps a deduplicated snapshot of mailbox message metadata,
//! brings it up to date from reverse-chronological pages of entries, persists
//! it in a line-oriented text format, and derives per-day and per-domain
//! counts from it.

pub mod aggregate;
pub mod codec;
pub mod record;
pub mod report;
pub mod sync;

pub use record::Entry;
pub use record::Timestamp;
