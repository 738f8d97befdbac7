//! The record model: one mailbox entry's metadata, and its timestamp.

use vstd::prelude::*;

verus! {

/// A point in time with its original timezone offset.
///
/// `epoch_secs` is the instant, in seconds since the Unix epoch; comparing
/// instants compares `epoch_secs` alone.  `offset_secs` is the local offset
/// from UTC that the entry was stamped with; it takes no part in instant
/// order, but it decides which calendar day the instant falls on for the
/// per-day aggregate, and it is preserved exactly by the snapshot format.
#[derive(Clone, Copy, Debug, PartialEq, Eq, Structural)]
pub struct Timestamp {
    pub epoch_secs: i64,
    pub offset_secs: i32,
}

/// Seconds per calendar day.
pub const SECS_PER_DAY: i64 = 86400;

/// The sentinel erroneous instant: 1980-01-01T00:00:00+00:00.
///
/// The mail transport is known to stamp malformed entries with this epoch;
/// any entry at or before it is treated as corrupt and excluded from the
/// snapshot and from all aggregates.
pub const SENTINEL_EPOCH_SECS: i64 = 315532800;

impl Timestamp {
    /// Instant order: `self` is at or before `other`.
    pub open spec fn spec_le(self, other: Timestamp) -> bool {
        self.epoch_secs <= other.epoch_secs
    }

    /// Instant order: `self` is strictly before `other`.
    pub open spec fn spec_lt(self, other: Timestamp) -> bool {
        self.epoch_secs < other.epoch_secs
    }

    /// The calendar day this instant falls on in its own offset, counted in
    /// days since 1970-01-01 (negative for earlier days).
    pub open spec fn spec_day(self) -> int {
        (self.epoch_secs + self.offset_secs) / (SECS_PER_DAY as int)
    }

    /// Instant order: at or before `other`.
    pub fn is_at_or_before(&self, other: &Timestamp) -> (r: bool)
        ensures
            r == self.spec_le(*other),
    {
        self.epoch_secs <= other.epoch_secs
    }

    /// Instant order: strictly before `other`.
    pub fn is_before(&self, other: &Timestamp) -> (r: bool)
        ensures
            r == self.spec_lt(*other),
    {
        self.epoch_secs < other.epoch_secs
    }

    /// The calendar day of this instant in its own offset, as a day number
    /// since 1970-01-01.
    pub fn day_number(&self) -> (d: i64)
        ensures
            d == self.spec_day(),
    {
        let local: i128 = (self.epoch_secs as i128) + (self.offset_secs as i128);
        let q: i128 = local.checked_div_euclid(SECS_PER_DAY as i128).unwrap();
        q as i64
    }
}

/// The ghost shape of an [`Entry`]: every field as a mathematical value.
pub struct EntryModel {
    pub id: Seq<char>,
    pub message_id: Seq<char>,
    pub from_addr: Seq<char>,
    pub subject: Seq<char>,
    pub date: Timestamp,
}

/// One mailbox entry's metadata.
///
/// `message_id` is the dedup key: two entries with the same `message_id` are
/// the same logical entry, and a snapshot retains only one of them.
#[derive(Debug)]
pub struct Entry {
    pub id: String,
    pub message_id: String,
    pub from_addr: String,
    pub subject: String,
    pub date: Timestamp,
}

impl View for Entry {
    type V = EntryModel;

    open spec fn view(&self) -> EntryModel {
        EntryModel {
            id: self.id@,
            message_id: self.message_id@,
            from_addr: self.from_addr@,
            subject: self.subject@,
            date: self.date,
        }
    }
}

impl Clone for Entry {
    fn clone(&self) -> (r: Entry)
        ensures
            r@ == self@,
    {
        Entry {
            id: self.id.clone(),
            message_id: self.message_id.clone(),
            from_addr: self.from_addr.clone(),
            subject: self.subject.clone(),
            date: self.date,
        }
    }
}

impl Entry {
    /// Builds a record from an externally retrieved entry's fields, verbatim.
    /// No validation happens here; filtering is the sync engine's job.
    pub fn new(
        id: String,
        message_id: String,
        from_addr: String,
        subject: String,
        date: Timestamp,
    ) -> (r: Entry)
        ensures
            r@ == (EntryModel { id: id@, message_id: message_id@, from_addr: from_addr@, subject: subject@, date }),
    {
        Entry { id, message_id, from_addr, subject, date }
    }

    /// Dedup identity: two entries are the same logical entry exactly when
    /// their `message_id`s agree.
    pub fn same_identity(&self, other: &Entry) -> (r: bool)
        ensures
            r == (self@.message_id == other@.message_id),
    {
        self.message_id == other.message_id
    }
}

/// The ghost shape of a sequence of entries.
pub open spec fn models(s: Seq<Entry>) -> Seq<EntryModel> {
    s.map_values(|e: Entry| e@)
}

} // verus!
