//! Bounded per-slot shred statistics.
//!
//! Every shred that reaches the ledger is counted against its slot, by the
//! path it arrived on. The aggregates live in a least-recently-used cache of
//! fixed capacity; an aggregate leaves the cache either because a newer slot
//! pushed it out or because its slot reached a terminal state (full, dead,
//! rooted), and on its way out it is turned into exactly one [`SlotReport`].

pub mod flags;
pub mod stats;
pub mod recency;
pub mod cache;
pub mod laws;
