//! The recency-ordered cache that holds the statistics, and what is taken on
//! trust about it.
//!
//! The cache itself is `lru::LruCache`. Verus does not look inside it: its
//! contents and its capacity are given names here, and each method that the
//! library calls gets a wrapper whose contract states, over those names, what
//! the method does. Nothing in this file is proved; everything else in the
//! library is proved from it.

use crate::stats::{SlotStats, StatsModel};
use lru::LruCache;
use vstd::prelude::*;

verus! {

/// `lru::LruCache`, as a type whose inside Verus does not see.
#[verifier::external_type_specification]
#[verifier::external_body]
#[verifier::reject_recursive_types(K)]
#[verifier::reject_recursive_types(V)]
#[verifier::reject_recursive_types(S)]
pub struct ExLruCache<K, V, S>(LruCache<K, V, S>);

/// `lru::DefaultHasher`, the hasher that `LruCache::new` builds its cache
/// with, as a type whose inside Verus does not see.
#[verifier::external_type_specification]
#[verifier::external_body]
pub struct ExDefaultHasher(lru::DefaultHasher);

/// The entries of a cache, from the most recently used to the least recently
/// used: each slot with what its statistics stand for.
pub uninterp spec fn lru_entries(cache: LruCache<u64, SlotStats>) -> Seq<(u64, StatsModel)>;

/// The number of entries that a cache was made to hold at most.
pub uninterp spec fn lru_capacity(cache: LruCache<u64, SlotStats>) -> nat;

/// Some entry of `entries` belongs to `slot`.
pub open spec fn has_slot(entries: Seq<(u64, StatsModel)>, slot: u64) -> bool {
    exists|i: int| 0 <= i < entries.len() && (#[trigger] entries[i]).0 == slot
}

/// Where the entry of `slot` stands in `entries`, if it has one.
pub open spec fn position(entries: Seq<(u64, StatsModel)>, slot: u64) -> int {
    choose|i: int| 0 <= i < entries.len() && (#[trigger] entries[i]).0 == slot
}

/// The largest capacity that a cache is made with. `LruCache::new` sizes a
/// hash table for the capacity it is given and panics where that size
/// overflows; up to this limit it does not, on 32-bit machines either.
pub const MAX_CACHE_CAPACITY: usize = 0x0100_0000;

/// `LruCache::new`: an empty cache that holds at most `capacity` entries.
#[verifier::external_body]
pub(crate) fn lru_new(capacity: usize) -> (cache: LruCache<u64, SlotStats>)
    requires
        capacity <= MAX_CACHE_CAPACITY,
    ensures
        lru_entries(cache) == Seq::<(u64, StatsModel)>::empty(),
        lru_capacity(cache) == capacity,
{
    LruCache::new(capacity)
}

/// `LruCache::contains`: whether `slot` has an entry. The order of the
/// entries stays as it is.
#[verifier::external_body]
pub(crate) fn lru_contains(cache: &LruCache<u64, SlotStats>, slot: u64) -> (found: bool)
    ensures
        found == has_slot(lru_entries(*cache), slot),
{
    cache.contains(&slot)
}

/// `LruCache::peek`: the statistics of `slot`, if it has an entry. The order
/// of the entries stays as it is.
#[verifier::external_body]
pub(crate) fn lru_peek(cache: &LruCache<u64, SlotStats>, slot: u64) -> (found: Option<&SlotStats>)
    ensures
        found is Some == has_slot(lru_entries(*cache), slot),
        found matches Some(stats) ==> stats@ == lru_entries(*cache)[position(
            lru_entries(*cache),
            slot,
        )].1,
{
    cache.peek(&slot)
}

/// `LruCache::push` for a slot that has no entry, on a cache that can hold
/// one: the new entry becomes the most recently used. Where the cache was
/// full, the least recently used entry leaves and is returned.
#[verifier::external_body]
pub(crate) fn lru_push(cache: &mut LruCache<u64, SlotStats>, slot: u64, stats: SlotStats) -> (evicted:
    Option<(u64, SlotStats)>)
    requires
        !has_slot(lru_entries(*old(cache)), slot),
        lru_capacity(*old(cache)) > 0,
    ensures
        lru_capacity(*final(cache)) == lru_capacity(*old(cache)),
        lru_entries(*old(cache)).len() == lru_capacity(*old(cache)) ==> {
            &&& evicted matches Some((evicted_slot, evicted_stats))
            &&& (evicted_slot, evicted_stats@) == lru_entries(*old(cache)).last()
            &&& lru_entries(*final(cache)) == seq![(slot, stats@)] + lru_entries(
                *old(cache),
            ).drop_last()
        },
        lru_entries(*old(cache)).len() != lru_capacity(*old(cache)) ==> {
            &&& evicted is None
            &&& lru_entries(*final(cache)) == seq![(slot, stats@)] + lru_entries(*old(cache))
        },
{
    cache.push(slot, stats)
}

/// `LruCache::get_mut`: the statistics of `slot`, to be changed in place,
/// if it has an entry; that entry becomes the most recently used.
#[verifier::external_body]
pub(crate) fn lru_get_mut(cache: &mut LruCache<u64, SlotStats>, slot: u64) -> (found: Option<
    &mut SlotStats,
>)
    ensures
        lru_capacity(*final(cache)) == lru_capacity(*old(cache)),
        found is Some == has_slot(lru_entries(*old(cache)), slot),
        found matches Some(stats) ==> {
            let at = position(lru_entries(*old(cache)), slot);
            &&& stats@ == lru_entries(*old(cache))[at].1
            &&& lru_entries(*final(cache)) == seq![(slot, final(stats)@)] + lru_entries(
                *old(cache),
            ).remove(at)
        },
        found is None ==> lru_entries(*final(cache)) == lru_entries(*old(cache)),
{
    cache.get_mut(&slot)
}

/// `LruCache::pop`: takes the entry of `slot` out of the cache, if it has
/// one, and returns its statistics; the other entries keep their order.
#[verifier::external_body]
pub(crate) fn lru_pop(cache: &mut LruCache<u64, SlotStats>, slot: u64) -> (taken: Option<SlotStats>)
    ensures
        lru_capacity(*final(cache)) == lru_capacity(*old(cache)),
        taken is Some == has_slot(lru_entries(*old(cache)), slot),
        taken matches Some(stats) ==> {
            let at = position(lru_entries(*old(cache)), slot);
            &&& stats@ == lru_entries(*old(cache))[at].1
            &&& lru_entries(*final(cache)) == lru_entries(*old(cache)).remove(at)
        },
        taken is None ==> lru_entries(*final(cache)) == lru_entries(*old(cache)),
{
    cache.pop(&slot)
}

} // verus!
