//! The bounded cache of slot statistics.

use crate::flags::SlotFlags;
use crate::recency::{
    has_slot, lru_capacity, lru_contains, lru_entries, lru_get_mut, lru_new, lru_peek, lru_pop,
    lru_push, position, MAX_CACHE_CAPACITY,
};
use crate::stats::{ShredSource, SlotReport, SlotStats, StatsModel};
use lru::LruCache;
use solana_clock::Slot;
use vstd::prelude::*;

verus! {

/// The number of slots that the default cache tracks at a time.
pub const SLOTS_STATS_CACHE_CAPACITY: usize = 300;

/// No two entries belong to one slot.
pub open spec fn distinct_slots(entries: Seq<(u64, StatsModel)>) -> bool {
    forall|i: int, j: int|
        0 <= i < entries.len() && 0 <= j < entries.len() && i != j ==> (#[trigger] entries[i]).0 != (
        #[trigger] entries[j]).0
}

/// The entries of a cache that can be worked on: it can hold at least one
/// entry, holds no more than it can, and holds each slot once.
pub open spec fn well_formed(entries: Seq<(u64, StatsModel)>, capacity: nat) -> bool {
    &&& 0 < capacity
    &&& entries.len() <= capacity
    &&& distinct_slots(entries)
}

/// The statistics that `entries` holds for `slot`; those of a fresh slot
/// where it holds none.
pub open spec fn stats_of(entries: Seq<(u64, StatsModel)>, slot: u64) -> StatsModel {
    if has_slot(entries, slot) {
        entries[position(entries, slot)].1
    } else {
        StatsModel::fresh()
    }
}

/// The entry that has to leave so that `slot` can be tracked: the least
/// recently used one, where `slot` is new and the cache is full.
pub open spec fn evicted_for(entries: Seq<(u64, StatsModel)>, capacity: nat, slot: u64) -> Option<
    (u64, StatsModel),
> {
    if !has_slot(entries, slot) && entries.len() == capacity {
        Some(entries.last())
    } else {
        None
    }
}

/// The entries other than that of `slot` once `slot` was looked up or
/// created: they keep their order, and the evicted one is gone.
pub open spec fn others_after_touch(entries: Seq<(u64, StatsModel)>, capacity: nat, slot: u64) -> Seq<
    (u64, StatsModel),
> {
    if has_slot(entries, slot) {
        entries.remove(position(entries, slot))
    } else if entries.len() == capacity {
        entries.drop_last()
    } else {
        entries
    }
}

/// The reports that are due for an evicted entry: one or none.
pub open spec fn eviction_reports(evicted: Option<(u64, StatsModel)>) -> Seq<SlotReport> {
    match evicted {
        Some((slot, stats)) => seq![stats.report(slot)],
        None => Seq::empty(),
    }
}

/// Looking up or creating `slot` makes room for its entry: the other entries
/// are well formed, none of them belongs to `slot`, and they leave room for
/// one more.
pub proof fn lemma_touch_makes_room(entries: Seq<(u64, StatsModel)>, capacity: nat, slot: u64)
    requires
        well_formed(entries, capacity),
    ensures
        well_formed(others_after_touch(entries, capacity, slot), capacity),
        !has_slot(others_after_touch(entries, capacity, slot), slot),
        others_after_touch(entries, capacity, slot).len() < capacity,
{
    let others = others_after_touch(entries, capacity, slot);
    if has_slot(entries, slot) {
        let at = position(entries, slot);
        assert forall|i: int| 0 <= i < others.len() implies (#[trigger] others[i]).0 != slot by {
            if i < at {
                assert(others[i] == entries[i]);
            } else {
                assert(others[i] == entries[i + 1]);
            }
        }
        assert forall|i: int, j: int|
            0 <= i < others.len() && 0 <= j < others.len() && i != j implies (#[trigger] others[i]).0
            != (#[trigger] others[j]).0 by {
            let oi = if i < at { i } else { i + 1 };
            let oj = if j < at { j } else { j + 1 };
            assert(others[i] == entries[oi]);
            assert(others[j] == entries[oj]);
        }
    } else {
        assert forall|i: int| 0 <= i < others.len() implies (#[trigger] others[i]).0 != slot by {
            assert(others[i] == entries[i]);
        }
        assert forall|i: int, j: int|
            0 <= i < others.len() && 0 <= j < others.len() && i != j implies (#[trigger] others[i]).0
            != (#[trigger] others[j]).0 by {
            assert(others[i] == entries[i]);
            assert(others[j] == entries[j]);
        }
    }
}

/// An entry put in front of entries that are well formed, hold no entry of
/// its slot and leave room for one, gives well-formed entries again.
pub proof fn lemma_front_well_formed(
    others: Seq<(u64, StatsModel)>,
    capacity: nat,
    slot: u64,
    stats: StatsModel,
)
    requires
        well_formed(others, capacity),
        !has_slot(others, slot),
        others.len() < capacity,
    ensures
        well_formed(seq![(slot, stats)] + others, capacity),
        has_slot(seq![(slot, stats)] + others, slot),
        position(seq![(slot, stats)] + others, slot) == 0,
        (seq![(slot, stats)] + others).remove(0) == others,
{
    let entries = seq![(slot, stats)] + others;
    assert(entries[0].0 == slot);
    assert forall|i: int| 1 <= i < entries.len() implies (#[trigger] entries[i]).0 != slot by {
        assert(entries[i] == others[i - 1]);
    }
    assert forall|i: int, j: int|
        0 <= i < entries.len() && 0 <= j < entries.len() && i != j implies (#[trigger] entries[i]).0
        != (#[trigger] entries[j]).0 by {
        if i > 0 {
            assert(entries[i] == others[i - 1]);
        }
        if j > 0 {
            assert(entries[j] == others[j - 1]);
        }
    }
    assert(entries.remove(0) =~= others);
}

/// In entries that hold each slot once, the entry at `at` is the one that
/// its slot is found at.
pub proof fn lemma_position_of_entry(entries: Seq<(u64, StatsModel)>, at: int)
    requires
        distinct_slots(entries),
        0 <= at < entries.len(),
    ensures
        has_slot(entries, entries[at].0),
        position(entries, entries[at].0) == at,
        stats_of(entries, entries[at].0) == entries[at].1,
{
    let slot = entries[at].0;
    let found = position(entries, slot);
    if found != at {
        assert(entries[found].0 != entries[at].0);
    }
}

/// Looking up or creating `slot` leaves every other slot as it was, but for
/// the evicted one, which is gone.
pub proof fn lemma_touch_keeps_others(
    entries: Seq<(u64, StatsModel)>,
    capacity: nat,
    slot: u64,
    other: u64,
)
    requires
        well_formed(entries, capacity),
        other != slot,
    ensures
        has_slot(others_after_touch(entries, capacity, slot), other) <==> has_slot(entries, other)
            && !(evicted_for(entries, capacity, slot) matches Some(evicted) && evicted.0 == other),
        has_slot(others_after_touch(entries, capacity, slot), other) ==> stats_of(
            others_after_touch(entries, capacity, slot),
            other,
        ) == stats_of(entries, other),
{
    let others = others_after_touch(entries, capacity, slot);
    lemma_touch_makes_room(entries, capacity, slot);
    if has_slot(others, other) {
        let at = position(others, other);
        lemma_position_of_entry(others, at);
        if has_slot(entries, slot) {
            let gone = position(entries, slot);
            let from = if at < gone {
                at
            } else {
                at + 1
            };
            assert(others[at] == entries[from]);
            lemma_position_of_entry(entries, from);
        } else {
            assert(others[at] == entries[at]);
            lemma_position_of_entry(entries, at);
            if entries.len() == capacity {
                assert(entries[at].0 != entries.last().0);
            }
        }
    }
    if has_slot(entries, other) && !(evicted_for(entries, capacity, slot) matches Some(evicted)
        && evicted.0 == other) {
        let from = position(entries, other);
        if has_slot(entries, slot) {
            let gone = position(entries, slot);
            let at = if from < gone {
                from
            } else {
                from - 1
            };
            assert(others[at] == entries[from]);
        } else {
            if entries.len() == capacity {
                assert(from != entries.len() - 1);
            }
            assert(others[from] == entries[from]);
        }
    }
}

/// An entry put in front is found there, and the entries behind it are
/// found as before.
pub proof fn lemma_front_keeps_others(
    others: Seq<(u64, StatsModel)>,
    capacity: nat,
    slot: u64,
    stats: StatsModel,
    other: u64,
)
    requires
        well_formed(others, capacity),
        !has_slot(others, slot),
        others.len() < capacity,
    ensures
        has_slot(seq![(slot, stats)] + others, other) <==> other == slot || has_slot(others, other),
        stats_of(seq![(slot, stats)] + others, other) == if other == slot {
            stats
        } else {
            stats_of(others, other)
        },
{
    let entries = seq![(slot, stats)] + others;
    lemma_front_well_formed(others, capacity, slot, stats);
    if other != slot {
        if has_slot(entries, other) {
            let at = position(entries, other);
            assert(entries[at] == others[at - 1]);
            lemma_position_of_entry(others, at - 1);
        }
        if has_slot(others, other) {
            let at = position(others, other);
            assert(entries[at + 1] == others[at]);
            lemma_position_of_entry(entries, at + 1);
        }
    }
}

/// The entries after a shred of `slot` was recorded: the entry of `slot`
/// comes first and counts the shred, unless the shred completed the slot, in
/// which case the slot is no longer tracked.
pub open spec fn after_record(
    entries: Seq<(u64, StatsModel)>,
    capacity: nat,
    slot: u64,
    fec_set_index: u32,
    source: ShredSource,
    shred_index: u64,
    slot_full: bool,
) -> Seq<(u64, StatsModel)> {
    let others = others_after_touch(entries, capacity, slot);
    if slot_full {
        others
    } else {
        seq![(slot, stats_of(entries, slot).record(fec_set_index, source, shred_index))] + others
    }
}

/// The reports that recording a shred of `slot` gives rise to: that of the
/// entry evicted to make room, if any, and then, if the shred completed the
/// slot, that of the slot itself, flagged as full.
pub open spec fn record_reports(
    entries: Seq<(u64, StatsModel)>,
    capacity: nat,
    slot: u64,
    fec_set_index: u32,
    source: ShredSource,
    shred_index: u64,
    slot_full: bool,
) -> Seq<SlotReport> {
    let evicted = eviction_reports(evicted_for(entries, capacity, slot));
    if slot_full {
        evicted.push(
            stats_of(entries, slot).record(fec_set_index, source, shred_index).with_flags(
                crate::flags::FULL_BIT,
            ).report(slot),
        )
    } else {
        evicted
    }
}

/// The entries after `slot` reached a terminal state: the slot is no longer
/// tracked, and neither is the entry that was evicted to look it up.
pub open spec fn after_flag(entries: Seq<(u64, StatsModel)>, capacity: nat, slot: u64) -> Seq<
    (u64, StatsModel),
> {
    others_after_touch(entries, capacity, slot)
}

/// The reports that flagging `slot` gives rise to: that of the entry evicted
/// to make room, if any, and then that of the slot itself with `flags` set.
pub open spec fn flag_reports(
    entries: Seq<(u64, StatsModel)>,
    capacity: nat,
    slot: u64,
    flags: u8,
) -> Seq<SlotReport> {
    eviction_reports(evicted_for(entries, capacity, slot)).push(
        stats_of(entries, slot).with_flags(flags).report(slot),
    )
}

/// A cache that the functions of [`SlotsStats`] accept: its entries are
/// [`well_formed`] for its capacity.
pub open spec fn cache_well_formed(cache: LruCache<u64, SlotStats>) -> bool {
    well_formed(lru_entries(cache), lru_capacity(cache))
}

/// The statistics of the slots that are being tracked, the most recently
/// touched ones only.
pub struct SlotsStats {
    pub stats: LruCache<Slot, SlotStats>,
}

impl View for SlotsStats {
    type V = Seq<(u64, StatsModel)>;

    /// The tracked slots with their statistics, from the most recently
    /// touched to the least recently touched.
    open spec fn view(&self) -> Seq<(u64, StatsModel)> {
        lru_entries(self.stats)
    }
}

impl SlotsStats {
    /// The number of slots that are tracked at most.
    pub open spec fn capacity(&self) -> nat {
        lru_capacity(self.stats)
    }

    /// The cache can be worked on: see [`well_formed`].
    pub open spec fn wf(&self) -> bool {
        well_formed(self@, self.capacity())
    }

    /// An empty cache that tracks at most `capacity` slots.
    pub fn with_capacity(capacity: usize) -> (cache: SlotsStats)
        requires
            0 < capacity <= MAX_CACHE_CAPACITY,
        ensures
            cache.wf(),
            cache@ == Seq::<(u64, StatsModel)>::empty(),
            cache.capacity() == capacity,
    {
        SlotsStats { stats: lru_new(capacity) }
    }

    /// Returns a mutable reference to the [`SlotStats`] of `slot` in the cache, and the entry
    /// that was evicted to make room for it, if any.
    ///
    /// A new entry is made if there is none for `slot`; where the cache is full, that evicts
    /// the least recently used entry, which is never that of `slot` itself. Either way the
    /// entry of `slot` becomes the most recently used one.
    pub fn get_or_default_with_eviction_check(stats: &mut LruCache<Slot, SlotStats>, slot: Slot) -> (found: (
        &mut SlotStats,
        Option<(Slot, SlotStats)>,
    ))
        requires
            cache_well_formed(*old(stats)),
        ensures
            lru_capacity(*final(stats)) == lru_capacity(*old(stats)),
            found.0@ == stats_of(lru_entries(*old(stats)), slot),
            lru_entries(*final(stats)) == seq![(slot, final(found.0)@)] + others_after_touch(
                lru_entries(*old(stats)),
                lru_capacity(*old(stats)),
                slot,
            ),
            match found.1 {
                Some((evicted_slot, evicted_stats)) => evicted_for(
                    lru_entries(*old(stats)),
                    lru_capacity(*old(stats)),
                    slot,
                ) == Some((evicted_slot, evicted_stats@)),
                None => evicted_for(lru_entries(*old(stats)), lru_capacity(*old(stats)), slot)
                    is None,
            },
            found.1 matches Some((evicted_slot, _)) ==> evicted_slot != slot,
    {
        let ghost entries = lru_entries(*stats);
        let ghost capacity = lru_capacity(*stats);
        let evicted = if lru_contains(stats, slot) {
            None
        } else {
            // insert slot in cache which might potentially evict an entry
            let evicted = lru_push(stats, slot, SlotStats::default());
            if let Some((evicted_slot, _)) = evicted {
                assert(evicted_slot != slot) by {
                    assert(entries.last().0 == evicted_slot);
                }
            }
            evicted
        };
        proof {
            lemma_touch_makes_room(entries, capacity, slot);
            if !has_slot(entries, slot) {
                let now = lru_entries(*stats);
                let others = others_after_touch(entries, capacity, slot);
                assert(now =~= seq![(slot, StatsModel::fresh())] + others);
                assert(now[0].0 == slot);
                let at = position(now, slot);
                if at != 0 {
                    assert(now[at] == others[at - 1]);
                }
                assert(now.remove(0) =~= others);
            }
        }
        (lru_get_mut(stats, slot).unwrap(), evicted)
    }

    /// The statistics of `slot`, if it is tracked. Looking does not count as
    /// use: the cache stays as it is.
    pub fn peek(&self, slot: Slot) -> (found: Option<&SlotStats>)
        ensures
            found is Some == has_slot(self@, slot),
            found matches Some(slot_stats) ==> slot_stats@ == stats_of(self@, slot),
    {
        lru_peek(&self.stats, slot)
    }

    /// Whether one more shred of this source and FEC set can be counted for
    /// `slot`: the counter it would raise is not at its limit. The cache
    /// stays as it is.
    pub fn can_record(&self, slot: Slot, fec_set_index: u32, source: ShredSource) -> (room: bool)
        ensures
            room == (stats_of(self@, slot).counter(fec_set_index, source) < usize::MAX),
    {
        match self.peek(slot) {
            Some(slot_stats) => slot_stats.can_record(fec_set_index, source),
            None => true,
        }
    }

    /// Counts one shred of `slot`, which is looked up or created first. If
    /// `slot_full` says that this shred completed the slot, the slot is
    /// flagged as full and its tracking ends at once.
    ///
    /// Returns the reports that are now due, in the order in which the
    /// entries left the cache: an evicted one first, then that of `slot`.
    pub fn record_shred(
        &mut self,
        slot: Slot,
        fec_set_index: u32,
        source: ShredSource,
        shred_index: u64,
        slot_full: bool,
    ) -> (reports: Vec<SlotReport>)
        requires
            old(self).wf(),
            stats_of(old(self)@, slot).counter(fec_set_index, source) < usize::MAX,
        ensures
            final(self).wf(),
            final(self).capacity() == old(self).capacity(),
            final(self)@ == after_record(
                old(self)@,
                old(self).capacity(),
                slot,
                fec_set_index,
                source,
                shred_index,
                slot_full,
            ),
            reports@ == record_reports(
                old(self)@,
                old(self).capacity(),
                slot,
                fec_set_index,
                source,
                shred_index,
                slot_full,
            ),
    {
        let ghost entries = self@;
        let ghost capacity = self.capacity();
        let ghost others = others_after_touch(entries, capacity, slot);
        let (slot_stats, evicted) = Self::get_or_default_with_eviction_check(&mut self.stats, slot);
        slot_stats.record_shred(fec_set_index, source, shred_index);
        if slot_full {
            slot_stats.add_flag(SlotFlags::full());
        }
        let ghost recorded = slot_stats@;
        proof {
            lemma_touch_makes_room(entries, capacity, slot);
            lemma_front_well_formed(others, capacity, slot, recorded);
        }
        let mut reports = Vec::new();
        if let Some((evicted_slot, evicted_stats)) = evicted {
            reports.push(evicted_stats.report(evicted_slot));
        }
        if slot_full {
            let closed = lru_pop(&mut self.stats, slot).unwrap();
            reports.push(closed.report(slot));
        }
        reports
    }

    /// Sets `flag` on `slot`, which is looked up or created first, and ends
    /// the tracking of the slot at once.
    ///
    /// Returns the reports that are now due, in the order in which the
    /// entries left the cache: an evicted one first, then that of `slot`.
    pub fn add_flag(&mut self, slot: Slot, flag: SlotFlags) -> (reports: Vec<SlotReport>)
        requires
            old(self).wf(),
        ensures
            final(self).wf(),
            final(self).capacity() == old(self).capacity(),
            final(self)@ == after_flag(old(self)@, old(self).capacity(), slot),
            reports@ == flag_reports(old(self)@, old(self).capacity(), slot, flag@),
    {
        let ghost entries = self@;
        let ghost capacity = self.capacity();
        let ghost others = others_after_touch(entries, capacity, slot);
        let (slot_stats, evicted) = Self::get_or_default_with_eviction_check(&mut self.stats, slot);
        slot_stats.add_flag(flag);
        let ghost flagged = slot_stats@;
        proof {
            lemma_touch_makes_room(entries, capacity, slot);
            lemma_front_well_formed(others, capacity, slot, flagged);
        }
        let mut reports = Vec::new();
        if let Some((evicted_slot, evicted_stats)) = evicted {
            reports.push(evicted_stats.report(evicted_slot));
        }
        let closed = lru_pop(&mut self.stats, slot).unwrap();
        reports.push(closed.report(slot));
        reports
    }

    /// Notes that replay gave up on `slot` and ends its tracking: see
    /// [`SlotsStats::add_flag`].
    pub fn mark_dead(&mut self, slot: Slot) -> (reports: Vec<SlotReport>)
        requires
            old(self).wf(),
        ensures
            final(self).wf(),
            final(self).capacity() == old(self).capacity(),
            final(self)@ == after_flag(old(self)@, old(self).capacity(), slot),
            reports@ == flag_reports(
                old(self)@,
                old(self).capacity(),
                slot,
                crate::flags::DEAD_BIT,
            ),
    {
        self.add_flag(slot, SlotFlags::dead())
    }

    /// Notes that `slot` was rooted and ends its tracking: see
    /// [`SlotsStats::add_flag`].
    pub fn mark_rooted(&mut self, slot: Slot) -> (reports: Vec<SlotReport>)
        requires
            old(self).wf(),
        ensures
            final(self).wf(),
            final(self).capacity() == old(self).capacity(),
            final(self)@ == after_flag(old(self)@, old(self).capacity(), slot),
            reports@ == flag_reports(
                old(self)@,
                old(self).capacity(),
                slot,
                crate::flags::ROOTED_BIT,
            ),
    {
        self.add_flag(slot, SlotFlags::rooted())
    }
}

impl Default for SlotsStats {
    /// An empty cache of the default capacity.
    fn default() -> (cache: SlotsStats)
        ensures
            cache.wf(),
            cache@ == Seq::<(u64, StatsModel)>::empty(),
            cache.capacity() == SLOTS_STATS_CACHE_CAPACITY,
    {
        Self { stats: lru_new(SLOTS_STATS_CACHE_CAPACITY) }
    }
}

} // verus!
