//! The statistics gathered for one slot, and the record that reports them.

use crate::flags::SlotFlags;
use std::collections::HashMap;
use vstd::prelude::*;
use vstd::std_specs::iter::IteratorSpec;

verus! {

/// The path on which a shred reached this node.
#[derive(Copy, Clone, Debug, PartialEq, Eq, Structural)]
pub enum ShredSource {
    Turbine,
    Repaired,
    Recovered,
}

/// What a [`SlotStats`] stands for: its counters as natural numbers.
pub struct StatsModel {
    /// Shreds received over turbine, by the index of their FEC set.
    pub turbine_counts: Map<u32, nat>,
    /// Shreds obtained by repair.
    pub num_repaired: nat,
    /// Shreds rebuilt by erasure recovery.
    pub num_recovered: nat,
    /// The highest shred index seen so far.
    pub last_index: u64,
    /// The bit pattern of the slot's flags.
    pub flags: u8,
}

/// The least count that `counts` holds, and 0 where it holds none.
pub open spec fn min_count(counts: Map<u32, nat>) -> nat {
    if counts.dom().is_empty() {
        0
    } else {
        choose|m: nat| is_least_count(counts, m)
    }
}

/// `m` is the count of some FEC set, and no FEC set has a lower one.
pub open spec fn is_least_count(counts: Map<u32, nat>, m: nat) -> bool {
    &&& exists|k: u32| counts.contains_key(k) && #[trigger] counts[k] == m
    &&& forall|k: u32| counts.contains_key(k) ==> m <= #[trigger] counts[k]
}

/// A count that is least is the one that [`min_count`] names.
pub proof fn lemma_least_count_is_min(counts: Map<u32, nat>, m: nat)
    requires
        is_least_count(counts, m),
    ensures
        min_count(counts) == m,
{
    let k = choose|k: u32| counts.contains_key(k) && #[trigger] counts[k] == m;
    assert(counts.dom().contains(k));
    let c = choose|c: nat| is_least_count(counts, c);
    assert(is_least_count(counts, c));
    let kc = choose|kc: u32| counts.contains_key(kc) && #[trigger] counts[kc] == c;
    assert(c <= counts[k]);
    assert(m <= counts[kc]);
}

/// Where finitely many FEC sets have a count, and at least one has,
/// [`min_count`] is the count of one of them and no FEC set has a lower one.
pub proof fn lemma_min_count_is_least(counts: Map<u32, nat>)
    requires
        counts.dom().finite(),
        !counts.dom().is_empty(),
    ensures
        is_least_count(counts, min_count(counts)),
    decreases counts.dom().len(),
{
    let k = counts.dom().choose();
    let rest = counts.remove(k);
    assert(counts.contains_key(k));
    if rest.dom().is_empty() {
        assert forall|other: u32| counts.contains_key(other) implies counts[k]
            <= #[trigger] counts[other] by {
            if other != k {
                assert(rest.dom().contains(other));
            }
        }
        assert(is_least_count(counts, counts[k]));
    } else {
        lemma_min_count_is_least(rest);
        let least = min_count(rest);
        let held = choose|held: u32| rest.contains_key(held) && #[trigger] rest[held] == least;
        assert(counts.contains_key(held) && counts[held] == least);
        let best = if counts[k] < least {
            counts[k]
        } else {
            least
        };
        assert forall|other: u32| counts.contains_key(other) implies best
            <= #[trigger] counts[other] by {
            if other != k {
                assert(rest.contains_key(other) && rest[other] == counts[other]);
            }
        }
        assert(is_least_count(counts, best));
    }
}

impl StatsModel {
    /// The statistics of a slot of which nothing was seen yet.
    pub open spec fn fresh() -> StatsModel {
        StatsModel {
            turbine_counts: Map::empty(),
            num_repaired: 0,
            num_recovered: 0,
            last_index: 0,
            flags: 0,
        }
    }

    /// How often a turbine shred of FEC set `fec_set_index` was recorded.
    pub open spec fn turbine_count(self, fec_set_index: u32) -> nat {
        if self.turbine_counts.contains_key(fec_set_index) {
            self.turbine_counts[fec_set_index]
        } else {
            0
        }
    }

    /// The statistics after one more shred: the counter of its source goes up
    /// by one, and the last index rises to the shred's index if that is higher.
    pub open spec fn record(self, fec_set_index: u32, source: ShredSource, index: u64) -> StatsModel {
        let last_index = if index > self.last_index {
            index
        } else {
            self.last_index
        };
        match source {
            ShredSource::Turbine => StatsModel {
                turbine_counts: self.turbine_counts.insert(
                    fec_set_index,
                    self.turbine_count(fec_set_index) + 1,
                ),
                last_index,
                ..self
            },
            ShredSource::Repaired => StatsModel {
                num_repaired: self.num_repaired + 1,
                last_index,
                ..self
            },
            ShredSource::Recovered => StatsModel {
                num_recovered: self.num_recovered + 1,
                last_index,
                ..self
            },
        }
    }

    /// The counter that a shred of this source and FEC set would raise.
    pub open spec fn counter(self, fec_set_index: u32, source: ShredSource) -> nat {
        match source {
            ShredSource::Turbine => self.turbine_count(fec_set_index),
            ShredSource::Repaired => self.num_repaired,
            ShredSource::Recovered => self.num_recovered,
        }
    }

    /// The statistics with every flag of `flags` set.
    pub open spec fn with_flags(self, flags: u8) -> StatsModel {
        StatsModel { flags: self.flags | flags, ..self }
    }

    /// The record that reports these statistics for `slot`.
    pub open spec fn report(self, slot: u64) -> SlotReport {
        SlotReport {
            slot,
            last_index: self.last_index,
            num_repaired: self.num_repaired as usize,
            num_recovered: self.num_recovered as usize,
            min_turbine_fec_set_count: min_count(self.turbine_counts) as usize,
            is_full: self.flags & crate::flags::FULL_BIT == crate::flags::FULL_BIT,
            is_rooted: self.flags & crate::flags::ROOTED_BIT == crate::flags::ROOTED_BIT,
            is_dead: self.flags & crate::flags::DEAD_BIT == crate::flags::DEAD_BIT,
        }
    }
}

/// The statistics of one slot: how many of its shreds came over each path,
/// the highest shred index seen, and the slot's flags.
pub struct SlotStats {
    /// The number of turbine shreds received, by the index of their FEC set.
    turbine_fec_set_index_counts: HashMap<u32, usize>,
    num_repaired: usize,
    num_recovered: usize,
    last_index: u64,
    flags: SlotFlags,
}

impl View for SlotStats {
    type V = StatsModel;

    closed spec fn view(&self) -> StatsModel {
        StatsModel {
            turbine_counts: self.turbine_fec_set_index_counts@.map_values(|c: usize| c as nat),
            num_repaired: self.num_repaired as nat,
            num_recovered: self.num_recovered as nat,
            last_index: self.last_index,
            flags: self.flags@,
        }
    }
}

impl SlotStats {
    /// Every counter of these statistics fits a machine word.
    pub proof fn lemma_counters_bounded(&self)
        ensures
            self@.num_repaired <= usize::MAX,
            self@.num_recovered <= usize::MAX,
            forall|k: u32| #[trigger] self@.turbine_count(k) <= usize::MAX,
            self@.turbine_counts.dom().finite(),
    {
        assert(self@.turbine_counts.dom() =~= self.turbine_fec_set_index_counts@.dom());
    }

    /// The number of shreds obtained by repair.
    pub fn num_repaired(&self) -> (count: usize)
        ensures
            count == self@.num_repaired,
    {
        self.num_repaired
    }

    /// The number of shreds rebuilt by erasure recovery.
    pub fn num_recovered(&self) -> (count: usize)
        ensures
            count == self@.num_recovered,
    {
        self.num_recovered
    }

    /// The highest shred index seen so far.
    pub fn last_index(&self) -> (index: u64)
        ensures
            index == self@.last_index,
    {
        self.last_index
    }

    /// The flags of the slot.
    pub fn flags(&self) -> (flags: SlotFlags)
        ensures
            flags@ == self@.flags,
    {
        self.flags
    }

    /// The number of turbine shreds recorded for FEC set `fec_set_index`.
    pub fn turbine_count(&self, fec_set_index: u32) -> (count: usize)
        ensures
            count == self@.turbine_count(fec_set_index),
    {
        match self.turbine_fec_set_index_counts.get(&fec_set_index) {
            Some(count) => *count,
            None => 0,
        }
    }

    /// Whether one more shred of this source and FEC set can be counted: the
    /// counter it would raise is not at its limit.
    pub fn can_record(&self, fec_set_index: u32, source: ShredSource) -> (room: bool)
        ensures
            room == (self@.counter(fec_set_index, source) < usize::MAX),
    {
        match source {
            ShredSource::Recovered => self.num_recovered < usize::MAX,
            ShredSource::Repaired => self.num_repaired < usize::MAX,
            ShredSource::Turbine => self.turbine_count(fec_set_index) < usize::MAX,
        }
    }

    /// Counts one shred of the slot: under its FEC set if it came over
    /// turbine, else under its source. The last index rises to `shred_index`
    /// if that is higher. A shred that is recorded twice is counted twice.
    pub fn record_shred(&mut self, fec_set_index: u32, source: ShredSource, shred_index: u64)
        requires
            old(self)@.counter(fec_set_index, source) < usize::MAX,
        ensures
            final(self)@ == old(self)@.record(fec_set_index, source, shred_index),
    {
        match source {
            ShredSource::Recovered => self.num_recovered += 1,
            ShredSource::Repaired => self.num_repaired += 1,
            ShredSource::Turbine => {
                let count = self.turbine_fec_set_index_counts.entry(fec_set_index).or_insert(0);
                *count += 1;
                assert(self@.turbine_counts =~= old(self)@.turbine_counts.insert(
                    fec_set_index,
                    old(self)@.turbine_count(fec_set_index) + 1,
                ));
            },
        }
        if shred_index > self.last_index {
            self.last_index = shred_index;
        }
    }

    /// Sets every flag of `flag`; flags that are set stay set.
    pub fn add_flag(&mut self, flag: SlotFlags)
        ensures
            final(self)@ == old(self)@.with_flags(flag@),
    {
        self.flags.insert(flag);
    }

    /// The record that reports these statistics for `slot`. The statistics
    /// stay as they are.
    pub fn report(&self, slot: u64) -> (report: SlotReport)
        ensures
            report == self@.report(slot),
    {
        let min_fec_set_count = self.get_min_index_count();
        SlotReport {
            slot,
            last_index: self.last_index,
            num_repaired: self.num_repaired,
            num_recovered: self.num_recovered,
            min_turbine_fec_set_count: min_fec_set_count,
            is_full: self.flags.contains(SlotFlags::full()),
            is_rooted: self.flags.contains(SlotFlags::rooted()),
            is_dead: self.flags.contains(SlotFlags::dead()),
        }
    }

    /// The least number of turbine shreds that any FEC set of the slot has
    /// received, and 0 while no turbine shred was recorded.
    pub fn get_min_index_count(&self) -> (min: usize)
        ensures
            min == min_count(self@.turbine_counts),
            self@.turbine_counts.dom().is_empty() ==> min == 0,
            !self@.turbine_counts.dom().is_empty() ==> is_least_count(
                self@.turbine_counts,
                min as nat,
            ),
    {
        let ghost counts = self.turbine_fec_set_index_counts@;
        let ghost seq = self.turbine_fec_set_index_counts.values().remaining();
        let ghost mut seen: int = 0;
        let mut min: Option<usize> = None;
        for count in it: self.turbine_fec_set_index_counts.values()
            invariant
                it.seq() == seq,
                it.index() == seen,
                min is None <==> seen == 0,
                min matches Some(m) ==> {
                    &&& exists|j: int| 0 <= j < seen && *#[trigger] seq[j] == m
                    &&& forall|j: int| 0 <= j < seen ==> m <= *#[trigger] seq[j]
                },
        {
            let lower = match min {
                None => true,
                Some(m) => *count < m,
            };
            if lower {
                min = Some(*count);
            }
            proof {
                seen = seen + 1;
            }
        }
        proof {
            let model = self@.turbine_counts;
            assert(model.dom() =~= counts.dom());
            assert(seen == seq.len());
            assert(seq.unref().to_set() == counts.values());
            assert(seq.len() == counts.dom().len());
            match min {
                None => {
                    assert(counts.dom().len() == 0);
                    assert(counts.dom().finite());
                    assert(counts.dom().is_empty());
                },
                Some(m) => {
                    let j = choose|j: int| 0 <= j < seq.len() && *#[trigger] seq[j] == m;
                    assert(seq.unref()[j] == m);
                    assert(seq.unref().to_set().contains(m));
                    assert(counts.values().contains(m));
                    let k = choose|k: u32| counts.contains_key(k) && #[trigger] counts[k] == m;
                    assert(model.contains_key(k) && model[k] == m as nat);
                    assert forall|k2: u32| model.contains_key(k2) implies m as nat
                        <= #[trigger] model[k2] by {
                        let c = counts[k2];
                        assert(counts.values().contains(c));
                        assert(seq.unref().to_set().contains(c));
                        let j2 = choose|j2: int| 0 <= j2 < seq.unref().len() && seq.unref()[j2] == c;
                        assert(*seq[j2] == c);
                    }
                    lemma_least_count_is_min(model, m as nat);
                },
            }
        }
        match min {
            None => 0,
            Some(m) => m,
        }
    }
}

impl Clone for SlotStats {
    /// A copy that stands for the same statistics.
    fn clone(&self) -> (copy: SlotStats)
        ensures
            copy@ == self@,
    {
        SlotStats {
            turbine_fec_set_index_counts: self.turbine_fec_set_index_counts.clone(),
            num_repaired: self.num_repaired,
            num_recovered: self.num_recovered,
            last_index: self.last_index,
            flags: self.flags,
        }
    }
}

impl Default for SlotStats {
    /// The statistics of a slot of which nothing was seen yet.
    fn default() -> (stats: SlotStats)
        ensures
            stats@ == StatsModel::fresh(),
    {
        let stats = SlotStats {
            turbine_fec_set_index_counts: HashMap::new(),
            num_repaired: 0,
            num_recovered: 0,
            last_index: 0,
            flags: SlotFlags::empty(),
        };
        assert(stats@.turbine_counts =~= Map::empty());
        stats
    }
}

/// The record that is emitted once for a slot when its tracking ends.
#[derive(Copy, Clone, Debug, PartialEq, Eq, Structural)]
pub struct SlotReport {
    pub slot: u64,
    pub last_index: u64,
    pub num_repaired: usize,
    pub num_recovered: usize,
    pub min_turbine_fec_set_count: usize,
    pub is_full: bool,
    pub is_rooted: bool,
    pub is_dead: bool,
}

} // verus!
