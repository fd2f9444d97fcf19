//! What holds of the statistics and of the cache over whole runs: laws that
//! relate several operations, proved from the definitions the operations'
//! contracts are stated in.

use crate::cache::{
    after_flag, after_record, evicted_for, eviction_reports, flag_reports,
    lemma_front_keeps_others, lemma_front_well_formed, lemma_position_of_entry,
    lemma_touch_keeps_others, lemma_touch_makes_room, others_after_touch, record_reports,
    stats_of, well_formed,
};
use crate::recency::{has_slot, position};
use crate::stats::{is_least_count, min_count, ShredSource, SlotReport, StatsModel};
use vstd::prelude::*;

verus! {

/// One shred as it is recorded for a slot.
pub struct Shred {
    pub fec_set_index: u32,
    pub source: ShredSource,
    pub index: u64,
}

/// The statistics after every shred of `shreds` was recorded, in order.
pub open spec fn record_all(start: StatsModel, shreds: Seq<Shred>) -> StatsModel
    decreases shreds.len(),
{
    if shreds.len() == 0 {
        start
    } else {
        let shred = shreds.last();
        record_all(start, shreds.drop_last()).record(shred.fec_set_index, shred.source, shred.index)
    }
}

/// The highest index among `shreds`, and 0 where there is none.
pub open spec fn max_index(shreds: Seq<Shred>) -> u64
    decreases shreds.len(),
{
    if shreds.len() == 0 {
        0
    } else {
        let before = max_index(shreds.drop_last());
        if shreds.last().index > before {
            shreds.last().index
        } else {
            before
        }
    }
}

/// How many of `shreds` came from `source`.
pub open spec fn count_from(shreds: Seq<Shred>, source: ShredSource) -> nat
    decreases shreds.len(),
{
    if shreds.len() == 0 {
        0
    } else {
        count_from(shreds.drop_last(), source) + if shreds.last().source == source {
            1nat
        } else {
            0nat
        }
    }
}

/// How many of `shreds` came over turbine in FEC set `fec_set_index`.
pub open spec fn count_turbine(shreds: Seq<Shred>, fec_set_index: u32) -> nat
    decreases shreds.len(),
{
    if shreds.len() == 0 {
        0
    } else {
        count_turbine(shreds.drop_last(), fec_set_index) + if shreds.last().source
            == ShredSource::Turbine && shreds.last().fec_set_index == fec_set_index {
            1nat
        } else {
            0nat
        }
    }
}

/// The larger of two indices.
pub open spec fn higher(a: u64, b: u64) -> u64 {
    if a >= b {
        a
    } else {
        b
    }
}

/// Recording one shred raises the counter of its source by one and no other
/// counter, never lowers the last index, and leaves the flags alone.
pub proof fn lemma_record_counts_one(
    stats: StatsModel,
    fec_set_index: u32,
    source: ShredSource,
    index: u64,
)
    ensures
        ({
            let after = stats.record(fec_set_index, source, index);
            &&& after.counter(fec_set_index, source) == stats.counter(fec_set_index, source) + 1
            &&& after.num_repaired >= stats.num_repaired
            &&& after.num_recovered >= stats.num_recovered
            &&& forall|fec: u32| after.turbine_count(fec) >= stats.turbine_count(fec)
            &&& forall|fec: u32|
                source != ShredSource::Turbine || fec != fec_set_index ==> after.turbine_count(fec)
                    == stats.turbine_count(fec)
            &&& source != ShredSource::Repaired ==> after.num_repaired == stats.num_repaired
            &&& source != ShredSource::Recovered ==> after.num_recovered == stats.num_recovered
            &&& after.last_index == higher(stats.last_index, index)
            &&& after.flags == stats.flags
        }),
{
}

/// After any sequence of shreds was recorded for a slot, the last index is
/// the highest index that was passed (or the one held before, if that was
/// higher), each FEC set's count has grown by the number of turbine shreds
/// recorded for it, and the repair and recovery counters have grown by the
/// number of shreds from their source.
pub proof fn lemma_record_all_counts(start: StatsModel, shreds: Seq<Shred>)
    ensures
        record_all(start, shreds).last_index == higher(start.last_index, max_index(shreds)),
        forall|fec: u32| #[trigger]
            record_all(start, shreds).turbine_count(fec) == start.turbine_count(fec)
                + count_turbine(shreds, fec),
        record_all(start, shreds).num_repaired == start.num_repaired + count_from(
            shreds,
            ShredSource::Repaired,
        ),
        record_all(start, shreds).num_recovered == start.num_recovered + count_from(
            shreds,
            ShredSource::Recovered,
        ),
        record_all(start, shreds).flags == start.flags,
    decreases shreds.len(),
{
    if shreds.len() > 0 {
        let shred = shreds.last();
        let before = record_all(start, shreds.drop_last());
        lemma_record_all_counts(start, shreds.drop_last());
        lemma_record_counts_one(before, shred.fec_set_index, shred.source, shred.index);
        assert forall|fec: u32| #[trigger]
            record_all(start, shreds).turbine_count(fec) == start.turbine_count(fec)
                + count_turbine(shreds, fec) by {
            assert(before.turbine_count(fec) == start.turbine_count(fec) + count_turbine(
                shreds.drop_last(),
                fec,
            ));
        }
    }
}

/// For a slot that starts fresh, the last index is the highest index passed
/// and each FEC set's count is the number of turbine shreds recorded for it.
pub proof fn lemma_record_all_from_fresh(shreds: Seq<Shred>)
    ensures
        record_all(StatsModel::fresh(), shreds).last_index == max_index(shreds),
        forall|fec: u32| #[trigger]
            record_all(StatsModel::fresh(), shreds).turbine_count(fec) == count_turbine(shreds, fec),
        record_all(StatsModel::fresh(), shreds).num_repaired == count_from(
            shreds,
            ShredSource::Repaired,
        ),
        record_all(StatsModel::fresh(), shreds).num_recovered == count_from(
            shreds,
            ShredSource::Recovered,
        ),
{
    lemma_record_all_counts(StatsModel::fresh(), shreds);
    assert forall|fec: u32| #[trigger]
        record_all(StatsModel::fresh(), shreds).turbine_count(fec) == count_turbine(shreds, fec) by {
        assert(StatsModel::fresh().turbine_count(fec) == 0);
    }
}

/// One call into the cache.
pub enum Call {
    /// A shred of `slot` is recorded; `slot_full` says whether it completed
    /// the slot.
    Record { slot: u64, shred: Shred, slot_full: bool },
    /// `slot` is flagged as having reached a terminal state.
    Flag { slot: u64, flags: u8 },
}

impl Call {
    /// The slot that the call is about.
    pub open spec fn slot(self) -> u64 {
        match self {
            Call::Record { slot, .. } => slot,
            Call::Flag { slot, .. } => slot,
        }
    }
}

/// The entries after one call.
pub open spec fn step(entries: Seq<(u64, StatsModel)>, capacity: nat, call: Call) -> Seq<
    (u64, StatsModel),
> {
    match call {
        Call::Record { slot, shred, slot_full } => after_record(
            entries,
            capacity,
            slot,
            shred.fec_set_index,
            shred.source,
            shred.index,
            slot_full,
        ),
        Call::Flag { slot, flags } => after_flag(entries, capacity, slot),
    }
}

/// The reports that one call returns.
pub open spec fn step_reports(entries: Seq<(u64, StatsModel)>, capacity: nat, call: Call) -> Seq<
    SlotReport,
> {
    match call {
        Call::Record { slot, shred, slot_full } => record_reports(
            entries,
            capacity,
            slot,
            shred.fec_set_index,
            shred.source,
            shred.index,
            slot_full,
        ),
        Call::Flag { slot, flags } => flag_reports(entries, capacity, slot, flags),
    }
}

/// The entries after every call of `calls` was made, in order.
pub open spec fn run(entries: Seq<(u64, StatsModel)>, capacity: nat, calls: Seq<Call>) -> Seq<
    (u64, StatsModel),
>
    decreases calls.len(),
{
    if calls.len() == 0 {
        entries
    } else {
        step(run(entries, capacity, calls.drop_last()), capacity, calls.last())
    }
}

/// All reports that the calls of `calls` return, in order.
pub open spec fn run_reports(entries: Seq<(u64, StatsModel)>, capacity: nat, calls: Seq<Call>) -> Seq<
    SlotReport,
>
    decreases calls.len(),
{
    if calls.len() == 0 {
        Seq::empty()
    } else {
        run_reports(entries, capacity, calls.drop_last()) + step_reports(
            run(entries, capacity, calls.drop_last()),
            capacity,
            calls.last(),
        )
    }
}

/// How many of the calls of `calls` found their slot untracked, and so
/// created statistics for it.
pub open spec fn created(entries: Seq<(u64, StatsModel)>, capacity: nat, calls: Seq<Call>) -> nat
    decreases calls.len(),
{
    if calls.len() == 0 {
        0
    } else {
        created(entries, capacity, calls.drop_last()) + if has_slot(
            run(entries, capacity, calls.drop_last()),
            calls.last().slot(),
        ) {
            0nat
        } else {
            1nat
        }
    }
}

/// How many of `reports` are about `slot`.
pub open spec fn reports_about(reports: Seq<SlotReport>, slot: u64) -> nat
    decreases reports.len(),
{
    if reports.len() == 0 {
        0
    } else {
        reports_about(reports.drop_last(), slot) + if reports.last().slot == slot {
            1nat
        } else {
            0nat
        }
    }
}

/// One call keeps the cache well formed: it never holds more entries than
/// its capacity, nor a slot twice.
pub proof fn lemma_step_well_formed(entries: Seq<(u64, StatsModel)>, capacity: nat, call: Call)
    requires
        well_formed(entries, capacity),
    ensures
        well_formed(step(entries, capacity, call), capacity),
        step(entries, capacity, call).len() <= capacity,
{
    let slot = call.slot();
    lemma_touch_makes_room(entries, capacity, slot);
    match call {
        Call::Record { slot, shred, slot_full } => {
            lemma_front_well_formed(
                others_after_touch(entries, capacity, slot),
                capacity,
                slot,
                stats_of(entries, slot).record(shred.fec_set_index, shred.source, shred.index),
            );
        },
        Call::Flag { slot, flags } => {},
    }
}

/// After any sequence of calls the cache holds no more entries than its
/// capacity.
pub proof fn lemma_size_never_exceeds_capacity(
    entries: Seq<(u64, StatsModel)>,
    capacity: nat,
    calls: Seq<Call>,
)
    requires
        well_formed(entries, capacity),
    ensures
        well_formed(run(entries, capacity, calls), capacity),
        run(entries, capacity, calls).len() <= capacity,
    decreases calls.len(),
{
    if calls.len() > 0 {
        lemma_size_never_exceeds_capacity(entries, capacity, calls.drop_last());
        lemma_step_well_formed(run(entries, capacity, calls.drop_last()), capacity, calls.last());
    }
}

/// Recording a shred of a slot that is not tracked, in a cache that is full,
/// evicts exactly one entry, the least recently used one, and returns exactly
/// one report, which is that entry's. Every other entry stays, behind the new
/// one and in the order it had.
pub proof fn lemma_full_cache_evicts_least_recent(
    entries: Seq<(u64, StatsModel)>,
    capacity: nat,
    slot: u64,
    shred: Shred,
)
    requires
        well_formed(entries, capacity),
        entries.len() == capacity,
        !has_slot(entries, slot),
    ensures
        ({
            let after = after_record(
                entries,
                capacity,
                slot,
                shred.fec_set_index,
                shred.source,
                shred.index,
                false,
            );
            let reports = record_reports(
                entries,
                capacity,
                slot,
                shred.fec_set_index,
                shred.source,
                shred.index,
                false,
            );
            &&& reports == seq![entries.last().1.report(entries.last().0)]
            &&& after.len() == capacity
            &&& after[0] == (
                slot,
                StatsModel::fresh().record(shred.fec_set_index, shred.source, shred.index),
            )
            &&& after.subrange(1, after.len() as int) == entries.drop_last()
            &&& !has_slot(after, entries.last().0)
            &&& forall|other: u64|
                other != entries.last().0 && has_slot(entries, other) ==> #[trigger] has_slot(
                    after,
                    other,
                ) && stats_of(after, other) == stats_of(entries, other)
        }),
{
    let recorded = StatsModel::fresh().record(shred.fec_set_index, shred.source, shred.index);
    let others = others_after_touch(entries, capacity, slot);
    let after = seq![(slot, recorded)] + others;
    let last = entries.last().0;
    assert(after.subrange(1, after.len() as int) =~= entries.drop_last());
    lemma_touch_makes_room(entries, capacity, slot);
    lemma_position_of_entry(entries, entries.len() - 1);
    lemma_touch_keeps_others(entries, capacity, slot, last);
    lemma_front_keeps_others(others, capacity, slot, recorded, last);
    assert forall|other: u64| other != last && has_slot(entries, other) implies #[trigger] has_slot(
        after,
        other,
    ) && stats_of(after, other) == stats_of(entries, other) by {
        lemma_touch_keeps_others(entries, capacity, slot, other);
        lemma_front_keeps_others(others, capacity, slot, recorded, other);
    }
}

/// One call accounts for every entry: those held before and the one it
/// created are those held after and those it reported.
pub proof fn lemma_step_flushes_what_leaves(
    entries: Seq<(u64, StatsModel)>,
    capacity: nat,
    call: Call,
)
    requires
        well_formed(entries, capacity),
    ensures
        entries.len() + (if has_slot(entries, call.slot()) {
            0nat
        } else {
            1nat
        }) == step(entries, capacity, call).len() + step_reports(entries, capacity, call).len(),
{
}

/// Every set of statistics that was ever created is either still tracked or
/// was reported, once: over any sequence of calls, the entries held at the
/// start and those created on the way are as many as the entries held at the
/// end and the reports returned.
pub proof fn lemma_every_aggregate_flushed_once(
    entries: Seq<(u64, StatsModel)>,
    capacity: nat,
    calls: Seq<Call>,
)
    requires
        well_formed(entries, capacity),
    ensures
        entries.len() + created(entries, capacity, calls) == run(entries, capacity, calls).len()
            + run_reports(entries, capacity, calls).len(),
    decreases calls.len(),
{
    if calls.len() > 0 {
        lemma_every_aggregate_flushed_once(entries, capacity, calls.drop_last());
        lemma_size_never_exceeds_capacity(entries, capacity, calls.drop_last());
        lemma_step_flushes_what_leaves(
            run(entries, capacity, calls.drop_last()),
            capacity,
            calls.last(),
        );
    }
}

/// The reports about a slot among two runs of reports are those among the
/// first and those among the second.
pub proof fn lemma_reports_about_both(first: Seq<SlotReport>, second: Seq<SlotReport>, slot: u64)
    ensures
        reports_about(first + second, slot) == reports_about(first, slot) + reports_about(
            second,
            slot,
        ),
    decreases second.len(),
{
    if second.len() == 0 {
        assert(first + second =~= first);
    } else {
        assert((first + second).drop_last() =~= first + second.drop_last());
        lemma_reports_about_both(first, second.drop_last(), slot);
    }
}

/// A single report is about its own slot and no other.
pub proof fn lemma_reports_about_one(report: SlotReport, slot: u64)
    ensures
        reports_about(seq![report], slot) == if report.slot == slot {
            1nat
        } else {
            0nat
        },
{
    let reports = seq![report];
    assert(reports.drop_last() =~= Seq::<SlotReport>::empty());
    assert(reports_about(reports.drop_last(), slot) == 0);
}

/// The report of an eviction is never about the slot that was looked up.
pub proof fn lemma_eviction_is_about_another_slot(
    entries: Seq<(u64, StatsModel)>,
    capacity: nat,
    slot: u64,
)
    requires
        well_formed(entries, capacity),
    ensures
        reports_about(eviction_reports(evicted_for(entries, capacity, slot)), slot) == 0,
        evicted_for(entries, capacity, slot) matches Some(evicted) ==> evicted.0 != slot
            && has_slot(entries, evicted.0),
{
    if evicted_for(entries, capacity, slot) is Some {
        let last = entries.last();
        lemma_position_of_entry(entries, entries.len() - 1);
        lemma_reports_about_one(last.1.report(last.0), slot);
    }
}

/// A call that ends the tracking of a slot, be it by a flag or by the shred
/// that completes the slot, returns exactly one report about the slot: the
/// last one, which holds what was gathered up to and with this call.
/// Afterwards the slot is not tracked.
pub proof fn lemma_terminal_call_reports_slot_once(
    entries: Seq<(u64, StatsModel)>,
    capacity: nat,
    call: Call,
)
    requires
        well_formed(entries, capacity),
        call matches Call::Record { slot_full, .. } ==> slot_full,
    ensures
        reports_about(step_reports(entries, capacity, call), call.slot()) == 1,
        step_reports(entries, capacity, call).last().slot == call.slot(),
        !has_slot(step(entries, capacity, call), call.slot()),
        step(entries, capacity, call).len() < capacity,
{
    let slot = call.slot();
    let evicted = eviction_reports(evicted_for(entries, capacity, slot));
    let reports = step_reports(entries, capacity, call);
    lemma_touch_makes_room(entries, capacity, slot);
    lemma_eviction_is_about_another_slot(entries, capacity, slot);
    assert(reports.drop_last() =~= evicted);
}

/// What a terminal call reported is never reported again. A second terminal
/// call on the same slot finds it untracked: it evicts nothing, and its one
/// report holds nothing of what was gathered before the first call, only the
/// flags of the second.
pub proof fn lemma_terminal_call_is_final(
    entries: Seq<(u64, StatsModel)>,
    capacity: nat,
    first: Call,
    flags: u8,
)
    requires
        well_formed(entries, capacity),
        first matches Call::Record { slot_full, .. } ==> slot_full,
    ensures
        ({
            let slot = first.slot();
            let ended = step(entries, capacity, first);
            &&& flag_reports(ended, capacity, slot, flags) == seq![
                StatsModel::fresh().with_flags(flags).report(slot),
            ]
            &&& after_flag(ended, capacity, slot) == ended
        }),
{
    lemma_terminal_call_reports_slot_once(entries, capacity, first);
}

/// A call about one slot returns no report about another slot that is not
/// tracked, and does not start to track it.
pub proof fn lemma_untracked_slot_stays_silent(
    entries: Seq<(u64, StatsModel)>,
    capacity: nat,
    call: Call,
    slot: u64,
)
    requires
        well_formed(entries, capacity),
        !has_slot(entries, slot),
        call.slot() != slot,
    ensures
        reports_about(step_reports(entries, capacity, call), slot) == 0,
        !has_slot(step(entries, capacity, call), slot),
{
    let about = call.slot();
    let others = others_after_touch(entries, capacity, about);
    let evicted = eviction_reports(evicted_for(entries, capacity, about));
    let reports = step_reports(entries, capacity, call);
    lemma_touch_makes_room(entries, capacity, about);
    lemma_touch_keeps_others(entries, capacity, about, slot);
    lemma_eviction_is_about_another_slot(entries, capacity, about);
    assert(reports_about(evicted, slot) == 0) by {
        if evicted_for(entries, capacity, about) is Some {
            let last = entries.last();
            lemma_position_of_entry(entries, entries.len() - 1);
            lemma_reports_about_one(last.1.report(last.0), slot);
        }
    }
    match call {
        Call::Record { slot: recorded_slot, shred, slot_full } => {
            let recorded = stats_of(entries, about).record(
                shred.fec_set_index,
                shred.source,
                shred.index,
            );
            lemma_front_keeps_others(others, capacity, about, recorded, slot);
            if slot_full {
                assert(reports.drop_last() =~= evicted);
            }
        },
        Call::Flag { slot: flagged_slot, flags } => {
            assert(reports.drop_last() =~= evicted);
        },
    }
}

/// Once the tracking of a slot has ended, no report about it is returned
/// until it is recorded or flagged anew: calls about other slots, however
/// many, return none.
pub proof fn lemma_no_report_without_tracking(
    entries: Seq<(u64, StatsModel)>,
    capacity: nat,
    calls: Seq<Call>,
    slot: u64,
)
    requires
        well_formed(entries, capacity),
        !has_slot(entries, slot),
        forall|i: int| 0 <= i < calls.len() ==> (#[trigger] calls[i]).slot() != slot,
    ensures
        reports_about(run_reports(entries, capacity, calls), slot) == 0,
        !has_slot(run(entries, capacity, calls), slot),
    decreases calls.len(),
{
    if calls.len() > 0 {
        let before = calls.drop_last();
        assert forall|i: int| 0 <= i < before.len() implies (#[trigger] before[i]).slot() != slot by {
            assert(before[i] == calls[i]);
        }
        lemma_no_report_without_tracking(entries, capacity, before, slot);
        lemma_size_never_exceeds_capacity(entries, capacity, before);
        lemma_untracked_slot_stays_silent(
            run(entries, capacity, before),
            capacity,
            calls.last(),
            slot,
        );
        lemma_reports_about_both(
            run_reports(entries, capacity, before),
            step_reports(run(entries, capacity, before), capacity, calls.last()),
            slot,
        );
    }
}

/// A call about one slot leaves the statistics of every other slot as they
/// are: another slot that is tracked afterwards was tracked before, with the
/// same statistics, and one that was tracked before still is, unless it is
/// the one that was evicted.
pub proof fn lemma_call_keeps_other_slots(
    entries: Seq<(u64, StatsModel)>,
    capacity: nat,
    call: Call,
    other: u64,
)
    requires
        well_formed(entries, capacity),
        call.slot() != other,
    ensures
        has_slot(step(entries, capacity, call), other) <==> has_slot(entries, other) && !(
        evicted_for(entries, capacity, call.slot()) matches Some(evicted) && evicted.0 == other),
        has_slot(step(entries, capacity, call), other) ==> stats_of(
            step(entries, capacity, call),
            other,
        ) == stats_of(entries, other),
{
    let about = call.slot();
    let others = others_after_touch(entries, capacity, about);
    lemma_touch_makes_room(entries, capacity, about);
    lemma_touch_keeps_others(entries, capacity, about, other);
    match call {
        Call::Record { slot: recorded_slot, shred, slot_full } => {
            let recorded = stats_of(entries, about).record(
                shred.fec_set_index,
                shred.source,
                shred.index,
            );
            lemma_front_keeps_others(others, capacity, about, recorded, other);
        },
        Call::Flag { slot: flagged_slot, flags } => {},
    }
}

/// The calls that record `shreds` for `slot`, none of them completing it.
pub open spec fn records_of(slot: u64, shreds: Seq<Shred>) -> Seq<Call> {
    Seq::new(shreds.len(), |i: int| Call::Record { slot, shred: shreds[i], slot_full: false })
}

/// Shreds recorded for one slot add up: after they were recorded, none of
/// them completing the slot, the slot is the most recently used one and its
/// statistics are those it had before (fresh ones, if it was not tracked)
/// with every shred recorded, in order. No other entry has changed.
pub proof fn lemma_records_accumulate(
    entries: Seq<(u64, StatsModel)>,
    capacity: nat,
    slot: u64,
    shreds: Seq<Shred>,
)
    requires
        well_formed(entries, capacity),
        shreds.len() > 0,
    ensures
        run(entries, capacity, records_of(slot, shreds)) == seq![
            (slot, record_all(stats_of(entries, slot), shreds)),
        ] + others_after_touch(entries, capacity, slot),
        stats_of(run(entries, capacity, records_of(slot, shreds)), slot) == record_all(
            stats_of(entries, slot),
            shreds,
        ),
    decreases shreds.len(),
{
    let calls = records_of(slot, shreds);
    let start = stats_of(entries, slot);
    let others = others_after_touch(entries, capacity, slot);
    let shred = shreds.last();
    lemma_touch_makes_room(entries, capacity, slot);
    assert(calls.drop_last() =~= records_of(slot, shreds.drop_last()));
    assert(calls.last() == Call::Record { slot, shred, slot_full: false });
    if shreds.len() == 1 {
        assert(run(entries, capacity, calls.drop_last()) == entries);
        assert(record_all(start, shreds.drop_last()) == start);
    } else {
        lemma_records_accumulate(entries, capacity, slot, shreds.drop_last());
        let before = record_all(start, shreds.drop_last());
        lemma_front_well_formed(others, capacity, slot, before);
    }
    lemma_front_well_formed(others, capacity, slot, record_all(start, shreds));
}

/// The shreds that `calls` record for `slot`, in order.
pub open spec fn shreds_for(calls: Seq<Call>, slot: u64) -> Seq<Shred>
    decreases calls.len(),
{
    if calls.len() == 0 {
        Seq::empty()
    } else {
        let before = shreds_for(calls.drop_last(), slot);
        match calls.last() {
            Call::Record { slot: recorded, shred, .. } => if recorded == slot {
                before.push(shred)
            } else {
                before
            },
            Call::Flag { .. } => before,
        }
    }
}

/// `slot` outlasts `calls`: no call ends its tracking, and no call about
/// another slot evicts it.
pub open spec fn never_leaves(
    entries: Seq<(u64, StatsModel)>,
    capacity: nat,
    calls: Seq<Call>,
    slot: u64,
) -> bool {
    forall|k: int|
        0 <= k < calls.len() ==> if (#[trigger] calls[k]).slot() == slot {
            calls[k] matches Call::Record { slot_full, .. } && !slot_full
        } else {
            !(evicted_for(run(entries, capacity, calls.subrange(0, k)), capacity, calls[k].slot())
                matches Some(evicted) && evicted.0 == slot)
        }
}

/// For a slot that never leaves the cache, whatever is done to other slots
/// in between, the statistics are those it had at the start (fresh ones, if
/// it was not tracked) with every shred recorded that was recorded for it, in
/// order. By [`lemma_record_all_counts`] its last index is then the highest
/// index passed and each of its counts the number of shreds recorded for it.
pub proof fn lemma_never_evicted_slot_accumulates(
    entries: Seq<(u64, StatsModel)>,
    capacity: nat,
    calls: Seq<Call>,
    slot: u64,
)
    requires
        well_formed(entries, capacity),
        never_leaves(entries, capacity, calls, slot),
    ensures
        stats_of(run(entries, capacity, calls), slot) == record_all(
            stats_of(entries, slot),
            shreds_for(calls, slot),
        ),
        has_slot(run(entries, capacity, calls), slot) <==> has_slot(entries, slot)
            || shreds_for(calls, slot).len() > 0,
    decreases calls.len(),
{
    if calls.len() > 0 {
        let earlier = calls.drop_last();
        let call = calls.last();
        let before = run(entries, capacity, earlier);
        assert forall|k: int| 0 <= k < earlier.len() implies if (#[trigger] earlier[k]).slot()
            == slot {
            earlier[k] matches Call::Record { slot_full, .. } && !slot_full
        } else {
            !(evicted_for(
                run(entries, capacity, earlier.subrange(0, k)),
                capacity,
                earlier[k].slot(),
            ) matches Some(evicted) && evicted.0 == slot)
        } by {
            assert(earlier[k] == calls[k]);
            assert(earlier.subrange(0, k) =~= calls.subrange(0, k));
        }
        lemma_never_evicted_slot_accumulates(entries, capacity, earlier, slot);
        lemma_size_never_exceeds_capacity(entries, capacity, earlier);
        assert(calls.subrange(0, calls.len() - 1) =~= earlier);
        assert(calls[calls.len() - 1] == call);
        lemma_touch_makes_room(before, capacity, call.slot());
        if call.slot() == slot {
            match call {
                Call::Record { slot: recorded, shred, slot_full } => {
                    let recorded_stats = stats_of(before, slot).record(
                        shred.fec_set_index,
                        shred.source,
                        shred.index,
                    );
                    lemma_front_well_formed(
                        others_after_touch(before, capacity, slot),
                        capacity,
                        slot,
                        recorded_stats,
                    );
                    let shreds = shreds_for(calls, slot);
                    assert(shreds.drop_last() =~= shreds_for(earlier, slot));
                },
                Call::Flag { .. } => {},
            }
        } else {
            lemma_call_keeps_other_slots(before, capacity, call, slot);
        }
    }
}

} // verus!
