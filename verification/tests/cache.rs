use shred_stats::cache::{SlotsStats, SLOTS_STATS_CACHE_CAPACITY};
use shred_stats::flags::SlotFlags;
use shred_stats::stats::{ShredSource, SlotReport, SlotStats};

fn fresh_report(slot: u64) -> SlotReport {
    SlotReport {
        slot,
        last_index: 0,
        num_repaired: 0,
        num_recovered: 0,
        min_turbine_fec_set_count: 0,
        is_full: false,
        is_rooted: false,
        is_dead: false,
    }
}

#[test]
fn default_cache_is_empty_and_holds_300() {
    let cache = SlotsStats::default();
    assert_eq!(SLOTS_STATS_CACHE_CAPACITY, 300);
    assert_eq!(cache.stats.cap(), 300);
    assert_eq!(cache.stats.len(), 0);
    assert!(cache.peek(0).is_none());
}

#[test]
fn eviction_scenario_with_capacity_two() {
    let mut cache = SlotsStats::with_capacity(2);
    assert!(cache.record_shred(1, 0, ShredSource::Turbine, 0, false).is_empty());
    assert!(cache.record_shred(2, 0, ShredSource::Repaired, 0, false).is_empty());
    let reports = cache.record_shred(3, 0, ShredSource::Recovered, 0, false);
    assert_eq!(
        reports,
        vec![SlotReport {
            slot: 1,
            last_index: 0,
            num_repaired: 0,
            num_recovered: 0,
            min_turbine_fec_set_count: 1,
            is_full: false,
            is_rooted: false,
            is_dead: false,
        }]
    );
    assert_eq!(cache.stats.len(), 2);
    assert!(!cache.stats.contains(&1));
    assert!(cache.stats.contains(&2));
    assert!(cache.stats.contains(&3));
    assert_eq!(cache.peek(2).unwrap().num_repaired(), 1);
    assert_eq!(cache.peek(3).unwrap().num_recovered(), 1);
}

#[test]
fn records_on_a_tracked_slot_add_up() {
    let mut cache = SlotsStats::with_capacity(4);
    let shreds = [
        (0u32, ShredSource::Turbine, 4u64),
        (0, ShredSource::Turbine, 9),
        (32, ShredSource::Turbine, 33),
        (0, ShredSource::Repaired, 2),
        (32, ShredSource::Recovered, 40),
        (0, ShredSource::Turbine, 9),
        (64, ShredSource::Repaired, 70),
        (32, ShredSource::Turbine, 35),
    ];
    for (fec_set_index, source, index) in shreds {
        assert!(cache.can_record(11, fec_set_index, source));
        assert!(cache.record_shred(11, fec_set_index, source, index, false).is_empty());
        // another slot in between does not disturb the first
        assert!(cache.record_shred(12, fec_set_index, ShredSource::Turbine, 1, false).is_empty());
    }
    let stats = cache.peek(11).unwrap();
    assert_eq!(stats.last_index(), 70);
    assert_eq!(stats.turbine_count(0), 3);
    assert_eq!(stats.turbine_count(32), 2);
    assert_eq!(stats.turbine_count(64), 0);
    assert_eq!(stats.num_repaired(), 2);
    assert_eq!(stats.num_recovered(), 1);
    assert_eq!(stats.get_min_index_count(), 2);
    assert_eq!(cache.peek(12).unwrap().turbine_count(0), 4);
    assert_eq!(cache.peek(12).unwrap().turbine_count(32), 3);
    assert_eq!(cache.peek(12).unwrap().turbine_count(64), 1);
    assert_eq!(cache.stats.len(), 2);
}

#[test]
fn size_never_exceeds_capacity() {
    let mut cache = SlotsStats::with_capacity(3);
    let mut flushed = 0;
    for step in 0u64..50 {
        let slot = (step * 7) % 11;
        let reports = match step % 5 {
            0 => cache.mark_dead(slot),
            1 => cache.mark_rooted(slot),
            2 => cache.record_shred(slot, 0, ShredSource::Turbine, step, true),
            3 => cache.record_shred(slot, 1, ShredSource::Repaired, step, false),
            _ => cache.record_shred(slot, 2, ShredSource::Recovered, step, false),
        };
        flushed += reports.len();
        assert!(cache.stats.len() <= 3);
        assert_eq!(cache.stats.cap(), 3);
    }
    assert!(flushed > 0);
}

#[test]
fn capacity_one_tracks_the_latest_slot_only() {
    let mut cache = SlotsStats::with_capacity(1);
    assert!(cache.record_shred(5, 0, ShredSource::Turbine, 1, false).is_empty());
    assert!(cache.record_shred(5, 0, ShredSource::Turbine, 2, false).is_empty());
    let reports = cache.record_shred(6, 0, ShredSource::Repaired, 3, false);
    assert_eq!(reports.len(), 1);
    assert_eq!(reports[0].slot, 5);
    assert_eq!(reports[0].last_index, 2);
    assert_eq!(reports[0].min_turbine_fec_set_count, 2);
    assert_eq!(cache.stats.len(), 1);
    assert!(cache.stats.contains(&6));
}

#[test]
fn full_cache_evicts_the_least_recently_touched_slot() {
    let mut cache = SlotsStats::with_capacity(3);
    for slot in [1u64, 2, 3] {
        assert!(cache.record_shred(slot, 0, ShredSource::Turbine, slot, false).is_empty());
    }
    // touching slot 1 again makes slot 2 the least recently touched
    assert!(cache.record_shred(1, 0, ShredSource::Repaired, 10, false).is_empty());
    let reports = cache.record_shred(4, 0, ShredSource::Turbine, 0, false);
    assert_eq!(
        reports,
        vec![SlotReport {
            slot: 2,
            last_index: 2,
            num_repaired: 0,
            num_recovered: 0,
            min_turbine_fec_set_count: 1,
            is_full: false,
            is_rooted: false,
            is_dead: false,
        }]
    );
    assert_eq!(cache.stats.len(), 3);
    assert!(cache.stats.contains(&1));
    assert!(!cache.stats.contains(&2));
    assert!(cache.stats.contains(&3));
    assert!(cache.stats.contains(&4));
    // slot 3 is next in line
    let reports = cache.record_shred(5, 0, ShredSource::Turbine, 0, false);
    assert_eq!(reports.len(), 1);
    assert_eq!(reports[0].slot, 3);
}

#[test]
fn peek_does_not_count_as_use() {
    let mut cache = SlotsStats::with_capacity(2);
    cache.record_shred(1, 0, ShredSource::Turbine, 0, false);
    cache.record_shred(2, 0, ShredSource::Turbine, 0, false);
    assert_eq!(cache.peek(1).unwrap().turbine_count(0), 1);
    assert!(cache.can_record(1, 0, ShredSource::Turbine));
    let reports = cache.record_shred(3, 0, ShredSource::Turbine, 0, false);
    assert_eq!(reports.len(), 1);
    assert_eq!(reports[0].slot, 1);
}

#[test]
fn every_created_slot_is_flushed_exactly_once() {
    let capacity = 4u64;
    let mut cache = SlotsStats::with_capacity(4);
    let mut flushed: Vec<u64> = Vec::new();
    for slot in 1..=capacity {
        let reports = cache.record_shred(slot, 0, ShredSource::Turbine, 0, false);
        flushed.extend(reports.iter().map(|report| report.slot));
    }
    let reports = cache.mark_dead(1);
    assert_eq!(reports.len(), 1);
    assert!(reports[0].is_dead);
    flushed.extend(reports.iter().map(|report| report.slot));
    let reports = cache.record_shred(capacity + 1, 0, ShredSource::Turbine, 0, false);
    flushed.extend(reports.iter().map(|report| report.slot));
    for slot in 2..=capacity + 1 {
        let reports = cache.mark_rooted(slot);
        flushed.extend(reports.iter().map(|report| report.slot));
    }
    assert_eq!(cache.stats.len(), 0);
    assert_eq!(flushed.len() as u64, capacity + 1);
    flushed.sort();
    assert_eq!(flushed, vec![1, 2, 3, 4, 5]);
}

#[test]
fn marking_an_evicted_slot_flushes_statistics_made_anew() {
    let mut cache = SlotsStats::with_capacity(2);
    let mut flushed: Vec<SlotReport> = Vec::new();
    for slot in 1u64..=3 {
        flushed.extend(cache.record_shred(slot, 0, ShredSource::Turbine, 7, false));
    }
    // slot 1 was evicted and reported by now
    assert_eq!(flushed.len(), 1);
    assert_eq!(flushed[0].slot, 1);
    assert_eq!(flushed[0].min_turbine_fec_set_count, 1);
    // marking it creates statistics for it anew, which evicts slot 2
    let reports = cache.mark_dead(1);
    assert_eq!(reports.len(), 2);
    assert_eq!(reports[0].slot, 2);
    assert_eq!(reports[1], SlotReport { is_dead: true, ..fresh_report(1) });
    flushed.extend(reports);
    flushed.extend(cache.mark_rooted(3));
    assert_eq!(cache.stats.len(), 0);
    // four sets of statistics were created, and four reports were made
    assert_eq!(flushed.len(), 4);
}

#[test]
fn terminal_marking_reports_the_slot_once() {
    let mut cache = SlotsStats::with_capacity(3);
    cache.record_shred(9, 0, ShredSource::Turbine, 5, false);
    cache.record_shred(9, 0, ShredSource::Repaired, 6, false);
    let reports = cache.mark_dead(9);
    assert_eq!(
        reports,
        vec![SlotReport {
            slot: 9,
            last_index: 6,
            num_repaired: 1,
            num_recovered: 0,
            min_turbine_fec_set_count: 1,
            is_full: false,
            is_rooted: false,
            is_dead: true,
        }]
    );
    assert!(!cache.stats.contains(&9));
    assert_eq!(cache.stats.len(), 0);
    // nothing of what was reported comes back
    let again = cache.mark_rooted(9);
    assert_eq!(again, vec![SlotReport { is_rooted: true, ..fresh_report(9) }]);
    let again = cache.mark_dead(9);
    assert_eq!(again, vec![SlotReport { is_dead: true, ..fresh_report(9) }]);
    assert_eq!(cache.stats.len(), 0);
}

#[test]
fn completing_shred_flags_the_slot_full_and_ends_tracking() {
    let mut cache = SlotsStats::with_capacity(3);
    cache.record_shred(4, 0, ShredSource::Turbine, 0, false);
    cache.record_shred(4, 0, ShredSource::Recovered, 1, false);
    let reports = cache.record_shred(4, 0, ShredSource::Turbine, 2, true);
    assert_eq!(
        reports,
        vec![SlotReport {
            slot: 4,
            last_index: 2,
            num_repaired: 0,
            num_recovered: 1,
            min_turbine_fec_set_count: 2,
            is_full: true,
            is_rooted: false,
            is_dead: false,
        }]
    );
    assert!(!cache.stats.contains(&4));
    // a later mark finds the slot untracked
    let reports = cache.mark_rooted(4);
    assert_eq!(reports, vec![SlotReport { is_rooted: true, ..fresh_report(4) }]);
}

#[test]
fn completing_shred_of_a_new_slot_in_a_full_cache() {
    let mut cache = SlotsStats::with_capacity(2);
    cache.record_shred(1, 0, ShredSource::Turbine, 0, false);
    cache.record_shred(2, 0, ShredSource::Turbine, 0, false);
    let reports = cache.record_shred(3, 8, ShredSource::Repaired, 12, true);
    assert_eq!(reports.len(), 2);
    assert_eq!(reports[0].slot, 1);
    assert_eq!(
        reports[1],
        SlotReport {
            slot: 3,
            last_index: 12,
            num_repaired: 1,
            num_recovered: 0,
            min_turbine_fec_set_count: 0,
            is_full: true,
            is_rooted: false,
            is_dead: false,
        }
    );
    assert_eq!(cache.stats.len(), 1);
    assert!(cache.stats.contains(&2));
}

#[test]
fn mark_dead_and_mark_rooted_set_their_own_flag() {
    let mut cache = SlotsStats::default();
    assert_eq!(cache.mark_dead(1), vec![SlotReport { is_dead: true, ..fresh_report(1) }]);
    assert_eq!(cache.mark_rooted(2), vec![SlotReport { is_rooted: true, ..fresh_report(2) }]);
    let mut flags = SlotFlags::dead();
    flags.insert(SlotFlags::rooted());
    assert_eq!(
        cache.add_flag(3, flags),
        vec![SlotReport { is_dead: true, is_rooted: true, ..fresh_report(3) }]
    );
    assert_eq!(cache.stats.len(), 0);
}

#[test]
fn get_or_default_creates_touches_and_evicts() {
    let mut cache = SlotsStats::with_capacity(2);
    {
        let (stats, evicted) = SlotsStats::get_or_default_with_eviction_check(&mut cache.stats, 1);
        assert!(evicted.is_none());
        assert_eq!(stats.report(1), fresh_report(1));
        stats.record_shred(0, ShredSource::Repaired, 3);
    }
    {
        let (_, evicted) = SlotsStats::get_or_default_with_eviction_check(&mut cache.stats, 2);
        assert!(evicted.is_none());
    }
    {
        // present: no eviction, and what was recorded is still there
        let (stats, evicted) = SlotsStats::get_or_default_with_eviction_check(&mut cache.stats, 1);
        assert!(evicted.is_none());
        assert_eq!(stats.num_repaired(), 1);
        assert_eq!(stats.last_index(), 3);
    }
    {
        // slot 2 is now the least recently used
        let (stats, evicted) = SlotsStats::get_or_default_with_eviction_check(&mut cache.stats, 3);
        let (evicted_slot, evicted_stats): (u64, SlotStats) = evicted.unwrap();
        assert_eq!(evicted_slot, 2);
        assert_eq!(evicted_stats.report(2), fresh_report(2));
        assert_eq!(stats.report(3), fresh_report(3));
    }
    assert_eq!(cache.stats.len(), 2);
    assert!(cache.stats.contains(&1));
    assert!(cache.stats.contains(&3));
}

#[test]
fn default_cache_evicts_at_three_hundred_and_one() {
    let mut cache = SlotsStats::default();
    for slot in 0u64..300 {
        assert!(cache.record_shred(slot, 0, ShredSource::Turbine, 0, false).is_empty());
    }
    assert_eq!(cache.stats.len(), 300);
    let reports = cache.record_shred(300, 0, ShredSource::Turbine, 0, false);
    assert_eq!(reports.len(), 1);
    assert_eq!(reports[0].slot, 0);
    assert_eq!(cache.stats.len(), 300);
}
