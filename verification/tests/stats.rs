use shred_stats::flags::{SlotFlags, ALL_BITS, DEAD_BIT, FULL_BIT, ROOTED_BIT};
use shred_stats::stats::{ShredSource, SlotReport, SlotStats};

fn turbine(stats: &mut SlotStats, fec_set_index: u32, times: usize) {
    for index in 0..times {
        stats.record_shred(fec_set_index, ShredSource::Turbine, index as u64);
    }
}

#[test]
fn min_index_count_is_the_least_group_count() {
    let mut stats = SlotStats::default();
    turbine(&mut stats, 0, 3);
    turbine(&mut stats, 32, 7);
    turbine(&mut stats, 64, 1);
    assert_eq!(stats.turbine_count(0), 3);
    assert_eq!(stats.turbine_count(32), 7);
    assert_eq!(stats.turbine_count(64), 1);
    assert_eq!(stats.get_min_index_count(), 1);
}

#[test]
fn min_index_count_without_groups_is_zero() {
    let stats = SlotStats::default();
    assert_eq!(stats.get_min_index_count(), 0);
}

#[test]
fn min_index_count_ignores_repair_and_recovery() {
    let mut stats = SlotStats::default();
    stats.record_shred(5, ShredSource::Repaired, 1);
    stats.record_shred(6, ShredSource::Recovered, 2);
    assert_eq!(stats.get_min_index_count(), 0);
    assert_eq!(stats.turbine_count(5), 0);
    assert_eq!(stats.turbine_count(6), 0);
    turbine(&mut stats, 5, 4);
    assert_eq!(stats.get_min_index_count(), 4);
}

#[test]
fn min_index_count_of_one_group() {
    let mut stats = SlotStats::default();
    turbine(&mut stats, 9, 2);
    assert_eq!(stats.get_min_index_count(), 2);
}

#[test]
fn default_stats_are_all_zero() {
    let stats = SlotStats::default();
    assert_eq!(stats.num_repaired(), 0);
    assert_eq!(stats.num_recovered(), 0);
    assert_eq!(stats.last_index(), 0);
    assert_eq!(stats.flags().bits(), 0);
    assert_eq!(stats.turbine_count(0), 0);
}

#[test]
fn record_counts_by_source() {
    let mut stats = SlotStats::default();
    stats.record_shred(0, ShredSource::Turbine, 3);
    stats.record_shred(0, ShredSource::Turbine, 4);
    stats.record_shred(32, ShredSource::Turbine, 40);
    stats.record_shred(0, ShredSource::Repaired, 5);
    stats.record_shred(0, ShredSource::Recovered, 6);
    stats.record_shred(32, ShredSource::Recovered, 41);
    stats.record_shred(32, ShredSource::Recovered, 7);
    assert_eq!(stats.turbine_count(0), 2);
    assert_eq!(stats.turbine_count(32), 1);
    assert_eq!(stats.turbine_count(64), 0);
    assert_eq!(stats.num_repaired(), 1);
    assert_eq!(stats.num_recovered(), 3);
    assert_eq!(stats.last_index(), 41);
}

#[test]
fn last_index_is_the_maximum_not_the_latest() {
    let mut stats = SlotStats::default();
    stats.record_shred(0, ShredSource::Turbine, 17);
    assert_eq!(stats.last_index(), 17);
    stats.record_shred(0, ShredSource::Repaired, 3);
    assert_eq!(stats.last_index(), 17);
    stats.record_shred(0, ShredSource::Recovered, 17);
    assert_eq!(stats.last_index(), 17);
    stats.record_shred(0, ShredSource::Turbine, u64::MAX);
    assert_eq!(stats.last_index(), u64::MAX);
    stats.record_shred(0, ShredSource::Turbine, 0);
    assert_eq!(stats.last_index(), u64::MAX);
}

#[test]
fn duplicate_shreds_are_counted_twice() {
    let mut stats = SlotStats::default();
    stats.record_shred(8, ShredSource::Turbine, 12);
    stats.record_shred(8, ShredSource::Turbine, 12);
    assert_eq!(stats.turbine_count(8), 2);
    assert_eq!(stats.last_index(), 12);
}

#[test]
fn can_record_while_counters_have_room() {
    let mut stats = SlotStats::default();
    assert!(stats.can_record(0, ShredSource::Turbine));
    assert!(stats.can_record(0, ShredSource::Repaired));
    assert!(stats.can_record(0, ShredSource::Recovered));
    stats.record_shred(0, ShredSource::Turbine, 1);
    assert!(stats.can_record(0, ShredSource::Turbine));
}

#[test]
fn add_flag_is_idempotent_and_keeps_other_flags() {
    let mut stats = SlotStats::default();
    stats.add_flag(SlotFlags::dead());
    assert_eq!(stats.flags().bits(), DEAD_BIT);
    stats.add_flag(SlotFlags::dead());
    assert_eq!(stats.flags().bits(), DEAD_BIT);
    stats.add_flag(SlotFlags::rooted());
    assert_eq!(stats.flags().bits(), DEAD_BIT | ROOTED_BIT);
    stats.add_flag(SlotFlags::empty());
    assert_eq!(stats.flags().bits(), DEAD_BIT | ROOTED_BIT);
    stats.add_flag(SlotFlags::full());
    assert_eq!(stats.flags().bits(), ALL_BITS);
}

#[test]
fn report_holds_every_field() {
    let mut stats = SlotStats::default();
    turbine(&mut stats, 0, 3);
    turbine(&mut stats, 32, 2);
    stats.record_shred(0, ShredSource::Repaired, 90);
    stats.record_shred(0, ShredSource::Repaired, 91);
    stats.record_shred(0, ShredSource::Recovered, 7);
    stats.add_flag(SlotFlags::full());
    stats.add_flag(SlotFlags::rooted());
    assert_eq!(
        stats.report(42),
        SlotReport {
            slot: 42,
            last_index: 91,
            num_repaired: 2,
            num_recovered: 1,
            min_turbine_fec_set_count: 2,
            is_full: true,
            is_rooted: true,
            is_dead: false,
        }
    );
}

#[test]
fn report_of_fresh_stats() {
    let stats = SlotStats::default();
    assert_eq!(
        stats.report(0),
        SlotReport {
            slot: 0,
            last_index: 0,
            num_repaired: 0,
            num_recovered: 0,
            min_turbine_fec_set_count: 0,
            is_full: false,
            is_rooted: false,
            is_dead: false,
        }
    );
}

#[test]
fn report_leaves_the_stats_alone() {
    let mut stats = SlotStats::default();
    stats.record_shred(1, ShredSource::Turbine, 5);
    stats.add_flag(SlotFlags::dead());
    let first = stats.report(7);
    let second = stats.report(7);
    assert_eq!(first, second);
    assert!(first.is_dead);
    assert_eq!(stats.turbine_count(1), 1);
    assert_eq!(stats.last_index(), 5);
}

#[test]
fn clone_stands_for_the_same_stats() {
    let mut stats = SlotStats::default();
    turbine(&mut stats, 3, 2);
    stats.record_shred(0, ShredSource::Repaired, 11);
    stats.add_flag(SlotFlags::rooted());
    let copy = stats.clone();
    assert_eq!(copy.report(1), stats.report(1));
    assert_eq!(copy.turbine_count(3), 2);
    stats.record_shred(3, ShredSource::Turbine, 0);
    assert_eq!(copy.turbine_count(3), 2);
    assert_eq!(stats.turbine_count(3), 3);
}

#[test]
fn flag_bits_are_distinct() {
    assert_eq!(SlotFlags::dead().bits(), 0b0000_0001);
    assert_eq!(SlotFlags::full().bits(), 0b0000_0010);
    assert_eq!(SlotFlags::rooted().bits(), 0b0000_0100);
    assert_eq!(SlotFlags::empty().bits(), 0);
    assert_eq!(SlotFlags::default().bits(), 0);
    assert_eq!(DEAD_BIT | FULL_BIT | ROOTED_BIT, ALL_BITS);
}

#[test]
fn flags_contain_what_was_inserted() {
    let mut flags = SlotFlags::empty();
    assert!(flags.contains(SlotFlags::empty()));
    assert!(!flags.contains(SlotFlags::dead()));
    flags.insert(SlotFlags::dead());
    assert!(flags.contains(SlotFlags::dead()));
    assert!(!flags.contains(SlotFlags::full()));
    flags.insert(SlotFlags::full());
    assert!(flags.contains(SlotFlags::dead()));
    assert!(flags.contains(SlotFlags::full()));
    assert!(!flags.contains(SlotFlags::rooted()));
    let mut both = SlotFlags::dead();
    both.insert(SlotFlags::full());
    assert!(flags.contains(both));
    both.insert(SlotFlags::rooted());
    assert!(!flags.contains(both));
}

#[test]
fn flags_from_bits_drop_unknown_bits() {
    assert_eq!(SlotFlags::from_bits_truncate(0b1111_1111).bits(), ALL_BITS);
    assert_eq!(SlotFlags::from_bits_truncate(0b1111_1000).bits(), 0);
    assert_eq!(SlotFlags::from_bits_truncate(0b0000_0101).bits(), DEAD_BIT | ROOTED_BIT);
}
