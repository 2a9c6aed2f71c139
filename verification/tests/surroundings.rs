use hft_channel::capacity::{effective_capacity, next_index, slot_index};
use hft_channel::clock::{cycle_count, timespec_fits, timespec_ns};
use hft_channel::shm::{region_name_ok, region_size, Answer, Stage};

#[test]
fn capacities_are_powers_of_two() {
    assert_eq!(effective_capacity(0), 2);
    assert_eq!(effective_capacity(2), 2);
    assert_eq!(effective_capacity(3), 4);
    assert_eq!(effective_capacity(1 << 16), 1 << 16);
    assert_eq!(effective_capacity((1 << 16) + 1), 1 << 17);
    assert_eq!(effective_capacity(usize::MAX / 2 + 1), usize::MAX / 2 + 1);
}

#[test]
fn slots_follow_from_numbers_and_from_each_other() {
    assert_eq!(slot_index(0, 8), 0);
    assert_eq!(slot_index(13, 8), 5);
    assert_eq!(slot_index(u64::MAX, 8), 7);
    assert_eq!(next_index(2, 4), 3);
    assert_eq!(next_index(3, 4), 0);
    assert_eq!(next_index(usize::MAX, 4), 0);
}

#[test]
fn region_names_start_with_their_only_slash() {
    assert!(region_name_ok("/test"));
    assert!(region_name_ok("/"));
    assert!(region_name_ok("/my-channel"));
    assert!(!region_name_ok(""));
    assert!(!region_name_ok("test"));
    assert!(!region_name_ok("/a/b"));
    assert!(!region_name_ok("//"));
    assert!(!region_name_ok("/a\0b"));
}

#[test]
fn region_sizes_are_products_that_fit() {
    assert_eq!(region_size(512, 256), Some(131_072));
    assert_eq!(region_size(0, 256), Some(0));
    assert_eq!(region_size(usize::MAX, 1), Some(usize::MAX));
    assert_eq!(region_size(usize::MAX / 2 + 1, 2), None);
}

#[test]
fn a_mapping_that_succeeds_closes_its_descriptor() {
    let stage = Stage::Open.next(Answer::Descriptor { fd: 3 });
    assert!(matches!(stage, Stage::Resize { fd: 3 }));
    let stage = stage.next(Answer::Done);
    assert!(matches!(stage, Stage::Attach { fd: 3 }));
    let stage = stage.next(Answer::Address { address: 4096 });
    assert!(matches!(stage, Stage::Close { fd: 3, outcome: Ok(4096) }));
    assert!(matches!(stage.next(Answer::Done), Stage::End { outcome: Ok(4096) }));
    assert!(matches!(stage.next(Answer::Error { code: 5 }), Stage::End { outcome: Ok(4096) }));
}

#[test]
fn a_mapping_that_fails_reports_the_first_error() {
    let stage = Stage::Open.next(Answer::Error { code: 13 });
    assert!(matches!(stage, Stage::End { outcome: Err(13) }));

    let opened = Stage::Open.next(Answer::Descriptor { fd: 3 });
    let stage = opened.next(Answer::Error { code: 22 });
    assert!(matches!(stage, Stage::Close { fd: 3, outcome: Err(22) }));
    assert!(matches!(stage.next(Answer::Done), Stage::End { outcome: Err(22) }));

    let stage = opened.next(Answer::Done).next(Answer::Error { code: 12 });
    assert!(matches!(stage, Stage::Close { fd: 3, outcome: Err(12) }));
    assert!(matches!(stage.next(Answer::Error { code: 5 }), Stage::End { outcome: Err(12) }));
}

#[test]
fn clock_readings_are_nanoseconds() {
    assert_eq!(timespec_ns(0, 0), 0);
    assert_eq!(timespec_ns(3, 141), 3_000_000_141);
    assert!(timespec_ns(3, 999_999_999) < timespec_ns(4, 0));
    assert_eq!(timespec_ns(0, 1), 1);
    assert_eq!(timespec_ns(7, 5_000_000) - timespec_ns(7, 0), 5_000_000);
    assert!(timespec_fits(18_446_744_073, 709_551_615));
    assert!(!timespec_fits(18_446_744_073, 709_551_616));
    assert!(!timespec_fits(u64::MAX, 0));
}

#[test]
fn cycle_counts_come_in_halves() {
    assert_eq!(cycle_count(0, 7), 7);
    assert_eq!(cycle_count(1, 0), 4_294_967_296);
    assert_eq!(cycle_count(u32::MAX, u32::MAX), u64::MAX);
}
