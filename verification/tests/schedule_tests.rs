use trading_bots::schedule::{align_instant_to_next_boundary, align_to_next_boundary, FetchSchedule};

#[test]
fn aligned_time_is_kept() {
    assert_eq!(align_to_next_boundary(1_800, 15), Some(1_800));
    assert_eq!(align_to_next_boundary(0, 15), Some(0));
}

#[test]
fn time_is_rounded_up_to_boundary() {
    assert_eq!(align_to_next_boundary(1_801, 15), Some(2_700));
    assert_eq!(align_to_next_boundary(1_700_000_123, 15), Some(1_700_000_100 + 900));
}

#[test]
fn negative_time_is_rounded_up_to_nearest_boundary() {
    assert_eq!(align_to_next_boundary(-1, 15), Some(0));
    assert_eq!(align_to_next_boundary(-30, 1), Some(0));
    assert_eq!(align_to_next_boundary(-901, 15), Some(-900));
    assert_eq!(align_to_next_boundary(-900, 15), Some(-900));
}

#[test]
fn negative_interval_uses_its_length() {
    assert_eq!(align_to_next_boundary(1_801, -15), Some(2_700));
}

#[test]
fn alignment_fails_without_interval_or_room() {
    assert_eq!(align_to_next_boundary(100, 0), None);
    assert_eq!(align_to_next_boundary(i64::MAX, 15), None);
    assert_eq!(align_instant_to_next_boundary(i64::MAX, 1, 15), None);
}

#[test]
fn fraction_of_a_second_moves_to_next_boundary() {
    assert_eq!(align_instant_to_next_boundary(1_800, 0, 15), Some(1_800));
    assert_eq!(align_instant_to_next_boundary(1_800, 1, 15), Some(2_700));
    assert_eq!(align_instant_to_next_boundary(899, 500_000_000, 15), Some(900));
}

#[test]
fn first_fetch_covers_seven_days_up_to_boundary() {
    let (sched, req) = FetchSchedule::start(1_000_000, 0).unwrap();
    assert_eq!(req.end, 1_000_800);
    assert_eq!(req.start, 1_000_800 - 7 * 86_400);
    assert_eq!(req.limit, 1000);
    assert_eq!(sched.last_end, 1_000_800);
}

#[test]
fn first_fetch_fails_without_room() {
    assert!(FetchSchedule::start(i64::MAX, 0).is_none());
    assert!(FetchSchedule::start(i64::MIN, 0).is_none());
}

#[test]
fn later_fetch_continues_from_previous_window() {
    let (mut sched, first) = FetchSchedule::start(1_000_000, 0).unwrap();
    let req = sched.next(1_001_000, 0).unwrap();
    assert_eq!(req.start, first.end);
    assert_eq!(req.end, 1_001_700);
    assert_eq!(req.limit, 1);
    assert_eq!(sched.last_end, 1_001_700);
    assert!(sched.next(i64::MAX, 0).is_none());
    assert_eq!(sched.last_end, 1_001_700);
}
