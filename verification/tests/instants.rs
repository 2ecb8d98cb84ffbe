use log_rotation::instant::{Timestamp, SECONDS_PER_DAY};

#[test]
fn earlier_second_precedes() {
    let a = Timestamp::new(10, 999_999_999);
    let b = Timestamp::new(11, 0);
    assert!(a.is_before(&b));
    assert!(!b.is_before(&a));
    assert!(!a.is_before(&a));
}

#[test]
fn same_second_orders_by_nanoseconds() {
    let a = Timestamp::new(-5, 1);
    let b = Timestamp::new(-5, 2);
    assert!(a.is_before(&b));
    assert!(!b.is_before(&a));
}

#[test]
fn negative_seconds_come_first() {
    let before_epoch = Timestamp::new(-1, 0);
    let epoch = Timestamp::new(0, 0);
    assert!(before_epoch.is_before(&epoch));
}

#[test]
fn new_keeps_its_fields() {
    let t = Timestamp::new(42, 7);
    assert_eq!(t.secs, 42);
    assert_eq!(t.nanos, 7);
    assert_eq!(t, Timestamp { secs: 42, nanos: 7 });
}

#[test]
fn a_day_has_86400_seconds() {
    assert_eq!(SECONDS_PER_DAY, 86_400);
}

#[test]
fn shifted_back_moves_whole_days_and_keeps_nanoseconds() {
    let now = Timestamp::new(1_700_000_000, 123);
    assert_eq!(now.shifted_back(14), Some(Timestamp::new(1_700_000_000 - 14 * 86_400, 123)));
    assert_eq!(now.shifted_back(14), Some(Timestamp::new(1_698_790_400, 123)));
    assert_eq!(now.shifted_back(0), Some(now));
}

#[test]
fn shifted_back_by_negative_days_moves_forward() {
    let now = Timestamp::new(1_700_000_000, 0);
    assert_eq!(now.shifted_back(-1), Some(Timestamp::new(1_700_086_400, 0)));
}

#[test]
fn shifted_back_stops_at_the_range_of_the_seconds() {
    assert_eq!(Timestamp::new(i64::MIN, 0).shifted_back(1), None);
    assert_eq!(Timestamp::new(i64::MAX, 0).shifted_back(-1), None);
    assert_eq!(Timestamp::new(0, 0).shifted_back(i64::MAX), None);
    assert_eq!(Timestamp::new(0, 0).shifted_back(i64::MIN), None);
    assert_eq!(
        Timestamp::new(i64::MIN + 86_400, 9).shifted_back(1),
        Some(Timestamp::new(i64::MIN, 9))
    );
}
