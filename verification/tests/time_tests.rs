use watchnext::time::{needs_watching, Time, PLAYTIME_THRESHOLD_PERCENT};

#[test]
fn threshold_is_eighty_five_hundredths() {
    assert_eq!(PLAYTIME_THRESHOLD_PERCENT, 85);
}

#[test]
fn unknown_lies_below_every_count() {
    assert!(Time::Seconds(0).exceeds(Time::Unknown));
    assert!(!Time::Unknown.exceeds(Time::Seconds(0)));
    assert!(!Time::Unknown.exceeds(Time::Unknown));
}

#[test]
fn exceeds_is_strict() {
    assert!(Time::Seconds(51).exceeds(Time::Seconds(50)));
    assert!(!Time::Seconds(50).exceeds(Time::Seconds(50)));
    assert!(!Time::Seconds(49).exceeds(Time::Seconds(50)));
}

#[test]
fn from_position_reads_numbers_and_their_absence() {
    assert_eq!(Time::from_position(Some(50)), Time::Seconds(50));
    assert_eq!(Time::from_position(Some(0)), Time::Seconds(0));
    assert_eq!(Time::from_position(Some(i64::MAX)), Time::Seconds(i64::MAX as u64));
    assert_eq!(Time::from_position(Some(-1)), Time::Unknown);
    assert_eq!(Time::from_position(Some(i64::MIN)), Time::Unknown);
    assert_eq!(Time::from_position(None), Time::Unknown);
}

#[test]
fn numbers_of_the_progress_file() {
    assert_eq!(Time::Unknown.to_number(), -1);
    assert_eq!(Time::Seconds(0).to_number(), 0);
    assert_eq!(Time::Seconds(u64::MAX).to_number(), u64::MAX as i128);
    assert_eq!(Time::from_number(-1), Time::Unknown);
    assert_eq!(Time::from_number(-7), Time::Unknown);
    assert_eq!(Time::from_number(0), Time::Seconds(0));
    assert_eq!(Time::from_number(100), Time::Seconds(100));
    assert_eq!(Time::from_number(u64::MAX as i128), Time::Seconds(u64::MAX));
    assert_eq!(Time::from_number(u64::MAX as i128 + 1), Time::Unknown);
}

#[test]
fn a_time_survives_its_number() {
    for t in [Time::Unknown, Time::Seconds(0), Time::Seconds(95), Time::Seconds(u64::MAX)] {
        assert_eq!(Time::from_number(t.to_number()), t);
    }
}

#[test]
fn never_started_needs_watching_whatever_the_duration() {
    assert!(needs_watching(Time::Unknown, Time::Unknown));
    assert!(needs_watching(Time::Unknown, Time::Seconds(0)));
    assert!(needs_watching(Time::Unknown, Time::Seconds(100)));
}

#[test]
fn threshold_is_inclusive() {
    assert!(needs_watching(Time::Seconds(85), Time::Seconds(100)));
    assert!(needs_watching(Time::Seconds(17), Time::Seconds(20)));
    assert!(!needs_watching(Time::Seconds(86), Time::Seconds(100)));
    assert!(!needs_watching(Time::Seconds(95), Time::Seconds(100)));
    assert!(needs_watching(Time::Seconds(0), Time::Seconds(100)));
    assert!(needs_watching(Time::Seconds(84), Time::Seconds(99)));
    assert!(!needs_watching(Time::Seconds(85), Time::Seconds(99)));
}

#[test]
fn unknown_or_zero_duration_is_passed_over() {
    assert!(!needs_watching(Time::Seconds(10), Time::Unknown));
    assert!(!needs_watching(Time::Seconds(0), Time::Unknown));
    assert!(!needs_watching(Time::Seconds(10), Time::Seconds(0)));
    assert!(!needs_watching(Time::Seconds(0), Time::Seconds(0)));
}

#[test]
fn threshold_holds_at_the_largest_counts() {
    assert!(!needs_watching(Time::Seconds(u64::MAX), Time::Seconds(u64::MAX)));
    assert!(needs_watching(Time::Seconds(u64::MAX / 2), Time::Seconds(u64::MAX)));
    assert!(!needs_watching(Time::Seconds(u64::MAX), Time::Seconds(1)));
}
