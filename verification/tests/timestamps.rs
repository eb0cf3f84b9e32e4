use shs_index::entry::Timestamp;

#[test]
fn after_the_epoch() {
    assert_eq!(Timestamp::from_epoch_distance(false, 0, 0), Some(Timestamp { secs: 0, nanos: 0 }));
    assert_eq!(
        Timestamp::from_epoch_distance(false, 1_500_000_000, 123_456_789),
        Some(Timestamp { secs: 1_500_000_000, nanos: 123_456_789 })
    );
}

#[test]
fn before_the_epoch_on_a_whole_second() {
    assert_eq!(Timestamp::from_epoch_distance(true, 3, 0), Some(Timestamp { secs: -3, nanos: 0 }));
    assert_eq!(Timestamp::from_epoch_distance(true, 0, 0), Some(Timestamp { secs: 0, nanos: 0 }));
}

#[test]
fn before_the_epoch_with_a_fraction() {
    assert_eq!(
        Timestamp::from_epoch_distance(true, 0, 500_000_000),
        Some(Timestamp { secs: -1, nanos: 500_000_000 })
    );
    assert_eq!(
        Timestamp::from_epoch_distance(true, 1, 1),
        Some(Timestamp { secs: -2, nanos: 999_999_999 })
    );
    assert_eq!(
        Timestamp::from_epoch_distance(true, 10, 250_000_000),
        Some(Timestamp { secs: -11, nanos: 750_000_000 })
    );
}

#[test]
fn nanoseconds_beyond_a_second_are_carried() {
    assert_eq!(
        Timestamp::from_epoch_distance(false, 1, 2_500_000_000),
        Some(Timestamp { secs: 3, nanos: 500_000_000 })
    );
    assert_eq!(
        Timestamp::from_epoch_distance(true, 1, 2_500_000_000),
        Some(Timestamp { secs: -4, nanos: 500_000_000 })
    );
}

#[test]
fn the_limits_of_the_seconds() {
    let max = i64::MAX as u64;
    assert_eq!(
        Timestamp::from_epoch_distance(false, max, 999_999_999),
        Some(Timestamp { secs: i64::MAX, nanos: 999_999_999 })
    );
    assert_eq!(Timestamp::from_epoch_distance(false, max + 1, 0), None);
    assert_eq!(Timestamp::from_epoch_distance(false, u64::MAX, 0), None);
    assert_eq!(
        Timestamp::from_epoch_distance(true, max + 1, 0),
        Some(Timestamp { secs: i64::MIN, nanos: 0 })
    );
    assert_eq!(Timestamp::from_epoch_distance(true, max + 1, 1), None);
    assert_eq!(
        Timestamp::from_epoch_distance(true, max, 1),
        Some(Timestamp { secs: i64::MIN, nanos: 999_999_999 })
    );
    assert_eq!(Timestamp::from_epoch_distance(true, u64::MAX, 0), None);
}
