use rs_backup::timestamp::Timestamp;

fn at(seconds: i64, nanoseconds: u32) -> Timestamp {
    Timestamp { seconds, nanoseconds }
}

#[test]
fn later_second_is_after() {
    assert!(at(200, 0).is_after(&at(100, 0)));
    assert!(!at(100, 0).is_after(&at(200, 0)));
}

#[test]
fn equal_instants_are_not_after() {
    assert!(!at(100, 5).is_after(&at(100, 5)));
}

#[test]
fn nanoseconds_decide_within_a_second() {
    assert!(at(100, 2).is_after(&at(100, 1)));
    assert!(!at(100, 1).is_after(&at(100, 2)));
    assert!(at(100, 0).is_after(&at(99, 999_999_999)));
}

#[test]
fn instants_before_the_epoch_compare_forwards() {
    assert!(at(-1, 0).is_after(&at(-2, 999_999_999)));
    assert!(at(0, 0).is_after(&at(-1, 999_999_999)));
    assert!(!at(-5, 0).is_after(&at(-5, 1)));
}

#[test]
fn extreme_seconds_do_not_overflow() {
    assert!(at(i64::MAX, u32::MAX).is_after(&at(i64::MIN, 0)));
    assert!(!at(i64::MIN, 0).is_after(&at(i64::MAX, u32::MAX)));
    assert!(at(i64::MAX, u32::MAX).is_after(&at(i64::MAX, 0)));
}

#[test]
fn unnormalised_nanoseconds_count_as_time() {
    assert!(at(0, 2_000_000_000).is_after(&at(1, 0)));
    assert!(!at(1, 0).is_after(&at(0, 1_000_000_000)));
}
