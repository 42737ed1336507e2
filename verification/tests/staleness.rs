use emcp_tools::clock::is_stale;

#[test]
fn older_than_the_threshold_is_stale() {
    assert!(is_stale(10_000_000_000, 0, 5_000_000_000));
    assert!(is_stale(5_000_000_001, 0, 5_000_000_000));
}

#[test]
fn at_or_under_the_threshold_is_not_stale() {
    assert!(!is_stale(5_000_000_000, 0, 5_000_000_000));
    assert!(!is_stale(4_999_999_999, 0, 5_000_000_000));
    assert!(!is_stale(7, 7, 0));
}

#[test]
fn age_zero_takes_anything_older_than_now() {
    assert!(is_stale(1, 0, 0));
    assert!(!is_stale(0, 0, 0));
}

#[test]
fn times_before_the_epoch() {
    assert!(is_stale(-1, -12, 10));
    assert!(!is_stale(-1, -11, 10));
    assert!(is_stale(6, -5, 10));
    assert!(!is_stale(5, -5, 10));
}

#[test]
fn widest_span_does_not_overflow() {
    assert!(is_stale(i128::MAX, i128::MIN, u128::MAX - 1));
    assert!(!is_stale(i128::MAX, i128::MIN, u128::MAX));
    assert!(is_stale(i128::MAX, 0, 0));
    assert!(is_stale(-1, i128::MIN, 0));
    assert!(!is_stale(i128::MIN, i128::MIN, 0));
    assert!(!is_stale(i128::MAX, -1, 1u128 << 127));
    assert!(is_stale(i128::MAX, -1, (1u128 << 127) - 1));
}

#[test]
fn modified_after_now_is_not_stale() {
    assert!(!is_stale(0, 1, 0));
    assert!(!is_stale(i128::MIN, i128::MAX, 0));
    assert!(!is_stale(-5, 5, 3));
}
