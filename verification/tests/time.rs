use tap::time::{elapsed_more_than, NANOS_PER_SECOND};

#[test]
fn elapsed_time_is_compared_to_the_nanosecond() {
    assert!(!elapsed_more_than(0, 3 * NANOS_PER_SECOND, 3 * NANOS_PER_SECOND));
    assert!(elapsed_more_than(0, 3 * NANOS_PER_SECOND + 1, 3 * NANOS_PER_SECOND));
    assert!(!elapsed_more_than(i128::MIN, i128::MIN, 5));
    assert!(!elapsed_more_than(i128::MIN, i128::MIN + 5, 5));
    assert!(elapsed_more_than(i128::MIN, i128::MIN + 6, 5));
    assert!(elapsed_more_than(i128::MIN, i128::MAX, 5));
    assert!(!elapsed_more_than(i128::MAX, i128::MIN, 0));
}
