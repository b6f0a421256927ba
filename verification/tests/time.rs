//! Points and spans of time.

use memory_monitor::time::{Duration, Instant};

#[test]
fn spans_are_counted_in_milliseconds() {
    assert_eq!(Duration::from_millis(200).nanos, 200_000_000);
    assert_eq!(Duration::from_millis(u64::MAX).as_millis(), u64::MAX as u128);
    assert_eq!(Duration { nanos: 1_999_999 }.as_millis(), 1);
}

#[test]
fn time_does_not_run_backwards() {
    let early = Instant { nanos: 5 };
    let late = Instant { nanos: 12 };
    assert_eq!(late.duration_since(early).nanos, 7);
    assert_eq!(early.duration_since(late).nanos, 0);
    assert_eq!(early.duration_since(early).nanos, 0);
}
