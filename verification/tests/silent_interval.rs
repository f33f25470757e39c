use std::time::Duration;

use instrumentrs::silent_interval::SilentInterval;

#[test]
fn silent_interval_wait_after() {
    let si = SilentInterval::new(Duration::from_micros(100));
    assert_eq!(si.wait_after(0), 100_000);
    assert_eq!(si.wait_after(40_000), 60_000);
    assert_eq!(si.wait_after(100_000), 0);
    assert_eq!(si.wait_after(250_000), 0);
}

#[test]
fn silent_interval_remaining_is_at_most_the_interval() {
    let mut si = SilentInterval::new(Duration::from_millis(50));
    assert!(si.remaining() <= 50_000_000);
    si.mark_write();
    assert!(si.remaining() <= 50_000_000);
    assert_eq!(si.wait_after(0), 50_000_000);
}
