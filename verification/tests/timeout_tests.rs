use tty_events::timeout::PollTimeout;

#[test]
fn no_timeout_never_elapses() {
    let t = PollTimeout::new(None, 100);
    assert!(!t.elapsed(100));
    assert!(!t.elapsed(u64::MAX));
    assert_eq!(t.leftover(500), None);
}

#[test]
fn leftover_counts_down_and_clamps_at_zero() {
    let t = PollTimeout::new(Some(50), 100);
    assert_eq!(t.leftover(100), Some(50));
    assert_eq!(t.leftover(130), Some(20));
    assert_eq!(t.leftover(150), Some(0));
    assert_eq!(t.leftover(1000), Some(0));
    assert!(!t.elapsed(149));
    assert!(t.elapsed(150));
    assert!(t.elapsed(151));
}

#[test]
fn zero_timeout_elapses_immediately() {
    let t = PollTimeout::new(Some(0), 7);
    assert!(t.elapsed(7));
    assert_eq!(t.leftover(7), Some(0));
}

#[test]
fn repeated_queries_never_rearm() {
    let t = PollTimeout::new(Some(10), 0);
    assert!(t.elapsed(10));
    assert!(t.elapsed(11));
    assert!(t.elapsed(10_000));
    assert_eq!(t.leftover(10_000), Some(0));
}

#[test]
fn deadline_saturates_instead_of_wrapping() {
    let t = PollTimeout::new(Some(u64::MAX), 10);
    assert!(!t.elapsed(u64::MAX - 1));
    assert_eq!(t.leftover(u64::MAX), Some(0));
}
