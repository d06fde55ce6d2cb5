use xpd_timer::{Driver, TimerError};

#[test]
fn advance_follows_elapsed_time() {
    let mut driver = Driver::new(1000);
    assert_eq!(driver.submit("a", 5_500, 0), None);
    assert!(driver.advance(4_999).is_empty());
    assert_eq!(driver.ticks(), 4);
    let got = driver.advance(5_000);
    assert_eq!(got.len(), 1);
    assert_eq!(got[0].data, "a");
    assert_eq!(got[0].fire_tick, 5);
    assert_eq!(driver.ticks(), 5);
}

#[test]
fn submissions_due_within_a_tick_come_straight_back() {
    let mut driver = Driver::new(1000);
    assert!(driver.advance(2_000).is_empty());
    assert_eq!(driver.submit("late", 10, 2_000), Some("late"));
    assert_eq!(driver.submit("soon", 2_900, 2_000), Some("soon"));
    assert_eq!(driver.submit("later", 3_001, 2_000), None);
    assert!(driver.advance(2_999).is_empty());
    let got = driver.advance(3_000);
    assert_eq!(got[0].data, "later");
}

#[test]
fn submissions_are_scheduled_whole_ticks_ahead() {
    let mut driver = Driver::new(10);
    assert_eq!(driver.submit(1u8, 1_000, 0), None);
    assert!(driver.advance(999).is_empty());
    assert_eq!(driver.advance(1_000).len(), 1);
    assert_eq!(driver.submit(2u8, 1_529, 1_000), None);
    assert!(driver.advance(1_519).is_empty());
    assert_eq!(driver.advance(1_520).len(), 1);
}

#[test]
fn park_covers_the_quiet_ticks_less_the_round() {
    let mut driver = Driver::<u8>::new(1000);
    assert_eq!(driver.park_nanos(0), Some(4096 * 1000));
    assert_eq!(driver.park_nanos(500), Some(4096 * 1000 - 500));
    driver.submit(1, 1_500, 0);
    assert_eq!(driver.park_nanos(0), Some(1000));
    assert_eq!(driver.park_nanos(1000), None);
    assert_eq!(driver.park_nanos(2000), None);
}

#[test]
fn park_saturates_for_huge_intervals() {
    let driver = Driver::<u8>::new(u64::MAX / 2);
    assert_eq!(driver.park_nanos(0), Some(u64::MAX));
}

#[test]
fn error_messages_quote_the_detail() {
    let e = TimerError::RecvError("channel closed".to_string());
    assert_eq!(e.message(), "Internal Error:\"channel closed\"");
    let e = TimerError::SendError("no \"receiver\"".to_string());
    assert_eq!(e.message(), "Internal Error:\"no \\\"receiver\\\"\"");
}
