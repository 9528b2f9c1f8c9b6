use casual_go::timer::Timer;

#[test]
fn test_running_countdown_and_pause() {
    // ten seconds on the clock, running from instant zero
    let mut timer = Timer::new(10_000, true, 0);
    assert!(timer.running());
    assert_eq!(timer.time(4_000), 6_000);
    timer.pause(4_000);
    assert!(!timer.running());
    assert_eq!(timer.time(9_999), 6_000);
    timer.add(5_000);
    assert_eq!(timer.time(9_999), 11_000);
    // resuming and pausing at one instant changes nothing
    timer.resume(20_000);
    timer.pause(20_000);
    assert!(!timer.running());
    assert_eq!(timer.time(20_000), 11_000);
}

#[test]
fn test_time_floors_at_zero() {
    let timer = Timer::new(1_000, true, 0);
    assert_eq!(timer.time(500), 500);
    assert_eq!(timer.time(1_000), 0);
    assert_eq!(timer.time(99_000), 0);
}

#[test]
fn test_resume_is_idempotent_while_running() {
    let mut timer = Timer::new(5_000, true, 0);
    timer.resume(2_000);
    // the earlier mark stands: two seconds have elapsed
    assert_eq!(timer.time(2_000), 3_000);
}

#[test]
fn test_paused_timer_keeps_its_bank() {
    let mut timer = Timer::new(5_000, false, 0);
    assert_eq!(timer.time(100_000), 5_000);
    timer.add(250);
    assert_eq!(timer.time(100_000), 5_250);
}
