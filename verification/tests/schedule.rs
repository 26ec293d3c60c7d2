use ctx::schedule::Schedule;

#[test]
fn saves_more_than_a_second_apart() {
    let mut s = Schedule::start(0, 600_000);
    assert!(!s.save_due(1000));
    assert!(s.save_due(1001));
    assert_eq!(s.last_save, 1001);
    assert!(!s.save_due(1500));
}

#[test]
fn decay_runs_once_per_interval() {
    let mut s = Schedule::start(0, 600_000);
    assert!(!s.decay_due(599_999));
    assert!(s.decay_due(600_000));
    assert!(!s.decay_due(600_001));
    assert!(s.decay_due(1_200_000));
}

#[test]
fn cleanup_runs_every_five_minutes() {
    let mut s = Schedule::start(10, 1);
    assert!(!s.cleanup_due(300_009));
    assert!(s.cleanup_due(300_010));
    assert_eq!(s.last_cleanup, 300_010);
}

#[test]
fn a_clock_reading_before_the_last_run_counts_as_no_time_passed() {
    let mut s = Schedule::start(5000, 0);
    assert!(!s.save_due(10));
    assert!(s.decay_due(10));
}
