use ctx::rate::{
    record_write, writes_per_hour, cleanup,
    activity_label, cleanup_at, file_activity_label, file_last_write, file_writes_last_n_secs_at, record_write_at,
    writes_per_hour_at, RateTable,
};

#[test]
fn activity_labels_follow_the_thresholds() {
    assert_eq!(activity_label(0), "quiet");
    assert_eq!(activity_label(1), "calm");
    assert_eq!(activity_label(3), "calm");
    assert_eq!(activity_label(4), "active");
    assert_eq!(activity_label(8), "active");
    assert_eq!(activity_label(9), "storm");
    assert_eq!(file_activity_label(0), "idle");
    assert_eq!(file_activity_label(2), "recent");
    assert_eq!(file_activity_label(3), "editing");
}

#[test]
fn writes_are_counted_within_the_hour() {
    let mut rates = RateTable::new();
    record_write_at(&mut rates, "app/auth", 1000);
    record_write_at(&mut rates, "app/auth", 4000);
    record_write_at(&mut rates, "app/auth", 4500);
    record_write_at(&mut rates, "app/other", 4500);
    assert_eq!(writes_per_hour_at(&rates, "app/auth", 4599), 3);
    assert_eq!(writes_per_hour_at(&rates, "app/auth", 4601), 2);
    assert_eq!(writes_per_hour_at(&rates, "app/missing", 4600), 0);
}

#[test]
fn file_writes_in_the_last_seconds_and_the_last_write() {
    let mut rates = RateTable::new();
    assert_eq!(file_last_write(&rates, "/r/a.ts"), None);
    record_write_at(&mut rates, "/r/a.ts", 100);
    record_write_at(&mut rates, "/r/a.ts", 150);
    record_write_at(&mut rates, "/r/a.ts", 170);
    assert_eq!(file_last_write(&rates, "/r/a.ts"), Some(170));
    assert_eq!(file_writes_last_n_secs_at(&rates, "/r/a.ts", 60, 200), 2);
    assert_eq!(file_writes_last_n_secs_at(&rates, "/r/a.ts", 60, 229), 1);
    assert_eq!(file_writes_last_n_secs_at(&rates, "/r/a.ts", 60, 230), 0);
}

#[test]
fn cleanup_drops_old_timestamps_and_empty_keys() {
    let mut rates = RateTable::new();
    record_write_at(&mut rates, "old", 10);
    record_write_at(&mut rates, "mixed", 10);
    record_write_at(&mut rates, "mixed", 5000);
    cleanup_at(&mut rates, 5000);
    assert!(rates.get("old").is_none());
    assert_eq!(rates.get("mixed"), Some(&vec![5000]));
}

#[test]
fn a_recorded_write_counts_and_cleanup_keeps_the_hourly_count() {
    let mut rates = RateTable::new();
    record_write_at(&mut rates, "m", 100);
    record_write_at(&mut rates, "m", 3000);
    let before = writes_per_hour_at(&rates, "m", 4000);
    record_write_at(&mut rates, "m", 4000);
    assert_eq!(writes_per_hour_at(&rates, "m", 4000), before + 1);
    let counted = writes_per_hour_at(&rates, "m", 4000);
    cleanup_at(&mut rates, 4000);
    assert_eq!(writes_per_hour_at(&rates, "m", 4000), counted);
    assert_eq!(rates.get("m"), Some(&vec![3000, 4000]));
}

#[test]
fn writes_recorded_now_count_in_the_current_hour() {
    let mut rates = RateTable::new();
    let t = record_write(&mut rates, "m").expect("the clock reads after the epoch");
    assert!(t > 1_600_000_000);
    let (n, at) = writes_per_hour(&rates, "m").unwrap();
    assert!(at >= t);
    assert_eq!(n, if at - t < 3600 { 1 } else { 0 });
    assert!(cleanup(&mut rates).is_some());
}
