use ctx::trails::{arch_path_of, attribute, Trail};

fn trail(worker: &str, ts: i64, arch: &[&str]) -> Trail {
    Trail {
        worker: worker.to_string(),
        timestamp: ts,
        arch_paths: arch.iter().map(|s| s.to_string()).collect(),
        files: Vec::new(),
    }
}

#[test]
fn attributes_a_change_to_the_worker_that_touched_that_file() {
    let trails = vec![trail("impl-auth", 1000, &["app/auth"])];
    assert_eq!(
        attribute(&trails, "app/auth/validate", 995).as_deref(),
        Some("impl-auth")
    );
}

#[test]
fn picks_the_nearest_worker_when_two_touched_the_same_file() {
    let trails = vec![
        trail("early", 900, &["app/auth"]),
        trail("late", 1010, &["app/auth"]),
    ];
    assert_eq!(
        attribute(&trails, "app/auth/validate", 1000).as_deref(),
        Some("late")
    );
}

#[test]
fn does_not_attribute_across_the_join_window() {
    let trails = vec![trail("stale", 0, &["app/auth"])];
    assert_eq!(attribute(&trails, "app/auth/validate", 10_000), None);
}

#[test]
fn does_not_attribute_a_file_the_worker_never_touched() {
    let trails = vec![trail("impl-auth", 1000, &["app/auth"])];
    assert_eq!(attribute(&trails, "app/billing/charge", 1000), None);
}

#[test]
fn attribution_breaks_a_tie_in_favour_of_the_earlier_trail() {
    let trails = vec![
        trail("first", 990, &["app/auth"]),
        trail("second", 1010, &["app/auth"]),
    ];
    assert_eq!(attribute(&trails, "app/auth/validate", 1000).as_deref(), Some("first"));
}

#[test]
fn attribution_window_is_inclusive_at_its_edge() {
    let trails = vec![trail("edge", 1120, &["app/auth"])];
    assert_eq!(attribute(&trails, "app/auth/validate", 1000).as_deref(), Some("edge"));
    let trails = vec![trail("past", 1121, &["app/auth"])];
    assert_eq!(attribute(&trails, "app/auth/validate", 1000), None);
}

#[test]
fn a_log_path_without_a_slash_is_not_attributed() {
    let trails = vec![trail("w", 1000, &[""])];
    assert_eq!(attribute(&trails, "validate", 1000), None);
}

#[test]
fn attribution_survives_extreme_timestamps() {
    let trails = vec![trail("far", i64::MIN, &["app/auth"])];
    assert_eq!(attribute(&trails, "app/auth/validate", i64::MAX), None);
}

#[test]
fn arch_path_of_strips_the_project_root_and_extension() {
    assert_eq!(arch_path_of("/proj/src/app/auth.ts", "/proj"), "app/auth");
    assert_eq!(arch_path_of("/elsewhere/x.py", "/proj"), "/elsewhere/x");
}
