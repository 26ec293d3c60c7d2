use ctx::differ::{diff_file, DiffKind};

fn summary(changes: &[ctx::differ::SymbolChange]) -> Vec<(String, DiffKind, String)> {
    changes.iter().map(|c| (c.fqn.clone(), c.diff_kind, c.detail.clone())).collect()
}

#[test]
fn a_new_file_adds_every_symbol() {
    let got = diff_file(None, Some("def a():\n    pass\nclass B:\n"), "/r/app/mod.py", "/r");
    assert_eq!(
        summary(&got),
        vec![
            ("app/mod/a".to_string(), DiffKind::Added, "created".to_string()),
            ("app/mod/B".to_string(), DiffKind::Added, "created".to_string()),
        ]
    );
}

#[test]
fn a_deleted_file_removes_every_symbol() {
    let got = diff_file(Some("def a():\n    pass\n"), None, "/r/app/mod.py", "/r");
    assert_eq!(summary(&got), vec![("app/mod/a".to_string(), DiffKind::Removed, "removed".to_string())]);
}

#[test]
fn an_edit_reports_added_modified_and_removed_symbols() {
    let old = "def keep():\n    return 1\ndef change():\n    return 1\ndef gone():\n    pass\n";
    let new = "def keep():\n    return 1\ndef change():\n    return 2\ndef fresh():\n    pass\n";
    let got = diff_file(Some(old), Some(new), "/r/app/mod.py", "/r");
    assert_eq!(
        summary(&got),
        vec![
            ("app/mod/change".to_string(), DiffKind::Modified, "modified".to_string()),
            ("app/mod/fresh".to_string(), DiffKind::Added, "added function".to_string()),
            ("app/mod/gone".to_string(), DiffKind::Removed, "removed".to_string()),
        ]
    );
}

#[test]
fn an_unchanged_file_has_no_changes() {
    let src = "def a():\n    pass\nclass B:\n    x = 1\n";
    assert!(diff_file(Some(src), Some(src), "/r/app/mod.py", "/r").is_empty());
}

#[test]
fn op_codes_are_w_for_writes_and_d_for_deletions() {
    assert_eq!(DiffKind::Added.op_code(), "W");
    assert_eq!(DiffKind::Modified.op_code(), "W");
    assert_eq!(DiffKind::Removed.op_code(), "D");
}

#[test]
fn a_name_declared_twice_changes_once_by_its_last_declaration() {
    let old = "def a():\n    return 1\ndef a():\n    return 2\n";
    let new = "def a():\n    return 1\ndef a():\n    return 3\n";
    let got = diff_file(Some(old), Some(new), "/r/app/mod.py", "/r");
    assert_eq!(summary(&got), vec![("app/mod/a".to_string(), DiffKind::Modified, "modified".to_string())]);
}
