use ctx::brief::{brief_text, nearby_active_at, recent_mentions};
use ctx::graph::ImportGraph;
use ctx::rate::{record_write_at, RateTable};

fn s(x: &str) -> String {
    x.to_string()
}

#[test]
fn nearby_files_written_in_the_last_five_minutes() {
    let mut g = ImportGraph::new();
    g.set_imports(s("/r/a.ts"), vec![s("/r/b.ts"), s("/r/c.ts")]);
    g.set_imports(s("/r/d.ts"), vec![s("/r/a.ts")]);
    let mut rates = RateTable::new();
    record_write_at(&mut rates, "/r/b.ts", 950);
    record_write_at(&mut rates, "/r/b.ts", 990);
    record_write_at(&mut rates, "/r/c.ts", 100);
    record_write_at(&mut rates, "/r/d.ts", 700);
    let got = nearby_active_at(&g, &rates, &s("/r/a.ts"), "/r", 1000);
    assert_eq!(got, vec![(s("b.ts"), 10, 2), (s("d.ts"), 300, 0)]);
}

#[test]
fn recent_mentions_are_newest_first_and_limited() {
    let log = vec![
        (s("app/auth/a"), vec![]),
        (s("app/other/x"), vec![s("src/auth.ts")]),
        (s("app/other/y"), vec![]),
        (s("app/auth/b"), vec![]),
    ];
    assert_eq!(recent_mentions(&log, "auth", 5), vec![3, 1, 0]);
    assert_eq!(recent_mentions(&log, "auth", 2), vec![3, 1]);
    assert!(recent_mentions(&log, "nothing", 5).is_empty());
    assert!(recent_mentions(&log, "auth", 0).is_empty());
}

#[test]
fn a_brief_lists_activity_neighbours_and_symbols() {
    let nearby = vec![(s("b.ts"), 10, 2), (s("d.ts"), 300, 0)];
    let syms = vec![s("    run [function] \u{25cf}\u{25cb}\u{25cb}\u{25cb}\u{25cb} touches:1")];
    let got = brief_text("a.ts", Some(5), 3, &nearby, &syms, 500);
    assert_eq!(
        got,
        "[ctx] a.ts\n  last_write:5s ago  writes_1m:3  editing \u{26a1}\n  nearby active:\n    b.ts 10sago writes_1m:2\n    d.ts 5mago writes_1m:0\n  symbols:\n    run [function] \u{25cf}\u{25cb}\u{25cb}\u{25cb}\u{25cb} touches:1\n"
    );
}

#[test]
fn a_brief_is_empty_without_activity_or_symbols() {
    assert_eq!(brief_text("a.ts", Some(301), 0, &vec![], &vec![], 500), "");
    assert_eq!(brief_text("a.ts", None, 0, &vec![], &vec![], 500), "");
}

#[test]
fn the_budget_counts_characters() {
    let syms = vec![s("    \u{e9}\u{e9}\u{e9}")];
    let got = brief_text("\u{e9}.ts", None, 0, &vec![], &syms, 8);
    assert_eq!(got.chars().count(), 8);
    assert_eq!(got, "[ctx] \u{e9}.");
    let whole = brief_text("x", None, 0, &vec![(s("n"), 0, 0)], &syms, 17);
    assert_eq!(whole, "[ctx] x\n  nearby ");
}
