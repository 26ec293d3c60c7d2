use ctx::decimal::push_decimal;
use ctx::rate::{record_write_at, RateTable};
use ctx::report::{default_nest, fqn_head, fqn_module, write_active_at, write_nest};

#[test]
fn the_nest_section_wraps_the_text() {
    let mut out = String::from("x");
    write_nest(&mut out, "rules");
    assert_eq!(out, "x---NEST\nrules\n---\n\n");
}

#[test]
fn the_default_nest_starts_with_structure_and_ends_with_the_boy_scout_rule() {
    let n = default_nest();
    assert!(n.starts_with("structure:\n  modules should be deep \u{2014} few large modules"));
    assert!(n.contains("  if hard to name \u{2192} redesign\n"));
    assert!(n.ends_with("boy scout rule \u{2014} leave code cleaner than you found it"));
    assert_eq!(n.lines().count(), 28);
}

#[test]
fn integers_are_written_in_decimal() {
    let mut out = String::new();
    push_decimal(&mut out, 0);
    out.push(' ');
    push_decimal(&mut out, 1234567);
    out.push(' ');
    push_decimal(&mut out, -42);
    out.push(' ');
    push_decimal(&mut out, i128::MIN);
    assert_eq!(out, format!("0 1234567 -42 {}", i128::MIN));
}

#[test]
fn active_files_are_listed_most_recent_first() {
    let mut rates = RateTable::new();
    record_write_at(&mut rates, "/r/src/old.ts", 100);
    record_write_at(&mut rates, "/r/src/busy.ts", 970);
    record_write_at(&mut rates, "/r/src/busy.ts", 950);
    record_write_at(&mut rates, "/r/src/busy.ts", 990);
    record_write_at(&mut rates, "/r/src/calm.ts", 800);
    record_write_at(&mut rates, "/elsewhere/x.ts", 995);
    let mut out = String::new();
    write_active_at(&mut out, &rates, "/r", 1000);
    assert_eq!(
        out,
        "---ACTIVE\n\
         /elsewhere/x.ts  last_write:5s ago  writes_1m:1  recent\n\
         src/busy.ts  last_write:10s ago  writes_1m:3  editing \u{26a1}\n\
         src/calm.ts  last_write:3m ago  writes_1m:0  idle\n\
         ---\n\n"
    );
}

#[test]
fn no_active_files_means_no_section() {
    let mut rates = RateTable::new();
    record_write_at(&mut rates, "/r/a.ts", 100);
    let mut out = String::from("keep");
    write_active_at(&mut out, &rates, "/r", 1000);
    assert_eq!(out, "keep");
}

#[test]
fn modules_and_heads_of_qualified_names() {
    assert_eq!(fqn_module("app/auth/validate"), Some("app/auth".to_string()));
    assert_eq!(fqn_module("solo"), None);
    assert_eq!(fqn_head("app/auth/validate"), "app");
    assert_eq!(fqn_head("solo"), "solo");
}
