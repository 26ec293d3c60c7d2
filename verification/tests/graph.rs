use ctx::graph::ImportGraph;

fn s(x: &str) -> String {
    x.to_string()
}

#[test]
fn set_imports_records_both_directions() {
    let mut g = ImportGraph::new();
    g.set_imports(s("a"), vec![s("b"), s("c")]);
    assert_eq!(g.imports_of(&s("a")), vec![s("b"), s("c")]);
    assert_eq!(g.dependents_of(&s("b")), vec![s("a")]);
    assert_eq!(g.dependents_of(&s("c")), vec![s("a")]);
    assert!(g.dependents_of(&s("a")).is_empty());
}

#[test]
fn replacing_imports_drops_stale_reverse_edges() {
    let mut g = ImportGraph::new();
    g.set_imports(s("a"), vec![s("b")]);
    g.set_imports(s("x"), vec![s("b")]);
    g.set_imports(s("a"), vec![s("c")]);
    assert_eq!(g.dependents_of(&s("b")), vec![s("x")]);
    assert_eq!(g.dependents_of(&s("c")), vec![s("a")]);
    assert_eq!(g.imports_of(&s("a")), vec![s("c")]);
}

#[test]
fn transitive_dependents_walk_reverse_edges_up_to_the_depth() {
    let mut g = ImportGraph::new();
    g.set_imports(s("b"), vec![s("a")]);
    g.set_imports(s("c"), vec![s("b")]);
    g.set_imports(s("d"), vec![s("c")]);
    let got = g.transitive_dependents(&s("a"), 2);
    assert_eq!(got, vec![(s("b"), 1), (s("c"), 2)]);
    let all = g.transitive_dependents(&s("a"), 10);
    assert_eq!(all, vec![(s("b"), 1), (s("c"), 2), (s("d"), 3)]);
    assert!(g.transitive_dependents(&s("a"), 0).is_empty());
}

#[test]
fn transitive_dependents_visit_each_file_once_and_survive_cycles() {
    let mut g = ImportGraph::new();
    g.set_imports(s("b"), vec![s("a")]);
    g.set_imports(s("a"), vec![s("b")]);
    g.set_imports(s("c"), vec![s("a"), s("b")]);
    let got = g.transitive_dependents(&s("a"), 5);
    let mut files: Vec<String> = got.iter().map(|(f, _)| f.clone()).collect();
    files.sort();
    assert_eq!(files, vec![s("b"), s("c")]);
    // the stack is last-in first-out: `c` (pushed last) is reached first
    assert_eq!(got[0], (s("c"), 1));
}

#[test]
fn unknown_files_have_no_edges() {
    let g = ImportGraph::new();
    assert!(g.imports_of(&s("nope")).is_empty());
    assert!(g.dependents_of(&s("nope")).is_empty());
    assert!(g.transitive_dependents(&s("nope"), 3).is_empty());
}

#[test]
fn transitive_dependents_report_each_file_once_and_never_the_start() {
    let mut g = ImportGraph::new();
    g.set_imports(s("b"), vec![s("a")]);
    g.set_imports(s("c"), vec![s("a"), s("b")]);
    g.set_imports(s("a"), vec![s("c")]);
    let got = g.transitive_dependents(&s("a"), 5);
    let mut names: Vec<&String> = got.iter().map(|(f, _)| f).collect();
    names.sort();
    names.dedup();
    assert_eq!(names.len(), got.len());
    assert!(got.iter().all(|(f, d)| f != "a" && *d >= 1 && *d <= 5));
}

#[test]
fn every_direct_dependent_is_reported_at_depth_one() {
    let mut g = ImportGraph::new();
    g.set_imports(s("b"), vec![s("a")]);
    g.set_imports(s("c"), vec![s("a")]);
    g.set_imports(s("a"), vec![s("a")]);
    let got = g.transitive_dependents(&s("a"), 1);
    let mut names: Vec<String> = got.iter().map(|(f, _)| f.clone()).collect();
    names.sort();
    assert_eq!(names, vec![s("b"), s("c")]);
    assert!(got.iter().all(|(_, d)| *d == 1));
    assert_eq!(g.dependents_of(&s("a")).len(), 3);
}
