use ctx::graph::ImportGraph;
use ctx::links::{build_dependency_links, ripple_targets, symbols_in_file, SymbolRef};

fn s(x: &str) -> String {
    x.to_string()
}

fn sym(fqn: &str, file: &str) -> SymbolRef {
    SymbolRef { fqn: s(fqn), file: s(file) }
}

#[test]
fn symbols_use_what_their_file_imports_and_are_used_back() {
    let mut g = ImportGraph::new();
    g.set_imports(s("/r/a.ts"), vec![s("/r/b.ts")]);
    g.set_imports(s("/r/c.ts"), vec![s("/r/b.ts"), s("/r/a.ts")]);
    let syms = vec![sym("a/x", "/r/a.ts"), sym("b/y", "/r/b.ts"), sym("b/z", "/r/b.ts"), sym("c/w", "/r/c.ts")];
    let links = build_dependency_links(&g, &syms);
    assert_eq!(links.len(), 4);
    assert_eq!(links[0].uses, vec![s("b/y"), s("b/z")]);
    assert_eq!(links[0].used_by, vec![s("c/w")]);
    assert!(links[1].uses.is_empty());
    assert_eq!(links[1].used_by, vec![s("a/x"), s("c/w")]);
    assert_eq!(links[2].used_by, vec![s("a/x"), s("c/w")]);
    assert_eq!(links[3].uses, vec![s("a/x"), s("b/y"), s("b/z")]);
    assert!(links[3].used_by.is_empty());
    // symmetry: every use is mirrored by a used-by entry
    for (i, l) in links.iter().enumerate() {
        for u in &l.uses {
            let j = syms.iter().position(|t| &t.fqn == u).unwrap();
            assert!(links[j].used_by.contains(&syms[i].fqn));
        }
    }
}

#[test]
fn symbols_in_a_file_keep_their_order() {
    let syms = vec![sym("a/x", "/r/a.ts"), sym("b/y", "/r/b.ts"), sym("a/z", "/r/a.ts")];
    assert_eq!(symbols_in_file(&syms, &s("/r/a.ts")), vec![s("a/x"), s("a/z")]);
    assert!(symbols_in_file(&syms, &s("/r/none.ts")).is_empty());
}

#[test]
fn a_ripple_reaches_the_symbols_of_each_dependent_with_its_depth() {
    let syms = vec![sym("b/y", "/r/b.ts"), sym("c/w", "/r/c.ts"), sym("b/z", "/r/b.ts")];
    let deps = vec![(s("/r/c.ts"), 1u8), (s("/r/b.ts"), 2u8), (s("/r/none.ts"), 3u8)];
    assert_eq!(ripple_targets(&deps, &syms), vec![(s("c/w"), 1), (s("b/y"), 2), (s("b/z"), 2)]);
}
