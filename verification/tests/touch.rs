use ctx::graph::ImportGraph;
use ctx::links::SymbolRef;
use ctx::seqs::push_unique;
use ctx::touch::plan_touch;

fn s(x: &str) -> String {
    x.to_string()
}

#[test]
fn a_touch_records_arch_paths_symbols_and_ripples() {
    let mut g = ImportGraph::new();
    g.set_imports(s("/r/src/app/page.ts"), vec![s("/r/src/auth/validate.ts")]);
    g.set_imports(s("/r/src/app/home.ts"), vec![s("/r/src/app/page.ts")]);
    let syms = vec![
        SymbolRef { fqn: s("auth/validate/check"), file: s("/r/src/auth/validate.ts") },
        SymbolRef { fqn: s("app/page/Page"), file: s("/r/src/app/page.ts") },
    ];
    let files = vec![s("src/auth/validate.ts"), s("/r/src/auth/validate.ts"), s("src/app/page.ts")];
    let plan = plan_touch(&files, "/r", &g, &syms, 3);
    assert_eq!(plan.arch_paths, vec![s("auth/validate"), s("app/page")]);
    assert_eq!(plan.touched, vec![s("auth/validate/check"), s("auth/validate/check"), s("app/page/Page")]);
    assert_eq!(plan.rippled, vec![s("src/app/page.ts"), s("src/app/home.ts")]);
}

#[test]
fn push_unique_keeps_the_first_occurrence() {
    let mut v = vec![s("a")];
    push_unique(&mut v, s("b"));
    push_unique(&mut v, s("a"));
    push_unique(&mut v, s("b"));
    assert_eq!(v, vec![s("a"), s("b")]);
}
