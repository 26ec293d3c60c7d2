use ctx::parser::ParsedImport;
use ctx::resolver::{candidate_files, resolve_imports, tsconfig_dirs, FoundTsConfig, TsConfig};
use ctx::tsconfig::{strip_jsonc, tsconfig_from_json, JsonValue};

fn to_json(v: &serde_json::Value) -> JsonValue {
    match v {
        serde_json::Value::Null => JsonValue::Null,
        serde_json::Value::Bool(b) => JsonValue::Bool(*b),
        serde_json::Value::Number(n) => JsonValue::Number(n.to_string()),
        serde_json::Value::String(s) => JsonValue::Str(s.clone()),
        serde_json::Value::Array(a) => JsonValue::Array(a.iter().map(to_json).collect()),
        serde_json::Value::Object(m) => JsonValue::Object(m.iter().map(|(k, v)| (k.clone(), to_json(v))).collect()),
    }
}

/// Reads tsconfig text the way the daemon does: comments and trailing
/// commas stripped, then parsed.
fn read_tsconfig(raw: &str) -> Option<TsConfig> {
    let cleaned = strip_jsonc(raw)?;
    let json: serde_json::Value = serde_json::from_str(&cleaned).ok()?;
    tsconfig_from_json(&to_json(&json))
}

fn imp(source: &str, names: &[&str]) -> ParsedImport {
    ParsedImport { source: source.to_string(), names: names.iter().map(|s| s.to_string()).collect() }
}

/// Resolves against an in-memory set of files, the way the daemon does
/// against the disk.
fn resolve(imports: &[ParsedImport], from: &str, root: &str, files: &[&str], ts: Option<FoundTsConfig>) -> Vec<String> {
    let cands = candidate_files(imports, from, root, &ts);
    let existing: Vec<String> = cands.into_iter().filter(|c| files.contains(&c.as_str())).collect();
    resolve_imports(imports, from, root, &ts, &existing)
}

fn alias(dir: &str, pattern: &str, target: &str) -> Option<FoundTsConfig> {
    Some(FoundTsConfig {
        dir: dir.to_string(),
        config: Some(TsConfig {
            base_url: ".".to_string(),
            paths: vec![(pattern.to_string(), vec![target.to_string()])],
        }),
    })
}

#[test]
fn python_absolute_import_resolves_against_the_project_root() {
    let files = ["/r/app/market.py", "/r/app/api.py"];
    let got = resolve(&[imp("app.market", &[])], "/r/app/api.py", "/r", &files, None);
    assert_eq!(got, vec!["/r/app/market.py"]);
}

#[test]
fn python_sibling_import_resolves_next_to_the_file() {
    let files = ["/r/agoda/admin.py", "/r/agoda/app.py"];
    let got = resolve(&[imp("admin", &[])], "/r/agoda/app.py", "/r", &files, None);
    assert_eq!(got, vec!["/r/agoda/admin.py"]);
}

#[test]
fn python_relative_import_climbs_one_level_per_extra_dot() {
    let files = ["/r/pkg/shared.py", "/r/pkg/sub/deep.py"];
    let got = resolve(&[imp("..shared", &[])], "/r/pkg/sub/deep.py", "/r", &files, None);
    assert_eq!(got, vec!["/r/pkg/shared.py"]);
}

#[test]
fn python_from_import_prefers_a_submodule_over_its_parent() {
    let files = ["/r/pkg/__init__.py", "/r/pkg/child.py", "/r/main.py"];
    let got = resolve(&[imp("pkg", &["child"])], "/r/main.py", "/r", &files, None);
    assert_eq!(got, vec!["/r/pkg/child.py"]);
}

#[test]
fn python_package_resolves_to_its_init() {
    let files = ["/r/pkg/__init__.py", "/r/main.py"];
    let got = resolve(&[imp("pkg", &[])], "/r/main.py", "/r", &files, None);
    assert_eq!(got, vec!["/r/pkg/__init__.py"]);
}

#[test]
fn python_stdlib_imports_resolve_to_nothing() {
    let files = ["/r/main.py"];
    let got = resolve(&[imp("os", &[]), imp("flask", &["Flask"])], "/r/main.py", "/r", &files, None);
    assert!(got.is_empty());
}

#[test]
fn ts_alias_resolves_through_the_nearest_tsconfig() {
    let files = ["/r/app/src/lib/supa.ts", "/r/app/src/screens/Page.tsx"];
    let got = resolve(
        &[imp("@/lib/supa", &[])],
        "/r/app/src/screens/Page.tsx",
        "/r",
        &files,
        alias("/r/app", "@/*", "src/*"),
    );
    assert_eq!(got, vec!["/r/app/src/lib/supa.ts"]);
}

#[test]
fn tsconfig_is_looked_for_nearest_first_up_to_the_root() {
    assert_eq!(
        tsconfig_dirs("/r/app/src/Page.tsx", "/r"),
        vec!["/r/app/src", "/r/app", "/r"]
    );
    assert_eq!(tsconfig_dirs("/elsewhere/x.ts", "/r"), vec!["/elsewhere", "/"]);
}

#[test]
fn ts_alias_uses_the_nearest_tsconfig_not_the_outermost() {
    let files = ["/r/outer/thing.ts", "/r/app/src/thing.ts", "/r/app/src/Page.tsx"];
    let got = resolve(&[imp("@/thing", &[])], "/r/app/src/Page.tsx", "/r", &files, alias("/r/app", "@/*", "src/*"));
    assert_eq!(got, vec!["/r/app/src/thing.ts"]);
}

#[test]
fn a_relative_import_resolves_to_the_same_path_the_walker_records() {
    let files = ["/r/src/lib/api.ts", "/r/src/lib/caller.ts"];
    let got = resolve(&[imp("./api", &[])], "/r/src/lib/caller.ts", "/r", &files, None);
    assert_eq!(got, vec!["/r/src/lib/api.ts"]);
    assert!(!got[0].contains("/./"));
    let files2 = ["/r/src/lib/../lib/api.ts"];
    let parent_hop = resolve(&[imp("../lib/api", &[])], "/r/src/lib/caller.ts", "/r", &files2, None);
    assert_eq!(parent_hop, vec!["/r/src/lib/api.ts"]);
}

#[test]
fn ts_directory_import_resolves_to_index() {
    let files = ["/r/src/lib/index.ts", "/r/src/caller.ts"];
    let got = resolve(&[imp("./lib", &[])], "/r/src/caller.ts", "/r", &files, None);
    assert_eq!(got, vec!["/r/src/lib/index.ts"]);
}

#[test]
fn rust_crate_path_resolves_under_src() {
    let files = ["/r/src/state.rs", "/r/src/engine.rs"];
    let got = resolve(&[imp("crate::state::CtxState", &[])], "/r/src/engine.rs", "/r", &files, None);
    assert_eq!(got, vec!["/r/src/state.rs"]);
}

#[test]
fn rust_module_directory_resolves_to_mod_rs() {
    let files = ["/r/src/parser/mod.rs", "/r/src/engine.rs"];
    let got = resolve(&[imp("crate::parser", &[])], "/r/src/engine.rs", "/r", &files, None);
    assert_eq!(got, vec!["/r/src/parser/mod.rs"]);
}

#[test]
fn rust_external_crate_resolves_to_nothing() {
    let files = ["/r/src/engine.rs"];
    let got = resolve(&[imp("serde::Serialize", &[])], "/r/src/engine.rs", "/r", &files, None);
    assert!(got.is_empty());
}

#[test]
fn ts_specifier_that_already_has_an_extension_resolves() {
    let files = ["/r/src/App.tsx", "/r/src/main.tsx"];
    let got = resolve(&[imp("./App.tsx", &[])], "/r/src/main.tsx", "/r", &files, None);
    assert_eq!(got, vec!["/r/src/App.tsx"]);
}

#[test]
fn the_same_file_is_listed_once() {
    let files = ["/r/src/a.ts"];
    let got = resolve(&[imp("./a", &[]), imp("./a.ts", &[])], "/r/src/b.ts", "/r", &files, None);
    assert_eq!(got, vec!["/r/src/a.ts"]);
}

#[test]
fn ts_candidates_are_tried_in_extension_order() {
    let cands = candidate_files(&[imp("./x", &[])], "/r/m.ts", "/r", &None);
    assert_eq!(
        cands,
        vec![
            "/r/x.ts", "/r/x.tsx", "/r/x.js", "/r/x.jsx",
            "/r/x/index.ts", "/r/x/index.tsx", "/r/x/index.js", "/r/x/index.jsx",
        ]
    );
}

#[test]
fn a_file_with_an_extension_wins_over_a_directory_index() {
    let files = ["/r/foo.tsx", "/r/foo/index.ts", "/r/m.ts"];
    let got = resolve(&[imp("./foo", &[])], "/r/m.ts", "/r", &files, None);
    assert_eq!(got, vec!["/r/foo.tsx"]);
}

#[test]
fn ts_relative_import_still_resolves() {
    let files = ["/r/src/lib/api.ts", "/r/src/lib/caller.ts"];
    let got = resolve(&[imp("./api", &[])], "/r/src/lib/caller.ts", "/r", &files, None);
    assert_eq!(got, vec!["/r/src/lib/api.ts"]);
}

#[test]
fn unknown_languages_resolve_nothing() {
    let files = ["/r/a.go"];
    assert!(resolve(&[imp("./a", &[])], "/r/b.go", "/r", &files, None).is_empty());
}

#[test]
fn tsconfig_with_comments_and_trailing_commas_still_parses() {
    let raw = "{\n // the app\n \"compilerOptions\": {\n \"baseUrl\": \".\",\n \"paths\": { \"@/*\": [\"src/*\"], },\n },\n}";
    let cfg = read_tsconfig(raw);
    let files = ["/r/src/thing.ts", "/r/src/Page.tsx"];
    let got = resolve(
        &[imp("@/thing", &[])],
        "/r/src/Page.tsx",
        "/r",
        &files,
        Some(FoundTsConfig { dir: "/r".to_string(), config: cfg }),
    );
    assert_eq!(got, vec!["/r/src/thing.ts"]);
}
