use ctx::tsconfig::{strip_jsonc, tsconfig_from_json, JsonValue};

fn obj(entries: Vec<(&str, JsonValue)>) -> JsonValue {
    JsonValue::Object(entries.into_iter().map(|(k, v)| (k.to_string(), v)).collect())
}

fn st(x: &str) -> JsonValue {
    JsonValue::Str(x.to_string())
}

#[test]
fn comments_and_trailing_commas_are_stripped() {
    let raw = "{\n /* block\n comment */ \"a\": 1,\n // line\n \"b\": [1, 2,],\n}";
    assert_eq!(strip_jsonc(raw), Some("{\n  \"a\": 1,\n\n \"b\": [1, 2]\n}".to_string()));
}

#[test]
fn plain_json_passes_through() {
    let raw = "{\"a\": \"x//y\"}";
    assert_eq!(strip_jsonc(raw), Some(raw.to_string()));
}

#[test]
fn base_url_and_paths_are_read() {
    let doc = obj(vec![(
        "compilerOptions",
        obj(vec![
            ("baseUrl", st("src")),
            ("paths", obj(vec![("@/*", JsonValue::Array(vec![st("a/*"), JsonValue::Null, st("b/*")]))])),
        ]),
    )]);
    let cfg = tsconfig_from_json(&doc).unwrap();
    assert_eq!(cfg.base_url, "src");
    assert_eq!(cfg.paths, vec![("@/*".to_string(), vec!["a/*".to_string(), "b/*".to_string()])]);
}

#[test]
fn missing_options_fall_back_to_defaults() {
    let doc = obj(vec![("compilerOptions", obj(vec![("baseUrl", JsonValue::Bool(true)), ("paths", st("x"))]))]);
    let cfg = tsconfig_from_json(&doc).unwrap();
    assert_eq!(cfg.base_url, ".");
    assert!(cfg.paths.is_empty());
    let no_array = obj(vec![("compilerOptions", obj(vec![("paths", obj(vec![("k", st("v"))]))]))]);
    assert_eq!(tsconfig_from_json(&no_array).unwrap().paths, vec![("k".to_string(), vec![])]);
}

#[test]
fn without_compiler_options_there_is_no_config() {
    assert!(tsconfig_from_json(&obj(vec![("extends", st("base.json"))])).is_none());
    assert!(tsconfig_from_json(&JsonValue::Array(vec![])).is_none());
}
