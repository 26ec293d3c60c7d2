use ctx::parser::{extract_imports, extract_symbols, ParsedImport, ParsedSymbol};
use ctx::parser::python;

fn summary(syms: &[ParsedSymbol]) -> Vec<(String, String, usize)> {
    syms.iter().map(|s| (s.name.clone(), s.kind.clone(), s.line)).collect()
}

fn imports(imps: &[ParsedImport]) -> Vec<(String, Vec<String>)> {
    imps.iter().map(|i| (i.source.clone(), i.names.clone())).collect()
}

fn own(v: &[(&str, &str, usize)]) -> Vec<(String, String, usize)> {
    v.iter().map(|(a, b, c)| (a.to_string(), b.to_string(), *c)).collect()
}

#[test]
fn python_classes_and_functions_are_found_and_dunders_skipped() {
    let src = "class Foo:\n    def bar(self):\n        pass\ndef __init__():\n# def hidden\nasync def go():\n";
    let syms = extract_symbols(src, "app/mod.py");
    assert_eq!(summary(&syms), own(&[("Foo", "type", 1), ("bar", "function", 2), ("go", "function", 6)]));
}

#[test]
fn python_imports_keep_dots_and_drop_aliases() {
    let src = "import os.path\nfrom ..pkg import (a, b as c,\nfrom x import *\n# import y\n";
    let imps = python::extract_imports(src);
    assert_eq!(
        imports(&imps),
        vec![
            ("os.path".to_string(), vec![]),
            ("..pkg".to_string(), vec!["a".to_string(), "b".to_string()]),
            ("x".to_string(), vec![]),
        ]
    );
}

#[test]
fn python_imported_names_split_on_commas() {
    assert_eq!(python::parse_imported_names("a, b as c, (d,"), vec!["a", "b", "d"]);
    assert_eq!(python::parse_imported_names("(x_y, z)"), vec!["x_y", "z"]);
    assert!(python::parse_imported_names("*").is_empty());
}

#[test]
fn rust_declarations_and_impl_for_names() {
    let src = "pub fn foo() {}\nstruct Bar;\nimpl Display for Bar {\nimpl<T> Baz {\nmod inner {\nmod decl;\n// fn no\npub const MAX: u8 = 1;\n";
    let syms = extract_symbols(src, "src/lib.rs");
    assert_eq!(
        summary(&syms),
        own(&[
            ("foo", "function", 1),
            ("Bar", "type", 2),
            ("Display_Bar", "impl", 3),
            ("Baz", "impl", 4),
            ("inner", "module", 5),
            ("MAX", "const", 8),
        ])
    );
}

#[test]
fn typescript_declarations_and_components() {
    let src = "export interface A {}\nexport const Btn = () => null\nfunction go() {}\nconst run = async (x) => 1\nexport const Card = (\n// function hidden";
    let syms = extract_symbols(src, "src/ui/page.tsx");
    assert_eq!(
        summary(&syms),
        own(&[("A", "type", 1), ("Btn", "function", 2), ("go", "function", 3), ("run", "function", 4), ("Card", "component", 5)])
    );
}

#[test]
fn typescript_relative_imports_only() {
    let src = "import { a, b as c } from './x'\nimport D from '../y'\nconst z = require('./z')\nimport e from 'react'\n";
    let imps = extract_imports(src, "src/main.ts");
    assert_eq!(
        imports(&imps),
        vec![
            ("./x".to_string(), vec!["a".to_string(), "b".to_string()]),
            ("../y".to_string(), vec!["D".to_string()]),
            ("./z".to_string(), vec![]),
        ]
    );
}

#[test]
fn unknown_extensions_yield_nothing() {
    assert!(extract_symbols("fn main() {}", "notes.txt").is_empty());
    assert!(extract_imports("import { a } from './x'", "lib.py").is_empty());
}

#[test]
fn body_hash_tracks_the_declaration_text() {
    let a = extract_symbols("def f():\n    return 1\ndef g():\n    return 2\n", "m.py");
    let b = extract_symbols("def f():\n    return 1\ndef g():\n    return 3\n", "m.py");
    assert_eq!(a[0].body_hash, b[0].body_hash);
    assert_ne!(a[1].body_hash, b[1].body_hash);
}

#[test]
fn crlf_lines_are_read_like_str_lines() {
    let syms = extract_symbols("def a():\r\n  pass\r\ndef b():\r\n", "m.py");
    assert_eq!(summary(&syms), own(&[("a", "function", 1), ("b", "function", 3)]));
}

#[test]
fn python_imports_reach_the_dispatcher() {
    let imps = extract_imports("import app.market\nfrom .x import y", "app/api.py");
    assert_eq!(
        imports(&imps),
        vec![("app.market".to_string(), vec![]), (".x".to_string(), vec!["y".to_string()])]
    );
    assert!(extract_imports("use crate::a;", "src/lib.rs").is_empty());
}
