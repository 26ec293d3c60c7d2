use ctx::paths::{to_arch_path, to_module};

#[test]
fn arch_path_strips_src_and_extension() {
    assert_eq!(to_arch_path("src/app/auth.ts"), "app/auth");
    assert_eq!(to_arch_path("src\\app\\auth.tsx"), "app/auth");
    assert_eq!(to_arch_path("src/src/lib.rs"), "lib");
    assert_eq!(to_arch_path("pkg/mod.py"), "pkg/mod");
    assert_eq!(to_arch_path("a.js.ts"), "a");
    assert_eq!(to_arch_path("main.go"), "main");
    assert_eq!(to_arch_path("README.md"), "README.md");
}

#[test]
fn module_is_the_first_two_segments() {
    assert_eq!(to_module("app/auth/validate"), "app/auth");
    assert_eq!(to_module("app/auth"), "app/auth");
    assert_eq!(to_module("app"), "app");
    assert_eq!(to_module(""), "");
}
