use ctx::config::WatchFilter;

#[test]
fn default_lists_watch_sources_and_skip_build_dirs() {
    let f = WatchFilter::defaults();
    assert_eq!(f.watch_extensions, vec!["ts", "tsx", "js", "jsx", "rs", "py", "go"]);
    assert_eq!(f.ignore_dirs, vec!["node_modules", ".git", "target", "dist", ".next", "__pycache__", ".ctx"]);
}

#[test]
fn watches_by_extension_outside_ignored_dirs() {
    let f = WatchFilter::defaults();
    assert!(f.should_watch("/r/src/app.ts"));
    assert!(f.should_watch("src/lib.rs"));
    assert!(!f.should_watch("/r/README.md"));
    assert!(!f.should_watch("/r/Makefile"));
    assert!(!f.should_watch("/r/node_modules/x/index.js"));
    assert!(!f.should_watch("/r/target/debug/build.rs"));
    assert!(!f.should_watch("/r/.ctx/state.py"));
    assert!(!f.should_watch("/r/.bashrc"));
}

#[test]
fn a_file_without_extension_is_watched_only_when_the_empty_extension_is_listed() {
    let f = WatchFilter { watch_extensions: vec!["".to_string()], ignore_dirs: vec![] };
    assert!(f.should_watch("/r/Makefile"));
    assert!(!f.should_watch("/r/a.ts"));
}

#[test]
fn root_and_current_dir_components_are_compared_too() {
    let f = WatchFilter { watch_extensions: vec!["ts".to_string()], ignore_dirs: vec!["/".to_string(), ".".to_string()] };
    assert!(!f.should_watch("/r/a.ts"));
    assert!(!f.should_watch("./a.ts"));
    assert!(f.should_watch("r/./a.ts"));
}

#[test]
fn the_walk_skips_ignored_and_hidden_entries() {
    let f = WatchFilter::defaults();
    assert!(f.skips_entry(&"node_modules".to_string()));
    assert!(f.skips_entry(&".vscode".to_string()));
    assert!(!f.skips_entry(&"src".to_string()));
}
