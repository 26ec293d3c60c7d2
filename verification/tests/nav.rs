use ctx::nav::{log_window, Extent, Key, Nav};

fn ext(modules: usize, symbols: usize, log: usize) -> Extent {
    Extent { modules, symbols, log }
}

#[test]
fn tab_cycles_through_the_four_panels_and_backtab_goes_back() {
    let mut n = Nav::new();
    let e = ext(3, 3, 3);
    for expected in [1, 2, 3, 0] {
        n.handle_key(Key::Tab, e);
        assert_eq!(n.active_panel, expected);
    }
    n.handle_key(Key::BackTab, e);
    assert_eq!(n.active_panel, 3);
    n.handle_key(Key::Tab, e);
    assert_eq!(n.active_panel, 0);
}

#[test]
fn moving_through_modules_resets_the_symbol_scroll() {
    let mut n = Nav::new();
    n.symbol_scroll = 4;
    let e = ext(2, 10, 0);
    n.handle_key(Key::Down, e);
    assert_eq!((n.selected_module, n.symbol_scroll), (1, 0));
    n.handle_key(Key::Down, e);
    assert_eq!(n.selected_module, 1);
    n.handle_key(Key::Up, e);
    n.handle_key(Key::Up, e);
    assert_eq!(n.selected_module, 0);
}

#[test]
fn scrolls_stop_at_the_last_entry() {
    let mut n = Nav::new();
    n.handle_key(Key::Tab, ext(1, 2, 0));
    for _ in 0..5 {
        n.handle_key(Key::Down, ext(1, 2, 0));
    }
    assert_eq!(n.symbol_scroll, 1);
    n.handle_key(Key::Tab, ext(1, 2, 0));
    n.handle_key(Key::Down, ext(1, 2, 0));
    assert_eq!(n.log_scroll, 0);
    n.handle_key(Key::Up, ext(1, 2, 0));
    assert_eq!(n.log_scroll, 0);
}

#[test]
fn quit_and_other_keys() {
    let mut n = Nav::new();
    n.handle_key(Key::Other, ext(1, 1, 1));
    assert_eq!(n, Nav::new());
    n.handle_key(Key::Quit, ext(1, 1, 1));
    assert!(n.quit);
}

#[test]
fn refresh_follows_the_selected_module_by_name() {
    let mut n = Nav::new();
    n.selected_module = 0;
    n.symbol_scroll = 7;
    n.log_scroll = 9;
    let names = vec!["b".to_string(), "a".to_string()];
    n.refresh(&Some("a".to_string()), &names, &vec![3, 5], 4);
    assert_eq!((n.selected_module, n.symbol_scroll, n.log_scroll), (1, 4, 3));
    n.refresh(&Some("gone".to_string()), &names, &vec![3, 5], 0);
    assert_eq!((n.selected_module, n.symbol_scroll, n.log_scroll), (0, 2, 0));
    n.refresh(&None, &vec![], &vec![], 10);
    assert_eq!((n.selected_module, n.symbol_scroll, n.log_scroll), (0, 0, 0));
}

#[test]
fn the_log_window_ends_at_the_newest_entry_and_scrolls_back() {
    assert_eq!(log_window(10, 0, 3), (7, 10));
    assert_eq!(log_window(10, 2, 3), (5, 8));
    assert_eq!(log_window(10, 9, 3), (0, 3));
    assert_eq!(log_window(10, 0, 20), (0, 10));
    assert_eq!(log_window(0, 0, 5), (0, 0));
    assert_eq!(log_window(5, usize::MAX, usize::MAX), (0, 5));
}

#[test]
fn refresh_with_the_same_modules_changes_nothing() {
    let mut n = Nav::new();
    n.selected_module = 0;
    n.log_scroll = 0;
    let names = vec!["app/mod".to_string()];
    let before = n;
    n.refresh(&Some("app/mod".to_string()), &names, &vec![1], 0);
    assert_eq!(n, before);
}
