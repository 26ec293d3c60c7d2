use ctx::modules::{group_by_module, insert_sorted};

fn s(x: &str) -> String {
    x.to_string()
}

#[test]
fn symbols_group_by_module_in_text_order() {
    let syms = vec![
        (s("app/b/f"), s("f [function]")),
        (s("app/a/T"), s("T [type]")),
        (s("solo"), s("solo [function]")),
        (s("app/b/e"), s("e [function]")),
        (s("app/b/f"), s("f [function]")),
        (s("app/B/x"), s("x [const]")),
    ];
    let got = group_by_module(&syms);
    assert_eq!(
        got,
        vec![
            (s("app/B"), vec![s("x [const]")]),
            (s("app/a"), vec![s("T [type]")]),
            (s("app/b"), vec![s("e [function]"), s("f [function]")]),
        ]
    );
}

#[test]
fn sorted_insertion_keeps_one_of_each() {
    let mut v = vec![s("b"), s("d")];
    insert_sorted(&mut v, s("c"));
    insert_sorted(&mut v, s("a"));
    insert_sorted(&mut v, s("d"));
    insert_sorted(&mut v, s("e"));
    insert_sorted(&mut v, s("ab"));
    assert_eq!(v, vec![s("a"), s("ab"), s("b"), s("c"), s("d"), s("e")]);
}
