use graph_kernels::interner::Interner;

#[test]
fn intern_gives_dense_ids_in_first_seen_order() {
    let mut it = Interner::new();
    assert_eq!(it.intern("a"), 0);
    assert_eq!(it.intern("b"), 1);
    assert_eq!(it.intern("a"), 0);
    assert_eq!(it.intern("c"), 2);
    assert_eq!(it.len(), 3);
}

#[test]
fn label_is_the_reverse_mapping() {
    let mut it = Interner::new();
    let x = it.intern("node-x");
    let y = it.intern("node-y");
    assert_eq!(it.label(x), "node-x");
    assert_eq!(it.label(y), "node-y");
    assert_eq!(it.lookup("node-y"), Some(y));
    assert_eq!(it.lookup("node-z"), None);
}

#[test]
fn null_label_gets_no_id() {
    let mut it = Interner::new();
    assert_eq!(it.intern_opt(&None), None);
    assert_eq!(it.intern_opt(&Some("a".to_string())), Some(0));
    assert_eq!(it.len(), 1);
}
