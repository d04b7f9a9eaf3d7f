use graph_kernels::union_find::UnionFind;

#[test]
fn new_makes_singletons() {
    let mut uf = UnionFind::new(4);
    assert_eq!(uf.len(), 4);
    assert_eq!(uf.num_classes(), 4);
    for x in 0..4 {
        assert_eq!(uf.find(x), x);
    }
}

#[test]
fn find_is_idempotent() {
    let mut uf = UnionFind::from_pairs(6, &[(0, 1), (1, 2), (3, 4)]);
    for x in 0..6 {
        let r = uf.find(x);
        assert_eq!(uf.find(r), r);
    }
}

#[test]
fn union_merges_exactly_the_linked_ids() {
    let mut uf = UnionFind::from_pairs(6, &[(0, 1), (1, 2), (3, 4)]);
    assert_eq!(uf.num_classes(), 3);
    assert_eq!(uf.find(0), uf.find(2));
    assert_eq!(uf.find(3), uf.find(4));
    assert_ne!(uf.find(0), uf.find(3));
    assert_ne!(uf.find(5), uf.find(0));
    assert_ne!(uf.find(5), uf.find(3));
}

#[test]
fn union_by_rank_keeps_first_root_on_ties() {
    let mut uf = UnionFind::new(4);
    uf.union(2, 3);
    assert_eq!(uf.find(3), 2);
    uf.union(0, 1);
    assert_eq!(uf.find(1), 0);
    uf.union(1, 3);
    assert_eq!(uf.find(3), 0);
    assert_eq!(uf.find(2), 0);
    assert_eq!(uf.num_classes(), 1);
}

#[test]
fn union_hangs_lower_rank_under_higher() {
    let mut uf = UnionFind::new(3);
    uf.union(1, 2);
    uf.union(0, 2);
    assert_eq!(uf.find(0), 1);
}

#[test]
fn self_union_changes_nothing() {
    let mut uf = UnionFind::new(2);
    uf.union(1, 1);
    assert_eq!(uf.num_classes(), 2);
    assert_eq!(uf.find(1), 1);
}
