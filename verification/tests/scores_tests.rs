use graph_kernels::scores::{select_at_least, top_by_key};

#[test]
fn threshold_keeps_keys_at_or_above_it() {
    let keys = vec![5, 1, 9, 5, 0];
    assert_eq!(
        select_at_least(&keys, 5),
        vec![true, false, true, true, false]
    );
    assert_eq!(select_at_least(&keys, 0), vec![true; 5]);
    assert_eq!(select_at_least(&keys, 10), vec![false; 5]);
}

#[test]
fn raising_the_threshold_never_keeps_more() {
    let keys = vec![3, 8, 8, 1, 6, 0, 9];
    let mut last = usize::MAX;
    for threshold in 0..12u64 {
        let kept = select_at_least(&keys, threshold)
            .iter()
            .filter(|&&k| k)
            .count();
        assert!(kept <= last);
        last = kept;
    }
}

#[test]
fn top_lists_highest_keys_first_and_keeps_the_order_of_equals() {
    let keys = vec![4, 9, 4, 7, 9, 1, 4];
    assert_eq!(top_by_key(&keys, 5), vec![1, 4, 3, 0, 2]);
    assert_eq!(top_by_key(&keys, 0), Vec::<usize>::new());
    assert_eq!(top_by_key(&keys, 10), vec![1, 4, 3, 0, 2, 6, 5]);
}
