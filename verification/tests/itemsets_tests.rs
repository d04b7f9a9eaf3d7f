use graph_kernels::error::GraphError;
use graph_kernels::ids::{usize_to_t, AsUsize};
use graph_kernels::itemsets::{
    co_occurring_pairs, count_support, group_transactions, process_transaction_data,
    small_transactions,
};
use graph_kernels::patterns::assign_patterns;

fn items(labels: &[Option<&str>]) -> Vec<Option<String>> {
    labels.iter().map(|l| l.map(|s| s.to_string())).collect()
}

#[test]
fn itemset_end_to_end_counts() {
    let tids = vec![Some(1), Some(1), Some(2), Some(2), Some(3)];
    let labels = items(&[Some("X"), Some("Y"), Some("X"), Some("Y"), Some("X")]);
    let (it, rows) = process_transaction_data(&tids, &labels, &vec![true; 5]).unwrap();
    assert_eq!(it.label(0), "X");
    assert_eq!(it.label(1), "Y");
    let (counts, total) = count_support(&rows, it.len());
    assert_eq!(total, 3);
    assert_eq!(counts, vec![3, 2]);
    let min_support = 0.5;
    let fractions: Vec<f64> = counts.iter().map(|&c| c as f64 / total as f64).collect();
    assert_eq!(fractions[0], 1.0);
    assert!((fractions[1] - 2.0 / 3.0).abs() < 1e-12);
    let valid: Vec<bool> = fractions.iter().map(|&f| f >= min_support).collect();
    assert_eq!(valid, vec![true, true]);
    let groups = group_transactions(&rows);
    assert_eq!(groups, vec![vec![0, 1], vec![2, 3], vec![4]]);
    let small = small_transactions(&groups, 2).unwrap();
    let pairs = co_occurring_pairs(&rows, &valid, &groups, &small);
    assert_eq!(pairs, vec![(0, 1), (1, 0), (2, 3), (3, 2)]);
    let mut assoc: Vec<Vec<usize>> = vec![Vec::new(); 2];
    for &(a, b) in &pairs {
        assoc[rows[a].1].push(rows[b].1);
    }
    assert_eq!(assoc, vec![vec![1, 1], vec![0, 0]]);
    assert_eq!(assign_patterns(&valid, &assoc), vec![1, 1]);
}

#[test]
fn raising_the_support_threshold_keeps_no_more_items() {
    let rows = vec![(1, 0, 0), (1, 1, 1), (2, 0, 2), (3, 2, 3), (3, 0, 4)];
    let (counts, total) = count_support(&rows, 3);
    let mut last = usize::MAX;
    for step in 0..=10 {
        let min_support = step as f64 / 10.0;
        let kept = counts
            .iter()
            .filter(|&&c| c as f64 / total as f64 >= min_support)
            .count();
        assert!(kept <= last);
        last = kept;
    }
}

#[test]
fn repeated_item_in_a_transaction_counts_once() {
    let rows = vec![(7, 0, 0), (7, 0, 1), (8, 0, 2), (8, 1, 3)];
    let (counts, total) = count_support(&rows, 3);
    assert_eq!(total, 2);
    assert_eq!(counts, vec![2, 1, 0]);
}

#[test]
fn rows_without_transaction_item_or_weight_are_passed_over() {
    let tids = vec![Some(1), None, Some(2), Some(3)];
    let labels = items(&[Some("a"), Some("b"), None, Some("c")]);
    let weighted = vec![true, true, true, false];
    let (it, rows) = process_transaction_data(&tids, &labels, &weighted).unwrap();
    assert_eq!(it.len(), 1);
    assert_eq!(rows, vec![(1, 0, 0)]);
}

#[test]
fn transaction_columns_of_different_length_are_malformed() {
    let tids = vec![Some(1)];
    assert!(matches!(
        process_transaction_data(&tids, &items(&[]), &vec![true]),
        Err(GraphError::MalformedInput)
    ));
    assert!(matches!(
        process_transaction_data(&tids, &items(&[Some("a")]), &vec![]),
        Err(GraphError::MalformedInput)
    ));
}

#[test]
fn groups_follow_first_occurrence() {
    let rows = vec![(5, 0, 0), (3, 1, 1), (5, 2, 2), (3, 0, 3), (9, 0, 4)];
    assert_eq!(
        group_transactions(&rows),
        vec![vec![0, 2], vec![1, 3], vec![4]]
    );
}

#[test]
fn zero_itemset_size_is_invalid() {
    let groups = vec![vec![0]];
    assert_eq!(
        small_transactions(&groups, 0),
        Err(GraphError::InvalidParameter)
    );
}

#[test]
fn large_transactions_are_left_out() {
    let groups = vec![vec![0, 1, 2], vec![3], vec![4, 5]];
    assert_eq!(small_transactions(&groups, 2), Ok(vec![1, 2]));
    assert_eq!(small_transactions(&groups, 3), Ok(vec![0, 1, 2]));
}

#[test]
fn patterns_follow_reachability_from_valid_items() {
    // 0 -> 1 -> 2, 3 alone, 4 invalid and unreached, 5 -> 0.
    let valid = vec![true, true, true, true, false, true];
    let assoc = vec![vec![1], vec![2], vec![], vec![], vec![], vec![0]];
    assert_eq!(assign_patterns(&valid, &assoc), vec![1, 1, 1, 2, 0, 3]);
}

#[test]
fn later_start_takes_only_what_is_left() {
    // 1 is reached first from 0; 2 reaches 1 too but only numbers itself.
    let valid = vec![true, false, true];
    let assoc = vec![vec![1], vec![], vec![1]];
    assert_eq!(assign_patterns(&valid, &assoc), vec![1, 1, 2]);
}

#[test]
fn id_that_does_not_fit_is_a_conversion_failure() {
    assert_eq!(usize_to_t::<u16>(65535), Ok(65535u16));
    assert_eq!(usize_to_t::<u16>(65536), Err(GraphError::ConversionFailure));
    assert_eq!(usize_to_t::<u64>(7), Ok(7u64));
}

#[test]
fn ids_read_back_as_indices() {
    assert_eq!(9u16.as_usize(), 9);
    assert_eq!(70000u32.as_usize(), 70000);
    assert_eq!(5u64.as_usize(), 5);
}

#[test]
fn raising_the_confidence_threshold_keeps_no_more_edges() {
    let confidences = [1.0_f64, 2.0 / 3.0, 0.5, 0.25];
    let mut last = usize::MAX;
    for step in 0..=10 {
        let min_confidence = step as f64 / 10.0;
        let kept = confidences.iter().filter(|&&c| c >= min_confidence).count();
        assert!(kept <= last);
        last = kept;
    }
}

#[test]
fn pairs_leave_out_equal_and_invalid_items() {
    // Rows 0..4 in one transaction: items 0, 1, 0, 2; item 2 is not valid.
    let rows = vec![(1, 0, 0), (1, 1, 1), (1, 0, 2), (1, 2, 3), (2, 1, 4)];
    let valid = vec![true, true, false];
    let groups = group_transactions(&rows);
    let small = small_transactions(&groups, 4).unwrap();
    assert_eq!(
        co_occurring_pairs(&rows, &valid, &groups, &small),
        vec![(0, 1), (1, 0), (1, 2), (2, 1)]
    );
    let only_second = vec![1];
    assert_eq!(
        co_occurring_pairs(&rows, &valid, &groups, &only_second),
        Vec::<(usize, usize)>::new()
    );
}
