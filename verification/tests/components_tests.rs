use graph_kernels::components::{number_classes, process_graph};
use graph_kernels::union_find::UnionFind;
use graph_kernels::error::GraphError;

fn col(labels: &[Option<&str>]) -> Vec<Option<String>> {
    labels.iter().map(|l| l.map(|s| s.to_string())).collect()
}

#[test]
fn components_end_to_end() {
    let from = col(&[Some("A"), Some("B"), Some("D")]);
    let to = col(&[Some("B"), Some("C"), Some("E")]);
    let groups = process_graph(&from, &to).unwrap();
    assert_eq!(groups, vec![Some(1), Some(1), Some(2)]);
}

#[test]
fn components_are_symmetric_in_the_columns() {
    let from = col(&[Some("A"), Some("X"), None, Some("C"), Some("Y"), Some("Q")]);
    let to = col(&[Some("B"), Some("Y"), Some("B"), Some("A"), None, Some("Q")]);
    assert_eq!(process_graph(&from, &to), process_graph(&to, &from));
}

#[test]
fn isolated_node_gets_a_group() {
    let from = col(&[Some("A"), Some("Z"), None]);
    let to = col(&[Some("B"), None, Some("W")]);
    let groups = process_graph(&from, &to).unwrap();
    assert_eq!(groups, vec![Some(1), Some(2), Some(3)]);
}

#[test]
fn null_rows_get_no_group() {
    let from = col(&[None, Some("A")]);
    let to = col(&[None, Some("A")]);
    let groups = process_graph(&from, &to).unwrap();
    assert_eq!(groups, vec![None, Some(1)]);
}

#[test]
fn later_edge_joins_earlier_groups() {
    let from = col(&[Some("A"), Some("C"), Some("B")]);
    let to = col(&[Some("B"), Some("D"), Some("C")]);
    let groups = process_graph(&from, &to).unwrap();
    assert_eq!(groups, vec![Some(1), Some(1), Some(1)]);
}

#[test]
fn mismatched_columns_are_malformed() {
    let from = col(&[Some("A")]);
    let to = col(&[]);
    assert_eq!(process_graph(&from, &to), Err(GraphError::MalformedInput));
}

#[test]
fn empty_input_gives_empty_output() {
    let groups = process_graph(&Vec::new(), &Vec::new()).unwrap();
    assert!(groups.is_empty());
}

#[test]
fn classes_are_numbered_in_order_of_first_id() {
    let mut uf = UnionFind::from_pairs(6, &[(4, 5), (1, 3), (0, 5)]);
    assert_eq!(number_classes(&mut uf), vec![1, 2, 3, 2, 1, 1]);
}

#[test]
fn self_loop_is_a_group_of_one() {
    let from = col(&[Some("A"), Some("B")]);
    let to = col(&[Some("A"), Some("C")]);
    assert_eq!(process_graph(&from, &to).unwrap(), vec![Some(1), Some(2)]);
}
