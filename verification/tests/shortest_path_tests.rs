use graph_kernels::all_pairs::{all_pairs, graph_find_shortest_path};
use graph_kernels::error::GraphError;
use graph_kernels::graph::{build_adjacency, process_edges, process_edges_with_weights};
use graph_kernels::order::label_order;
use graph_kernels::shortest_path::{shortest_distances, shortest_path};

fn col(labels: &[Option<&str>]) -> Vec<Option<String>> {
    labels.iter().map(|l| l.map(|s| s.to_string())).collect()
}

fn row(a: &str, b: &str, d: i64) -> (String, String, i64) {
    (a.to_string(), b.to_string(), d)
}

#[test]
fn shortest_path_end_to_end_undirected() {
    let from = col(&[Some("A"), Some("B")]);
    let to = col(&[Some("B"), Some("C")]);
    let w = vec![Some(1000), Some(2000)];
    let table = graph_find_shortest_path(&from, &to, &w, false).unwrap();
    assert_eq!(
        table,
        vec![row("A", "B", 1000), row("A", "C", 3000), row("B", "C", 2000)]
    );
}

#[test]
fn shortest_path_end_to_end_directed() {
    let from = col(&[Some("A"), Some("B")]);
    let to = col(&[Some("B"), Some("C")]);
    let w = vec![Some(1000), Some(2000)];
    let table = graph_find_shortest_path(&from, &to, &w, true).unwrap();
    assert_eq!(
        table,
        vec![row("A", "B", 1000), row("A", "C", 3000), row("B", "C", 2000)]
    );
    assert!(!table.iter().any(|r| r.0 == "C" && r.1 == "A"));
}

#[test]
fn no_row_pairs_a_node_with_itself() {
    let from = col(&[Some("A"), Some("B"), Some("C"), Some("A")]);
    let to = col(&[Some("B"), Some("C"), Some("A"), Some("A")]);
    let w = vec![Some(5), Some(7), Some(1), Some(0)];
    for directed in [false, true] {
        let table = graph_find_shortest_path(&from, &to, &w, directed).unwrap();
        assert!(table.iter().all(|r| r.0 != r.1));
    }
}

#[test]
fn rows_follow_the_order_of_the_labels() {
    let from = col(&[Some("b"), Some("c")]);
    let to = col(&[Some("c"), Some("a")]);
    let w = vec![Some(1), Some(1)];
    let table = graph_find_shortest_path(&from, &to, &w, true).unwrap();
    assert_eq!(
        table,
        vec![row("b", "a", 2), row("b", "c", 1), row("c", "a", 1)]
    );
}

#[test]
fn triangle_inequality_on_a_small_graph() {
    let edges = vec![(0, 1, 4), (1, 2, 1), (0, 2, 7), (2, 3, 2), (3, 0, 1)];
    let adj = build_adjacency(4, &edges, false);
    let mut dist = Vec::new();
    for s in 0..4 {
        dist.push(shortest_distances(s, &adj));
    }
    for u in 0..4 {
        for v in 0..4 {
            for w in 0..4 {
                let a = dist[u][w].unwrap();
                let b = dist[u][v].unwrap() + dist[v][w].unwrap();
                assert!(a <= b);
            }
        }
    }
    assert_eq!(dist[0], vec![Some(0), Some(4), Some(3), Some(1)]);
}

#[test]
fn search_prefers_the_lighter_detour() {
    let edges = vec![(0, 1, 10), (0, 2, 1), (2, 1, 2)];
    let adj = build_adjacency(3, &edges, true);
    assert_eq!(shortest_path(0, 1, &adj), Some(3));
    assert_eq!(shortest_path(1, 0, &adj), None);
    assert_eq!(shortest_path(1, 1, &adj), Some(0));
}

#[test]
fn distance_at_the_limit_counts_as_unreachable() {
    let edges = vec![(0, 1, i64::MAX - 1), (1, 2, 1), (0, 3, i64::MAX - 1)];
    let adj = build_adjacency(4, &edges, true);
    assert_eq!(
        shortest_distances(0, &adj),
        vec![Some(0), Some(i64::MAX - 1), None, Some(i64::MAX - 1)]
    );
}

#[test]
fn undirected_adjacency_holds_both_directions() {
    let edges = vec![(0, 1, 5), (1, 1, 2)];
    let adj = build_adjacency(2, &edges, false);
    assert_eq!(adj, vec![vec![(1, 5)], vec![(0, 5), (1, 2), (1, 2)]]);
    let adj = build_adjacency(2, &edges, true);
    assert_eq!(adj, vec![vec![(1, 5)], vec![(1, 2)]]);
}

#[test]
fn rows_with_a_null_are_passed_over() {
    let from = col(&[Some("A"), None, Some("C"), Some("B")]);
    let to = col(&[Some("B"), Some("X"), Some("D"), Some("A")]);
    let w = vec![Some(1), Some(2), None, Some(4)];
    let (it, edges) = process_edges_with_weights(&from, &to, &w).unwrap();
    assert_eq!(it.len(), 2);
    assert_eq!(it.label(0), "A");
    assert_eq!(it.label(1), "B");
    assert_eq!(edges, vec![(0, 1, 1), (1, 0, 4)]);
}

#[test]
fn process_edges_interns_in_first_seen_order() {
    let from = col(&[Some("x"), Some("y"), None, Some("x")]);
    let to = col(&[Some("y"), Some("z"), Some("q"), Some("x")]);
    let (it, edges) = process_edges(&from, &to).unwrap();
    assert_eq!(it.len(), 3);
    assert_eq!(it.lookup("z"), Some(2));
    assert_eq!(it.lookup("q"), None);
    assert_eq!(edges.to_vec(), vec![(0, 1), (1, 2), (0, 0)]);
}

#[test]
fn mismatched_weight_column_is_malformed() {
    let from = col(&[Some("A")]);
    let to = col(&[Some("B")]);
    assert_eq!(
        graph_find_shortest_path(&from, &to, &Vec::new(), false),
        Err(GraphError::MalformedInput)
    );
    assert!(matches!(
        process_edges_with_weights(&from, &Vec::new(), &vec![Some(1)]),
        Err(GraphError::MalformedInput)
    ));
    assert!(matches!(process_edges(&from, &Vec::new()), Err(GraphError::MalformedInput)));
}

#[test]
fn label_order_sorts_by_characters() {
    let from = col(&[Some("b"), Some("ab"), Some("B")]);
    let to = col(&[Some("a"), Some("é"), Some("")]);
    let (it, _) = process_edges(&from, &to).unwrap();
    let order = label_order(&it);
    let labels: Vec<&str> = order.iter().map(|&i| it.label(i).as_str()).collect();
    assert_eq!(labels, vec!["", "B", "a", "ab", "b", "é"]);
}

#[test]
fn all_pairs_lists_each_undirected_pair_once() {
    let edges = vec![(0, 1, 1), (1, 2, 1)];
    let adj = build_adjacency(3, &edges, false);
    let rows = all_pairs(&adj, &vec![2, 0, 1], false);
    assert_eq!(rows, vec![(2, 0, 2), (2, 1, 1), (0, 1, 1)]);
}
