use graph_kernels::betweenness::{build_neighbours, count_shortest_paths};

fn centrality(adj: &Vec<Vec<usize>>, directed: bool) -> Vec<f64> {
    let n = adj.len();
    let mut total = vec![0.0_f64; n];
    for source in 0..n {
        let pass = count_shortest_paths(adj, source);
        let mut delta = vec![0.0_f64; n];
        for &w in pass.order.iter().rev() {
            for &v in &pass.preds[w] {
                delta[v] += pass.paths[v] as f64 / pass.paths[w] as f64 * (1.0 + delta[w]);
            }
            if w != source {
                total[w] += delta[w];
            }
        }
    }
    if !directed {
        for c in &mut total {
            *c /= 2.0;
        }
    }
    total
}

#[test]
fn star_graph_centre_carries_every_leaf_pair() {
    for k in 1..7usize {
        let edges: Vec<(usize, usize)> = (1..=k).map(|leaf| (0, leaf)).collect();
        let adj = build_neighbours(k + 1, &edges, false);
        let c = centrality(&adj, false);
        assert_eq!(c[0], (k * (k - 1) / 2) as f64);
        for leaf in 1..=k {
            assert_eq!(c[leaf], 0.0);
        }
    }
}

#[test]
fn pass_records_distances_paths_and_predecessors() {
    // A square 0-1-3, 0-2-3 with a tail 3-4.
    let edges = vec![(0, 1), (0, 2), (1, 3), (2, 3), (3, 4)];
    let adj = build_neighbours(6, &edges, false);
    let pass = count_shortest_paths(&adj, 0);
    assert_eq!(pass.order, vec![0, 1, 2, 3, 4]);
    assert_eq!(
        pass.dist,
        vec![Some(0), Some(1), Some(1), Some(2), Some(3), None]
    );
    assert_eq!(pass.paths, vec![1, 1, 1, 2, 2, 0]);
    assert_eq!(
        pass.preds,
        vec![vec![], vec![0], vec![0], vec![1, 2], vec![3], vec![]]
    );
}

#[test]
fn directed_pass_follows_edges_one_way() {
    let edges = vec![(0, 1), (1, 2)];
    let adj = build_neighbours(3, &edges, true);
    assert_eq!(adj, vec![vec![1], vec![2], vec![]]);
    let pass = count_shortest_paths(&adj, 2);
    assert_eq!(pass.order, vec![2]);
    assert_eq!(pass.dist, vec![None, None, Some(0)]);
}

#[test]
fn doubled_edge_counts_twice() {
    let edges = vec![(0, 1), (0, 1)];
    let adj = build_neighbours(2, &edges, true);
    let pass = count_shortest_paths(&adj, 0);
    assert_eq!(pass.paths, vec![1, 2]);
    assert_eq!(pass.preds[1], vec![0, 0]);
}

#[test]
fn path_graph_middle_node() {
    let edges = vec![(0, 1), (1, 2)];
    let adj = build_neighbours(3, &edges, false);
    assert_eq!(centrality(&adj, false), vec![0.0, 1.0, 0.0]);
}
