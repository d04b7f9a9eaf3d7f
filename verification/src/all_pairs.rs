use crate::error::GraphError;
use crate::graph::{
    adj_of, build_adjacency, edges_match, kept_rows, names_of, process_edges_with_weights,
};
use crate::order::{is_permutation, is_sorted_by_label, label_order};
use crate::shortest_path::{adj_ok, graph_of, is_answer, is_distance, shortest_distances, Adjacency};
use vstd::prelude::*;

verus! {

/// Whether the pair of the nodes listed at the places `i` and `j` gets a row:
/// never a node with itself, and in an undirected graph each pair once.
pub open spec fn eligible(directed: bool, i: int, j: int) -> bool {
    i != j && (directed || i < j)
}

/// The place at which `order` lists `v`.
pub open spec fn rank_in(order: Seq<usize>, v: usize) -> int {
    order.index_of(v)
}

/// Whether the row `a` comes before the row `b`: by the place of the source,
/// then by the place of the target.
pub open spec fn row_before(order: Seq<usize>, a: (usize, usize, i64), b: (usize, usize, i64)) -> bool {
    rank_in(order, a.0) < rank_in(order, b.0) || (rank_in(order, a.0) == rank_in(order, b.0)
        && rank_in(order, a.1) < rank_in(order, b.1))
}

/// What the table of distances of a graph is, for nodes listed in `order`:
/// each row is an eligible pair with its least distance; every eligible pair
/// that has a distance below `i64::MAX` has its row; and the rows stand in
/// the order of the list.
pub open spec fn is_pairs_table(
    g: Seq<Seq<(usize, i64)>>,
    order: Seq<usize>,
    directed: bool,
    rows: Seq<(usize, usize, i64)>,
) -> bool {
    &&& forall|r: int|
        0 <= r < rows.len() ==> {
            &&& (#[trigger] rows[r]).0 < g.len()
            &&& rows[r].1 < g.len()
            &&& rows[r].0 != rows[r].1
            &&& eligible(directed, rank_in(order, rows[r].0), rank_in(order, rows[r].1))
            &&& 0 <= rows[r].2 < i64::MAX
            &&& is_distance(g, rows[r].0 as int, rows[r].1 as int, rows[r].2 as int)
        }
    &&& forall|i: int, j: int, d: int|
        0 <= i < order.len() && 0 <= j < order.len() && eligible(directed, i, j) && d < i64::MAX
            && #[trigger] is_distance(g, order[i] as int, order[j] as int, d) ==> rows.contains(
            (order[i], order[j], d as i64),
        )
    &&& forall|r: int, s: int|
        0 <= r < s < rows.len() ==> row_before(order, #[trigger] rows[r], #[trigger] rows[s])
}

proof fn lemma_rank(order: Seq<usize>, n: nat, i: int)
    requires
        is_permutation(order, n),
        0 <= i < n,
    ensures
        rank_in(order, order[i]) == i,
{
    let r = order.index_of(order[i]);
    assert(0 <= r < order.len() && order[r] == order[i]);
}

/// The least distance of every eligible pair of nodes, by one search from
/// each node, the nodes taken in the order given.
pub fn all_pairs(adj: &Adjacency, order: &Vec<usize>, directed: bool) -> (rows: Vec<
    (usize, usize, i64),
>)
    requires
        adj_ok(graph_of(adj@)),
        is_permutation(order@, adj@.len() as nat),
    ensures
        is_pairs_table(graph_of(adj@), order@, directed, rows@),
{
    let n = order.len();
    let ghost g = graph_of(adj@);
    let mut rows: Vec<(usize, usize, i64)> = Vec::new();
    let mut i: usize = 0;
    while i < n
        invariant
            i <= n,
            n == order@.len(),
            n == adj@.len(),
            g == graph_of(adj@),
            adj_ok(g),
            is_permutation(order@, n as nat),
            forall|r: int|
                0 <= r < rows@.len() ==> {
                    &&& (#[trigger] rows@[r]).0 < n
                    &&& rows@[r].1 < n
                    &&& rows@[r].0 != rows@[r].1
                    &&& eligible(
                        directed,
                        rank_in(order@, rows@[r].0),
                        rank_in(order@, rows@[r].1),
                    )
                    &&& 0 <= rows@[r].2 < i64::MAX
                    &&& is_distance(g, rows@[r].0 as int, rows@[r].1 as int, rows@[r].2 as int)
                    &&& rank_in(order@, rows@[r].0) < i
                },
            forall|a: int, b: int, d: int|
                0 <= a < i && 0 <= b < n && eligible(directed, a, b) && d < i64::MAX
                    && #[trigger] is_distance(g, order@[a] as int, order@[b] as int, d)
                    ==> rows@.contains((order@[a], order@[b], d as i64)),
            forall|r: int, s: int|
                0 <= r < s < rows@.len() ==> row_before(
                    order@,
                    #[trigger] rows@[r],
                    #[trigger] rows@[s],
                ),
        decreases n - i,
    {
        let src = order[i];
        let dists = shortest_distances(src, adj);
        let mut j: usize = if directed {
            0
        } else {
            i + 1
        };
        proof {
            lemma_rank(order@, n as nat, i as int);
        }
        while j < n
            invariant
                i < n,
                j <= n,
                !directed ==> j > i,
                n == order@.len(),
                n == adj@.len(),
                g == graph_of(adj@),
                src == order@[i as int],
                rank_in(order@, src) == i,
                is_permutation(order@, n as nat),
                dists@.len() == n,
                forall|v: int| 0 <= v < n ==> is_answer(g, src as int, v, #[trigger] dists@[v]),
                forall|r: int|
                    0 <= r < rows@.len() ==> {
                        &&& (#[trigger] rows@[r]).0 < n
                        &&& rows@[r].1 < n
                        &&& rows@[r].0 != rows@[r].1
                        &&& eligible(
                            directed,
                            rank_in(order@, rows@[r].0),
                            rank_in(order@, rows@[r].1),
                        )
                        &&& 0 <= rows@[r].2 < i64::MAX
                        &&& is_distance(
                            g,
                            rows@[r].0 as int,
                            rows@[r].1 as int,
                            rows@[r].2 as int,
                        )
                        &&& (rank_in(order@, rows@[r].0) < i || (rank_in(order@, rows@[r].0) == i
                            && rank_in(order@, rows@[r].1) < j))
                    },
                forall|a: int, b: int, d: int|
                    0 <= a <= i && 0 <= b < n && (a < i || b < j) && eligible(directed, a, b) && d
                        < i64::MAX && #[trigger] is_distance(
                        g,
                        order@[a] as int,
                        order@[b] as int,
                        d,
                    ) ==> rows@.contains((order@[a], order@[b], d as i64)),
                forall|r: int, s: int|
                    0 <= r < s < rows@.len() ==> row_before(
                        order@,
                        #[trigger] rows@[r],
                        #[trigger] rows@[s],
                    ),
            decreases n - j,
        {
            let ghost rows0 = rows@;
            let dst = order[j];
            proof {
                lemma_rank(order@, n as nat, j as int);
                assert(is_answer(g, src as int, dst as int, dists@[dst as int]));
            }
            if j != i {
                match dists[dst] {
                    Some(d) => {
                        rows.push((src, dst, d));
                        proof {
                            assert(rows@[rows0.len() as int] == (src, dst, d));
                            assert forall|a: int, b: int, e: int|
                                0 <= a <= i && 0 <= b < n && (a < i || b < j + 1) && eligible(
                                    directed,
                                    a,
                                    b,
                                ) && e < i64::MAX && #[trigger] is_distance(
                                    g,
                                    order@[a] as int,
                                    order@[b] as int,
                                    e,
                                ) implies rows@.contains((order@[a], order@[b], e as i64)) by {
                                if a == i && b == j {
                                    assert(e == d);
                                    assert(rows@[rows0.len() as int] == (
                                        order@[a],
                                        order@[b],
                                        e as i64,
                                    ));
                                } else {
                                    assert(rows0.contains((order@[a], order@[b], e as i64)));
                                    let r = rows0.index_of((order@[a], order@[b], e as i64));
                                    assert(rows@[r] == rows0[r]);
                                }
                            }
                            assert forall|r: int, s: int| 0 <= r < s < rows@.len() implies row_before(
                                order@,
                                #[trigger] rows@[r],
                                #[trigger] rows@[s],
                            ) by {
                                assert(rows@[r] == rows0[r]);
                                if s < rows0.len() {
                                    assert(rows@[s] == rows0[s]);
                                }
                            }
                        }
                    },
                    None => {
                        proof {
                            assert forall|e: int|
                                e < i64::MAX implies !is_distance(g, src as int, dst as int, e) by {
                                if is_distance(g, src as int, dst as int, e) {
                                    let p = choose|p: Seq<(int, int)>| #[trigger]
                                        crate::shortest_path::walk_ok(g, src as int, dst as int, p)
                                            && crate::shortest_path::walk_weight(g, p) == e;
                                    assert(crate::shortest_path::walk_ok(
                                        g,
                                        src as int,
                                        dst as int,
                                        p,
                                    ));
                                }
                            }
                        }
                    },
                }
            }
            j = j + 1;
        }
        i = i + 1;
    }
    rows
}

/// The rows of a distance table with each id replaced by its label.
pub open spec fn labelled(
    names: Seq<Seq<char>>,
    rows: Seq<(usize, usize, i64)>,
    out: Seq<(String, String, i64)>,
) -> bool {
    &&& out.len() == rows.len()
    &&& forall|r: int|
        0 <= r < out.len() ==> (#[trigger] out[r]).0@ == names[rows[r].0 as int] && out[r].1@
            == names[rows[r].1 as int] && out[r].2 == rows[r].2
}

/// What the distance table of a weighted edge list is: the labels are
/// numbered as they are first seen, the rows with both labels and a weight
/// are the edges, and the table lists the least distance of every eligible
/// pair that has one, the nodes taken in the order of their labels.
pub open spec fn is_distance_table(
    from: Seq<Option<String>>,
    to: Seq<Option<String>>,
    weights: Seq<Option<i64>>,
    directed: bool,
    out: Seq<(String, String, i64)>,
) -> bool {
    let kept = kept_rows(from, to, weights, from.len() as int);
    let names = names_of(kept);
    exists|edges: Seq<(usize, usize, i64)>, order: Seq<usize>, rows: Seq<(usize, usize, i64)>|
        {
            &&& edges_match(names, kept, edges)
            &&& is_permutation(order, names.len())
            &&& is_sorted_by_label(names, order)
            &&& #[trigger] is_pairs_table(
                adj_of(names.len(), edges, directed),
                order,
                directed,
                rows,
            )
            &&& labelled(names, rows, out)
        }
}

/// The table of least distances between the nodes of a weighted edge list.
/// Weights are fixed-point integers; a weight below zero is not allowed.
pub fn graph_find_shortest_path(
    from: &Vec<Option<String>>,
    to: &Vec<Option<String>>,
    weights: &Vec<Option<i64>>,
    directed: bool,
) -> (res: Result<Vec<(String, String, i64)>, GraphError>)
    requires
        forall|i: int|
            0 <= i < weights@.len() && (#[trigger] weights@[i]) is Some ==> weights@[i]->0 >= 0,
    ensures
        (from@.len() != to@.len() || from@.len() != weights@.len()) ==> res is Err && res->Err_0
            == GraphError::MalformedInput,
        (from@.len() == to@.len() && from@.len() == weights@.len()) ==> res is Ok
            && is_distance_table(from@, to@, weights@, directed, res->Ok_0@) && forall|r: int|
            0 <= r < res->Ok_0@.len() ==> (#[trigger] res->Ok_0@[r]).0@ != res->Ok_0@[r].1@,
{
    let (it, edges) = match process_edges_with_weights(from, to, weights) {
        Ok(pair) => pair,
        Err(e) => {
            return Err(e);
        },
    };
    let n = it.len();
    let ghost kept = kept_rows(from@, to@, weights@, from@.len() as int);
    proof {
        lemma_kept_weights(from@, to@, weights@, from@.len() as int);
        it.lemma_names_distinct();
    }
    let adj = build_adjacency(n, &edges, directed);
    let order = label_order(&it);
    let rows = all_pairs(&adj, &order, directed);
    let mut out: Vec<(String, String, i64)> = Vec::new();
    let mut r: usize = 0;
    while r < rows.len()
        invariant
            r <= rows@.len(),
            n == it.names().len(),
            out@.len() == r,
            forall|q: int| 0 <= q < rows@.len() ==> (#[trigger] rows@[q]).0 < n && rows@[q].1 < n,
            forall|q: int|
                0 <= q < r ==> (#[trigger] out@[q]).0@ == it.names()[rows@[q].0 as int]
                    && out@[q].1@ == it.names()[rows@[q].1 as int] && out@[q].2 == rows@[q].2,
        decreases rows@.len() - r,
    {
        let row = rows[r];
        let a = it.label(row.0).clone();
        let b = it.label(row.1).clone();
        out.push((a, b, row.2));
        r = r + 1;
    }
    proof {
        assert(is_pairs_table(
            adj_of(it.names().len(), edges@, directed),
            order@,
            directed,
            rows@,
        ));
        assert(labelled(it.names(), rows@, out@));
    }
    Ok(out)
}

proof fn lemma_kept_weights(
    from: Seq<Option<String>>,
    to: Seq<Option<String>>,
    weights: Seq<Option<i64>>,
    k: int,
)
    requires
        0 <= k <= weights.len(),
        forall|i: int| 0 <= i < weights.len() && (#[trigger] weights[i]) is Some ==> weights[i]->0
            >= 0,
    ensures
        forall|i: int|
            0 <= i < kept_rows(from, to, weights, k).len() ==> (#[trigger] kept_rows(
                from,
                to,
                weights,
                k,
            )[i]).2 >= 0,
    decreases k,
{
    if k > 0 {
        lemma_kept_weights(from, to, weights, k - 1);
        assert(weights[k - 1] is Some ==> weights[k - 1]->0 >= 0);
        let pre = kept_rows(from, to, weights, k - 1);
        let cur = kept_rows(from, to, weights, k);
        assert forall|i: int| 0 <= i < cur.len() implies (#[trigger] cur[i]).2 >= 0 by {
            if i < pre.len() {
                assert(cur[i] == pre[i]);
            }
        }
    }
}

} // verus!
