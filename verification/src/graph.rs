use crate::components::label_at;
use crate::error::GraphError;
use crate::interner::{add_name, Interner};
use crate::outside::{edge_seq, edges_as_slice, edges_new, edges_push, EdgeBuffer};
use crate::shortest_path::{adj_ok, graph_of, Adjacency};
use vstd::prelude::*;

verus! {

/// The rows among the first `k` that have both labels and a weight, in
/// order, as labels and weight.
pub open spec fn kept_rows(
    from: Seq<Option<String>>,
    to: Seq<Option<String>>,
    weights: Seq<Option<i64>>,
    k: int,
) -> Seq<(Seq<char>, Seq<char>, i64)>
    decreases k,
{
    if k <= 0 {
        Seq::empty()
    } else {
        let pre = kept_rows(from, to, weights, k - 1);
        match (label_at(from, k - 1), label_at(to, k - 1), weights[k - 1]) {
            (Some(f), Some(t), Some(w)) => pre.push((f, t, w)),
            _ => pre,
        }
    }
}

/// The rows among the first `k` that have both labels, in order.
pub open spec fn kept_pairs(from: Seq<Option<String>>, to: Seq<Option<String>>, k: int) -> Seq<
    (Seq<char>, Seq<char>),
>
    decreases k,
{
    if k <= 0 {
        Seq::empty()
    } else {
        let pre = kept_pairs(from, to, k - 1);
        match (label_at(from, k - 1), label_at(to, k - 1)) {
            (Some(f), Some(t)) => pre.push((f, t)),
            _ => pre,
        }
    }
}

/// The labels of weighted rows in the order in which they are first seen,
/// each row's source before its target.
pub open spec fn names_of(rows: Seq<(Seq<char>, Seq<char>, i64)>) -> Seq<Seq<char>>
    decreases rows.len(),
{
    if rows.len() == 0 {
        Seq::empty()
    } else {
        add_name(add_name(names_of(rows.drop_last()), rows.last().0), rows.last().1)
    }
}

/// The labels of rows in the order in which they are first seen, each row's
/// source before its target.
pub open spec fn names_of_pairs(rows: Seq<(Seq<char>, Seq<char>)>) -> Seq<Seq<char>>
    decreases rows.len(),
{
    if rows.len() == 0 {
        Seq::empty()
    } else {
        add_name(add_name(names_of_pairs(rows.drop_last()), rows.last().0), rows.last().1)
    }
}

/// Whether `edges` are `rows` with each label replaced by its id.
pub open spec fn edges_match(
    names: Seq<Seq<char>>,
    rows: Seq<(Seq<char>, Seq<char>, i64)>,
    edges: Seq<(usize, usize, i64)>,
) -> bool {
    &&& edges.len() == rows.len()
    &&& forall|i: int|
        0 <= i < edges.len() ==> {
            &&& (#[trigger] edges[i]).0 < names.len()
            &&& edges[i].1 < names.len()
            &&& names[edges[i].0 as int] == rows[i].0
            &&& names[edges[i].1 as int] == rows[i].1
            &&& edges[i].2 == rows[i].2
        }
}

/// Whether `edges` are `rows` with each label replaced by its id.
pub open spec fn pairs_match(
    names: Seq<Seq<char>>,
    rows: Seq<(Seq<char>, Seq<char>)>,
    edges: Seq<(usize, usize)>,
) -> bool {
    &&& edges.len() == rows.len()
    &&& forall|i: int|
        0 <= i < edges.len() ==> {
            &&& (#[trigger] edges[i]).0 < names.len()
            &&& edges[i].1 < names.len()
            &&& names[edges[i].0 as int] == rows[i].0
            &&& names[edges[i].1 as int] == rows[i].1
        }
}

impl EdgeBuffer {
    /// The edges held, in order.
    pub open spec fn view(&self) -> Seq<(usize, usize)> {
        edge_seq(*self)
    }

    /// The edges held, copied into a vector.
    pub fn to_vec(&self) -> (v: Vec<(usize, usize)>)
        ensures
            v@ == self@,
    {
        let items = edges_as_slice(self);
        let mut v: Vec<(usize, usize)> = Vec::new();
        let mut i: usize = 0;
        while i < items.len()
            invariant
                i <= items@.len(),
                v@ == items@.take(i as int),
            decreases items@.len() - i,
        {
            v.push(items[i]);
            proof {
                assert(items@.take(i as int + 1) =~= items@.take(i as int).push(items@[i as int]));
            }
            i = i + 1;
        }
        proof {
            assert(items@.take(i as int) =~= items@);
        }
        v
    }
}

/// Interns the labels of the rows that have both labels, a row's source
/// before its target, and turns each such row into an edge between ids.
/// Rows with a null label are passed over.
pub fn process_edges(from: &Vec<Option<String>>, to: &Vec<Option<String>>) -> (res: Result<
    (Interner, EdgeBuffer),
    GraphError,
>)
    ensures
        from@.len() != to@.len() ==> res is Err && res->Err_0 == GraphError::MalformedInput,
        from@.len() == to@.len() ==> res is Ok && ({
            let rows = kept_pairs(from@, to@, from@.len() as int);
            &&& res->Ok_0.0.wf()
            &&& res->Ok_0.0.names() == names_of_pairs(rows)
            &&& pairs_match(res->Ok_0.0.names(), rows, res->Ok_0.1@)
        }),
{
    let n = from.len();
    if to.len() != n {
        return Err(GraphError::MalformedInput);
    }
    let mut it = Interner::new();
    let mut edges = edges_new();
    let mut k: usize = 0;
    while k < n
        invariant
            k <= n,
            n == from@.len(),
            n == to@.len(),
            it.wf(),
            it.names() == names_of_pairs(kept_pairs(from@, to@, k as int)),
            pairs_match(it.names(), kept_pairs(from@, to@, k as int), edge_seq(edges)),
        decreases n - k,
    {
        let ghost rows0 = kept_pairs(from@, to@, k as int);
        let ghost e0 = edge_seq(edges);
        match (&from[k], &to[k]) {
            (Some(f), Some(t)) => {
                let a = it.intern(f.as_str());
                let b = it.intern(t.as_str());
                edges_push(&mut edges, (a, b));
                proof {
                    let rows1 = kept_pairs(from@, to@, k as int + 1);
                    assert(rows1 == rows0.push((f@, t@)));
                    assert(rows1.drop_last() =~= rows0);
                    assert forall|i: int| 0 <= i < edge_seq(edges).len() implies {
                        &&& (#[trigger] edge_seq(edges)[i]).0 < it.names().len()
                        &&& edge_seq(edges)[i].1 < it.names().len()
                        &&& it.names()[edge_seq(edges)[i].0 as int] == rows1[i].0
                        &&& it.names()[edge_seq(edges)[i].1 as int] == rows1[i].1
                    } by {
                        if i < e0.len() {
                            assert(edge_seq(edges)[i] == e0[i]);
                        }
                    }
                }
            },
            _ => {},
        }
        k = k + 1;
    }
    Ok((it, edges))
}

/// Interns the labels of the rows that have both labels and a weight, a
/// row's source before its target, and turns each such row into a weighted
/// edge between ids. Rows with a null label or weight are passed over.
pub fn process_edges_with_weights(
    from: &Vec<Option<String>>,
    to: &Vec<Option<String>>,
    weights: &Vec<Option<i64>>,
) -> (res: Result<(Interner, Vec<(usize, usize, i64)>), GraphError>)
    ensures
        (from@.len() != to@.len() || from@.len() != weights@.len()) ==> res is Err && res->Err_0
            == GraphError::MalformedInput,
        (from@.len() == to@.len() && from@.len() == weights@.len()) ==> res is Ok && ({
            let rows = kept_rows(from@, to@, weights@, from@.len() as int);
            &&& res->Ok_0.0.wf()
            &&& res->Ok_0.0.names() == names_of(rows)
            &&& edges_match(res->Ok_0.0.names(), rows, res->Ok_0.1@)
        }),
{
    let n = from.len();
    if to.len() != n || weights.len() != n {
        return Err(GraphError::MalformedInput);
    }
    let mut it = Interner::new();
    let mut edges: Vec<(usize, usize, i64)> = Vec::new();
    let mut k: usize = 0;
    while k < n
        invariant
            k <= n,
            n == from@.len(),
            n == to@.len(),
            n == weights@.len(),
            it.wf(),
            it.names() == names_of(kept_rows(from@, to@, weights@, k as int)),
            edges_match(it.names(), kept_rows(from@, to@, weights@, k as int), edges@),
        decreases n - k,
    {
        let ghost rows0 = kept_rows(from@, to@, weights@, k as int);
        let ghost e0 = edges@;
        match (&from[k], &to[k], weights[k]) {
            (Some(f), Some(t), Some(w)) => {
                let a = it.intern(f.as_str());
                let b = it.intern(t.as_str());
                edges.push((a, b, w));
                proof {
                    let rows1 = kept_rows(from@, to@, weights@, k as int + 1);
                    assert(rows1 == rows0.push((f@, t@, w)));
                    assert(rows1.drop_last() =~= rows0);
                    assert forall|i: int| 0 <= i < edges@.len() implies {
                        &&& (#[trigger] edges@[i]).0 < it.names().len()
                        &&& edges@[i].1 < it.names().len()
                        &&& it.names()[edges@[i].0 as int] == rows1[i].0
                        &&& it.names()[edges@[i].1 as int] == rows1[i].1
                        &&& edges@[i].2 == rows1[i].2
                    } by {
                        if i < e0.len() {
                            assert(edges@[i] == e0[i]);
                        }
                    }
                }
            },
            _ => {},
        }
        k = k + 1;
    }
    Ok((it, edges))
}

/// The adjacency list of `n` nodes that the edges build: each edge is put
/// behind those already leaving its source and, in an undirected graph, once
/// more behind those leaving its target.
pub open spec fn adj_of(n: nat, edges: Seq<(usize, usize, i64)>, directed: bool) -> Seq<
    Seq<(usize, i64)>,
>
    decreases edges.len(),
{
    if edges.len() == 0 {
        Seq::new(n, |u: int| Seq::empty())
    } else {
        let pre = adj_of(n, edges.drop_last(), directed);
        let f = edges.last().0 as int;
        let t = edges.last().1 as int;
        let w = edges.last().2;
        let one = pre.update(f, pre[f].push((t as usize, w)));
        if directed {
            one
        } else {
            one.update(t, one[t].push((f as usize, w)))
        }
    }
}

/// Builds the adjacency list of `n` nodes from weighted edges.
pub fn build_adjacency(n: usize, edges: &Vec<(usize, usize, i64)>, directed: bool) -> (adj:
    Adjacency)
    requires
        forall|i: int| 0 <= i < edges@.len() ==> (#[trigger] edges@[i]).0 < n && edges@[i].1 < n,
    ensures
        adj@.len() == n,
        graph_of(adj@) == adj_of(n as nat, edges@, directed),
        (forall|i: int| 0 <= i < edges@.len() ==> (#[trigger] edges@[i]).2 >= 0) ==> adj_ok(
            graph_of(adj@),
        ),
{
    let mut adj: Adjacency = Vec::new();
    let mut j: usize = 0;
    while j < n
        invariant
            j <= n,
            adj@.len() == j,
            forall|u: int| 0 <= u < j ==> (#[trigger] adj@[u])@.len() == 0,
        decreases n - j,
    {
        adj.push(Vec::new());
        j = j + 1;
    }
    proof {
        assert(edges@.take(0).len() == 0);
        assert forall|u: int| 0 <= u < n implies #[trigger] graph_of(adj@)[u] =~= Seq::empty() by {
            assert(adj@[u]@.len() == 0);
        }
        assert(graph_of(adj@) =~= adj_of(n as nat, edges@.take(0), directed));
    }
    let mut i: usize = 0;
    while i < edges.len()
        invariant
            i <= edges@.len(),
            adj@.len() == n,
            forall|i: int|
                0 <= i < edges@.len() ==> (#[trigger] edges@[i]).0 < n && edges@[i].1 < n,
            graph_of(adj@) == adj_of(n as nat, edges@.take(i as int), directed),
            forall|u: int, k: int|
                0 <= u < n && 0 <= k < adj@[u]@.len() ==> (#[trigger] adj@[u]@[k]).0 < n,
            (forall|i: int| 0 <= i < edges@.len() ==> (#[trigger] edges@[i]).2 >= 0)
                ==> forall|u: int, k: int|
                0 <= u < n && 0 <= k < adj@[u]@.len() ==> (#[trigger] adj@[u]@[k]).1 >= 0,
        decreases edges@.len() - i,
    {
        let f = edges[i].0;
        let t = edges[i].1;
        let w = edges[i].2;
        let ghost g0 = graph_of(adj@);
        let ghost a0 = adj@;
        adj[f].push((t, w));
        let ghost a1 = adj@;
        if !directed {
            adj[t].push((f, w));
        }
        proof {
            let cur = edges@.take(i as int + 1);
            assert(cur.drop_last() =~= edges@.take(i as int));
            assert(cur.last() == edges@[i as int]);
            let one = g0.update(f as int, g0[f as int].push((t, w)));
            assert(graph_of(a1) =~= one);
            if !directed {
                assert(graph_of(adj@) =~= one.update(t as int, one[t as int].push((f, w))));
            }
            assert forall|u: int, k: int| 0 <= u < n && 0 <= k < adj@[u]@.len() implies (
            #[trigger] adj@[u]@[k]).0 < n by {
                if k < a0[u]@.len() {
                    assert(adj@[u]@[k] == a0[u]@[k]);
                }
            }
            if forall|i: int| 0 <= i < edges@.len() ==> (#[trigger] edges@[i]).2 >= 0 {
                assert forall|u: int, k: int| 0 <= u < n && 0 <= k < adj@[u]@.len() implies (
                #[trigger] adj@[u]@[k]).1 >= 0 by {
                    if k < a0[u]@.len() {
                        assert(adj@[u]@[k] == a0[u]@[k]);
                    }
                }
            }
        }
        i = i + 1;
    }
    proof {
        assert(edges@.take(i as int) =~= edges@);
        if forall|i: int| 0 <= i < edges@.len() ==> (#[trigger] edges@[i]).2 >= 0 {
            assert forall|u: int, k: int|
                0 <= u < graph_of(adj@).len() && 0 <= k < graph_of(adj@)[u].len() implies (
            #[trigger] graph_of(adj@)[u][k]).0 < graph_of(adj@).len() && graph_of(adj@)[u][k].1
                >= 0 by {
                assert(adj@[u]@[k].0 < n);
                assert(adj@[u]@[k].1 >= 0);
            }
        }
    }
    adj
}

} // verus!
