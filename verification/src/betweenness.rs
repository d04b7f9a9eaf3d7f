use crate::patterns::{chain_ok, points_at};
use vstd::prelude::*;

verus! {

/// Every neighbour is a node of the graph.
pub open spec fn nodes_ok(adj: Seq<Vec<usize>>) -> bool {
    forall|u: int, k: int|
        0 <= u < adj.len() && 0 <= k < adj[u]@.len() ==> (#[trigger] adj[u]@[k]) < adj.len()
}

/// The sum of the path counts of the nodes in `list`, each as often as it
/// is listed.
pub open spec fn sum_paths(paths: Seq<u64>, list: Seq<usize>) -> int
    decreases list.len(),
{
    if list.len() == 0 {
        0
    } else {
        sum_paths(paths, list.drop_last()) + paths[list.last() as int]
    }
}

/// A count that stops at `u64::MAX`.
pub open spec fn capped(x: int) -> int {
    if x > u64::MAX {
        u64::MAX as int
    } else {
        x
    }
}

/// How many nodes have no distance.
pub open spec fn count_none(dist: Seq<Option<usize>>) -> int
    decreases dist.len(),
{
    if dist.len() == 0 {
        0
    } else {
        count_none(dist.drop_last()) + (if dist.last() is None {
            1int
        } else {
            0int
        })
    }
}

proof fn lemma_count_none_update(dist: Seq<Option<usize>>, i: int, d: usize)
    requires
        0 <= i < dist.len(),
        dist[i] is None,
    ensures
        count_none(dist.update(i, Some(d))) == count_none(dist) - 1,
        count_none(dist) >= 1,
    decreases dist.len(),
{
    let d2 = dist.update(i, Some(d));
    if i == dist.len() - 1 {
        assert(d2.drop_last() =~= dist.drop_last());
        lemma_count_none_nonneg(dist.drop_last());
    } else {
        assert(d2.drop_last() =~= dist.drop_last().update(i, Some(d)));
        lemma_count_none_update(dist.drop_last(), i, d);
    }
}

proof fn lemma_count_none_nonneg(dist: Seq<Option<usize>>)
    ensures
        count_none(dist) >= 0,
    decreases dist.len(),
{
    if dist.len() > 0 {
        lemma_count_none_nonneg(dist.drop_last());
    }
}

proof fn lemma_sum_paths_update(paths: Seq<u64>, list: Seq<usize>, x: int, value: u64)
    requires
        0 <= x < paths.len(),
        forall|i: int| 0 <= i < list.len() ==> (#[trigger] list[i]) != x && list[i] < paths.len(),
    ensures
        sum_paths(paths.update(x, value), list) == sum_paths(paths, list),
    decreases list.len(),
{
    if list.len() > 0 {
        assert forall|i: int| 0 <= i < list.drop_last().len() implies (#[trigger] list.drop_last()[i])
            != x && list.drop_last()[i] < paths.len() by {
            assert(list.drop_last()[i] == list[i]);
        }
        lemma_sum_paths_update(paths, list.drop_last(), x, value);
        assert(list[list.len() - 1] != x);
    }
}

/// Whether the edge `k` of `v` enters `w` one step farther from the source.
pub open spec fn steps_to(
    adj: Seq<Vec<usize>>,
    dist: Seq<Option<usize>>,
    v: int,
    k: int,
    w: int,
) -> bool {
    adj[v]@[k] == w && dist[v] is Some && dist[w] is Some && dist[w]->0 == dist[v]->0 + 1
}

/// Whether some edge enters `w` from a node one step nearer to the source.
pub open spec fn has_parent(adj: Seq<Vec<usize>>, dist: Seq<Option<usize>>, w: int) -> bool {
    exists|v: int, k: int|
        0 <= v < adj.len() && 0 <= k < adj[v]@.len() && #[trigger] steps_to(adj, dist, v, k, w)
}

/// The predecessors of `w` that the first `i` nodes of `order` and the
/// first `k` edges of the next one give: a node once for each of its edges
/// that enters `w` one step farther from the source, in the order of the
/// nodes and of their edges.
pub open spec fn incoming(
    adj: Seq<Vec<usize>>,
    dist: Seq<Option<usize>>,
    order: Seq<usize>,
    w: int,
    i: int,
    k: int,
) -> Seq<usize>
    decreases i, k,
{
    if k > 0 {
        let base = incoming(adj, dist, order, w, i, k - 1);
        if steps_to(adj, dist, order[i] as int, k - 1, w) {
            base.push(order[i])
        } else {
            base
        }
    } else if i > 0 {
        incoming(adj, dist, order, w, i - 1, adj[order[i - 1] as int]@.len() as int)
    } else {
        Seq::empty()
    }
}

/// What one breadth-first pass from a source records.
pub struct Traversal {
    /// The nodes reached, in the order in which they were reached.
    pub order: Vec<usize>,
    /// The number of edges on a shortest path from the source, for each
    /// node reached.
    pub dist: Vec<Option<usize>>,
    /// The number of shortest paths from the source, stopping at `u64::MAX`.
    pub paths: Vec<u64>,
    /// For each node, the nodes that come just before it on a shortest path.
    pub preds: Vec<Vec<usize>>,
}

/// The nodes reached are listed once each, the source first, never a nearer
/// node behind a farther one.
pub open spec fn order_ok(order: Seq<usize>, dist: Seq<Option<usize>>, source: int) -> bool {
    &&& order.len() >= 1
    &&& order[0] == source
    &&& forall|i: int|
        0 <= i < order.len() ==> (#[trigger] order[i]) < dist.len() && dist[order[i] as int] is Some
    &&& forall|v: int|
        0 <= v < dist.len() && (#[trigger] dist[v]) is Some ==> order.contains(v as usize)
    &&& forall|i: int, j: int|
        0 <= i < j < order.len() ==> (#[trigger] order[i]) != (#[trigger] order[j])
            && dist[order[i] as int]->0 <= dist[order[j] as int]->0
}

/// The distances are those of a breadth-first search: zero at the source,
/// at most one more across any edge, and exactly one more than at some
/// node with an edge to it everywhere else.
pub open spec fn dist_ok(adj: Seq<Vec<usize>>, dist: Seq<Option<usize>>, source: int) -> bool {
    &&& dist.len() == adj.len()
    &&& dist[source] == Some(0usize)
    &&& forall|v: int, k: int|
        0 <= v < adj.len() && dist[v] is Some && 0 <= k < adj[v]@.len() ==> dist[(
        #[trigger] adj[v]@[k]) as int] is Some && dist[adj[v]@[k] as int]->0 <= dist[v]->0 + 1
    &&& forall|w: int|
        0 <= w < adj.len() && w != source && (#[trigger] dist[w]) is Some ==> has_parent(
            adj,
            dist,
            w,
        )
}

impl Traversal {
    /// A node's predecessors are the reached nodes one step nearer to the
    /// source, once for each edge they have to it, in the order of the pass.
    pub open spec fn preds_ok(&self, adj: Seq<Vec<usize>>) -> bool {
        forall|w: int|
            0 <= w < adj.len() ==> (#[trigger] self.preds@[w])@ == incoming(
                adj,
                self.dist@,
                self.order@,
                w,
                self.order@.len() as int,
                0,
            )
    }

    /// The source has one path; every other node has as many as its
    /// predecessors together, counted up to `u64::MAX`.
    pub open spec fn paths_ok(&self, n: int, source: int) -> bool {
        &&& self.paths@[source] == 1
        &&& forall|w: int|
            0 <= w < n && w != source ==> (#[trigger] self.paths@[w]) == capped(
                sum_paths(self.paths@, self.preds@[w]@),
            )
    }

    /// The record of a pass over `adj` from `source`.
    pub open spec fn is_pass(&self, adj: Seq<Vec<usize>>, source: int) -> bool {
        &&& self.paths@.len() == adj.len()
        &&& self.preds@.len() == adj.len()
        &&& order_ok(self.order@, self.dist@, source)
        &&& dist_ok(adj, self.dist@, source)
        &&& self.preds_ok(adj)
        &&& self.paths_ok(adj.len() as int, source)
    }
}

/// The state of a search that has finished the first `h` nodes of `order`
/// and the first `k` edges of the next one.
#[verifier::opaque]
spec fn scan_inv(
    adj: Seq<Vec<usize>>,
    source: int,
    order: Seq<usize>,
    dist: Seq<Option<usize>>,
    h: int,
    k: int,
) -> bool {
    &&& nodes_ok(adj)
    &&& 0 <= source < adj.len()
    &&& dist.len() == adj.len()
    &&& 0 <= h <= order.len()
    &&& dist[source] == Some(0usize)
    &&& order_ok(order, dist, source)
    &&& forall|i: int| 0 <= i < order.len() ==> dist[(#[trigger] order[i]) as int]->0 <= i
    &&& forall|i: int, e: int|
        0 <= i < h && 0 <= e < adj[order[i] as int]@.len() ==> dist[(
        #[trigger] adj[order[i] as int]@[e]) as int] is Some
            && dist[adj[order[i] as int]@[e] as int]->0 <= dist[order[i] as int]->0 + 1
    &&& forall|w: int|
        0 <= w < adj.len() && w != source && (#[trigger] dist[w]) is Some ==> has_parent(
            adj,
            dist,
            w,
        )
    &&& h < order.len() ==> {
        &&& 0 <= k <= adj[order[h] as int]@.len()
        &&& dist[order[order.len() - 1] as int]->0 <= dist[order[h] as int]->0 + 1
        &&& forall|e: int|
            0 <= e < k ==> dist[(#[trigger] adj[order[h] as int]@[e]) as int] is Some
                && dist[adj[order[h] as int]@[e] as int]->0 <= dist[order[h] as int]->0 + 1
    }
    &&& h == order.len() ==> k == 0
}

proof fn lemma_scan_start(adj: Seq<Vec<usize>>, source: usize, order: Seq<usize>, dist: Seq<Option<usize>>)
    requires
        nodes_ok(adj),
        source < adj.len(),
        dist.len() == adj.len(),
        order =~= seq![source],
        dist[source as int] == Some(0usize),
        forall|x: int| 0 <= x < dist.len() && x != source ==> (#[trigger] dist[x]) is None,
    ensures
        scan_inv(adj, source as int, order, dist, 0, 0),
{
    reveal(scan_inv);
    assert(order[0] == source);
    assert forall|x: int| 0 <= x < dist.len() && (#[trigger] dist[x]) is Some implies order.contains(
        x as usize,
    ) by {
        assert(x == source);
    }
}

proof fn lemma_scan_facts(
    adj: Seq<Vec<usize>>,
    source: int,
    order: Seq<usize>,
    dist: Seq<Option<usize>>,
    h: int,
    k: int,
)
    requires
        scan_inv(adj, source, order, dist, h, k),
        h < order.len(),
    ensures
        order[h] < adj.len(),
        dist[order[h] as int] is Some,
        dist[order[h] as int]->0 <= h,
        0 <= k <= adj[order[h] as int]@.len(),
        forall|e: int|
            0 <= e < adj[order[h] as int]@.len() ==> (#[trigger] adj[order[h] as int]@[e])
                < adj.len(),
{
    reveal(scan_inv);
}

proof fn lemma_scan_skip(
    adj: Seq<Vec<usize>>,
    source: int,
    order: Seq<usize>,
    dist: Seq<Option<usize>>,
    h: int,
    k: int,
)
    requires
        scan_inv(adj, source, order, dist, h, k),
        h < order.len(),
        k < adj[order[h] as int]@.len(),
        dist[adj[order[h] as int]@[k] as int] is Some,
    ensures
        scan_inv(adj, source, order, dist, h, k + 1),
{
    reveal(scan_inv);
    let w = adj[order[h] as int]@[k] as int;
    assert(order.contains(w as usize));
    let j = order.index_of(w as usize);
    if j < order.len() - 1 {
        assert(dist[order[j] as int]->0 <= dist[order[order.len() - 1] as int]->0);
    }
}

proof fn lemma_scan_discover(
    adj: Seq<Vec<usize>>,
    source: int,
    order0: Seq<usize>,
    dist0: Seq<Option<usize>>,
    h: int,
    k: int,
    order: Seq<usize>,
    dist: Seq<Option<usize>>,
)
    requires
        scan_inv(adj, source, order0, dist0, h, k),
        h < order0.len(),
        k < adj[order0[h] as int]@.len(),
        dist0[adj[order0[h] as int]@[k] as int] is None,
        dist0[order0[h] as int]->0 + 1 <= usize::MAX,
        order == order0.push(adj[order0[h] as int]@[k]),
        dist == dist0.update(
            adj[order0[h] as int]@[k] as int,
            Some((dist0[order0[h] as int]->0 + 1) as usize),
        ),
    ensures
        scan_inv(adj, source, order, dist, h, k + 1),
{
    reveal(scan_inv);
    let v = order0[h];
    let d = dist0[v as int]->0;
    let w = adj[v as int]@[k];
    let n = adj.len();
    assert(w < n);
    assert(order[order0.len() as int] == w);
    assert(steps_to(adj, dist, v as int, k, w as int));
    assert forall|x: int| 0 <= x < n && (#[trigger] dist[x]) is Some implies order.contains(
        x as usize,
    ) by {
        if x != w {
            assert(dist0[x] is Some);
            assert(order0.contains(x as usize));
            let i = order0.index_of(x as usize);
            assert(order[i] == order0[i]);
        }
    }
    assert forall|i: int, j: int| 0 <= i < j < order.len() implies (#[trigger] order[i]) != (
    #[trigger] order[j]) && dist[order[i] as int]->0 <= dist[order[j] as int]->0 by {
        assert(order[i] == order0[i]);
        assert(dist0[order0[i] as int] is Some);
        if j < order0.len() {
            assert(order[j] == order0[j]);
            assert(dist0[order0[j] as int] is Some);
        } else {
            if i < order0.len() - 1 {
                assert(dist0[order0[i] as int]->0 <= dist0[order0[order0.len() - 1] as int]->0);
            }
        }
    }
    assert forall|i: int| 0 <= i < order.len() implies (#[trigger] order[i]) < dist.len()
        && dist[order[i] as int] is Some by {
        if i < order0.len() {
            assert(order[i] == order0[i]);
        }
    }
    assert forall|i: int| 0 <= i < order.len() implies dist[(#[trigger] order[i]) as int]->0
        <= i by {
        if i < order0.len() {
            assert(order[i] == order0[i]);
            assert(dist0[order0[i] as int] is Some);
        }
    }
    assert forall|i: int, e: int|
        0 <= i < h && 0 <= e < adj[order[i] as int]@.len() implies dist[(
    #[trigger] adj[order[i] as int]@[e]) as int] is Some && dist[adj[order[i] as int]@[e] as int]->0
        <= dist[order[i] as int]->0 + 1 by {
        assert(order[i] == order0[i]);
        assert(dist0[order0[i] as int] is Some);
        assert(dist0[adj[order0[i] as int]@[e] as int] is Some);
    }
    assert(order[h] == order0[h]);
    assert forall|e: int| 0 <= e < k + 1 implies dist[(
    #[trigger] adj[order[h] as int]@[e]) as int] is Some && dist[adj[order[h] as int]@[e] as int]->0
        <= dist[order[h] as int]->0 + 1 by {
        if e < k {
            assert(dist0[adj[v as int]@[e] as int] is Some);
        }
    }
    assert forall|x: int| 0 <= x < n && x != source && (#[trigger] dist[x]) is Some
        implies has_parent(adj, dist, x) by {
        if x != w {
            assert(dist0[x] is Some);
            assert(has_parent(adj, dist0, x));
            let (p, e) = choose|p: int, e: int|
                0 <= p < adj.len() && 0 <= e < adj[p]@.len() && #[trigger] steps_to(
                    adj,
                    dist0,
                    p,
                    e,
                    x,
                );
            assert(steps_to(adj, dist, p, e, x));
        }
    }
}

proof fn lemma_scan_next(
    adj: Seq<Vec<usize>>,
    source: int,
    order: Seq<usize>,
    dist: Seq<Option<usize>>,
    h: int,
)
    requires
        h < order.len(),
        scan_inv(adj, source, order, dist, h, adj[order[h] as int]@.len() as int),
    ensures
        scan_inv(adj, source, order, dist, h + 1, 0),
{
    reveal(scan_inv);
    if h + 1 < order.len() {
        assert(dist[order[h] as int]->0 <= dist[order[h + 1] as int]->0);
    }
}

proof fn lemma_scan_done(
    adj: Seq<Vec<usize>>,
    source: int,
    order: Seq<usize>,
    dist: Seq<Option<usize>>,
)
    requires
        scan_inv(adj, source, order, dist, order.len() as int, 0),
        dist.len() <= usize::MAX,
    ensures
        order_ok(order, dist, source),
        dist_ok(adj, dist, source),
{
    reveal(scan_inv);
    assert forall|x: int, e: int|
        0 <= x < adj.len() && dist[x] is Some && 0 <= e < adj[x]@.len() implies dist[(
    #[trigger] adj[x]@[e]) as int] is Some && dist[adj[x]@[e] as int]->0 <= dist[x]->0 + 1 by {
        assert(order.contains(x as usize));
        let i = order.index_of(x as usize);
        assert(dist[adj[order[i] as int]@[e] as int] is Some);
    }
}

/// The order in which a breadth-first search from `source` reaches the
/// nodes, and their distances.
fn reach_order(adj: &Vec<Vec<usize>>, source: usize) -> (res: (Vec<usize>, Vec<Option<usize>>))
    requires
        nodes_ok(adj@),
        source < adj@.len(),
    ensures
        order_ok(res.0@, res.1@, source as int),
        dist_ok(adj@, res.1@, source as int),
{
    let n = adj.len();
    let mut dist: Vec<Option<usize>> = Vec::new();
    let mut j: usize = 0;
    while j < n
        invariant
            j <= n,
            dist@.len() == j,
            forall|i: int| 0 <= i < j ==> (#[trigger] dist@[i]) is None,
        decreases n - j,
    {
        dist.push(None);
        j = j + 1;
    }
    dist.set(source, Some(0));
    let mut order: Vec<usize> = Vec::new();
    order.push(source);
    let mut h: usize = 0;
    proof {
        lemma_scan_start(adj@, source, order@, dist@);
        lemma_count_none_nonneg(dist@);
    }
    while h < order.len()
        invariant
            n == adj@.len(),
            dist@.len() == n,
            h <= order@.len(),
            scan_inv(adj@, source as int, order@, dist@, h as int, 0),
        decreases count_none(dist@) + order@.len() - h,
    {
        proof {
            lemma_scan_facts(adj@, source as int, order@, dist@, h as int, 0);
        }
        let v = order[h];
        let d = match dist[v] {
            Some(x) => x,
            None => 0,
        };
        let row = &adj[v];
        let ghost measure = count_none(dist@) + order@.len();
        let mut k: usize = 0;
        while k < row.len()
            invariant
                n == adj@.len(),
                dist@.len() == n,
                h < order@.len(),
                v == order@[h as int],
                v < n,
                dist@[v as int] == Some(d),
                d <= h,
                row@ == adj@[v as int]@,
                k <= row@.len(),
                scan_inv(adj@, source as int, order@, dist@, h as int, k as int),
                count_none(dist@) + order@.len() == measure,
            decreases row@.len() - k,
        {
            let w = row[k];
            proof {
                vstd::std_specs::vec::axiom_spec_len(&order);
                lemma_scan_facts(adj@, source as int, order@, dist@, h as int, k as int);
                assert(adj@[v as int]@[k as int] == w);
            }
            if dist[w].is_none() {
                let ghost dist0 = dist@;
                let ghost order0 = order@;
                proof {
                    lemma_count_none_update(dist@, w as int, (d + 1) as usize);
                }
                dist.set(w, Some(d + 1));
                order.push(w);
                proof {
                    lemma_scan_discover(
                        adj@,
                        source as int,
                        order0,
                        dist0,
                        h as int,
                        k as int,
                        order@,
                        dist@,
                    );
                }
            } else {
                proof {
                    lemma_scan_skip(adj@, source as int, order@, dist@, h as int, k as int);
                }
            }
            k = k + 1;
        }
        proof {
            lemma_scan_next(adj@, source as int, order@, dist@, h as int);
            lemma_count_none_nonneg(dist@);
        }
        h = h + 1;
    }
    proof {
        lemma_scan_done(adj@, source as int, order@, dist@);
    }
    (order, dist)
}

/// The predecessors of every node and the number of shortest paths to it,
/// from the order and the distances of a pass.
fn tally_paths(
    adj: &Vec<Vec<usize>>,
    source: usize,
    order: &Vec<usize>,
    dist: &Vec<Option<usize>>,
) -> (res: (Vec<u64>, Vec<Vec<usize>>))
    requires
        nodes_ok(adj@),
        source < adj@.len(),
        order_ok(order@, dist@, source as int),
        dist_ok(adj@, dist@, source as int),
    ensures
        res.0@.len() == adj@.len(),
        res.1@.len() == adj@.len(),
        res.0@[source as int] == 1,
        forall|w: int|
            0 <= w < adj@.len() ==> (#[trigger] res.1@[w])@ == incoming(
                adj@,
                dist@,
                order@,
                w,
                order@.len() as int,
                0,
            ),
        forall|w: int|
            0 <= w < adj@.len() && w != source ==> (#[trigger] res.0@[w]) == capped(
                sum_paths(res.0@, res.1@[w]@),
            ),
{
    let n = adj.len();
    let mut paths: Vec<u64> = Vec::new();
    let mut preds: Vec<Vec<usize>> = Vec::new();
    let mut j: usize = 0;
    while j < n
        invariant
            j <= n,
            paths@.len() == j,
            preds@.len() == j,
            forall|i: int| 0 <= i < j ==> (#[trigger] paths@[i]) == 0,
            forall|i: int| 0 <= i < j ==> (#[trigger] preds@[i])@.len() == 0,
        decreases n - j,
    {
        paths.push(0);
        preds.push(Vec::new());
        j = j + 1;
    }
    paths.set(source, 1);
    proof {
        assert forall|w: int| 0 <= w < n implies (#[trigger] preds@[w])@ == incoming(
            adj@,
            dist@,
            order@,
            w,
            0,
            0,
        ) by {
            assert(preds@[w]@ =~= Seq::empty());
        }
        assert forall|w: int| 0 <= w < n && w != source implies (#[trigger] paths@[w]) == capped(
            sum_paths(paths@, preds@[w]@),
        ) by {
            assert(preds@[w]@.len() == 0);
        }
    }
    let mut i: usize = 0;
    while i < order.len()
        invariant
            i <= order@.len(),
            n == adj@.len(),
            nodes_ok(adj@),
            source < n,
            order_ok(order@, dist@, source as int),
            dist_ok(adj@, dist@, source as int),
            paths@.len() == n,
            preds@.len() == n,
            paths@[source as int] == 1,
            forall|w: int|
                0 <= w < n ==> (#[trigger] preds@[w])@ == incoming(
                    adj@,
                    dist@,
                    order@,
                    w,
                    i as int,
                    0,
                ),
            forall|w: int, q: int|
                0 <= w < n && 0 <= q < preds@[w]@.len() ==> (#[trigger] preds@[w]@[q]) < n
                    && dist@[preds@[w]@[q] as int] is Some && i > 0
                    && dist@[preds@[w]@[q] as int]->0 <= dist@[order@[i - 1] as int]->0,
            forall|w: int|
                0 <= w < n && w != source ==> (#[trigger] paths@[w]) == capped(
                    sum_paths(paths@, preds@[w]@),
                ),
        decreases order@.len() - i,
    {
        let v = order[i];
        let d = match dist[v] {
            Some(x) => x,
            None => 0,
        };
        let row = &adj[v];
        let mut k: usize = 0;
        proof {
            assert forall|w: int, q: int| 0 <= w < n && 0 <= q < preds@[w]@.len() implies dist@[(
            #[trigger] preds@[w]@[q]) as int]->0 <= d by {
                let p = preds@[w]@[q];
                assert(i > 0 && dist@[p as int]->0 <= dist@[order@[i - 1] as int]->0);
                assert(dist@[order@[i - 1] as int]->0 <= dist@[order@[i as int] as int]->0);
            }
        }
        while k < row.len()
            invariant
                i < order@.len(),
                n == adj@.len(),
                nodes_ok(adj@),
                source < n,
                v == order@[i as int],
                v < n,
                dist@[v as int] == Some(d),
                dist@[source as int] == Some(0usize),
                dist@.len() == n,
                row@ == adj@[v as int]@,
                k <= row@.len(),
                paths@.len() == n,
                preds@.len() == n,
                paths@[source as int] == 1,
                forall|w: int|
                    0 <= w < n ==> (#[trigger] preds@[w])@ == incoming(
                        adj@,
                        dist@,
                        order@,
                        w,
                        i as int,
                        k as int,
                    ),
                forall|w: int, q: int|
                    0 <= w < n && 0 <= q < preds@[w]@.len() ==> (#[trigger] preds@[w]@[q]) < n
                        && dist@[preds@[w]@[q] as int] is Some && dist@[preds@[w]@[q] as int]->0
                        <= d,
                forall|w: int|
                    0 <= w < n && w != source ==> (#[trigger] paths@[w]) == capped(
                        sum_paths(paths@, preds@[w]@),
                    ),
            decreases row@.len() - k,
        {
            let w = row[k];
            assert(adj@[v as int]@[k as int] == w);
            assert(w < n);
            let ghost paths0 = paths@;
            let ghost preds0 = preds@;
            let farther = match dist[w] {
                Some(x) => x > 0 && x - 1 == d,
                None => false,
            };
            assert(farther == steps_to(adj@, dist@, v as int, k as int, w as int));
            if farther {
                let pw = paths[w];
                let pv = paths[v];
                let total = if pw > u64::MAX - pv {
                    u64::MAX
                } else {
                    pw + pv
                };
                paths.set(w, total);
                preds[w].push(v);
                proof {
                    assert(w != v);
                    assert(w != source);
                    let listw = preds0[w as int]@;
                    assert(preds@[w as int]@ == listw.push(v));
                    assert(preds@[w as int]@.drop_last() =~= listw);
                    assert forall|x: int| 0 <= x < n && x != source implies (
                    #[trigger] paths@[x]) == capped(sum_paths(paths@, preds@[x]@)) by {
                        if x == w {
                            assert forall|q: int| 0 <= q < listw.len() implies (
                            #[trigger] listw[q]) != w && listw[q] < paths0.len() by {
                                assert(preds0[w as int]@[q] == listw[q]);
                            }
                            lemma_sum_paths_update(paths0, listw, w as int, total);
                            lemma_sum_nonneg(paths0, listw);
                            assert(paths0[w as int] == capped(sum_paths(paths0, listw)));
                        } else {
                            assert(preds@[x] == preds0[x]);
                            assert forall|q: int| 0 <= q < preds0[x]@.len() implies (
                            #[trigger] preds0[x]@[q]) != w && preds0[x]@[q] < paths0.len() by {
                                assert(dist@[preds0[x]@[q] as int]->0 <= d);
                            }
                            lemma_sum_paths_update(paths0, preds0[x]@, w as int, total);
                            assert(paths0[x] == capped(sum_paths(paths0, preds0[x]@)));
                        }
                    }
                    assert forall|x: int, q: int|
                        0 <= x < n && 0 <= q < preds@[x]@.len() implies (
                    #[trigger] preds@[x]@[q]) < n && dist@[preds@[x]@[q] as int] is Some
                        && dist@[preds@[x]@[q] as int]->0 <= d by {
                        if x == w {
                            if q < listw.len() {
                                assert(preds@[x]@[q] == preds0[x]@[q]);
                            }
                        } else {
                            assert(preds@[x] == preds0[x]);
                        }
                    }
                }
            }
            proof {
                assert forall|x: int| 0 <= x < n implies (#[trigger] preds@[x])@ == incoming(
                    adj@,
                    dist@,
                    order@,
                    x,
                    i as int,
                    k as int + 1,
                ) by {
                    assert(preds0[x]@ == incoming(adj@, dist@, order@, x, i as int, k as int));
                    if !(farther && x == w) {
                        assert(preds@[x] == preds0[x]);
                    }
                }
            }
            k = k + 1;
        }
        i = i + 1;
    }
    (paths, preds)
}

/// One breadth-first pass of the centrality computation: the order in which
/// the nodes are reached from `source`, their distances, the number of
/// shortest paths to each, and each node's predecessors on those paths.
pub fn count_shortest_paths(adj: &Vec<Vec<usize>>, source: usize) -> (t: Traversal)
    requires
        nodes_ok(adj@),
        source < adj@.len(),
    ensures
        t.is_pass(adj@, source as int),
{
    let (order, dist) = reach_order(adj, source);
    let (paths, preds) = tally_paths(adj, source, &order, &dist);
    Traversal { order, dist, paths, preds }
}

proof fn lemma_sum_nonneg(paths: Seq<u64>, list: Seq<usize>)
    ensures
        sum_paths(paths, list) >= 0,
    decreases list.len(),
{
    if list.len() > 0 {
        lemma_sum_nonneg(paths, list.drop_last());
    }
}

/// The neighbour lists of `n` nodes that the edges build: each edge puts its
/// target behind the neighbours of its source and, in an undirected graph,
/// its source behind the neighbours of its target.
pub open spec fn neighbours_of(n: nat, edges: Seq<(usize, usize)>, directed: bool) -> Seq<
    Seq<usize>,
>
    decreases edges.len(),
{
    if edges.len() == 0 {
        Seq::new(n, |u: int| Seq::empty())
    } else {
        let pre = neighbours_of(n, edges.drop_last(), directed);
        let f = edges.last().0;
        let t = edges.last().1;
        let one = pre.update(f as int, pre[f as int].push(t));
        if directed {
            one
        } else {
            one.update(t as int, one[t as int].push(f))
        }
    }
}

/// The neighbour lists that a vector of vectors holds.
pub open spec fn lists_of(adj: Seq<Vec<usize>>) -> Seq<Seq<usize>> {
    Seq::new(adj.len(), |u: int| adj[u]@)
}

/// Builds the neighbour lists of `n` nodes from edges without weights.
pub fn build_neighbours(n: usize, edges: &[(usize, usize)], directed: bool) -> (adj: Vec<
    Vec<usize>,
>)
    requires
        forall|i: int| 0 <= i < edges@.len() ==> (#[trigger] edges@[i]).0 < n && edges@[i].1 < n,
    ensures
        adj@.len() == n,
        lists_of(adj@) == neighbours_of(n as nat, edges@, directed),
        nodes_ok(adj@),
{
    let mut adj: Vec<Vec<usize>> = Vec::new();
    let mut j: usize = 0;
    while j < n
        invariant
            j <= n,
            adj@.len() == j,
            forall|u: int| 0 <= u < j ==> (#[trigger] adj@[u])@.len() == 0,
        decreases n - j,
    {
        adj.push(Vec::new());
        j = j + 1;
    }
    proof {
        assert(edges@.take(0).len() == 0);
        assert forall|u: int| 0 <= u < n implies #[trigger] lists_of(adj@)[u] =~= Seq::empty() by {
            assert(adj@[u]@.len() == 0);
        }
        assert(lists_of(adj@) =~= neighbours_of(n as nat, edges@.take(0), directed));
    }
    let mut i: usize = 0;
    while i < edges.len()
        invariant
            i <= edges@.len(),
            adj@.len() == n,
            forall|i: int|
                0 <= i < edges@.len() ==> (#[trigger] edges@[i]).0 < n && edges@[i].1 < n,
            lists_of(adj@) == neighbours_of(n as nat, edges@.take(i as int), directed),
            nodes_ok(adj@),
        decreases edges@.len() - i,
    {
        let f = edges[i].0;
        let t = edges[i].1;
        let ghost g0 = lists_of(adj@);
        let ghost a0 = adj@;
        adj[f].push(t);
        let ghost a1 = adj@;
        if !directed {
            adj[t].push(f);
        }
        proof {
            let cur = edges@.take(i as int + 1);
            assert(cur.drop_last() =~= edges@.take(i as int));
            assert(cur.last() == edges@[i as int]);
            let one = g0.update(f as int, g0[f as int].push(t));
            assert(lists_of(a1) =~= one);
            if !directed {
                assert(lists_of(adj@) =~= one.update(t as int, one[t as int].push(f)));
            }
            assert forall|u: int, k: int| 0 <= u < n && 0 <= k < adj@[u]@.len() implies (
            #[trigger] adj@[u]@[k]) < n by {
                if k < a0[u]@.len() {
                    assert(adj@[u]@[k] == a0[u]@[k]);
                }
            }
        }
        i = i + 1;
    }
    proof {
        assert(edges@.take(i as int) =~= edges@);
    }
    adj
}
/// No chain of edges from the source to a node is shorter than the node's
/// recorded distance, and every node that a chain reaches has a distance.
pub proof fn lemma_pass_distance_is_lower_bound(
    t: Traversal,
    adj: Seq<Vec<usize>>,
    source: int,
    v: int,
    p: Seq<int>,
)
    requires
        nodes_ok(adj),
        0 <= source < adj.len(),
        t.is_pass(adj, source),
        chain_ok(adj, source, v, p),
    ensures
        0 <= v < adj.len(),
        t.dist@[v] is Some,
        t.dist@[v]->0 <= p.len(),
    decreases p.len(),
{
    if p.len() > 0 {
        let u = p.last();
        lemma_pass_distance_is_lower_bound(t, adj, source, u, p.drop_last());
        let k = choose|k: int| 0 <= k < adj[u]@.len() && #[trigger] adj[u]@[k] == v;
        assert(t.dist@[adj[u]@[k] as int] is Some);
    }
}

/// Every node with a recorded distance is reached by a chain of exactly that
/// many edges.
pub proof fn lemma_pass_distance_is_reached(
    t: Traversal,
    adj: Seq<Vec<usize>>,
    source: int,
    v: int,
) -> (p: Seq<int>)
    requires
        nodes_ok(adj),
        0 <= source < adj.len(),
        t.is_pass(adj, source),
        0 <= v < adj.len(),
        t.dist@[v] is Some,
    ensures
        chain_ok(adj, source, v, p),
        p.len() == t.dist@[v]->0,
    decreases t.dist@[v]->0,
{
    if v == source {
        Seq::empty()
    } else {
        assert(has_parent(adj, t.dist@, v));
        let (u, k) = choose|u: int, k: int|
            0 <= u < adj.len() && 0 <= k < adj[u]@.len() && #[trigger] steps_to(
                adj,
                t.dist@,
                u,
                k,
                v,
            );
        let q = lemma_pass_distance_is_reached(t, adj, source, u);
        let p = q.push(u);
        assert(p.drop_last() =~= q);
        assert(adj[u]@[k] == v);
        assert(points_at(adj, u, v));
        p
    }
}

} // verus!
