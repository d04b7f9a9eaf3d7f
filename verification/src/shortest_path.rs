use vstd::prelude::*;

verus! {

/// A weighted adjacency list: entry `u` holds the edges that leave `u`, each
/// as the node it enters and its weight.
pub type Adjacency = Vec<Vec<(usize, i64)>>;

/// The graph that an adjacency list holds.
pub open spec fn graph_of(adj: Seq<Vec<(usize, i64)>>) -> Seq<Seq<(usize, i64)>> {
    Seq::new(adj.len(), |u: int| adj[u]@)
}

/// Every edge enters a node of the graph and has a weight of zero or more.
pub open spec fn adj_ok(g: Seq<Seq<(usize, i64)>>) -> bool {
    forall|u: int, k: int|
        0 <= u < g.len() && 0 <= k < g[u].len() ==> (#[trigger] g[u][k]).0 < g.len()
            && g[u][k].1 >= 0
}

/// Whether `p` is a walk from `s` to `v`: a list of steps, each the node it
/// leaves and the number of the edge it takes there.
pub open spec fn walk_ok(g: Seq<Seq<(usize, i64)>>, s: int, v: int, p: Seq<(int, int)>) -> bool
    decreases p.len(),
{
    if p.len() == 0 {
        s == v
    } else {
        let u = p.last().0;
        let k = p.last().1;
        0 <= u < g.len() && 0 <= k < g[u].len() && g[u][k].0 == v && walk_ok(
            g,
            s,
            u,
            p.drop_last(),
        )
    }
}

/// The sum of the weights of the edges of a walk.
pub open spec fn walk_weight(g: Seq<Seq<(usize, i64)>>, p: Seq<(int, int)>) -> int
    decreases p.len(),
{
    if p.len() == 0 {
        0
    } else {
        walk_weight(g, p.drop_last()) + g[p.last().0][p.last().1].1
    }
}

/// Whether `d` is the least weight of a walk from `s` to `v`.
pub open spec fn is_distance(g: Seq<Seq<(usize, i64)>>, s: int, v: int, d: int) -> bool {
    &&& exists|p: Seq<(int, int)>| #[trigger] walk_ok(g, s, v, p) && walk_weight(g, p) == d
    &&& forall|p: Seq<(int, int)>| #[trigger] walk_ok(g, s, v, p) ==> walk_weight(g, p) >= d
}

/// Whether no walk from `s` to `v` weighs less than `limit`.
pub open spec fn none_below(g: Seq<Seq<(usize, i64)>>, s: int, v: int, limit: int) -> bool {
    forall|p: Seq<(int, int)>| #[trigger] walk_ok(g, s, v, p) ==> walk_weight(g, p) >= limit
}

/// What a single-source search from `s` owes for the node `v`: the least
/// weight of a walk, or nothing where no walk weighs less than `i64::MAX`.
pub open spec fn is_answer(g: Seq<Seq<(usize, i64)>>, s: int, v: int, d: Option<i64>) -> bool {
    match d {
        Some(x) => 0 <= x < i64::MAX && is_distance(g, s, v, x as int),
        None => none_below(g, s, v, i64::MAX as int),
    }
}

/// The sum of the tentative distances.
pub open spec fn total(dist: Seq<i64>) -> int
    decreases dist.len(),
{
    if dist.len() == 0 {
        0
    } else {
        total(dist.drop_last()) + dist.last()
    }
}

proof fn lemma_total_update(dist: Seq<i64>, i: int, x: i64)
    requires
        0 <= i < dist.len(),
    ensures
        total(dist.update(i, x)) == total(dist) - dist[i] + x,
    decreases dist.len(),
{
    let d2 = dist.update(i, x);
    if i == dist.len() - 1 {
        assert(d2.drop_last() =~= dist.drop_last());
    } else {
        assert(d2.drop_last() =~= dist.drop_last().update(i, x));
        lemma_total_update(dist.drop_last(), i, x);
    }
}

proof fn lemma_total_nonneg(dist: Seq<i64>)
    requires
        forall|i: int| 0 <= i < dist.len() ==> (#[trigger] dist[i]) >= 0,
    ensures
        total(dist) >= 0,
    decreases dist.len(),
{
    if dist.len() > 0 {
        assert forall|i: int| 0 <= i < dist.drop_last().len() implies (#[trigger] dist.drop_last()[i])
            >= 0 by {
            assert(dist.drop_last()[i] == dist[i]);
        }
        lemma_total_nonneg(dist.drop_last());
    }
}

/// The first `upto` out-edges of `u` have been tried against the distance
/// of `u`.
pub open spec fn relaxed(g: Seq<Seq<(usize, i64)>>, dist: Seq<i64>, u: int, upto: int) -> bool {
    forall|k: int|
        0 <= k < upto ==> dist[u] + (#[trigger] g[u][k]).1 < i64::MAX ==> dist[g[u][k].0 as int]
            <= dist[u] + g[u][k].1
}

/// The queue holds `u` at its present tentative distance.
pub open spec fn pending(queue: Seq<(i64, usize)>, dist: Seq<i64>, u: int) -> bool {
    exists|q: int| 0 <= q < queue.len() && #[trigger] queue[q] == (dist[u], u as usize)
}

/// In a graph with weights of zero or more, a walk weighs zero or more, and
/// once every reached node is relaxed no walk undercuts a recorded distance.
proof fn lemma_closed_is_least(
    g: Seq<Seq<(usize, i64)>>,
    dist: Seq<i64>,
    s: int,
    v: int,
    p: Seq<(int, int)>,
)
    requires
        adj_ok(g),
        dist.len() == g.len(),
        0 <= s < g.len(),
        dist[s] == 0,
        forall|u: int| 0 <= u < g.len() ==> (#[trigger] dist[u]) >= 0,
        forall|u: int|
            0 <= u < g.len() && (#[trigger] dist[u]) < i64::MAX ==> relaxed(
                g,
                dist,
                u,
                g[u].len() as int,
            ),
        walk_ok(g, s, v, p),
    ensures
        0 <= v < g.len(),
        walk_weight(g, p) >= 0,
        walk_weight(g, p) < i64::MAX ==> dist[v] <= walk_weight(g, p),
    decreases p.len(),
{
    if p.len() > 0 {
        let u = p.last().0;
        let k = p.last().1;
        lemma_closed_is_least(g, dist, s, u, p.drop_last());
        assert(g[u][k].1 >= 0);
        if walk_weight(g, p) < i64::MAX {
            assert(dist[u] < i64::MAX);
            assert(relaxed(g, dist, u, g[u].len() as int));
        }
    }
}

/// Takes an entry of least cost out of the queue.
fn pop_min(queue: &mut Vec<(i64, usize)>) -> (res: ((i64, usize), Ghost<int>))
    requires
        old(queue)@.len() > 0,
    ensures
        0 <= res.1@ < old(queue)@.len(),
        res.0 == old(queue)@[res.1@],
        final(queue)@ == old(queue)@.remove(res.1@),
        forall|q: int| 0 <= q < old(queue)@.len() ==> res.0.0 <= (#[trigger] old(queue)@[q]).0,
{
    let mut best: usize = 0;
    let mut q: usize = 1;
    while q < queue.len()
        invariant
            0 <= best < queue@.len(),
            1 <= q,
            queue@ == old(queue)@,
            forall|j: int| 0 <= j < q && j < queue@.len() ==> queue@[best as int].0 <= (
            #[trigger] queue@[j]).0,
        decreases queue@.len() - q,
    {
        if queue[q].0 < queue[best].0 {
            best = q;
        }
        q = q + 1;
    }
    let item = queue.remove(best);
    (item, Ghost(best as int))
}

/// The least weight of a walk from `start` to every node, by a search that
/// always continues from a pending node of least tentative distance.
/// A node gets nothing where no walk to it weighs less than `i64::MAX`.
pub fn shortest_distances(start: usize, adj: &Adjacency) -> (res: Vec<Option<i64>>)
    requires
        adj_ok(graph_of(adj@)),
        start < adj@.len(),
    ensures
        res@.len() == adj@.len(),
        forall|v: int| 0 <= v < res@.len() ==> is_answer(graph_of(adj@), start as int, v, #[trigger] res@[v]),
{
    let n = adj.len();
    let ghost g = graph_of(adj@);
    let mut dist: Vec<i64> = Vec::new();
    let mut j: usize = 0;
    while j < n
        invariant
            j <= n,
            dist@.len() == j,
            forall|i: int| 0 <= i < j ==> (#[trigger] dist@[i]) == i64::MAX,
        decreases n - j,
    {
        dist.push(i64::MAX);
        j = j + 1;
    }
    dist.set(start, 0);
    let ghost mut wit: Seq<Seq<(int, int)>> = Seq::new(n as nat, |i: int| Seq::empty());
    let mut queue: Vec<(i64, usize)> = Vec::new();
    queue.push((0, start));
    proof {
        assert(queue@[0] == (dist@[start as int], start));
        assert(forall|u: int| 0 <= u < n && (#[trigger] dist@[u]) < i64::MAX ==> u == start);
    }
    while queue.len() > 0
        invariant
            g == graph_of(adj@),
            n == g.len(),
            adj_ok(g),
            start < n,
            dist@.len() == n,
            wit.len() == n,
            dist@[start as int] == 0,
            forall|u: int| 0 <= u < n ==> (#[trigger] dist@[u]) >= 0,
            forall|u: int|
                0 <= u < n && (#[trigger] dist@[u]) < i64::MAX ==> walk_ok(
                    g,
                    start as int,
                    u,
                    wit[u],
                ) && walk_weight(g, wit[u]) == dist@[u],
            forall|u: int|
                0 <= u < n && (#[trigger] dist@[u]) < i64::MAX ==> relaxed(
                    g,
                    dist@,
                    u,
                    g[u].len() as int,
                ) || pending(queue@, dist@, u),
            forall|q: int|
                0 <= q < queue@.len() ==> (#[trigger] queue@[q]).1 < n && queue@[q].0
                    >= dist@[queue@[q].1 as int] && queue@[q].0 < i64::MAX,
        decreases total(dist@), queue@.len(),
    {
        let ghost queue0 = queue@;
        let ghost dist0 = dist@;
        proof {
            lemma_total_nonneg(dist@);
        }
        let (item, Ghost(at)) = pop_min(&mut queue);
        let cost = item.0;
        let u = item.1;
        assert(queue0[at] == item);
        proof {
            assert forall|q: int| 0 <= q < queue@.len() implies (#[trigger] queue@[q]).1 < n
                && queue@[q].0 >= dist@[queue@[q].1 as int] && queue@[q].0 < i64::MAX by {
                if q < at {
                    assert(queue@[q] == queue0[q]);
                } else {
                    assert(queue@[q] == queue0[q + 1]);
                }
            }
            assert forall|x: int|
                0 <= x < n && x != u && (#[trigger] dist@[x]) < i64::MAX implies relaxed(
                g,
                dist@,
                x,
                g[x].len() as int,
            ) || pending(queue@, dist@, x) by {
                if !relaxed(g, dist@, x, g[x].len() as int) {
                    assert(pending(queue0, dist@, x));
                    let q = choose|q: int|
                        0 <= q < queue0.len() && #[trigger] queue0[q] == (dist@[x], x as usize);
                    if q < at {
                        assert(queue@[q] == queue0[q]);
                    } else {
                        assert(queue@[q - 1] == queue0[q]);
                    }
                }
            }
        }
        if cost > dist[u] {
            proof {
                if !relaxed(g, dist@, u as int, g[u as int].len() as int) {
                    assert(pending(queue0, dist@, u as int));
                    let q = choose|q: int|
                        0 <= q < queue0.len() && #[trigger] queue0[q] == (
                            dist@[u as int],
                            u as usize,
                        );
                    if q < at {
                        assert(queue@[q] == queue0[q]);
                    } else {
                        assert(queue@[q - 1] == queue0[q]);
                    }
                }
            }
        } else {
            let row = &adj[u];
            let mut k: usize = 0;
            while k < row.len()
                invariant
                    g == graph_of(adj@),
                    n == g.len(),
                    adj_ok(g),
                    start < n,
                    u < n,
                    row@ == g[u as int],
                    k <= row@.len(),
                    dist@.len() == n,
                    wit.len() == n,
                    dist@[start as int] == 0,
                    dist@[u as int] == cost,
                    cost < i64::MAX,
                    forall|x: int| 0 <= x < n ==> (#[trigger] dist@[x]) >= 0,
                    forall|x: int|
                        0 <= x < n && (#[trigger] dist@[x]) < i64::MAX ==> walk_ok(
                            g,
                            start as int,
                            x,
                            wit[x],
                        ) && walk_weight(g, wit[x]) == dist@[x],
                    relaxed(g, dist@, u as int, k as int),
                    forall|x: int|
                        0 <= x < n && x != u && (#[trigger] dist@[x]) < i64::MAX ==> relaxed(
                            g,
                            dist@,
                            x,
                            g[x].len() as int,
                        ) || pending(queue@, dist@, x),
                    forall|q: int|
                        0 <= q < queue@.len() ==> (#[trigger] queue@[q]).1 < n && queue@[q].0
                            >= dist@[queue@[q].1 as int] && queue@[q].0 < i64::MAX,
                    total(dist@) <= total(dist0),
                    total(dist@) == total(dist0) ==> queue@.len() == queue0.len() - 1,
                decreases row@.len() - k,
            {
                let v = row[k].0;
                let w = row[k].1;
                assert(g[u as int][k as int] == (v, w));
                assert(v < n && w >= 0);
                if w < i64::MAX - cost {
                    let next = cost + w;
                    if next < dist[v] {
                        let ghost dist1 = dist@;
                        let ghost queue1 = queue@;
                        proof {
                            lemma_total_update(dist@, v as int, next);
                        }
                        dist.set(v, next);
                        queue.push((next, v));
                        proof {
                            let step = (u as int, k as int);
                            let path = wit[u as int].push(step);
                            assert(path.drop_last() =~= wit[u as int]);
                            assert(path.last() == step);
                            assert(walk_ok(g, start as int, v as int, path));
                            assert(walk_weight(g, path) == next);
                            wit = wit.update(v as int, path);
                            assert(queue@[queue1.len() as int] == (next, v));
                            assert(pending(queue@, dist@, v as int));
                            assert forall|x: int|
                                0 <= x < n && x != u && (#[trigger] dist@[x])
                                    < i64::MAX implies relaxed(g, dist@, x, g[x].len() as int)
                                || pending(queue@, dist@, x) by {
                                if x != v {
                                    assert(dist1[x] == dist@[x]);
                                    if relaxed(g, dist1, x, g[x].len() as int) {
                                        assert forall|e: int|
                                            0 <= e < g[x].len() && dist@[x] + (
                                            #[trigger] g[x][e]).1
                                                < i64::MAX implies dist@[g[x][e].0 as int]
                                            <= dist@[x] + g[x][e].1 by {
                                            assert(dist1[g[x][e].0 as int] <= dist1[x]
                                                + g[x][e].1);
                                        }
                                    } else {
                                        assert(pending(queue1, dist1, x));
                                        let q = choose|q: int|
                                            0 <= q < queue1.len() && #[trigger] queue1[q] == (
                                                dist1[x],
                                                x as usize,
                                            );
                                        assert(queue@[q] == queue1[q]);
                                    }
                                }
                            }
                            assert forall|e: int|
                                0 <= e < k + 1 && dist@[u as int] + (#[trigger] g[u as int][e]).1
                                    < i64::MAX implies dist@[g[u as int][e].0 as int]
                                <= dist@[u as int] + g[u as int][e].1 by {
                                if e < k {
                                    assert(dist1[g[u as int][e].0 as int] <= dist1[u as int]
                                        + g[u as int][e].1);
                                }
                            }
                            assert forall|q: int| 0 <= q < queue@.len() implies (
                            #[trigger] queue@[q]).1 < n && queue@[q].0
                                >= dist@[queue@[q].1 as int] && queue@[q].0 < i64::MAX by {
                                if q < queue1.len() {
                                    assert(queue@[q] == queue1[q]);
                                }
                            }
                        }
                    }
                }
                k = k + 1;
            }
        }
        proof {
            lemma_total_nonneg(dist@);
        }
    }
    let mut res: Vec<Option<i64>> = Vec::new();
    let mut v: usize = 0;
    while v < n
        invariant
            v <= n,
            n == g.len(),
            g == graph_of(adj@),
            adj_ok(g),
            start < n,
            dist@.len() == n,
            wit.len() == n,
            res@.len() == v,
            queue@.len() == 0,
            dist@[start as int] == 0,
            forall|u: int| 0 <= u < n ==> (#[trigger] dist@[u]) >= 0,
            forall|u: int|
                0 <= u < n && (#[trigger] dist@[u]) < i64::MAX ==> walk_ok(
                    g,
                    start as int,
                    u,
                    wit[u],
                ) && walk_weight(g, wit[u]) == dist@[u],
            forall|u: int|
                0 <= u < n && (#[trigger] dist@[u]) < i64::MAX ==> relaxed(
                    g,
                    dist@,
                    u,
                    g[u].len() as int,
                ),
            forall|x: int| 0 <= x < v ==> is_answer(g, start as int, x, #[trigger] res@[x]),
        decreases n - v,
    {
        let d = dist[v];
        let entry = if d < i64::MAX {
            Some(d)
        } else {
            None
        };
        proof {
            assert forall|p: Seq<(int, int)>| #[trigger]
                walk_ok(g, start as int, v as int, p) implies walk_weight(g, p) >= d by {
                lemma_closed_is_least(g, dist@, start as int, v as int, p);
            }
            if d < i64::MAX {
                assert(walk_ok(g, start as int, v as int, wit[v as int]));
            }
        }
        res.push(entry);
        v = v + 1;
    }
    res
}

/// The least weight of a walk from `start` to `target`, or nothing where no
/// walk weighs less than `i64::MAX`.
pub fn shortest_path(start: usize, target: usize, adj: &Adjacency) -> (d: Option<i64>)
    requires
        adj_ok(graph_of(adj@)),
        start < adj@.len(),
        target < adj@.len(),
    ensures
        is_answer(graph_of(adj@), start as int, target as int, d),
{
    let all = shortest_distances(start, adj);
    all[target]
}

proof fn lemma_walk_join(
    g: Seq<Seq<(usize, i64)>>,
    u: int,
    v: int,
    w: int,
    p: Seq<(int, int)>,
    q: Seq<(int, int)>,
)
    requires
        walk_ok(g, u, v, p),
        walk_ok(g, v, w, q),
    ensures
        walk_ok(g, u, w, p + q),
        walk_weight(g, p + q) == walk_weight(g, p) + walk_weight(g, q),
    decreases q.len(),
{
    if q.len() == 0 {
        assert(p + q =~= p);
    } else {
        lemma_walk_join(g, u, v, q.last().0, p, q.drop_last());
        assert((p + q).drop_last() =~= p + q.drop_last());
        assert((p + q).last() == q.last());
    }
}

/// Least distances obey the triangle inequality: going from `u` to `w` costs
/// no more than going by way of `v`.
pub proof fn lemma_triangle_inequality(
    g: Seq<Seq<(usize, i64)>>,
    u: int,
    v: int,
    w: int,
    d_uv: int,
    d_vw: int,
    d_uw: int,
)
    requires
        is_distance(g, u, v, d_uv),
        is_distance(g, v, w, d_vw),
        is_distance(g, u, w, d_uw),
    ensures
        d_uw <= d_uv + d_vw,
{
    let p = choose|p: Seq<(int, int)>| #[trigger] walk_ok(g, u, v, p) && walk_weight(g, p) == d_uv;
    let q = choose|q: Seq<(int, int)>| #[trigger] walk_ok(g, v, w, q) && walk_weight(g, q) == d_vw;
    lemma_walk_join(g, u, v, w, p, q);
    assert(walk_ok(g, u, w, p + q));
}

} // verus!
