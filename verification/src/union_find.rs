use vstd::prelude::*;

verus! {

/// The shape of a ranked forest: every parent is in range, every rank is at
/// most the number of slots, and a parent's rank exceeds its child's.
pub open spec fn forest_ok(nodes: Seq<usize>, rank: Seq<usize>) -> bool {
    &&& nodes.len() == rank.len()
    &&& forall|i: int| 0 <= i < nodes.len() ==> (#[trigger] nodes[i]) < nodes.len()
    &&& forall|i: int| 0 <= i < rank.len() ==> (#[trigger] rank[i]) <= rank.len()
    &&& forall|i: int|
        0 <= i < nodes.len() && (#[trigger] nodes[i]) != i ==> rank[i] < rank[nodes[i] as int]
}

/// The root reached from `x` by following parents.
pub open spec fn root_in(nodes: Seq<usize>, rank: Seq<usize>, x: int) -> int
    decreases
        (if forest_ok(nodes, rank) && 0 <= x < nodes.len() {
            nodes.len() - rank[x]
        } else {
            0
        }),
{
    if forest_ok(nodes, rank) && 0 <= x < nodes.len() && nodes[x] != x {
        root_in(nodes, rank, nodes[x] as int)
    } else {
        x
    }
}

/// How many of the first `k` slots are roots.
pub open spec fn count_roots(nodes: Seq<usize>, k: int) -> int
    decreases k,
{
    if k <= 0 {
        0
    } else {
        count_roots(nodes, k - 1) + (if nodes[k - 1] == k - 1 {
            1int
        } else {
            0int
        })
    }
}

proof fn lemma_root_props(nodes: Seq<usize>, rank: Seq<usize>, x: int)
    requires
        forest_ok(nodes, rank),
        0 <= x < nodes.len(),
    ensures
        0 <= root_in(nodes, rank, x) < nodes.len(),
        nodes[root_in(nodes, rank, x)] == root_in(nodes, rank, x),
        rank[x] <= rank[root_in(nodes, rank, x)],
        nodes[x] != x ==> rank[x] < rank[root_in(nodes, rank, x)],
        root_in(nodes, rank, root_in(nodes, rank, x)) == root_in(nodes, rank, x),
    decreases nodes.len() - rank[x],
{
    if nodes[x] != x {
        lemma_root_props(nodes, rank, nodes[x] as int);
    }
}

proof fn lemma_relink_one(nodes: Seq<usize>, rank: Seq<usize>, x: int, a: usize, y: int)
    requires
        forest_ok(nodes, rank),
        0 <= x < nodes.len(),
        0 <= a < nodes.len(),
        0 <= y < nodes.len(),
        root_in(nodes, rank, a as int) == root_in(nodes, rank, x),
        rank[a as int] > rank[x],
        forest_ok(nodes.update(x, a), rank),
    ensures
        root_in(nodes.update(x, a), rank, y) == root_in(nodes, rank, y),
    decreases nodes.len() - rank[y],
{
    let n2 = nodes.update(x, a);
    if y == x {
        lemma_relink_one(nodes, rank, x, a, a as int);
        lemma_root_props(nodes, rank, x);
    } else if nodes[y] != y {
        lemma_relink_one(nodes, rank, x, a, nodes[y] as int);
    }
}

/// Re-pointing `x` at a higher-ranked member `a` of its own class keeps the
/// forest well formed and moves no element to another root.
proof fn lemma_relink(nodes: Seq<usize>, rank: Seq<usize>, x: int, a: usize)
    requires
        forest_ok(nodes, rank),
        0 <= x < nodes.len(),
        0 <= a < nodes.len(),
        root_in(nodes, rank, a as int) == root_in(nodes, rank, x),
        rank[a as int] > rank[x],
    ensures
        forest_ok(nodes.update(x, a), rank),
        forall|y: int|
            0 <= y < nodes.len() ==> #[trigger] root_in(nodes.update(x, a), rank, y)
                == root_in(nodes, rank, y),
        forall|k: int|
            0 <= k <= nodes.len() ==> #[trigger] count_roots(nodes.update(x, a), k)
                == count_roots(nodes, k),
{
    let n2 = nodes.update(x, a);
    lemma_root_props(nodes, rank, x);
    lemma_root_props(nodes, rank, a as int);
    assert(nodes[x] != x);
    assert(forest_ok(n2, rank)) by {
        assert forall|i: int| 0 <= i < n2.len() && (#[trigger] n2[i]) != i implies rank[i]
            < rank[n2[i] as int] by {
            if i != x {
                assert(nodes[i] != i);
            }
        }
    }
    assert forall|y: int| 0 <= y < nodes.len() implies #[trigger] root_in(n2, rank, y) == root_in(
        nodes,
        rank,
        y,
    ) by {
        lemma_relink_one(nodes, rank, x, a, y);
    }
    assert forall|k: int| 0 <= k <= nodes.len() implies #[trigger] count_roots(n2, k)
        == count_roots(nodes, k) by {
        lemma_count_same(nodes, n2, k);
    }
}

proof fn lemma_count_same(n1: Seq<usize>, n2: Seq<usize>, k: int)
    requires
        n1.len() == n2.len(),
        0 <= k <= n1.len(),
        forall|i: int| 0 <= i < n1.len() ==> ((#[trigger] n1[i]) == i <==> n2[i] == i),
    ensures
        count_roots(n1, k) == count_roots(n2, k),
    decreases k,
{
    if k > 0 {
        lemma_count_same(n1, n2, k - 1);
        assert(n1[k - 1] == k - 1 <==> n2[k - 1] == k - 1);
    }
}

proof fn lemma_count_bounds(nodes: Seq<usize>, k: int)
    requires
        0 <= k <= nodes.len(),
    ensures
        0 <= count_roots(nodes, k) <= k,
    decreases k,
{
    if k > 0 {
        lemma_count_bounds(nodes, k - 1);
    }
}

proof fn lemma_count_has(nodes: Seq<usize>, k: int, r: int)
    requires
        0 <= r < k <= nodes.len(),
        nodes[r] == r,
    ensures
        count_roots(nodes, k) >= count_roots(nodes, r) + 1,
    decreases k,
{
    if k - 1 > r {
        lemma_count_has(nodes, k - 1, r);
    }
}

proof fn lemma_count_drop(nodes: Seq<usize>, k: int, r: int, p: usize)
    requires
        0 <= r < nodes.len(),
        0 <= k <= nodes.len(),
        nodes[r] == r,
        p != r,
    ensures
        count_roots(nodes.update(r, p), k) == count_roots(nodes, k) - (if r < k {
            1int
        } else {
            0int
        }),
    decreases k,
{
    if k > 0 {
        lemma_count_drop(nodes, k - 1, r, p);
    }
}

proof fn lemma_two_roots(nodes: Seq<usize>, a: int, b: int)
    requires
        0 <= a < nodes.len(),
        0 <= b < nodes.len(),
        a != b,
        nodes[a] == a,
        nodes[b] == b,
    ensures
        count_roots(nodes, nodes.len() as int) >= 2,
{
    let n = nodes.len() as int;
    if a < b {
        lemma_count_has(nodes, n, b);
        lemma_count_has(nodes, b, a);
        lemma_count_bounds(nodes, a);
    } else {
        lemma_count_has(nodes, n, a);
        lemma_count_has(nodes, a, b);
        lemma_count_bounds(nodes, b);
    }
}

proof fn lemma_link_one(
    nodes: Seq<usize>,
    rank: Seq<usize>,
    rank2: Seq<usize>,
    rx: usize,
    ry: int,
    y: int,
)
    requires
        forest_ok(nodes, rank),
        forest_ok(nodes.update(ry, rx), rank2),
        0 <= rx < nodes.len(),
        0 <= ry < nodes.len(),
        0 <= y < nodes.len(),
        rx != ry,
        nodes[rx as int] == rx,
        nodes[ry] == ry,
    ensures
        root_in(nodes.update(ry, rx), rank2, y) == (if root_in(nodes, rank, y) == ry {
            rx as int
        } else {
            root_in(nodes, rank, y)
        }),
    decreases nodes.len() - rank[y],
{
    let n2 = nodes.update(ry, rx);
    if y == ry {
        assert(n2[rx as int] == rx);
        assert(root_in(n2, rank2, rx as int) == rx);
        assert(root_in(n2, rank2, ry) == root_in(n2, rank2, n2[ry] as int));
    } else if nodes[y] != y {
        lemma_link_one(nodes, rank, rank2, rx, ry, nodes[y] as int);
        assert(n2[y] == nodes[y]);
    } else {
        assert(n2[y] == y);
    }
}

/// Hanging the root `ry` under the root `rx` moves exactly the class of `ry`.
proof fn lemma_link(
    nodes: Seq<usize>,
    rank: Seq<usize>,
    rank2: Seq<usize>,
    rx: usize,
    ry: int,
)
    requires
        forest_ok(nodes, rank),
        0 <= rx < nodes.len(),
        0 <= ry < nodes.len(),
        rx != ry,
        nodes[rx as int] == rx,
        nodes[ry] == ry,
        rank2.len() == rank.len(),
        forall|i: int| 0 <= i < rank.len() && i != rx ==> rank2[i] == rank[i],
        rank[rx as int] <= rank2[rx as int] <= rank.len(),
        rank[ry] < rank2[rx as int],
    ensures
        forest_ok(nodes.update(ry, rx), rank2),
        forall|y: int|
            0 <= y < nodes.len() ==> #[trigger] root_in(nodes.update(ry, rx), rank2, y)
                == (if root_in(nodes, rank, y) == ry {
                rx as int
            } else {
                root_in(nodes, rank, y)
            }),
        count_roots(nodes.update(ry, rx), nodes.len() as int) == count_roots(
            nodes,
            nodes.len() as int,
        ) - 1,
        count_roots(nodes, nodes.len() as int) >= 2,
{
    let n2 = nodes.update(ry, rx);
    assert(forest_ok(n2, rank2)) by {
        assert forall|i: int| 0 <= i < n2.len() && (#[trigger] n2[i]) != i implies rank2[i]
            < rank2[n2[i] as int] by {
            if i != ry {
                assert(nodes[i] != i);
                assert(i != rx);
                assert(rank[i] < rank[nodes[i] as int]);
            }
        }
        assert forall|i: int| 0 <= i < rank2.len() implies (#[trigger] rank2[i])
            <= rank2.len() by {
            if i != rx {
                assert(rank[i] <= rank.len());
            }
        }
    }
    assert forall|y: int| 0 <= y < nodes.len() implies #[trigger] root_in(n2, rank2, y) == (
    if root_in(nodes, rank, y) == ry {
        rx as int
    } else {
        root_in(nodes, rank, y)
    }) by {
        lemma_link_one(nodes, rank, rank2, rx, ry, y);
    }
    lemma_count_drop(nodes, nodes.len() as int, ry, rx);
    lemma_two_roots(nodes, rx as int, ry);
}

proof fn lemma_count_identity(nodes: Seq<usize>, k: int)
    requires
        0 <= k <= nodes.len(),
        forall|i: int| 0 <= i < k ==> (#[trigger] nodes[i]) == i,
    ensures
        count_roots(nodes, k) == k,
    decreases k,
{
    if k > 0 {
        lemma_count_identity(nodes, k - 1);
    }
}

/// Whether `a` and `b` are joined by the pairs, directly or through other
/// ids: the least equivalence relation that holds every pair, built up pair
/// by pair.
pub open spec fn linked(pairs: Seq<(usize, usize)>, a: int, b: int) -> bool
    decreases pairs.len(),
{
    if pairs.len() == 0 {
        a == b
    } else {
        let pre = pairs.drop_last();
        let u = pairs.last().0 as int;
        let v = pairs.last().1 as int;
        linked(pre, a, b) || (linked(pre, a, u) && linked(pre, v, b)) || (linked(pre, a, v)
            && linked(pre, u, b))
    }
}

/// Every id is linked to itself.
pub proof fn lemma_linked_reflexive(pairs: Seq<(usize, usize)>, a: int)
    ensures
        linked(pairs, a, a),
    decreases pairs.len(),
{
    if pairs.len() > 0 {
        lemma_linked_reflexive(pairs.drop_last(), a);
    }
}

/// Being linked is symmetric.
pub proof fn lemma_linked_symmetric(pairs: Seq<(usize, usize)>, a: int, b: int)
    requires
        linked(pairs, a, b),
    ensures
        linked(pairs, b, a),
    decreases pairs.len(),
{
    if pairs.len() > 0 {
        let pre = pairs.drop_last();
        let u = pairs.last().0 as int;
        let v = pairs.last().1 as int;
        if linked(pre, a, b) {
            lemma_linked_symmetric(pre, a, b);
        } else if linked(pre, a, u) && linked(pre, v, b) {
            lemma_linked_symmetric(pre, a, u);
            lemma_linked_symmetric(pre, v, b);
        } else {
            lemma_linked_symmetric(pre, a, v);
            lemma_linked_symmetric(pre, u, b);
        }
    }
}

/// Being linked is transitive.
pub proof fn lemma_linked_transitive(pairs: Seq<(usize, usize)>, a: int, b: int, c: int)
    requires
        linked(pairs, a, b),
        linked(pairs, b, c),
    ensures
        linked(pairs, a, c),
    decreases pairs.len(),
{
    if pairs.len() > 0 {
        let pre = pairs.drop_last();
        let u = pairs.last().0 as int;
        let v = pairs.last().1 as int;
        let bc = linked(pre, b, c);
        let bu_vc = linked(pre, b, u) && linked(pre, v, c);
        if linked(pre, a, b) {
            if bc {
                lemma_linked_transitive(pre, a, b, c);
            } else if bu_vc {
                lemma_linked_transitive(pre, a, b, u);
            } else {
                lemma_linked_transitive(pre, a, b, v);
            }
        } else if linked(pre, a, u) && linked(pre, v, b) {
            if bc {
                lemma_linked_transitive(pre, v, b, c);
            } else if !bu_vc {
                lemma_linked_transitive(pre, a, u, c);
            }
        } else {
            if bc {
                lemma_linked_transitive(pre, u, b, c);
            } else if bu_vc {
                lemma_linked_transitive(pre, a, v, c);
            }
        }
    }
}

/// The two ids of every pair are linked.
pub proof fn lemma_linked_holds_pairs(pairs: Seq<(usize, usize)>, i: int)
    requires
        0 <= i < pairs.len(),
    ensures
        linked(pairs, pairs[i].0 as int, pairs[i].1 as int),
    decreases pairs.len(),
{
    let pre = pairs.drop_last();
    if i == pairs.len() - 1 {
        lemma_linked_reflexive(pre, pairs[i].0 as int);
        lemma_linked_reflexive(pre, pairs[i].1 as int);
    } else {
        assert(pre[i] == pairs[i]);
        lemma_linked_holds_pairs(pre, i);
    }
}

/// Being linked is the least such relation: every reflexive, symmetric and
/// transitive relation that holds the two ids of every pair holds all ids
/// that are linked.
pub proof fn lemma_linked_is_least(
    pairs: Seq<(usize, usize)>,
    rel: spec_fn(int, int) -> bool,
    a: int,
    b: int,
)
    requires
        forall|x: int| #[trigger] rel(x, x),
        forall|x: int, y: int| #[trigger] rel(x, y) ==> rel(y, x),
        forall|x: int, y: int, z: int| #[trigger] rel(x, y) && #[trigger] rel(y, z) ==> rel(x, z),
        forall|i: int|
            0 <= i < pairs.len() ==> rel((#[trigger] pairs[i]).0 as int, pairs[i].1 as int),
        linked(pairs, a, b),
    ensures
        rel(a, b),
    decreases pairs.len(),
{
    if pairs.len() > 0 {
        let pre = pairs.drop_last();
        let u = pairs.last().0 as int;
        let v = pairs.last().1 as int;
        assert forall|i: int| 0 <= i < pre.len() implies rel(
            (#[trigger] pre[i]).0 as int,
            pre[i].1 as int,
        ) by {
            assert(pre[i] == pairs[i]);
        }
        assert(rel(pairs[pairs.len() - 1].0 as int, pairs[pairs.len() - 1].1 as int));
        assert(rel(u, v));
        assert(rel(v, u));
        if linked(pre, a, b) {
            lemma_linked_is_least(pre, rel, a, b);
        } else if linked(pre, a, u) && linked(pre, v, b) {
            lemma_linked_is_least(pre, rel, a, u);
            lemma_linked_is_least(pre, rel, v, b);
            assert(rel(a, v));
        } else {
            lemma_linked_is_least(pre, rel, a, v);
            lemma_linked_is_least(pre, rel, u, b);
            assert(rel(a, u));
        }
    }
}

/// A disjoint-set forest over the ids `0..n`, with union by rank and path
/// compression.
pub struct UnionFind {
    nodes: Vec<usize>,
    rank: Vec<usize>,
    classes: usize,
}

impl UnionFind {
    /// The invariant of the structure: a ranked forest whose roots are counted.
    pub closed spec fn wf(&self) -> bool {
        &&& forest_ok(self.nodes@, self.rank@)
        &&& self.classes == count_roots(self.nodes@, self.nodes@.len() as int)
        &&& forall|i: int|
            0 <= i < self.rank@.len() ==> (#[trigger] self.rank@[i]) + self.classes
                <= self.rank@.len()
    }

    /// The number of ids.
    pub closed spec fn size(&self) -> nat {
        self.nodes@.len()
    }

    /// The representative of the class of `x`.
    pub closed spec fn root(&self, x: int) -> int {
        root_in(self.nodes@, self.rank@, x)
    }

    /// The id that `x` points at; a root points at itself.
    pub closed spec fn parent(&self, x: int) -> int {
        self.nodes@[x] as int
    }

    /// Whether `y` lies on the way from `x` to its root, both ends included.
    pub open spec fn on_way(&self, x: int, y: int) -> bool
        decreases
            (if self.wf() && 0 <= x < self.size() {
                self.size() - self.rank_of(x)
            } else {
                0
            }),
    {
        x == y || (self.wf() && 0 <= x < self.size() && self.parent(x) != x && self.on_way(
            self.parent(x),
            y,
        ))
    }

    proof fn lemma_on_way_rank(&self, a: int, b: int)
        requires
            self.wf(),
            0 <= a < self.size(),
            self.on_way(a, b),
        ensures
            0 <= b < self.size(),
            self.rank_of(b) >= self.rank_of(a),
        decreases self.size() - self.rank_of(a),
    {
        if a != b {
            self.lemma_on_way_rank(self.parent(a), b);
        }
    }

    proof fn lemma_on_way_step(&self, x: int, c: int)
        requires
            self.wf(),
            0 <= x < self.size(),
            self.on_way(x, c),
            0 <= c < self.size(),
            self.parent(c) != c,
        ensures
            self.on_way(x, self.parent(c)),
        decreases self.size() - self.rank_of(x),
    {
        if x == c {
            assert(self.on_way(self.parent(c), self.parent(c)));
        } else {
            self.lemma_on_way_step(self.parent(x), c);
        }
    }

    /// The ranks, by id.
    pub closed spec fn ranks(&self) -> Seq<usize> {
        self.rank@
    }

    /// The rank stored for `x`.
    pub open spec fn rank_of(&self, x: int) -> int {
        self.ranks()[x] as int
    }

    /// The number of classes.
    pub closed spec fn class_count(&self) -> nat {
        self.classes as nat
    }

    /// Whether `a` and `b` are in one class.
    pub open spec fn same(&self, a: int, b: int) -> bool {
        self.root(a) == self.root(b)
    }

    /// The root that survives when the classes of the roots `rx` and `ry`
    /// are merged: the one of higher rank, `rx` when the ranks are equal.
    pub open spec fn winner(&self, rx: int, ry: int) -> int {
        if self.rank_of(rx) >= self.rank_of(ry) {
            rx
        } else {
            ry
        }
    }

    /// The root that is hung under the other when the classes of the roots
    /// `rx` and `ry` are merged.
    pub open spec fn loser(&self, rx: int, ry: int) -> int {
        if self.rank_of(rx) >= self.rank_of(ry) {
            ry
        } else {
            rx
        }
    }

    /// The root of an id is the id itself where it points at itself, and the
    /// root of what it points at elsewhere.
    pub proof fn lemma_root_follows_parent(&self, x: int)
        requires
            self.wf(),
            0 <= x < self.size(),
        ensures
            0 <= self.parent(x) < self.size(),
            self.root(x) == (if self.parent(x) == x {
                x
            } else {
                self.root(self.parent(x))
            }),
    {
    }

    /// The representative of a class represents itself: taking the root of
    /// a root changes nothing.
    pub proof fn lemma_root_idempotent(&self, x: int)
        requires
            self.wf(),
            0 <= x < self.size(),
        ensures
            0 <= self.root(x) < self.size(),
            self.root(self.root(x)) == self.root(x),
    {
        lemma_root_props(self.nodes@, self.rank@, x);
    }

    /// `n` singleton classes.
    pub fn new(n: usize) -> (uf: UnionFind)
        ensures
            uf.wf(),
            uf.size() == n,
            uf.class_count() == n,
            forall|x: int| 0 <= x < n ==> #[trigger] uf.root(x) == x,
            forall|x: int| 0 <= x < n ==> #[trigger] uf.rank_of(x) == 0,
    {
        let mut nodes: Vec<usize> = Vec::new();
        let mut rank: Vec<usize> = Vec::new();
        let mut i: usize = 0;
        while i < n
            invariant
                i <= n,
                nodes@.len() == i,
                rank@.len() == i,
                forall|j: int| 0 <= j < i ==> (#[trigger] nodes@[j]) == j,
                forall|j: int| 0 <= j < i ==> (#[trigger] rank@[j]) == 0,
            decreases n - i,
        {
            nodes.push(i);
            rank.push(0);
            i = i + 1;
        }
        proof {
            lemma_count_identity(nodes@, n as int);
        }
        UnionFind { nodes, rank, classes: n }
    }

    /// The number of ids.
    pub fn len(&self) -> (n: usize)
        ensures
            n == self.size(),
    {
        self.nodes.len()
    }

    /// The number of classes.
    pub fn num_classes(&self) -> (n: usize)
        ensures
            n == self.class_count(),
    {
        self.classes
    }

    /// The representative of the class of `x`. Every id on the way is
    /// re-pointed at the root; no id changes its class or its rank.
    pub fn find(&mut self, x: usize) -> (r: usize)
        requires
            old(self).wf(),
            x < old(self).size(),
        ensures
            final(self).wf(),
            final(self).size() == old(self).size(),
            final(self).class_count() == old(self).class_count(),
            r == old(self).root(x as int),
            r < old(self).size(),
            forall|y: int|
                0 <= y < old(self).size() ==> #[trigger] final(self).root(y) == old(self).root(y),
            final(self).ranks() == old(self).ranks(),
            forall|y: int|
                0 <= y < old(self).size() && old(self).on_way(x as int, y) ==> #[trigger] final(self).parent(y) == r,
            forall|y: int|
                0 <= y < old(self).size() && !old(self).on_way(x as int, y) ==> #[trigger] final(self).parent(y) == old(self).parent(y),
    {
        let mut r: usize = x;
        proof {
            lemma_root_props(self.nodes@, self.rank@, x as int);
        }
        while self.nodes[r] != r
            invariant
                forest_ok(self.nodes@, self.rank@),
                r < self.nodes@.len(),
                root_in(self.nodes@, self.rank@, r as int) == root_in(
                    self.nodes@,
                    self.rank@,
                    x as int,
                ),
            decreases self.nodes@.len() - self.rank@[r as int],
        {
            r = self.nodes[r];
        }
        let mut cur: usize = x;
        while cur != r
            invariant
                self.wf(),
                self.rank@ == old(self).rank@,
                self.classes == old(self).classes,
                self.nodes@.len() == old(self).nodes@.len(),
                cur < self.nodes@.len(),
                r < self.nodes@.len(),
                self.nodes@[r as int] == r,
                root_in(self.nodes@, self.rank@, cur as int) == r,
                forall|y: int|
                    0 <= y < self.nodes@.len() ==> #[trigger] root_in(self.nodes@, self.rank@, y)
                        == root_in(old(self).nodes@, old(self).rank@, y),
                old(self).wf(),
                x < old(self).nodes@.len(),
                old(self).on_way(x as int, cur as int),
                forall|y: int|
                    0 <= y < self.nodes@.len() && old(self).on_way(x as int, y) && !old(self).on_way(cur as int, y) ==> (#[trigger] self.nodes@[y]) == r,
                forall|y: int|
                    0 <= y < self.nodes@.len() && (old(self).on_way(cur as int, y) || !old(self).on_way(x as int, y)) ==> (#[trigger] self.nodes@[y]) == old(self).nodes@[y],
            decreases self.nodes@.len() - self.rank@[cur as int],
        {
            let next = self.nodes[cur];
            let ghost before = self.nodes@;
            proof {
                assert(old(self).on_way(cur as int, cur as int));
                assert(before[cur as int] == old(self).nodes@[cur as int]);
                old(self).lemma_on_way_step(x as int, cur as int);
                assert forall|y: int| old(self).on_way(next as int, y) implies y != cur by {
                    if old(self).on_way(next as int, y) {
                        old(self).lemma_on_way_rank(next as int, y);
                    }
                }
            }
            proof {
                lemma_root_props(self.nodes@, self.rank@, cur as int);
                lemma_root_props(self.nodes@, self.rank@, r as int);
                lemma_relink(self.nodes@, self.rank@, cur as int, r);
            }
            self.nodes.set(cur, r);
            proof {
                assert forall|y: int|
                    0 <= y < self.nodes@.len() && old(self).on_way(x as int, y) && !old(self).on_way(next as int, y) implies (#[trigger] self.nodes@[y]) == r by {
                    if y != cur {
                        assert(before[y] == r);
                    }
                }
                assert forall|y: int|
                    0 <= y < self.nodes@.len() && (old(self).on_way(next as int, y) || !old(self).on_way(x as int, y)) implies (#[trigger] self.nodes@[y]) == old(self).nodes@[y] by {
                    assert(y != cur);
                    assert(before[y] == old(self).nodes@[y]);
                }
            }
            cur = next;
        }
        proof {
            assert forall|y: int|
                0 <= y < old(self).size() && old(self).on_way(x as int, y) implies #[trigger] self.parent(
                y,
            ) == r by {
                if old(self).on_way(r as int, y) {
                    assert(y == r);
                    assert(self.nodes@[y] == old(self).nodes@[y]);
                }
            }
        }
        r
    }

    /// Merges the classes of `x` and `y`. The root of lower rank is hung
    /// under the other; with equal ranks the root of `y` is hung under the
    /// root of `x`, whose rank grows by one.
    pub fn union(&mut self, x: usize, y: usize)
        requires
            old(self).wf(),
            x < old(self).size(),
            y < old(self).size(),
        ensures
            final(self).wf(),
            final(self).size() == old(self).size(),
            forall|z: int|
                0 <= z < old(self).size() ==> #[trigger] final(self).root(z) == (if old(self).same(z, x as int) || old(self).same(z, y as int) {
                    old(self).winner(old(self).root(x as int), old(self).root(y as int))
                } else {
                    old(self).root(z)
                }),
            forall|a: int, b: int|
                0 <= a < old(self).size() && 0 <= b < old(self).size() ==> (#[trigger] final(self).same(a, b) <==> old(self).same(a, b) || (old(self).same(a, x as int) && old(self).same(y as int, b)) || (old(self).same(a, y as int) && old(self).same(
                    x as int,
                    b,
                ))),
            forall|z: int|
                0 <= z < old(self).size() ==> #[trigger] final(self).rank_of(z) == old(self).rank_of(z) + (if z == old(self).root(x as int) && !old(self).same(
                    x as int,
                    y as int,
                ) && old(self).rank_of(z) == old(self).rank_of(old(self).root(y as int)) {
                    1int
                } else {
                    0int
                }),
            final(self).class_count() == old(self).class_count() - (if old(self).same(
                x as int,
                y as int,
            ) {
                0int
            } else {
                1int
            }),
            !old(self).same(x as int, y as int) ==> final(self).parent(
                old(self).loser(old(self).root(x as int), old(self).root(y as int)),
            ) == old(self).winner(old(self).root(x as int), old(self).root(y as int)),
    {
        let rx = self.find(x);
        let ghost mid = *self;
        assert(forest_ok(mid.nodes@, mid.rank@));
        let ry = self.find(y);
        let ghost n = self.nodes@.len();
        proof {
            lemma_root_props(old(self).nodes@, old(self).rank@, x as int);
            lemma_root_props(mid.nodes@, mid.rank@, y as int);
            assert forall|z: int| 0 <= z < n implies #[trigger] root_in(
                self.nodes@,
                self.rank@,
                z,
            ) == old(self).root(z) by {
                assert(self.root(z) == mid.root(z));
                assert(mid.root(z) == old(self).root(z));
            }
            assert(self.root(rx as int) == rx);
            assert(self.root(ry as int) == ry);
            assert(self.root(x as int) == rx);
            assert(self.root(y as int) == ry);
        }
        if rx != ry {
            proof {
                lemma_root_props(self.nodes@, self.rank@, rx as int);
                lemma_root_props(self.nodes@, self.rank@, ry as int);
            }
            let kx = self.rank[rx];
            let ky = self.rank[ry];
            proof {
                vstd::std_specs::vec::axiom_spec_len(&self.rank);
            }
            if kx < ky {
                proof {
                    lemma_link(self.nodes@, self.rank@, self.rank@, ry, rx as int);
                }
                self.nodes.set(rx, ry);
                self.classes = self.classes - 1;
            } else if kx > ky {
                proof {
                    lemma_link(self.nodes@, self.rank@, self.rank@, rx, ry as int);
                }
                self.nodes.set(ry, rx);
                self.classes = self.classes - 1;
            } else {
                proof {
                    lemma_two_roots(self.nodes@, rx as int, ry as int);
                    assert(self.rank@[rx as int] + self.classes <= self.rank@.len());
                    lemma_link(
                        self.nodes@,
                        self.rank@,
                        self.rank@.update(rx as int, (kx + 1) as usize),
                        rx,
                        ry as int,
                    );
                }
                self.nodes.set(ry, rx);
                self.rank.set(rx, kx + 1);
                self.classes = self.classes - 1;
            }
        }
    }

    /// The forest that `n` singletons become when every pair is merged in
    /// turn: two ids share a class exactly when the pairs link them.
    pub fn from_pairs(n: usize, pairs: &[(usize, usize)]) -> (uf: UnionFind)
        requires
            forall|i: int|
                0 <= i < pairs@.len() ==> (#[trigger] pairs@[i]).0 < n && pairs@[i].1 < n,
        ensures
            uf.wf(),
            uf.size() == n,
            forall|a: int, b: int|
                0 <= a < n && 0 <= b < n ==> (#[trigger] uf.same(a, b) <==> linked(pairs@, a, b)),
    {
        let mut uf = UnionFind::new(n);
        let mut i: usize = 0;
        while i < pairs.len()
            invariant
                i <= pairs@.len(),
                uf.wf(),
                uf.size() == n,
                forall|i: int|
                    0 <= i < pairs@.len() ==> (#[trigger] pairs@[i]).0 < n && pairs@[i].1 < n,
                forall|a: int, b: int|
                    0 <= a < n && 0 <= b < n ==> (#[trigger] uf.same(a, b) <==> linked(
                        pairs@.take(i as int),
                        a,
                        b,
                    )),
            decreases pairs@.len() - i,
        {
            let (u, v) = pairs[i];
            proof {
                let next = pairs@.take(i as int + 1);
                assert(next.drop_last() =~= pairs@.take(i as int));
                assert(next.last() == pairs@[i as int]);
            }
            uf.union(u, v);
            i = i + 1;
        }
        proof {
            assert(pairs@.take(i as int) =~= pairs@);
        }
        uf
    }
}

} // verus!
