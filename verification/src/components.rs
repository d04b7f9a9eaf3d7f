use crate::error::GraphError;
use crate::interner::{id_matches, opt_label, Interner};
use crate::outside::{edge_seq, edges_as_slice, edges_new, edges_push};
use crate::union_find::{linked, UnionFind};
use vstd::prelude::*;

verus! {

/// The label in row `i` of a column, if the row is not null.
pub open spec fn label_at(col: Seq<Option<String>>, i: int) -> Option<Seq<char>> {
    opt_label(col[i])
}

/// The label that stands for row `i`: the first endpoint, or the second
/// where the first is null.
pub open spec fn row_label(from: Seq<Option<String>>, to: Seq<Option<String>>, i: int) -> Option<
    Seq<char>,
> {
    match label_at(from, i) {
        Some(l) => Some(l),
        None => label_at(to, i),
    }
}

/// Whether the labels `a` and `b` are joined by the first `k` rows, taking
/// each row that has both endpoints as an undirected edge.
pub open spec fn label_linked(
    from: Seq<Option<String>>,
    to: Seq<Option<String>>,
    k: int,
    a: Seq<char>,
    b: Seq<char>,
) -> bool
    decreases k,
{
    if k <= 0 {
        a == b
    } else {
        match (label_at(from, k - 1), label_at(to, k - 1)) {
            (Some(u), Some(v)) => label_linked(from, to, k - 1, a, b) || (label_linked(
                from,
                to,
                k - 1,
                a,
                u,
            ) && label_linked(from, to, k - 1, v, b)) || (label_linked(from, to, k - 1, a, v)
                && label_linked(from, to, k - 1, u, b)),
            _ => label_linked(from, to, k - 1, a, b),
        }
    }
}

/// Whether the number `k` is given to one of the first `a` entries.
pub open spec fn used_before(groups: Seq<usize>, a: int, k: int) -> bool {
    exists|y: int| 0 <= y < a && #[trigger] groups[y] == k
}

/// Numbers the classes of a forest from 1, in the order in which the ids
/// `0, 1, 2, ..` first reach them, and gives each id the number of its class.
pub fn number_classes(uf: &mut UnionFind) -> (groups: Vec<usize>)
    requires
        old(uf).wf(),
    ensures
        final(uf).wf(),
        final(uf).size() == old(uf).size(),
        forall|y: int| 0 <= y < old(uf).size() ==> #[trigger] final(uf).root(y) == old(uf).root(y),
        groups@.len() == old(uf).size(),
        forall|a: int, b: int|
            0 <= a < groups@.len() && 0 <= b < groups@.len() ==> (groups@[a] == groups@[b]
                <==> #[trigger] old(uf).same(a, b)),
        forall|a: int| 0 <= a < groups@.len() ==> (#[trigger] groups@[a]) >= 1,
        forall|a: int, k: int|
            0 <= a < groups@.len() && 1 <= k < groups@[a] ==> #[trigger] used_before(
                groups@,
                a,
                k,
            ),
{
    let n = uf.len();
    let mut root_group: Vec<usize> = Vec::new();
    let mut j: usize = 0;
    while j < n
        invariant
            j <= n,
            root_group@.len() == j,
            forall|r: int| 0 <= r < j ==> (#[trigger] root_group@[r]) == 0,
        decreases n - j,
    {
        root_group.push(0);
        j = j + 1;
    }
    let mut groups: Vec<usize> = Vec::new();
    let mut counter: usize = 0;
    let mut i: usize = 0;
    while i < n
        invariant
            i <= n,
            n == old(uf).size(),
            old(uf).wf(),
            uf.wf(),
            uf.size() == n,
            forall|y: int| 0 <= y < n ==> #[trigger] uf.root(y) == old(uf).root(y),
            root_group@.len() == n,
            groups@.len() == i,
            counter <= i,
            forall|r: int| 0 <= r < n ==> (#[trigger] root_group@[r]) <= counter,
            forall|r: int|
                0 <= r < n && (#[trigger] root_group@[r]) != 0 ==> exists|a: int|
                    0 <= a < i && #[trigger] old(uf).root(a) == r,
            forall|a: int|
                0 <= a < i ==> (#[trigger] groups@[a]) == root_group@[old(uf).root(a)],
            forall|a: int| 0 <= a < i ==> (#[trigger] groups@[a]) >= 1,
            forall|r1: int, r2: int|
                0 <= r1 < n && 0 <= r2 < n && (#[trigger] root_group@[r1]) != 0 && root_group@[r1]
                    == (#[trigger] root_group@[r2]) ==> r1 == r2,
            forall|a: int, k: int|
                0 <= a < i && 1 <= k < groups@[a] ==> #[trigger] used_before(groups@, a, k),
            forall|k: int| 1 <= k <= counter ==> #[trigger] used_before(groups@, i as int, k),
        decreases n - i,
    {
        let ghost g0 = groups@;
        let ghost rg0 = root_group@;
        let r = uf.find(i);
        assert(uf.root(i as int) == old(uf).root(i as int));
        let mut g = root_group[r];
        if g == 0 {
            counter = counter + 1;
            g = counter;
            root_group.set(r, g);
            proof {
                assert forall|a: int| 0 <= a < i implies old(uf).root(a) != r by {
                    old(uf).lemma_root_idempotent(a);
                    assert(g0[a] == rg0[old(uf).root(a)]);
                    assert(g0[a] >= 1);
                }
            }
        }
        groups.push(g);
        proof {
            assert forall|a: int| 0 <= a < i + 1 implies (#[trigger] groups@[a])
                == root_group@[old(uf).root(a)] by {
                old(uf).lemma_root_idempotent(a);
                if a < i {
                    assert(g0[a] == rg0[old(uf).root(a)]);
                }
            }
            assert forall|a: int| 0 <= a < i + 1 implies (#[trigger] groups@[a]) >= 1 by {
                if a < i {
                    assert(g0[a] >= 1);
                }
            }
            assert forall|rr: int| 0 <= rr < n && (#[trigger] root_group@[rr]) != 0 implies exists|
                a: int,
            |
                0 <= a < i + 1 && #[trigger] old(uf).root(a) == rr by {
                if rr == r {
                    assert(old(uf).root(i as int) == rr);
                } else {
                    assert(rg0[rr] != 0);
                    let a = choose|a: int| 0 <= a < i && #[trigger] old(uf).root(a) == rr;
                    assert(old(uf).root(a) == rr);
                }
            }
            assert forall|k: int| 1 <= k <= counter implies #[trigger] used_before(
                groups@,
                i + 1,
                k,
            ) by {
                if k == g && rg0[r as int] == 0 {
                    assert(groups@[i as int] == k);
                } else {
                    assert(used_before(g0, i as int, k));
                    let y = choose|y: int| 0 <= y < i && #[trigger] g0[y] == k;
                    assert(groups@[y] == k);
                }
            }
            assert forall|a: int, k: int| 0 <= a < i + 1 && 1 <= k < groups@[a] implies #[trigger] used_before(
                groups@,
                a,
                k,
            ) by {
                if a < i {
                    assert(g0[a] == groups@[a]);
                    assert(used_before(g0, a, k));
                    let y = choose|y: int| 0 <= y < a && #[trigger] g0[y] == k;
                    assert(groups@[y] == k);
                } else {
                    assert(used_before(g0, i as int, k));
                    let y = choose|y: int| 0 <= y < i && #[trigger] g0[y] == k;
                    assert(groups@[y] == k);
                }
            }
            assert forall|r1: int, r2: int|
                0 <= r1 < n && 0 <= r2 < n && (#[trigger] root_group@[r1]) != 0 && root_group@[r1]
                    == (#[trigger] root_group@[r2]) implies r1 == r2 by {
                if r1 != r && r2 != r {
                    assert(rg0[r1] == rg0[r2]);
                } else if rg0[r as int] != 0 {
                    assert(rg0[r1] == rg0[r2]);
                } else {
                    assert(rg0[r1] <= counter - 1 || r1 == r);
                    assert(rg0[r2] <= counter - 1 || r2 == r);
                }
            }
        }
        i = i + 1;
    }
    proof {
        assert forall|a: int, b: int| 0 <= a < groups@.len() && 0 <= b < groups@.len() implies (
        groups@[a] == groups@[b] <==> #[trigger] old(uf).same(a, b)) by {
            old(uf).lemma_root_idempotent(a);
            old(uf).lemma_root_idempotent(b);
            assert(groups@[a] == root_group@[old(uf).root(a)]);
            assert(groups@[b] == root_group@[old(uf).root(b)]);
        }
    }
    groups
}

/// The edges between ids that rows of id pairs stand for: one for each row
/// with both ids, in order.
pub open spec fn edges_of(ids: Seq<(Option<usize>, Option<usize>)>) -> Seq<(usize, usize)>
    decreases ids.len(),
{
    if ids.len() == 0 {
        Seq::empty()
    } else {
        match ids.last() {
            (Some(a), Some(b)) => edges_of(ids.drop_last()).push((a, b)),
            _ => edges_of(ids.drop_last()),
        }
    }
}

/// The id that stands for a row: the first, or the second where the first
/// is missing.
pub open spec fn row_id(pair: (Option<usize>, Option<usize>)) -> Option<usize> {
    match pair.0 {
        Some(a) => Some(a),
        None => pair.1,
    }
}

/// Whether each row's ids are those of its labels.
pub open spec fn rows_match(
    from: Seq<Option<String>>,
    to: Seq<Option<String>>,
    names: Seq<Seq<char>>,
    ids: Seq<(Option<usize>, Option<usize>)>,
    k: int,
) -> bool {
    forall|i: int|
        0 <= i < k ==> id_matches(names, label_at(from, i), (#[trigger] ids[i]).0) && id_matches(
            names,
            label_at(to, i),
            ids[i].1,
        )
}

/// Whether the number `k` is given to a row before row `i`.
pub open spec fn row_used_before(out: Seq<Option<u64>>, i: int, k: int) -> bool {
    exists|j: int| 0 <= j < i && #[trigger] out[j] == Some(k as u64)
}

/// What the group column of an edge list is: null where a row has no label;
/// equal for two rows exactly when their labels are linked; and numbered
/// from 1 in the order in which the rows first reach each group.
pub open spec fn is_group_column(
    from: Seq<Option<String>>,
    to: Seq<Option<String>>,
    out: Seq<Option<u64>>,
) -> bool {
    &&& out.len() == from.len()
    &&& forall|i: int|
        0 <= i < out.len() ==> ((#[trigger] out[i]) is None <==> row_label(from, to, i) is None)
    &&& forall|i: int, j: int|
        0 <= i < out.len() && 0 <= j < out.len() && row_label(from, to, i) is Some && row_label(
            from,
            to,
            j,
        ) is Some ==> (#[trigger] out[i] == #[trigger] out[j] <==> label_linked(
            from,
            to,
            from.len() as int,
            row_label(from, to, i)->0,
            row_label(from, to, j)->0,
        ))
    &&& forall|i: int| 0 <= i < out.len() && (#[trigger] out[i]) is Some ==> out[i]->0 >= 1
    &&& forall|i: int, k: int|
        0 <= i < out.len() && out[i] is Some && 1 <= k < out[i]->0 ==> #[trigger] row_used_before(
            out,
            i,
            k,
        )
}

proof fn lemma_edges_in_range(
    from: Seq<Option<String>>,
    to: Seq<Option<String>>,
    names: Seq<Seq<char>>,
    ids: Seq<(Option<usize>, Option<usize>)>,
)
    requires
        rows_match(from, to, names, ids, ids.len() as int),
    ensures
        forall|i: int|
            0 <= i < edges_of(ids).len() ==> (#[trigger] edges_of(ids)[i]).0 < names.len()
                && edges_of(ids)[i].1 < names.len(),
    decreases ids.len(),
{
    if ids.len() > 0 {
        let pre = ids.drop_last();
        assert forall|i: int| 0 <= i < pre.len() implies id_matches(
            names,
            label_at(from, i),
            (#[trigger] pre[i]).0,
        ) && id_matches(names, label_at(to, i), pre[i].1) by {
            assert(pre[i] == ids[i]);
        }
        lemma_edges_in_range(from, to, names, pre);
        let last = ids[ids.len() - 1];
        assert(id_matches(names, label_at(from, ids.len() - 1), last.0));
        assert(id_matches(names, label_at(to, ids.len() - 1), last.1));
        assert forall|i: int| 0 <= i < edges_of(ids).len() implies (#[trigger] edges_of(
            ids,
        )[i]).0 < names.len() && edges_of(ids)[i].1 < names.len() by {
            if i < edges_of(pre).len() {
                assert(edges_of(ids)[i] == edges_of(pre)[i]);
            }
        }
    }
}

proof fn lemma_bridge(
    from: Seq<Option<String>>,
    to: Seq<Option<String>>,
    names: Seq<Seq<char>>,
    ids: Seq<(Option<usize>, Option<usize>)>,
    k: int,
)
    requires
        0 <= k <= ids.len(),
        rows_match(from, to, names, ids, ids.len() as int),
        forall|i: int, j: int|
            0 <= i < names.len() && 0 <= j < names.len() && names[i] == names[j] ==> i == j,
    ensures
        forall|a: int, b: int|
            0 <= a < names.len() && 0 <= b < names.len() ==> (#[trigger] linked(
                edges_of(ids.take(k)),
                a,
                b,
            ) <==> label_linked(from, to, k, names[a], names[b])),
    decreases k,
{
    if k > 0 {
        lemma_bridge(from, to, names, ids, k - 1);
        let cur = ids.take(k);
        let pre = ids.take(k - 1);
        assert(cur.drop_last() =~= pre);
        assert(cur.last() == ids[k - 1]);
        assert(id_matches(names, label_at(from, k - 1), ids[k - 1].0));
        assert(id_matches(names, label_at(to, k - 1), ids[k - 1].1));
        assert forall|a: int, b: int| 0 <= a < names.len() && 0 <= b < names.len() implies (
        #[trigger] linked(edges_of(cur), a, b) <==> label_linked(
            from,
            to,
            k,
            names[a],
            names[b],
        )) by {
            assert(linked(edges_of(pre), a, b) <==> label_linked(
                from,
                to,
                k - 1,
                names[a],
                names[b],
            ));
            match ids[k - 1] {
                (Some(u), Some(v)) => {
                    let e = edges_of(cur);
                    assert(e.drop_last() =~= edges_of(pre));
                    assert(e.last() == (u, v));
                    assert(linked(edges_of(pre), a, u as int) <==> label_linked(
                        from,
                        to,
                        k - 1,
                        names[a],
                        names[u as int],
                    ));
                    assert(linked(edges_of(pre), v as int, b) <==> label_linked(
                        from,
                        to,
                        k - 1,
                        names[v as int],
                        names[b],
                    ));
                    assert(linked(edges_of(pre), a, v as int) <==> label_linked(
                        from,
                        to,
                        k - 1,
                        names[a],
                        names[v as int],
                    ));
                    assert(linked(edges_of(pre), u as int, b) <==> label_linked(
                        from,
                        to,
                        k - 1,
                        names[u as int],
                        names[b],
                    ));
                },
                _ => {},
            }
        }
    } else {
        assert(ids.take(0) =~= Seq::empty());
    }
}

proof fn lemma_label_refl(from: Seq<Option<String>>, to: Seq<Option<String>>, k: int, a: Seq<char>)
    ensures
        label_linked(from, to, k, a, a),
    decreases k,
{
    if k > 0 {
        lemma_label_refl(from, to, k - 1, a);
    }
}

proof fn lemma_label_mono(
    from: Seq<Option<String>>,
    to: Seq<Option<String>>,
    k: int,
    m: int,
    a: Seq<char>,
    b: Seq<char>,
)
    requires
        k <= m,
        label_linked(from, to, k, a, b),
    ensures
        label_linked(from, to, m, a, b),
    decreases m - k,
{
    if k < m {
        lemma_label_mono(from, to, k, m - 1, a, b);
    }
}

/// A row with both endpoints links them, from that row on.
pub proof fn lemma_row_linked(
    from: Seq<Option<String>>,
    to: Seq<Option<String>>,
    r: int,
    m: int,
)
    requires
        0 <= r < m,
        label_at(from, r) is Some,
        label_at(to, r) is Some,
    ensures
        label_linked(from, to, m, label_at(from, r)->0, label_at(to, r)->0),
        label_linked(from, to, m, label_at(to, r)->0, label_at(from, r)->0),
{
    let u = label_at(from, r)->0;
    let v = label_at(to, r)->0;
    lemma_label_refl(from, to, r, u);
    lemma_label_refl(from, to, r, v);
    assert(label_linked(from, to, r + 1, u, v));
    assert(label_linked(from, to, r + 1, v, u));
    lemma_label_mono(from, to, r + 1, m, u, v);
    lemma_label_mono(from, to, r + 1, m, v, u);
}

/// Labels every row of an edge list with the number of its connected
/// component. Rows whose columns are both null get no number; a row with
/// one label stands for that label alone.
pub fn process_graph(from: &Vec<Option<String>>, to: &Vec<Option<String>>) -> (res: Result<
    Vec<Option<u64>>,
    GraphError,
>)
    ensures
        from@.len() != to@.len() ==> res == Err::<Vec<Option<u64>>, GraphError>(
            GraphError::MalformedInput,
        ),
        from@.len() == to@.len() ==> res is Ok && is_group_column(from@, to@, res->Ok_0@),
{
    let n = from.len();
    if to.len() != n {
        return Err(GraphError::MalformedInput);
    }
    let mut interner = Interner::new();
    let mut buf = edges_new();
    let mut ids: Vec<(Option<usize>, Option<usize>)> = Vec::new();
    let ghost mut first: Seq<int> = Seq::empty();
    let mut k: usize = 0;
    while k < n
        invariant
            k <= n,
            n == from@.len(),
            n == to@.len(),
            interner.wf(),
            ids@.len() == k,
            rows_match(from@, to@, interner.names(), ids@, k as int),
            edge_seq(buf) == edges_of(ids@),
            first.len() == interner.names().len(),
            forall|y: int| 0 <= y < first.len() ==> 0 <= #[trigger] first[y] < k,
            forall|y: int|
                0 <= y < first.len() ==> label_at(from@, #[trigger] first[y]) == Some(
                    interner.names()[y],
                ) || label_at(to@, first[y]) == Some(interner.names()[y]),
            forall|y: int, z: int|
                0 <= y <= z < first.len() ==> #[trigger] first[y] <= #[trigger] first[z],
            forall|i: int|
                0 <= i < k && (#[trigger] ids@[i]).0 is Some ==> first[ids@[i].0->0 as int] <= i,
            forall|i: int|
                0 <= i < k && (#[trigger] ids@[i]).1 is Some ==> first[ids@[i].1->0 as int] <= i,
        decreases n - k,
    {
        let ghost names0 = interner.names();
        let ghost ids0 = ids@;
        let a = interner.intern_opt(&from[k]);
        proof {
            if interner.names().len() > first.len() {
                first = first.push(k as int);
            }
        }
        let ghost names1 = interner.names();
        let b = interner.intern_opt(&to[k]);
        proof {
            if interner.names().len() > first.len() {
                first = first.push(k as int);
            }
        }
        match (a, b) {
            (Some(x), Some(y)) => {
                edges_push(&mut buf, (x, y));
            },
            _ => {},
        }
        ids.push((a, b));
        proof {
            assert(ids@.drop_last() =~= ids0);
            assert forall|i: int| 0 <= i < k + 1 implies id_matches(
                interner.names(),
                label_at(from@, i),
                (#[trigger] ids@[i]).0,
            ) && id_matches(interner.names(), label_at(to@, i), ids@[i].1) by {
                if i < k {
                    assert(ids@[i] == ids0[i]);
                    assert(id_matches(names0, label_at(from@, i), ids0[i].0));
                    assert(id_matches(names0, label_at(to@, i), ids0[i].1));
                }
            }
            assert forall|i: int| 0 <= i < k + 1 && (#[trigger] ids@[i]).0 is Some implies first[ids@[i].0->0 as int]
                <= i by {
                if i < k {
                    assert(ids@[i] == ids0[i]);
                }
            }
            assert forall|i: int| 0 <= i < k + 1 && (#[trigger] ids@[i]).1 is Some implies first[ids@[i].1->0 as int]
                <= i by {
                if i < k {
                    assert(ids@[i] == ids0[i]);
                }
            }
        }
        k = k + 1;
    }
    let total = interner.len();
    let ghost names = interner.names();
    let ghost edges = edge_seq(buf);
    proof {
        lemma_edges_in_range(from@, to@, names, ids@);
        interner.lemma_names_distinct();
        lemma_bridge(from@, to@, names, ids@, n as int);
        assert(ids@.take(n as int) =~= ids@);
    }
    let mut uf = UnionFind::from_pairs(total, edges_as_slice(&buf));
    let ghost uf0 = uf;
    let groups = number_classes(&mut uf);
    let mut out: Vec<Option<u64>> = Vec::new();
    let mut i: usize = 0;
    while i < n
        invariant
            i <= n,
            n == ids@.len(),
            out@.len() == i,
            groups@.len() == total,
            total == names.len(),
            rows_match(from@, to@, names, ids@, n as int),
            forall|j: int|
                0 <= j < i ==> #[trigger] out@[j] == (match row_id(ids@[j]) {
                    Some(id) => Some(groups@[id as int] as u64),
                    None => None,
                }),
        decreases n - i,
    {
        let pair = ids[i];
        assert(id_matches(names, label_at(from@, i as int), ids@[i as int].0));
        assert(id_matches(names, label_at(to@, i as int), ids@[i as int].1));
        let id = match pair.0 {
            Some(a) => Some(a),
            None => pair.1,
        };
        let g = match id {
            Some(x) => Some(groups[x] as u64),
            None => None,
        };
        out.push(g);
        i = i + 1;
    }
    proof {
        let o = out@;
        assert forall|i: int| 0 <= i < n implies id_matches(
            names,
            row_label(from@, to@, i),
            row_id(#[trigger] ids@[i]),
        ) by {
            assert(id_matches(names, label_at(from@, i), ids@[i].0));
            assert(id_matches(names, label_at(to@, i), ids@[i].1));
        }
        assert forall|i: int| 0 <= i < o.len() implies ((#[trigger] o[i]) is None <==> row_label(
            from@,
            to@,
            i,
        ) is None) by {
            assert(id_matches(names, row_label(from@, to@, i), row_id(ids@[i])));
        }
        assert forall|i: int| 0 <= i < o.len() && (#[trigger] o[i]) is Some implies o[i]->0
            >= 1 by {
            assert(id_matches(names, row_label(from@, to@, i), row_id(ids@[i])));
            assert(groups@[row_id(ids@[i])->0 as int] >= 1);
        }
        assert forall|i: int, j: int|
            0 <= i < o.len() && 0 <= j < o.len() && row_label(from@, to@, i) is Some && row_label(
                from@,
                to@,
                j,
            ) is Some implies (#[trigger] o[i] == #[trigger] o[j] <==> label_linked(
            from@,
            to@,
            from@.len() as int,
            row_label(from@, to@, i)->0,
            row_label(from@, to@, j)->0,
        )) by {
            assert(id_matches(names, row_label(from@, to@, i), row_id(ids@[i])));
            assert(id_matches(names, row_label(from@, to@, j), row_id(ids@[j])));
            let a = row_id(ids@[i])->0 as int;
            let b = row_id(ids@[j])->0 as int;
            assert(uf0.same(a, b) <==> linked(edges, a, b));
            assert(linked(edges_of(ids@.take(n as int)), a, b) <==> label_linked(
                from@,
                to@,
                n as int,
                names[a],
                names[b],
            ));
            assert(groups@[a] == groups@[b] <==> uf0.same(a, b));
        }
        assert forall|i: int, k: int|
            0 <= i < o.len() && o[i] is Some && 1 <= k < o[i]->0 implies #[trigger] row_used_before(
            o,
            i,
            k,
        ) by {
            assert(id_matches(names, row_label(from@, to@, i), row_id(ids@[i])));
            let a = row_id(ids@[i])->0 as int;
            assert(used_before(groups@, a, k));
            let y = choose|y: int| 0 <= y < a && #[trigger] groups@[y] == k;
            let r = first[y];
            assert(first[y] <= first[a]);
            assert(first[a] <= i) by {
                if ids@[i].0 is Some {
                    assert(first[ids@[i].0->0 as int] <= i);
                } else {
                    assert(first[ids@[i].1->0 as int] <= i);
                }
            }
            assert(id_matches(names, row_label(from@, to@, r), row_id(ids@[r])));
            assert(id_matches(names, label_at(from@, r), ids@[r].0));
            assert(id_matches(names, label_at(to@, r), ids@[r].1));
            let c = row_id(ids@[r])->0 as int;
            assert(groups@[c] == groups@[y]) by {
                if c != y {
                    lemma_row_linked(from@, to@, r, n as int);
                    assert(uf0.same(c, y) <==> linked(edges, c, y));
                    assert(linked(edges_of(ids@.take(n as int)), c, y) <==> label_linked(
                        from@,
                        to@,
                        n as int,
                        names[c],
                        names[y],
                    ));
                    assert(groups@[c] == groups@[y] <==> uf0.same(c, y));
                }
            }
            assert(o[r] == Some(k as u64));
            assert(r != i);
        }
    }
    Ok(out)
}

/// Being linked is symmetric.
pub proof fn lemma_label_symmetric(
    from: Seq<Option<String>>,
    to: Seq<Option<String>>,
    k: int,
    a: Seq<char>,
    b: Seq<char>,
)
    requires
        label_linked(from, to, k, a, b),
    ensures
        label_linked(from, to, k, b, a),
    decreases k,
{
    if k > 0 {
        match (label_at(from, k - 1), label_at(to, k - 1)) {
            (Some(u), Some(v)) => {
                if label_linked(from, to, k - 1, a, b) {
                    lemma_label_symmetric(from, to, k - 1, a, b);
                } else if label_linked(from, to, k - 1, a, u) && label_linked(
                    from,
                    to,
                    k - 1,
                    v,
                    b,
                ) {
                    lemma_label_symmetric(from, to, k - 1, a, u);
                    lemma_label_symmetric(from, to, k - 1, v, b);
                } else {
                    lemma_label_symmetric(from, to, k - 1, a, v);
                    lemma_label_symmetric(from, to, k - 1, u, b);
                }
            },
            _ => {
                lemma_label_symmetric(from, to, k - 1, a, b);
            },
        }
    }
}

/// Being linked is transitive.
pub proof fn lemma_label_transitive(
    from: Seq<Option<String>>,
    to: Seq<Option<String>>,
    k: int,
    a: Seq<char>,
    b: Seq<char>,
    c: Seq<char>,
)
    requires
        label_linked(from, to, k, a, b),
        label_linked(from, to, k, b, c),
    ensures
        label_linked(from, to, k, a, c),
    decreases k,
{
    if k > 0 {
        match (label_at(from, k - 1), label_at(to, k - 1)) {
            (Some(u), Some(v)) => {
                let ab = label_linked(from, to, k - 1, a, b);
                let au_vb = label_linked(from, to, k - 1, a, u) && label_linked(
                    from,
                    to,
                    k - 1,
                    v,
                    b,
                );
                let av_ub = label_linked(from, to, k - 1, a, v) && label_linked(
                    from,
                    to,
                    k - 1,
                    u,
                    b,
                );
                let bc = label_linked(from, to, k - 1, b, c);
                let bu_vc = label_linked(from, to, k - 1, b, u) && label_linked(
                    from,
                    to,
                    k - 1,
                    v,
                    c,
                );
                let bv_uc = label_linked(from, to, k - 1, b, v) && label_linked(
                    from,
                    to,
                    k - 1,
                    u,
                    c,
                );
                if ab {
                    if bc {
                        lemma_label_transitive(from, to, k - 1, a, b, c);
                    } else if bu_vc {
                        lemma_label_transitive(from, to, k - 1, a, b, u);
                    } else {
                        lemma_label_transitive(from, to, k - 1, a, b, v);
                    }
                } else if au_vb {
                    if bc {
                        lemma_label_transitive(from, to, k - 1, v, b, c);
                    } else if bu_vc {
                    } else {
                        lemma_label_transitive(from, to, k - 1, a, u, c);
                    }
                } else {
                    if bc {
                        lemma_label_transitive(from, to, k - 1, u, b, c);
                    } else if bu_vc {
                        lemma_label_transitive(from, to, k - 1, a, v, c);
                    } else {
                    }
                }
            },
            _ => {
                lemma_label_transitive(from, to, k - 1, a, b, c);
            },
        }
    }
}

/// Exchanging the two columns links the same labels.
pub proof fn lemma_label_linked_swap(
    from: Seq<Option<String>>,
    to: Seq<Option<String>>,
    k: int,
    a: Seq<char>,
    b: Seq<char>,
)
    ensures
        label_linked(from, to, k, a, b) == label_linked(to, from, k, a, b),
    decreases k,
{
    if k > 0 {
        lemma_label_linked_swap(from, to, k - 1, a, b);
        match (label_at(from, k - 1), label_at(to, k - 1)) {
            (Some(u), Some(v)) => {
                lemma_label_linked_swap(from, to, k - 1, a, u);
                lemma_label_linked_swap(from, to, k - 1, v, b);
                lemma_label_linked_swap(from, to, k - 1, a, v);
                lemma_label_linked_swap(from, to, k - 1, u, b);
            },
            _ => {},
        }
    }
}

proof fn lemma_row_labels_linked(from: Seq<Option<String>>, to: Seq<Option<String>>, i: int)
    requires
        from.len() == to.len(),
        0 <= i < from.len(),
        row_label(from, to, i) is Some,
    ensures
        row_label(to, from, i) is Some,
        label_linked(
            from,
            to,
            from.len() as int,
            row_label(from, to, i)->0,
            row_label(to, from, i)->0,
        ),
{
    if label_at(from, i) is Some && label_at(to, i) is Some {
        lemma_row_linked(from, to, i, from.len() as int);
    } else {
        lemma_label_refl(from, to, from.len() as int, row_label(from, to, i)->0);
    }
}

proof fn lemma_swap_same_relation(
    from: Seq<Option<String>>,
    to: Seq<Option<String>>,
    i: int,
    j: int,
)
    requires
        from.len() == to.len(),
        0 <= i < from.len(),
        0 <= j < from.len(),
        row_label(from, to, i) is Some,
        row_label(from, to, j) is Some,
    ensures
        row_label(to, from, i) is Some,
        row_label(to, from, j) is Some,
        label_linked(
            from,
            to,
            from.len() as int,
            row_label(from, to, i)->0,
            row_label(from, to, j)->0,
        ) == label_linked(
            to,
            from,
            to.len() as int,
            row_label(to, from, i)->0,
            row_label(to, from, j)->0,
        ),
{
    let n = from.len() as int;
    let a1 = row_label(from, to, i)->0;
    let b1 = row_label(from, to, j)->0;
    lemma_row_labels_linked(from, to, i);
    lemma_row_labels_linked(from, to, j);
    let a2 = row_label(to, from, i)->0;
    let b2 = row_label(to, from, j)->0;
    lemma_label_linked_swap(from, to, n, a2, b2);
    lemma_label_symmetric(from, to, n, a1, a2);
    lemma_label_symmetric(from, to, n, b1, b2);
    if label_linked(from, to, n, a1, b1) {
        lemma_label_transitive(from, to, n, a2, a1, b1);
        lemma_label_transitive(from, to, n, a2, b1, b2);
    }
    if label_linked(from, to, n, a2, b2) {
        lemma_label_transitive(from, to, n, a1, a2, b2);
        lemma_label_transitive(from, to, n, a1, b2, b1);
    }
}

proof fn lemma_columns_agree(
    from: Seq<Option<String>>,
    to: Seq<Option<String>>,
    out1: Seq<Option<u64>>,
    out2: Seq<Option<u64>>,
    i: int,
)
    requires
        from.len() == to.len(),
        is_group_column(from, to, out1),
        is_group_column(to, from, out2),
        0 <= i < from.len(),
    ensures
        out1[i] == out2[i],
    decreases i,
{
    assert(out1[i] is None <==> row_label(from, to, i) is None);
    assert(out2[i] is None <==> row_label(to, from, i) is None);
    if out1[i] is Some {
        lemma_row_labels_linked(from, to, i);
        let g1 = out1[i]->0;
        let g2 = out2[i]->0;
        if g1 < g2 {
            assert(out2[i]->0 >= 1 && out1[i]->0 >= 1);
            assert(row_used_before(out2, i, g1 as int));
            let j = choose|j: int| 0 <= j < i && #[trigger] out2[j] == Some(g1 as int as u64);
            lemma_columns_agree(from, to, out1, out2, j);
            assert(out1[j] == out1[i]);
            assert(out1[j] is None <==> row_label(from, to, j) is None);
            lemma_swap_same_relation(from, to, i, j);
            assert(out2[i] == out2[j]);
        } else if g2 < g1 {
            assert(out2[i]->0 >= 1 && out1[i]->0 >= 1);
            assert(row_used_before(out1, i, g2 as int));
            let j = choose|j: int| 0 <= j < i && #[trigger] out1[j] == Some(g2 as int as u64);
            lemma_columns_agree(from, to, out1, out2, j);
            assert(out2[j] == out2[i]);
            assert(out2[j] is None <==> row_label(to, from, j) is None);
            lemma_row_labels_linked(to, from, j);
            lemma_swap_same_relation(from, to, i, j);
            assert(out1[i] == out1[j]);
        }
    } else {
        if row_label(to, from, i) is Some {
            lemma_row_labels_linked(to, from, i);
        }
    }
}

/// The group column does not depend on which endpoint stands in which
/// column: an edge list and the same list with its two columns exchanged
/// have one group column.
pub proof fn lemma_components_symmetric(
    from: Seq<Option<String>>,
    to: Seq<Option<String>>,
    out1: Seq<Option<u64>>,
    out2: Seq<Option<u64>>,
)
    requires
        from.len() == to.len(),
        is_group_column(from, to, out1),
        is_group_column(to, from, out2),
    ensures
        out1 == out2,
{
    assert forall|i: int| 0 <= i < out1.len() implies out1[i] == out2[i] by {
        lemma_columns_agree(from, to, out1, out2, i);
    }
    assert(out1 =~= out2);
}

proof fn lemma_column_unique_at(
    from: Seq<Option<String>>,
    to: Seq<Option<String>>,
    out1: Seq<Option<u64>>,
    out2: Seq<Option<u64>>,
    i: int,
)
    requires
        is_group_column(from, to, out1),
        is_group_column(from, to, out2),
        0 <= i < from.len(),
    ensures
        out1[i] == out2[i],
    decreases i,
{
    assert(out1[i] is None <==> row_label(from, to, i) is None);
    assert(out2[i] is None <==> row_label(from, to, i) is None);
    if out1[i] is Some {
        let g1 = out1[i]->0;
        let g2 = out2[i]->0;
        assert(out2[i]->0 >= 1 && out1[i]->0 >= 1);
        if g1 < g2 {
            assert(row_used_before(out2, i, g1 as int));
            let j = choose|j: int| 0 <= j < i && #[trigger] out2[j] == Some(g1 as int as u64);
            lemma_column_unique_at(from, to, out1, out2, j);
            assert(out1[j] == out1[i]);
            assert(out1[j] is None <==> row_label(from, to, j) is None);
            assert(out2[i] == out2[j]);
        } else if g2 < g1 {
            assert(row_used_before(out1, i, g2 as int));
            let j = choose|j: int| 0 <= j < i && #[trigger] out1[j] == Some(g2 as int as u64);
            lemma_column_unique_at(from, to, out1, out2, j);
            assert(out2[j] == out2[i]);
            assert(out2[j] is None <==> row_label(from, to, j) is None);
            assert(out1[i] == out1[j]);
        }
    }
}

/// An edge list has one group column only.
pub proof fn lemma_group_column_unique(
    from: Seq<Option<String>>,
    to: Seq<Option<String>>,
    out1: Seq<Option<u64>>,
    out2: Seq<Option<u64>>,
)
    requires
        is_group_column(from, to, out1),
        is_group_column(from, to, out2),
    ensures
        out1 == out2,
{
    assert forall|i: int| 0 <= i < out1.len() implies out1[i] == out2[i] by {
        lemma_column_unique_at(from, to, out1, out2, i);
    }
    assert(out1 =~= out2);
}

} // verus!
