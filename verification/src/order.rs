use crate::interner::Interner;
use crate::outside::{lex_lt, str_lt};
use vstd::prelude::*;

verus! {

/// Whether `order` lists each of the ids `0..n` once.
pub open spec fn is_permutation(order: Seq<usize>, n: nat) -> bool {
    &&& order.len() == n
    &&& forall|i: int| 0 <= i < n ==> (#[trigger] order[i]) < n
    &&& forall|i: int, j: int|
        0 <= i < n && 0 <= j < n && #[trigger] order[i] == #[trigger] order[j] ==> i == j
    &&& forall|v: int| 0 <= v < n ==> #[trigger] order.contains(v as usize)
}

/// Whether `order` lists the ids so that no label comes before one listed
/// earlier.
pub open spec fn is_sorted_by_label(names: Seq<Seq<char>>, order: Seq<usize>) -> bool {
    forall|i: int, j: int|
        0 <= i < j < order.len() ==> !lex_lt(
            names[(#[trigger] order[j]) as int],
            names[(#[trigger] order[i]) as int],
        )
}

/// No label comes before itself.
pub proof fn lemma_lex_irreflexive(a: Seq<char>)
    ensures
        !lex_lt(a, a),
    decreases a.len(),
{
    if a.len() > 0 {
        lemma_lex_irreflexive(a.drop_first());
    }
}

/// Coming before is transitive.
pub proof fn lemma_lex_transitive(a: Seq<char>, b: Seq<char>, c: Seq<char>)
    requires
        lex_lt(a, b),
        lex_lt(b, c),
    ensures
        lex_lt(a, c),
    decreases a.len(),
{
    if a.len() > 0 && a[0] == b[0] && b[0] == c[0] {
        lemma_lex_transitive(a.drop_first(), b.drop_first(), c.drop_first());
    }
}

/// The ids of an interner in the order of their labels.
pub fn label_order(it: &Interner) -> (order: Vec<usize>)
    requires
        it.wf(),
    ensures
        is_permutation(order@, it.names().len()),
        is_sorted_by_label(it.names(), order@),
{
    let n = it.len();
    let ghost names = it.names();
    let mut order: Vec<usize> = Vec::new();
    let mut j: usize = 0;
    while j < n
        invariant
            j <= n,
            order@.len() == j,
            forall|i: int| 0 <= i < j ==> (#[trigger] order@[i]) == i,
        decreases n - j,
    {
        order.push(j);
        j = j + 1;
    }
    let ghost mut pos: Seq<int> = Seq::new(n as nat, |v: int| v);
    let mut done: usize = 0;
    while done < n
        invariant
            done <= n,
            n == names.len(),
            names == it.names(),
            order@.len() == n,
            pos.len() == n,
            forall|i: int| 0 <= i < n ==> (#[trigger] order@[i]) < n && pos[order@[i] as int] == i,
            forall|v: int| 0 <= v < n ==> 0 <= (#[trigger] pos[v]) < n && order@[pos[v]] == v,
            forall|i: int, j: int|
                0 <= i < done && i < j < n ==> !lex_lt(
                    names[(#[trigger] order@[j]) as int],
                    names[(#[trigger] order@[i]) as int],
                ),
        decreases n - done,
    {
        let mut best: usize = done;
        let mut q: usize = done + 1;
        proof {
            lemma_lex_irreflexive(names[order@[done as int] as int]);
        }
        while q < n
            invariant
                done <= best < q <= n,
                n == names.len(),
                names == it.names(),
                order@.len() == n,
                forall|i: int| 0 <= i < n ==> (#[trigger] order@[i]) < n,
                forall|i: int|
                    done <= i < q ==> !lex_lt(
                        names[(#[trigger] order@[i]) as int],
                        names[order@[best as int] as int],
                    ),
            decreases n - q,
        {
            let a = it.label(order[q]);
            let b = it.label(order[best]);
            if str_lt(a.as_str(), b.as_str()) {
                proof {
                    let old_best = names[order@[best as int] as int];
                    let cand = names[order@[q as int] as int];
                    lemma_lex_irreflexive(cand);
                    assert forall|i: int| done <= i < q + 1 implies !lex_lt(
                        names[(#[trigger] order@[i]) as int],
                        cand,
                    ) by {
                        if i < q && lex_lt(names[order@[i] as int], cand) {
                            lemma_lex_transitive(names[order@[i] as int], cand, old_best);
                        }
                    }
                }
                best = q;
            }
            q = q + 1;
        }
        let x = order[done];
        let y = order[best];
        let ghost before = order@;
        order.set(done, y);
        order.set(best, x);
        proof {
            pos = pos.update(y as int, done as int).update(x as int, best as int);
            assert forall|i: int, j: int| 0 <= i < done + 1 && i < j < n implies !lex_lt(
                names[(#[trigger] order@[j]) as int],
                names[(#[trigger] order@[i]) as int],
            ) by {
                let jj = if j == best {
                    done as int
                } else if j == done {
                    best as int
                } else {
                    j
                };
                assert(order@[j] == before[jj]);
                if i < done {
                    assert(order@[i] == before[i]);
                    assert(!lex_lt(names[before[jj] as int], names[before[i] as int]));
                } else {
                    assert(order@[i] == before[best as int]);
                }
            }
        }
        done = done + 1;
    }
    proof {
        assert forall|v: int| 0 <= v < n implies #[trigger] order@.contains(v as usize) by {
            assert(order@[pos[v]] == v);
        }
        assert forall|i: int, j: int|
            0 <= i < n && 0 <= j < n && #[trigger] order@[i] == #[trigger] order@[j] implies i
            == j by {
            assert(pos[order@[i] as int] == i);
            assert(pos[order@[j] as int] == j);
        }
    }
    order
}

} // verus!
