use vstd::prelude::*;

verus! {

/// Every association points at an item.
pub open spec fn targets_ok(assoc: Seq<Vec<usize>>) -> bool {
    forall|u: int, k: int|
        0 <= u < assoc.len() && 0 <= k < assoc[u]@.len() ==> (#[trigger] assoc[u]@[k])
            < assoc.len()
}

/// Whether `u` has an association that points at `v`.
pub open spec fn points_at(assoc: Seq<Vec<usize>>, u: int, v: int) -> bool {
    exists|k: int| 0 <= k < assoc[u]@.len() && #[trigger] assoc[u]@[k] == v
}

/// Whether `p` lists the items that a chain of associations from `s` to `v`
/// leaves, in order.
pub open spec fn chain_ok(assoc: Seq<Vec<usize>>, s: int, v: int, p: Seq<int>) -> bool
    decreases p.len(),
{
    if p.len() == 0 {
        s == v
    } else {
        let u = p.last();
        0 <= u < assoc.len() && points_at(assoc, u, v) && chain_ok(
            assoc,
            s,
            u,
            p.drop_last(),
        )
    }
}

/// Whether a chain of associations leads from `s` to `v`.
pub open spec fn reaches(assoc: Seq<Vec<usize>>, s: int, v: int) -> bool {
    exists|p: Seq<int>| #[trigger] chain_ok(assoc, s, v, p)
}

/// Whether some valid item reaches `v`.
pub open spec fn covered(valid: Seq<bool>, assoc: Seq<Vec<usize>>, v: int) -> bool {
    exists|s: int| 0 <= s < valid.len() && valid[s] && #[trigger] reaches(assoc, s, v)
}

/// Whether `s` is the first valid item that reaches `v`.
pub open spec fn leads(valid: Seq<bool>, assoc: Seq<Vec<usize>>, s: int, v: int) -> bool {
    &&& 0 <= s < valid.len()
    &&& valid[s]
    &&& reaches(assoc, s, v)
    &&& forall|t: int| 0 <= t < s && valid[t] ==> !#[trigger] reaches(assoc, t, v)
}

/// Whether the number `k` is the pattern of an item before `s` that leads
/// itself.
pub open spec fn numbered_before(
    valid: Seq<bool>,
    assoc: Seq<Vec<usize>>,
    out: Seq<usize>,
    s: int,
    k: int,
) -> bool {
    exists|t: int| 0 <= t < s && #[trigger] leads(valid, assoc, t, t) && out[t] == k
}

/// What the pattern numbers of a network of associations are: zero for an
/// item that no valid item reaches; else the number of the first valid item
/// that reaches it; and those first items are numbered from 1 in their order.
pub open spec fn is_pattern_numbering(valid: Seq<bool>, assoc: Seq<Vec<usize>>, out: Seq<usize>) -> bool {
    &&& out.len() == assoc.len()
    &&& forall|v: int| 0 <= v < out.len() ==> ((#[trigger] out[v]) != 0 <==> covered(valid, assoc, v))
    &&& forall|s: int, v: int|
        0 <= v < out.len() && #[trigger] leads(valid, assoc, s, v) ==> out[v] == out[s]
    &&& forall|s: int| #[trigger] leads(valid, assoc, s, s) ==> out[s] >= 1
    &&& forall|s: int, k: int|
        leads(valid, assoc, s, s) && 1 <= k < out[s] ==> #[trigger] numbered_before(
            valid,
            assoc,
            out,
            s,
            k,
        )
    &&& forall|s: int, t: int|
        0 <= s < t && #[trigger] leads(valid, assoc, s, s) && #[trigger] leads(valid, assoc, t, t)
            ==> out[s] < out[t]
}

/// How many flags are not set.
pub open spec fn count_false(flags: Seq<bool>) -> int
    decreases flags.len(),
{
    if flags.len() == 0 {
        0
    } else {
        count_false(flags.drop_last()) + (if flags.last() {
            0int
        } else {
            1int
        })
    }
}

proof fn lemma_count_false_nonneg(flags: Seq<bool>)
    ensures
        count_false(flags) >= 0,
    decreases flags.len(),
{
    if flags.len() > 0 {
        lemma_count_false_nonneg(flags.drop_last());
    }
}

proof fn lemma_count_false_set(flags: Seq<bool>, i: int)
    requires
        0 <= i < flags.len(),
        !flags[i],
    ensures
        count_false(flags.update(i, true)) == count_false(flags) - 1,
    decreases flags.len(),
{
    let f2 = flags.update(i, true);
    if i == flags.len() - 1 {
        assert(f2.drop_last() =~= flags.drop_last());
    } else {
        assert(f2.drop_last() =~= flags.drop_last().update(i, true));
        lemma_count_false_set(flags.drop_last(), i);
    }
}

/// A set of items that holds `s` and every item that one of its items
/// points at holds every item that `s` reaches.
proof fn lemma_closed_holds_reached(
    assoc: Seq<Vec<usize>>,
    vis: Seq<bool>,
    s: int,
    v: int,
    p: Seq<int>,
)
    requires
        targets_ok(assoc),
        vis.len() == assoc.len(),
        0 <= s < assoc.len(),
        vis[s],
        forall|u: int, k: int|
            0 <= u < assoc.len() && vis[u] && 0 <= k < assoc[u]@.len() ==> vis[(
            #[trigger] assoc[u]@[k]) as int],
        chain_ok(assoc, s, v, p),
    ensures
        0 <= v < assoc.len(),
        vis[v],
    decreases p.len(),
{
    if p.len() > 0 {
        let u = p.last();
        lemma_closed_holds_reached(assoc, vis, s, u, p.drop_last());
        let k = choose|k: int| 0 <= k < assoc[u]@.len() && #[trigger] assoc[u]@[k] == v;
        assert(assoc[u]@[k] < assoc.len());
        assert(vis[assoc[u]@[k] as int]);
    }
}

proof fn lemma_reach_step(assoc: Seq<Vec<usize>>, s: int, u: int, k: int)
    requires
        targets_ok(assoc),
        0 <= u < assoc.len(),
        0 <= k < assoc[u]@.len(),
        reaches(assoc, s, u),
    ensures
        reaches(assoc, s, assoc[u]@[k] as int),
{
    let p = choose|p: Seq<int>| #[trigger] chain_ok(assoc, s, u, p);
    let q = p.push(u);
    assert(q.drop_last() =~= p);
    assert(q.last() == u);
    assert(points_at(assoc, u, assoc[u]@[k] as int));
    assert(chain_ok(assoc, s, assoc[u]@[k] as int, q));
}

proof fn lemma_reach_self(assoc: Seq<Vec<usize>>, s: int)
    ensures
        reaches(assoc, s, s),
{
    assert(chain_ok(assoc, s, s, Seq::<int>::empty()));
}

/// Every item that a marked item points at is marked.
pub open spec fn closed(assoc: Seq<Vec<usize>>, vis: Seq<bool>) -> bool {
    forall|u: int, k: int|
        0 <= u < assoc.len() && vis[u] && 0 <= k < assoc[u]@.len() ==> vis[(
        #[trigger] assoc[u]@[k]) as int]
}

/// Marks every unmarked item that `start` reaches and gives it the pattern
/// `c`, by a depth-first walk with a stack of its own.
fn flood(
    assoc: &Vec<Vec<usize>>,
    visited: &mut Vec<bool>,
    pattern: &mut Vec<usize>,
    start: usize,
    c: usize,
)
    requires
        targets_ok(assoc@),
        old(visited)@.len() == assoc@.len(),
        old(pattern)@.len() == assoc@.len(),
        start < assoc@.len(),
        !old(visited)@[start as int],
        closed(assoc@, old(visited)@),
    ensures
        final(visited)@.len() == assoc@.len(),
        final(pattern)@.len() == assoc@.len(),
        closed(assoc@, final(visited)@),
        final(visited)@[start as int],
        forall|v: int|
            0 <= v < assoc@.len() && old(visited)@[v] ==> (#[trigger] final(visited)@[v])
                && final(pattern)@[v] == old(pattern)@[v],
        forall|v: int|
            0 <= v < assoc@.len() && !old(visited)@[v] && (#[trigger] final(visited)@[v])
                ==> reaches(assoc@, start as int, v) && final(pattern)@[v] == c,
        forall|v: int|
            0 <= v < assoc@.len() && !(#[trigger] final(visited)@[v]) ==> final(pattern)@[v]
                == old(pattern)@[v],
{
    let n = assoc.len();
    let mut stack: Vec<usize> = Vec::new();
    stack.push(start);
    proof {
        lemma_reach_self(assoc@, start as int);
        assert(stack@[0] == start);
        lemma_count_false_nonneg(visited@);
    }
    while stack.len() > 0
        invariant
            n == assoc@.len(),
            targets_ok(assoc@),
            start < n,
            visited@.len() == n,
            pattern@.len() == n,
            old(visited)@.len() == n,
            old(pattern)@.len() == n,
            forall|i: int|
                0 <= i < stack@.len() ==> (#[trigger] stack@[i]) < n && reaches(
                    assoc@,
                    start as int,
                    stack@[i] as int,
                ),
            forall|v: int|
                0 <= v < n && old(visited)@[v] ==> (#[trigger] visited@[v]) && pattern@[v] == old(
                    pattern,
                )@[v],
            forall|v: int|
                0 <= v < n && !old(visited)@[v] && (#[trigger] visited@[v]) ==> reaches(
                    assoc@,
                    start as int,
                    v,
                ) && pattern@[v] == c,
            forall|v: int|
                0 <= v < n && !(#[trigger] visited@[v]) ==> pattern@[v] == old(pattern)@[v],
            forall|u: int, k: int|
                0 <= u < n && visited@[u] && 0 <= k < assoc@[u]@.len() ==> visited@[(
                #[trigger] assoc@[u]@[k]) as int] || stack@.contains(assoc@[u]@[k]),
            visited@[start as int] || stack@.contains(start),
        decreases count_false(visited@), stack@.len(),
    {
        let ghost stack0 = stack@;
        let ghost vis0 = visited@;
        let ghost pat0 = pattern@;
        let item = stack.pop().unwrap();
        assert(stack0[stack0.len() - 1] == item);
        proof {
            assert forall|w: usize| stack0.contains(w) && w != item implies stack@.contains(w) by {
                let i = stack0.index_of(w);
                assert(stack@[i] == w);
            }
            lemma_count_false_nonneg(visited@);
        }
        if !visited[item] {
            proof {
                lemma_count_false_set(visited@, item as int);
            }
            visited.set(item, true);
            pattern.set(item, c);
            let row = &assoc[item];
            let mut k: usize = 0;
            while k < row.len()
                invariant
                    n == assoc@.len(),
                    targets_ok(assoc@),
                    start < n,
                    item < n,
                    visited@.len() == n,
                    pattern@.len() == n,
                    row@ == assoc@[item as int]@,
                    k <= row@.len(),
                    vis0.len() == n,
                    pat0.len() == n,
                    old(visited)@.len() == n,
                    old(pattern)@.len() == n,
                    !vis0[item as int],
                    forall|v: int|
                        0 <= v < n && old(visited)@[v] ==> (#[trigger] vis0[v]) && pat0[v] == old(
                            pattern,
                        )@[v],
                    forall|v: int|
                        0 <= v < n && !old(visited)@[v] && (#[trigger] vis0[v]) ==> reaches(
                            assoc@,
                            start as int,
                            v,
                        ) && pat0[v] == c,
                    forall|v: int|
                        0 <= v < n && !(#[trigger] vis0[v]) ==> pat0[v] == old(pattern)@[v],
                    visited@ == vis0.update(item as int, true),
                    pattern@ == pat0.update(item as int, c),
                    count_false(visited@) == count_false(vis0) - 1,
                    reaches(assoc@, start as int, item as int),
                    forall|i: int|
                        0 <= i < stack@.len() ==> (#[trigger] stack@[i]) < n && reaches(
                            assoc@,
                            start as int,
                            stack@[i] as int,
                        ),
                    forall|u: int, e: int|
                        0 <= u < n && u != item && visited@[u] && 0 <= e < assoc@[u]@.len()
                            ==> visited@[(#[trigger] assoc@[u]@[e]) as int] || stack@.contains(
                            assoc@[u]@[e],
                        ),
                    forall|e: int|
                        0 <= e < k ==> visited@[(#[trigger] assoc@[item as int]@[e]) as int]
                            || stack@.contains(assoc@[item as int]@[e]),
                    visited@[start as int] || stack@.contains(start),
                decreases row@.len() - k,
            {
                let a = row[k];
                assert(assoc@[item as int]@[k as int] == a);
                if !visited[a] {
                    let ghost stack1 = stack@;
                    stack.push(a);
                    proof {
                        lemma_reach_step(assoc@, start as int, item as int, k as int);
                        assert(stack@[stack1.len() as int] == a);
                        assert forall|w: usize| stack1.contains(w) implies stack@.contains(w) by {
                            let i = stack1.index_of(w);
                            assert(stack@[i] == w);
                        }
                    }
                }
                k = k + 1;
            }
            proof {
                assert forall|v: int| 0 <= v < n && old(visited)@[v] implies (
                #[trigger] visited@[v]) && pattern@[v] == old(pattern)@[v] by {
                    assert(vis0[v]);
                }
                assert forall|v: int|
                    0 <= v < n && !old(visited)@[v] && (#[trigger] visited@[v]) implies reaches(
                    assoc@,
                    start as int,
                    v,
                ) && pattern@[v] == c by {
                    if v != item {
                        assert(vis0[v]);
                    }
                }
                assert forall|v: int| 0 <= v < n && !(#[trigger] visited@[v]) implies pattern@[v]
                    == old(pattern)@[v] by {
                    assert(!vis0[v]);
                }
            }
        }
        proof {
            lemma_count_false_nonneg(visited@);
        }
    }
}

/// Groups the items of a network of associations into patterns: from each
/// valid item not yet in a pattern, in order, everything it reaches that is
/// not yet in a pattern joins a new one. Patterns are numbered from 1; an
/// item that no valid item reaches keeps 0.
pub fn assign_patterns(valid: &Vec<bool>, assoc: &Vec<Vec<usize>>) -> (out: Vec<usize>)
    requires
        valid@.len() == assoc@.len(),
        targets_ok(assoc@),
    ensures
        is_pattern_numbering(valid@, assoc@, out@),
{
    let n = assoc.len();
    let mut visited: Vec<bool> = Vec::new();
    let mut pattern: Vec<usize> = Vec::new();
    let mut j: usize = 0;
    while j < n
        invariant
            j <= n,
            visited@.len() == j,
            pattern@.len() == j,
            forall|i: int| 0 <= i < j ==> !(#[trigger] visited@[i]),
            forall|i: int| 0 <= i < j ==> (#[trigger] pattern@[i]) == 0,
        decreases n - j,
    {
        visited.push(false);
        pattern.push(0);
        j = j + 1;
    }
    let ghost mut lead: Seq<int> = Seq::new(n as nat, |v: int| 0int);
    let ghost mut starts: Seq<int> = Seq::empty();
    let mut current: usize = 0;
    let mut start: usize = 0;
    while start < n
        invariant
            start <= n,
            n == assoc@.len(),
            n == valid@.len(),
            targets_ok(assoc@),
            visited@.len() == n,
            pattern@.len() == n,
            lead.len() == n,
            current == starts.len(),
            starts.len() <= start,
            closed(assoc@, visited@),
            forall|v: int| 0 <= v < n ==> ((#[trigger] visited@[v]) <==> pattern@[v] != 0),
            forall|s: int| 0 <= s < start && valid@[s] ==> #[trigger] visited@[s],
            forall|v: int|
                0 <= v < n && (#[trigger] visited@[v]) ==> {
                    &&& 0 <= lead[v] < start
                    &&& valid@[lead[v]]
                    &&& reaches(assoc@, lead[v], v)
                    &&& 1 <= pattern@[v] <= starts.len()
                    &&& starts[pattern@[v] - 1] == lead[v]
                },
            forall|v: int, t: int|
                0 <= v < n && visited@[v] && 0 <= t < lead[v] && valid@[t] ==> !#[trigger] reaches(
                    assoc@,
                    t,
                    v,
                ),
            forall|i: int|
                0 <= i < starts.len() ==> 0 <= (#[trigger] starts[i]) < start && visited@[starts[i]]
                    && lead[starts[i]] == starts[i] && pattern@[starts[i]] == i + 1,
            forall|i: int, j: int|
                0 <= i < j < starts.len() ==> (#[trigger] starts[i]) < (#[trigger] starts[j]),
        decreases n - start,
    {
        if !visited[start] && valid[start] {
            let ghost vis0 = visited@;
            let ghost pat0 = pattern@;
            let ghost lead0 = lead;
            let ghost starts0 = starts;
            current = current + 1;
            flood(assoc, &mut visited, &mut pattern, start, current);
            proof {
                lead = Seq::new(
                    n as nat,
                    |v: int|
                        if vis0[v] {
                            lead0[v]
                        } else {
                            start as int
                        },
                );
                starts = starts0.push(start as int);
                lemma_reach_self(assoc@, start as int);
                assert forall|v: int| 0 <= v < n implies ((#[trigger] visited@[v]) <==> pattern@[v]
                    != 0) by {
                    if vis0[v] {
                        assert(pat0[v] != 0);
                    } else if !visited@[v] {
                        assert(pat0[v] == 0);
                    }
                }
                assert forall|s: int| 0 <= s < start + 1 && valid@[s] implies #[trigger] visited@[s] by {
                    if s < start {
                        assert(vis0[s]);
                    }
                }
                assert forall|v: int| 0 <= v < n && (#[trigger] visited@[v]) implies {
                    &&& 0 <= lead[v] < start + 1
                    &&& valid@[lead[v]]
                    &&& reaches(assoc@, lead[v], v)
                    &&& 1 <= pattern@[v] <= starts.len()
                    &&& starts[pattern@[v] - 1] == lead[v]
                } by {
                    if vis0[v] {
                        assert(pattern@[v] == pat0[v]);
                        assert(starts[pat0[v] - 1] == starts0[pat0[v] - 1]);
                    }
                }
                assert forall|v: int, t: int|
                    0 <= v < n && visited@[v] && 0 <= t < lead[v] && valid@[t]
                    implies !#[trigger] reaches(assoc@, t, v) by {
                    if !vis0[v] {
                        if reaches(assoc@, t, v) {
                            let p = choose|p: Seq<int>| #[trigger] chain_ok(assoc@, t, v, p);
                            assert(vis0[t]);
                            lemma_closed_holds_reached(assoc@, vis0, t, v, p);
                        }
                    }
                }
                assert forall|i: int| 0 <= i < starts.len() implies 0 <= (#[trigger] starts[i])
                    < start + 1 && visited@[starts[i]] && lead[starts[i]] == starts[i]
                    && pattern@[starts[i]] == i + 1 by {
                    if i < starts0.len() {
                        assert(starts[i] == starts0[i]);
                        assert(vis0[starts0[i]]);
                    }
                }
                assert forall|i: int, j: int| 0 <= i < j < starts.len() implies (
                #[trigger] starts[i]) < (#[trigger] starts[j]) by {
                    assert(starts[i] == starts0[i]);
                    if j < starts0.len() {
                        assert(starts[j] == starts0[j]);
                    }
                }
            }
        }
        start = start + 1;
    }
    proof {
        let out = pattern@;
        assert forall|v: int| 0 <= v < out.len() && covered(valid@, assoc@, v) implies visited@[v] by {
            let s = choose|s: int|
                0 <= s < valid@.len() && valid@[s] && #[trigger] reaches(assoc@, s, v);
            let p = choose|p: Seq<int>| #[trigger] chain_ok(assoc@, s, v, p);
            assert(visited@[s]);
            lemma_closed_holds_reached(assoc@, visited@, s, v, p);
        }
        assert forall|v: int| 0 <= v < out.len() implies ((#[trigger] out[v]) != 0 <==> covered(
            valid@,
            assoc@,
            v,
        )) by {
            if out[v] != 0 {
                assert(visited@[v]);
                assert(reaches(assoc@, lead[v], v));
            }
        }
        assert forall|s: int, v: int|
            0 <= v < out.len() && #[trigger] leads(valid@, assoc@, s, v) implies visited@[v]
            && lead[v] == s by {
            assert(covered(valid@, assoc@, v));
            assert(visited@[v]);
            assert(reaches(assoc@, lead[v], v));
        }
        assert forall|s: int, v: int|
            0 <= v < out.len() && #[trigger] leads(valid@, assoc@, s, v) implies out[v]
            == out[s] by {
            assert(visited@[v] && lead[v] == s);
            assert(visited@[s]);
            assert(starts[out[v] - 1] == s);
            assert(out[starts[out[v] - 1]] == out[v] - 1 + 1);
        }
        assert forall|s: int| #[trigger] leads(valid@, assoc@, s, s) implies out[s] >= 1
            && visited@[s] && lead[s] == s by {
            assert(visited@[s] && lead[s] == s);
        }
        assert forall|s: int, k: int|
            leads(valid@, assoc@, s, s) && 1 <= k < out[s] implies #[trigger] numbered_before(
            valid@,
            assoc@,
            out,
            s,
            k,
        ) by {
            assert(visited@[s] && lead[s] == s);
            let t = starts[k - 1];
            assert(starts[out[s] - 1] == s);
            assert(t < s);
            lemma_reach_self(assoc@, t);
            assert(visited@[t]);
            assert(leads(valid@, assoc@, t, t));
            assert(out[t] == k);
        }
        assert forall|s: int, t: int|
            0 <= s < t && #[trigger] leads(valid@, assoc@, s, s) && #[trigger] leads(
                valid@,
                assoc@,
                t,
                t,
            ) implies out[s] < out[t] by {
            assert(visited@[s] && lead[s] == s);
            assert(visited@[t] && lead[t] == t);
            assert(starts[out[s] - 1] == s);
            assert(starts[out[t] - 1] == t);
            if out[s] > out[t] {
                assert(starts[out[t] - 1] < starts[out[s] - 1]);
            }
        }
    }
    pattern
}

} // verus!
