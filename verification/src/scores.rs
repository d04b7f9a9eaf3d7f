use vstd::prelude::*;

verus! {

/// For each key whether it reaches the threshold. Keys are unsigned integers
/// that stand for scores and are ordered as the scores are.
pub open spec fn kept(keys: Seq<u64>, threshold: u64) -> Seq<bool> {
    Seq::new(keys.len(), |i: int| keys[i] >= threshold)
}

/// How many flags are set.
pub open spec fn count_true(flags: Seq<bool>) -> int
    decreases flags.len(),
{
    if flags.len() == 0 {
        0
    } else {
        count_true(flags.drop_last()) + (if flags.last() {
            1int
        } else {
            0int
        })
    }
}

/// Marks the keys that reach the threshold.
pub fn select_at_least(keys: &Vec<u64>, threshold: u64) -> (out: Vec<bool>)
    ensures
        out@ == kept(keys@, threshold),
{
    let mut out: Vec<bool> = Vec::new();
    let mut i: usize = 0;
    while i < keys.len()
        invariant
            i <= keys@.len(),
            out@.len() == i,
            forall|j: int| 0 <= j < i ==> (#[trigger] out@[j]) == (keys@[j] >= threshold),
        decreases keys@.len() - i,
    {
        out.push(keys[i] >= threshold);
        i = i + 1;
    }
    assert(out@ =~= kept(keys@, threshold));
    out
}

proof fn lemma_count_true_monotone(a: Seq<bool>, b: Seq<bool>)
    requires
        a.len() == b.len(),
        forall|i: int| 0 <= i < a.len() && (#[trigger] a[i]) ==> b[i],
    ensures
        count_true(a) <= count_true(b),
    decreases a.len(),
{
    if a.len() > 0 {
        assert forall|i: int| 0 <= i < a.drop_last().len() && (#[trigger] a.drop_last()[i])
            implies b.drop_last()[i] by {
            assert(a[i] ==> b[i]);
        }
        lemma_count_true_monotone(a.drop_last(), b.drop_last());
        assert(a[a.len() - 1] ==> b[a.len() - 1]);
    }
}

/// Raising the threshold never keeps more: what the higher threshold keeps
/// the lower one keeps too, so it keeps at least as many.
pub proof fn lemma_higher_threshold_keeps_fewer(keys: Seq<u64>, low: u64, high: u64)
    requires
        low <= high,
    ensures
        forall|i: int|
            0 <= i < keys.len() && (#[trigger] kept(keys, high)[i]) ==> kept(keys, low)[i],
        count_true(kept(keys, high)) <= count_true(kept(keys, low)),
{
    lemma_count_true_monotone(kept(keys, high), kept(keys, low));
}

/// Whether the entry `a` stands before the entry `b` when the entries are
/// listed from the highest key down, equal keys in their given order.
pub open spec fn ranks_before(keys: Seq<u64>, a: int, b: int) -> bool {
    keys[a] > keys[b] || (keys[a] == keys[b] && a < b)
}

/// Whether the list leaves the entry `x` out.
pub open spec fn left_out(out: Seq<usize>, x: int) -> bool {
    !out.contains(x as usize)
}

/// What the list of the `limit` best entries is: as many entries as the
/// limit allows, each before the next, and each before every entry left out.
pub open spec fn is_top(keys: Seq<u64>, limit: int, out: Seq<usize>) -> bool {
    &&& out.len() == (if limit < keys.len() {
        limit
    } else {
        keys.len() as int
    })
    &&& forall|q: int| 0 <= q < out.len() ==> (#[trigger] out[q]) < keys.len()
    &&& forall|p: int, q: int|
        0 <= p < q < out.len() ==> ranks_before(
            keys,
            (#[trigger] out[p]) as int,
            (#[trigger] out[q]) as int,
        )
    &&& forall|q: int, x: int|
        0 <= q < out.len() && 0 <= x < keys.len() && #[trigger] left_out(out, x) ==> ranks_before(
            keys,
            (#[trigger] out[q]) as int,
            x,
        )
}

proof fn lemma_some_flag_clear(flags: Seq<bool>) -> (x: int)
    requires
        count_true(flags) < flags.len(),
    ensures
        0 <= x < flags.len(),
        !flags[x],
    decreases flags.len(),
{
    if flags.last() {
        lemma_some_flag_clear(flags.drop_last())
    } else {
        flags.len() - 1
    }
}

proof fn lemma_count_true_set(flags: Seq<bool>, i: int)
    requires
        0 <= i < flags.len(),
        !flags[i],
    ensures
        count_true(flags.update(i, true)) == count_true(flags) + 1,
    decreases flags.len(),
{
    let f2 = flags.update(i, true);
    if i == flags.len() - 1 {
        assert(f2.drop_last() =~= flags.drop_last());
    } else {
        assert(f2.drop_last() =~= flags.drop_last().update(i, true));
        lemma_count_true_set(flags.drop_last(), i);
    }
}

proof fn lemma_count_true_clear(flags: Seq<bool>)
    requires
        forall|i: int| 0 <= i < flags.len() ==> !(#[trigger] flags[i]),
    ensures
        count_true(flags) == 0,
    decreases flags.len(),
{
    if flags.len() > 0 {
        assert(!flags[flags.len() - 1]);
        assert forall|i: int| 0 <= i < flags.drop_last().len() implies !(
        #[trigger] flags.drop_last()[i]) by {
            assert(!flags[i]);
        }
        lemma_count_true_clear(flags.drop_last());
    }
}

/// The `limit` entries of highest key, highest first, equal keys in their
/// given order.
pub fn top_by_key(keys: &Vec<u64>, limit: usize) -> (out: Vec<usize>)
    ensures
        is_top(keys@, limit as int, out@),
{
    let n = keys.len();
    let want = if limit < n {
        limit
    } else {
        n
    };
    let mut taken: Vec<bool> = Vec::new();
    let mut j: usize = 0;
    while j < n
        invariant
            j <= n,
            taken@.len() == j,
            forall|i: int| 0 <= i < j ==> !(#[trigger] taken@[i]),
        decreases n - j,
    {
        taken.push(false);
        j = j + 1;
    }
    proof {
        lemma_count_true_clear(taken@);
    }
    let mut out: Vec<usize> = Vec::new();
    while out.len() < want
        invariant
            n == keys@.len(),
            want <= n,
            taken@.len() == n,
            out@.len() <= want,
            count_true(taken@) == out@.len(),
            forall|q: int| 0 <= q < out@.len() ==> (#[trigger] out@[q]) < n && taken@[out@[q] as int],
            forall|x: int| 0 <= x < n && (#[trigger] taken@[x]) ==> out@.contains(x as usize),
            forall|p: int, q: int|
                0 <= p < q < out@.len() ==> ranks_before(
                    keys@,
                    (#[trigger] out@[p]) as int,
                    (#[trigger] out@[q]) as int,
                ),
            forall|q: int, x: int|
                0 <= q < out@.len() && 0 <= x < n && !(#[trigger] taken@[x]) ==> ranks_before(
                    keys@,
                    (#[trigger] out@[q]) as int,
                    x,
                ),
        decreases want - out@.len(),
    {
        let ghost free = lemma_some_flag_clear(taken@);
        let mut best: usize = 0;
        let mut found = false;
        let mut x: usize = 0;
        while x < n
            invariant
                x <= n,
                n == keys@.len(),
                taken@.len() == n,
                found ==> best < x && !taken@[best as int],
                !found ==> forall|y: int| 0 <= y < x ==> (#[trigger] taken@[y]),
                found ==> forall|y: int|
                    0 <= y < x && !(#[trigger] taken@[y]) && y != best ==> ranks_before(
                        keys@,
                        best as int,
                        y,
                    ),
            decreases n - x,
        {
            if !taken[x] {
                if !found || keys[x] > keys[best] {
                    best = x;
                    found = true;
                }
            }
            x = x + 1;
        }
        assert(found) by {
            assert(!taken@[free]);
        }
        let ghost out0 = out@;
        let ghost taken0 = taken@;
        proof {
            lemma_count_true_set(taken@, best as int);
        }
        taken.set(best, true);
        out.push(best);
        proof {
            assert(out@[out0.len() as int] == best);
            assert forall|y: int| 0 <= y < n && (#[trigger] taken@[y]) implies out@.contains(
                y as usize,
            ) by {
                if y != best {
                    assert(taken0[y]);
                    assert(out0.contains(y as usize));
                    let q = out0.index_of(y as usize);
                    assert(out@[q] == y);
                }
            }
            assert forall|q: int| 0 <= q < out@.len() implies (#[trigger] out@[q]) < n
                && taken@[out@[q] as int] by {
                if q < out0.len() {
                    assert(out@[q] == out0[q]);
                }
            }
            assert forall|p: int, q: int| 0 <= p < q < out@.len() implies ranks_before(
                keys@,
                (#[trigger] out@[p]) as int,
                (#[trigger] out@[q]) as int,
            ) by {
                assert(out@[p] == out0[p]);
                if q < out0.len() {
                    assert(out@[q] == out0[q]);
                } else {
                    assert(!taken0[best as int]);
                }
            }
            assert forall|q: int, y: int|
                0 <= q < out@.len() && 0 <= y < n && !(#[trigger] taken@[y]) implies ranks_before(
                keys@,
                (#[trigger] out@[q]) as int,
                y,
            ) by {
                assert(!taken0[y]);
                if q < out0.len() {
                    assert(out@[q] == out0[q]);
                }
            }
        }
    }
    proof {
        assert forall|q: int, x: int|
            0 <= q < out@.len() && 0 <= x < keys@.len() && #[trigger] left_out(out@, x)
            implies ranks_before(keys@, (#[trigger] out@[q]) as int, x) by {
            if taken@[x] {
                assert(out@.contains(x as usize));
            }
        }
    }
    out
}

} // verus!
