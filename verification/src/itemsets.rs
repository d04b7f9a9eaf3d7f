use crate::components::label_at;
use crate::error::GraphError;
use crate::interner::{add_name, Interner};
use std::collections::HashMap;
use std::collections::HashSet;
use vstd::prelude::*;

verus! {

broadcast use vstd::std_specs::hash::group_hash_axioms;

/// The rows among the first `k` that have a transaction, an item and a
/// weight, in order: the transaction, the item's label, the row's number.
pub open spec fn kept_items(
    tids: Seq<Option<i64>>,
    items: Seq<Option<String>>,
    weighted: Seq<bool>,
    k: int,
) -> Seq<(i64, Seq<char>, usize)>
    decreases k,
{
    if k <= 0 {
        Seq::empty()
    } else {
        let pre = kept_items(tids, items, weighted, k - 1);
        match (tids[k - 1], label_at(items, k - 1)) {
            (Some(t), Some(l)) => if weighted[k - 1] {
                pre.push((t, l, (k - 1) as usize))
            } else {
                pre
            },
            _ => pre,
        }
    }
}

/// The item labels of rows, in the order in which they are first seen.
pub open spec fn item_names(rows: Seq<(i64, Seq<char>, usize)>) -> Seq<Seq<char>>
    decreases rows.len(),
{
    if rows.len() == 0 {
        Seq::empty()
    } else {
        add_name(item_names(rows.drop_last()), rows.last().1)
    }
}

/// Whether `out` is `rows` with each item's label replaced by its id.
pub open spec fn items_match(
    names: Seq<Seq<char>>,
    rows: Seq<(i64, Seq<char>, usize)>,
    out: Seq<(i64, usize, usize)>,
) -> bool {
    &&& out.len() == rows.len()
    &&& forall|i: int|
        0 <= i < out.len() ==> {
            &&& (#[trigger] out[i]).0 == rows[i].0
            &&& out[i].1 < names.len()
            &&& names[out[i].1 as int] == rows[i].1
            &&& out[i].2 == rows[i].2
        }
}

/// Interns the items of the rows that have a transaction, an item and a
/// weight, and gives each such row as transaction, item id and row number.
/// `weighted` says for each row whether it has a weight.
pub fn process_transaction_data(
    tids: &Vec<Option<i64>>,
    items: &Vec<Option<String>>,
    weighted: &Vec<bool>,
) -> (res: Result<(Interner, Vec<(i64, usize, usize)>), GraphError>)
    ensures
        (tids@.len() != items@.len() || tids@.len() != weighted@.len()) ==> res is Err
            && res->Err_0 == GraphError::MalformedInput,
        (tids@.len() == items@.len() && tids@.len() == weighted@.len()) ==> res is Ok && ({
            let rows = kept_items(tids@, items@, weighted@, tids@.len() as int);
            &&& res->Ok_0.0.wf()
            &&& res->Ok_0.0.names() == item_names(rows)
            &&& items_match(res->Ok_0.0.names(), rows, res->Ok_0.1@)
        }),
{
    let n = tids.len();
    if items.len() != n || weighted.len() != n {
        return Err(GraphError::MalformedInput);
    }
    let mut it = Interner::new();
    let mut out: Vec<(i64, usize, usize)> = Vec::new();
    let mut k: usize = 0;
    while k < n
        invariant
            k <= n,
            n == tids@.len(),
            n == items@.len(),
            n == weighted@.len(),
            it.wf(),
            it.names() == item_names(kept_items(tids@, items@, weighted@, k as int)),
            items_match(it.names(), kept_items(tids@, items@, weighted@, k as int), out@),
        decreases n - k,
    {
        let ghost rows0 = kept_items(tids@, items@, weighted@, k as int);
        let ghost out0 = out@;
        match (tids[k], &items[k]) {
            (Some(t), Some(l)) => {
                if weighted[k] {
                    let id = it.intern(l.as_str());
                    out.push((t, id, k));
                    proof {
                        let rows1 = kept_items(tids@, items@, weighted@, k as int + 1);
                        assert(rows1 == rows0.push((t, l@, k)));
                        assert(rows1.drop_last() =~= rows0);
                        assert forall|i: int| 0 <= i < out@.len() implies {
                            &&& (#[trigger] out@[i]).0 == rows1[i].0
                            &&& out@[i].1 < it.names().len()
                            &&& it.names()[out@[i].1 as int] == rows1[i].1
                            &&& out@[i].2 == rows1[i].2
                        } by {
                            if i < out0.len() {
                                assert(out@[i] == out0[i]);
                            }
                        }
                    }
                }
            },
            _ => {},
        }
        k = k + 1;
    }
    Ok((it, out))
}

/// The transactions that occur in the rows.
pub open spec fn transactions_of(rows: Seq<(i64, usize, usize)>) -> Set<i64> {
    Set::new(|t: i64| exists|r: int| 0 <= r < rows.len() && (#[trigger] rows[r]).0 == t)
}

/// The transactions in which `item` occurs.
pub open spec fn transactions_with(rows: Seq<(i64, usize, usize)>, item: usize) -> Set<i64> {
    Set::new(
        |t: i64| exists|r: int| 0 <= r < rows.len() && (#[trigger] rows[r]).0 == t && rows[r].1 == item,
    )
}

/// For each item the number of distinct transactions in which it occurs,
/// and the number of distinct transactions.
pub fn count_support(rows: &Vec<(i64, usize, usize)>, num_items: usize) -> (res: (
    Vec<usize>,
    usize,
))
    requires
        forall|r: int| 0 <= r < rows@.len() ==> (#[trigger] rows@[r]).1 < num_items,
    ensures
        res.0@.len() == num_items,
        res.1 == transactions_of(rows@).len(),
        forall|item: int|
            0 <= item < num_items ==> (#[trigger] res.0@[item]) == transactions_with(
                rows@,
                item as usize,
            ).len(),
{
    let mut all: HashSet<i64> = HashSet::new();
    let mut per: Vec<HashSet<i64>> = Vec::new();
    let mut j: usize = 0;
    while j < num_items
        invariant
            j <= num_items,
            per@.len() == j,
            forall|i: int| 0 <= i < j ==> (#[trigger] per@[i])@ == Set::<i64>::empty(),
        decreases num_items - j,
    {
        per.push(HashSet::new());
        j = j + 1;
    }
    let mut k: usize = 0;
    while k < rows.len()
        invariant
            k <= rows@.len(),
            per@.len() == num_items,
            forall|r: int| 0 <= r < rows@.len() ==> (#[trigger] rows@[r]).1 < num_items,
            all@ == transactions_of(rows@.take(k as int)),
            forall|i: int|
                0 <= i < num_items ==> (#[trigger] per@[i])@ == transactions_with(
                    rows@.take(k as int),
                    i as usize,
                ),
        decreases rows@.len() - k,
    {
        let t = rows[k].0;
        let item = rows[k].1;
        let ghost per0 = per@;
        all.insert(t);
        per[item].insert(t);
        proof {
            let pre = rows@.take(k as int);
            let cur = rows@.take(k as int + 1);
            assert(cur[k as int] == rows@[k as int]);
            assert forall|x: i64| transactions_of(cur).contains(x) <==> transactions_of(
                pre,
            ).insert(t).contains(x) by {
                if transactions_of(pre).contains(x) {
                    let r = choose|r: int| 0 <= r < pre.len() && (#[trigger] pre[r]).0 == x;
                    assert(cur[r].0 == x);
                }
                if transactions_of(cur).contains(x) {
                    let r = choose|r: int| 0 <= r < cur.len() && (#[trigger] cur[r]).0 == x;
                    if r < k {
                        assert(pre[r].0 == x);
                    }
                }
            }
            assert(all@ =~= transactions_of(cur));
            assert forall|i: int| 0 <= i < num_items implies (#[trigger] per@[i])@
                == transactions_with(cur, i as usize) by {
                let old_set = transactions_with(pre, i as usize);
                let new_set = transactions_with(cur, i as usize);
                assert forall|x: i64| new_set.contains(x) <==> (if i == item {
                    old_set.insert(t)
                } else {
                    old_set
                }).contains(x) by {
                    if old_set.contains(x) {
                        let r = choose|r: int|
                            0 <= r < pre.len() && (#[trigger] pre[r]).0 == x && pre[r].1 == i;
                        assert(cur[r].0 == x && cur[r].1 == i);
                    }
                    if new_set.contains(x) {
                        let r = choose|r: int|
                            0 <= r < cur.len() && (#[trigger] cur[r]).0 == x && cur[r].1 == i;
                        if r < k {
                            assert(pre[r].0 == x && pre[r].1 == i);
                        }
                    }
                }
                if i == item {
                    assert(per@[i]@ =~= new_set);
                } else {
                    assert(per@[i] == per0[i]);
                    assert(per@[i]@ =~= new_set);
                }
            }
        }
        k = k + 1;
    }
    proof {
        assert(rows@.take(k as int) =~= rows@);
    }
    let total = all.len();
    let mut counts: Vec<usize> = Vec::new();
    let mut i: usize = 0;
    while i < num_items
        invariant
            i <= num_items,
            per@.len() == num_items,
            counts@.len() == i,
            forall|x: int|
                0 <= x < num_items ==> (#[trigger] per@[x])@ == transactions_with(
                    rows@,
                    x as usize,
                ),
            forall|x: int|
                0 <= x < i ==> (#[trigger] counts@[x]) == transactions_with(
                    rows@,
                    x as usize,
                ).len(),
        decreases num_items - i,
    {
        counts.push(per[i].len());
        i = i + 1;
    }
    (counts, total)
}

/// Whether the row `r` stands in one of the groups.
pub open spec fn in_some_group(groups: Seq<Vec<usize>>, r: int) -> bool {
    exists|g: int, i: int|
        0 <= g < groups.len() && 0 <= i < groups[g]@.len() && #[trigger] groups[g]@[i] == r
}

/// What the grouping of rows by transaction is: each group holds the rows of
/// one transaction, in order; each row stands in a group; and the groups
/// stand in the order of their first rows.
pub open spec fn is_grouping(rows: Seq<(i64, usize, usize)>, groups: Seq<Vec<usize>>) -> bool {
    &&& forall|g: int| 0 <= g < groups.len() ==> (#[trigger] groups[g])@.len() > 0
    &&& forall|g: int, i: int|
        0 <= g < groups.len() && 0 <= i < groups[g]@.len() ==> (#[trigger] groups[g]@[i])
            < rows.len() && rows[groups[g]@[i] as int].0 == rows[groups[g]@[0] as int].0
    &&& forall|g: int, i: int, j: int|
        0 <= g < groups.len() && 0 <= i < j < groups[g]@.len() ==> (#[trigger] groups[g]@[i]) < (
        #[trigger] groups[g]@[j])
    &&& forall|g: int, h: int|
        0 <= g < h < groups.len() ==> (#[trigger] groups[g])@[0] < (#[trigger] groups[h])@[0]
            && rows[groups[g]@[0] as int].0 != rows[groups[h]@[0] as int].0
    &&& forall|r: int| 0 <= r < rows.len() ==> #[trigger] in_some_group(groups, r)
}

/// Groups the rows by their transaction: for each transaction, in the order
/// in which the transactions first occur, the numbers of its rows.
pub fn group_transactions(rows: &Vec<(i64, usize, usize)>) -> (groups: Vec<Vec<usize>>)
    ensures
        is_grouping(rows@, groups@),
{
    let mut index: HashMap<i64, usize> = HashMap::new();
    let mut groups: Vec<Vec<usize>> = Vec::new();
    let mut r: usize = 0;
    while r < rows.len()
        invariant
            r <= rows@.len(),
            is_grouping(rows@.take(r as int), groups@),
            forall|t: i64| #[trigger]
                index@.contains_key(t) ==> index@[t] < groups@.len()
                    && rows@[groups@[index@[t] as int]@[0] as int].0 == t,
            forall|g: int|
                0 <= g < groups@.len() ==> index@.contains_key(
                    rows@[(#[trigger] groups@[g])@[0] as int].0,
                ) && index@[rows@[groups@[g]@[0] as int].0] == g,
        decreases rows@.len() - r,
    {
        let t = rows[r].0;
        let ghost groups0 = groups@;
        let ghost pre = rows@.take(r as int);
        let ghost cur = rows@.take(r as int + 1);
        let found = match index.get(&t) {
            Some(g) => Some(*g),
            None => None,
        };
        match found {
            Some(g) => {
                groups[g].push(r);
                proof {
                    let list0 = groups0[g as int]@;
                    assert(groups@[g as int]@ == list0.push(r));
                    assert(groups@[g as int]@[list0.len() as int] == r);
                    assert(groups@[g as int]@[0] == list0[0]);
                    assert forall|x: int| 0 <= x < groups@.len() implies (#[trigger] groups@[x])@[0]
                        == groups0[x]@[0] && groups@[x]@.len() >= groups0[x]@.len() by {
                        if x != g {
                            assert(groups@[x] == groups0[x]);
                        }
                    }
                    assert forall|x: int, i: int|
                        0 <= x < groups@.len() && 0 <= i < groups@[x]@.len() implies (
                    #[trigger] groups@[x]@[i]) < cur.len() && cur[groups@[x]@[i] as int].0
                        == cur[groups@[x]@[0] as int].0 by {
                        if x == g && i == list0.len() {
                            assert(list0[0] < pre.len());
                        } else {
                            assert(groups@[x]@[i] == groups0[x]@[i]);
                            assert(groups0[x]@[i] < pre.len());
                            assert(groups0[x]@[0] < pre.len());
                            assert(pre[groups0[x]@[i] as int].0 == pre[groups0[x]@[0] as int].0);
                        }
                    }
                    assert forall|x: int, i: int, j: int|
                        0 <= x < groups@.len() && 0 <= i < j < groups@[x]@.len() implies (
                    #[trigger] groups@[x]@[i]) < (#[trigger] groups@[x]@[j]) by {
                        if x == g {
                            assert(groups@[x]@[i] == list0[i]);
                            assert(list0[i] < pre.len());
                            if j < list0.len() {
                                assert(groups@[x]@[j] == list0[j]);
                            }
                        } else {
                            assert(groups@[x] == groups0[x]);
                        }
                    }
                    assert forall|x: int, h: int| 0 <= x < h < groups@.len() implies (
                    #[trigger] groups@[x])@[0] < (#[trigger] groups@[h])@[0]
                        && cur[groups@[x]@[0] as int].0 != cur[groups@[h]@[0] as int].0 by {
                        assert(groups0[x]@[0] < groups0[h]@[0]);
                        assert(groups0[x]@[0] < pre.len() && groups0[h]@[0] < pre.len());
                        assert(pre[groups0[x]@[0] as int].0 != pre[groups0[h]@[0] as int].0);
                    }
                    assert forall|q: int| 0 <= q < cur.len() implies #[trigger] in_some_group(
                        groups@,
                        q,
                    ) by {
                        if q < r {
                            assert(in_some_group(groups0, q));
                            let (x, i) = choose|x: int, i: int|
                                0 <= x < groups0.len() && 0 <= i < groups0[x]@.len()
                                    && #[trigger] groups0[x]@[i] == q;
                            assert(groups@[x]@[i] == q);
                        } else {
                            assert(groups@[g as int]@[list0.len() as int] == q);
                        }
                    }
                }
            },
            None => {
                let at = groups.len();
                index.insert(t, at);
                let mut fresh: Vec<usize> = Vec::new();
                fresh.push(r);
                groups.push(fresh);
                proof {
                    assert(groups@[at as int]@[0] == r);
                    assert forall|x: int| 0 <= x < groups0.len() implies #[trigger] groups@[x]
                        == groups0[x] by {}
                    assert forall|x: int, i: int|
                        0 <= x < groups@.len() && 0 <= i < groups@[x]@.len() implies (
                    #[trigger] groups@[x]@[i]) < cur.len() && cur[groups@[x]@[i] as int].0
                        == cur[groups@[x]@[0] as int].0 by {
                        if x < at {
                            assert(groups@[x] == groups0[x]);
                            assert(groups0[x]@[i] < pre.len());
                            assert(groups0[x]@[0] < pre.len());
                            assert(pre[groups0[x]@[i] as int].0 == pre[groups0[x]@[0] as int].0);
                        }
                    }
                    assert forall|x: int, i: int, j: int|
                        0 <= x < groups@.len() && 0 <= i < j < groups@[x]@.len() implies (
                    #[trigger] groups@[x]@[i]) < (#[trigger] groups@[x]@[j]) by {
                        if x < at {
                            assert(groups@[x] == groups0[x]);
                        }
                    }
                    assert forall|x: int, h: int| 0 <= x < h < groups@.len() implies (
                    #[trigger] groups@[x])@[0] < (#[trigger] groups@[h])@[0]
                        && cur[groups@[x]@[0] as int].0 != cur[groups@[h]@[0] as int].0 by {
                        assert(groups@[x] == groups0[x]);
                        assert(groups0[x]@[0] < pre.len());
                        if h < at {
                            assert(groups@[h] == groups0[h]);
                            assert(groups0[x]@[0] < groups0[h]@[0]);
                            assert(groups0[h]@[0] < pre.len());
                            assert(pre[groups0[x]@[0] as int].0 != pre[groups0[h]@[0] as int].0);
                        } else {
                            assert(index@.contains_key(rows@[groups0[x]@[0] as int].0)) by {
                                assert(groups0[x]@.len() > 0);
                            }
                        }
                    }
                    assert forall|q: int| 0 <= q < cur.len() implies #[trigger] in_some_group(
                        groups@,
                        q,
                    ) by {
                        if q < r {
                            assert(in_some_group(groups0, q));
                            let (x, i) = choose|x: int, i: int|
                                0 <= x < groups0.len() && 0 <= i < groups0[x]@.len()
                                    && #[trigger] groups0[x]@[i] == q;
                            assert(groups@[x] == groups0[x]);
                            assert(groups@[x]@[i] == q);
                        } else {
                            assert(groups@[at as int]@[0] == q);
                        }
                    }
                    assert forall|x: int| 0 <= x < groups@.len() implies index@.contains_key(
                        rows@[(#[trigger] groups@[x])@[0] as int].0,
                    ) && index@[rows@[groups@[x]@[0] as int].0] == x by {
                        if x < at {
                            assert(groups@[x] == groups0[x]);
                        }
                    }
                }
            },
        }
        r = r + 1;
    }
    proof {
        assert(rows@.take(r as int) =~= rows@);
    }
    groups
}

/// The groups that hold at most `max_itemset_size` rows, by their numbers in
/// order. A limit of zero is refused.
pub fn small_transactions(groups: &Vec<Vec<usize>>, max_itemset_size: usize) -> (res: Result<
    Vec<usize>,
    GraphError,
>)
    ensures
        max_itemset_size == 0 ==> res is Err && res->Err_0 == GraphError::InvalidParameter,
        max_itemset_size > 0 ==> res is Ok && ({
            let out = res->Ok_0@;
            &&& forall|i: int|
                0 <= i < out.len() ==> (#[trigger] out[i]) < groups@.len()
                    && groups@[out[i] as int]@.len() <= max_itemset_size
            &&& forall|i: int, j: int|
                0 <= i < j < out.len() ==> (#[trigger] out[i]) < (#[trigger] out[j])
            &&& forall|g: int|
                0 <= g < groups@.len() && (#[trigger] groups@[g])@.len() <= max_itemset_size
                    ==> out.contains(g as usize)
        }),
{
    if max_itemset_size == 0 {
        return Err(GraphError::InvalidParameter);
    }
    let mut out: Vec<usize> = Vec::new();
    let mut g: usize = 0;
    while g < groups.len()
        invariant
            g <= groups@.len(),
            forall|i: int|
                0 <= i < out@.len() ==> (#[trigger] out@[i]) < g && groups@[out@[i] as int]@.len()
                    <= max_itemset_size,
            forall|i: int, j: int|
                0 <= i < j < out@.len() ==> (#[trigger] out@[i]) < (#[trigger] out@[j]),
            forall|x: int|
                0 <= x < g && (#[trigger] groups@[x])@.len() <= max_itemset_size
                    ==> out@.contains(x as usize),
        decreases groups@.len() - g,
    {
        let ghost out0 = out@;
        if groups[g].len() <= max_itemset_size {
            out.push(g);
            proof {
                assert(out@[out0.len() as int] == g);
            }
        }
        proof {
            assert forall|x: int|
                0 <= x < g + 1 && (#[trigger] groups@[x])@.len() <= max_itemset_size
                implies out@.contains(x as usize) by {
                if x < g {
                    assert(out0.contains(x as usize));
                    let i = out0.index_of(x as usize);
                    assert(out@[i] == x);
                }
            }
        }
        g = g + 1;
    }
    Ok(out)
}

/// Whether the rows `a` and `b` hold two different items that are both
/// valid.
pub open spec fn qualifies(rows: Seq<(i64, usize, usize)>, valid: Seq<bool>, a: int, b: int) -> bool {
    rows[a].1 != rows[b].1 && valid[rows[a].1 as int] && valid[rows[b].1 as int]
}

/// The qualifying pairs of rows of one group: those whose first row is among
/// the first `i` of the group, and those of row `i` with one of the first
/// `j`, in that order.
pub open spec fn pairs_in_group(
    rows: Seq<(i64, usize, usize)>,
    valid: Seq<bool>,
    group: Seq<usize>,
    i: int,
    j: int,
) -> Seq<(usize, usize)>
    decreases i, j,
{
    if j > 0 {
        let base = pairs_in_group(rows, valid, group, i, j - 1);
        if qualifies(rows, valid, group[i] as int, group[j - 1] as int) {
            base.push((group[i], group[j - 1]))
        } else {
            base
        }
    } else if i > 0 {
        pairs_in_group(rows, valid, group, i - 1, group.len() as int)
    } else {
        Seq::empty()
    }
}

/// The qualifying pairs of rows of the first `s` chosen groups.
pub open spec fn pairs_upto(
    rows: Seq<(i64, usize, usize)>,
    valid: Seq<bool>,
    groups: Seq<Vec<usize>>,
    chosen: Seq<usize>,
    s: int,
) -> Seq<(usize, usize)>
    decreases s,
{
    if s <= 0 {
        Seq::empty()
    } else {
        pairs_upto(rows, valid, groups, chosen, s - 1) + pairs_in_group(
            rows,
            valid,
            groups[chosen[s - 1] as int]@,
            groups[chosen[s - 1] as int]@.len() as int,
            0,
        )
    }
}

/// Every ordered pair of rows that stand in one chosen group and hold two
/// different valid items: antecedent row, then consequent row.
pub fn co_occurring_pairs(
    rows: &Vec<(i64, usize, usize)>,
    valid: &Vec<bool>,
    groups: &Vec<Vec<usize>>,
    chosen: &Vec<usize>,
) -> (out: Vec<(usize, usize)>)
    requires
        forall|r: int| 0 <= r < rows@.len() ==> (#[trigger] rows@[r]).1 < valid@.len(),
        forall|g: int, i: int|
            0 <= g < groups@.len() && 0 <= i < groups@[g]@.len() ==> (#[trigger] groups@[g]@[i])
                < rows@.len(),
        forall|s: int| 0 <= s < chosen@.len() ==> (#[trigger] chosen@[s]) < groups@.len(),
    ensures
        out@ == pairs_upto(rows@, valid@, groups@, chosen@, chosen@.len() as int),
{
    let mut out: Vec<(usize, usize)> = Vec::new();
    let mut s: usize = 0;
    while s < chosen.len()
        invariant
            s <= chosen@.len(),
            forall|r: int| 0 <= r < rows@.len() ==> (#[trigger] rows@[r]).1 < valid@.len(),
            forall|g: int, i: int|
                0 <= g < groups@.len() && 0 <= i < groups@[g]@.len() ==> (
                #[trigger] groups@[g]@[i]) < rows@.len(),
            forall|s: int| 0 <= s < chosen@.len() ==> (#[trigger] chosen@[s]) < groups@.len(),
            out@ == pairs_upto(rows@, valid@, groups@, chosen@, s as int),
        decreases chosen@.len() - s,
    {
        let group = &groups[chosen[s]];
        let ghost done = out@;
        let mut i: usize = 0;
        proof {
            assert(out@ =~= done + pairs_in_group(rows@, valid@, group@, 0, 0));
        }
        while i < group.len()
            invariant
                i <= group@.len(),
                s < chosen@.len(),
                group@ == groups@[chosen@[s as int] as int]@,
                forall|r: int| 0 <= r < rows@.len() ==> (#[trigger] rows@[r]).1 < valid@.len(),
                forall|q: int| 0 <= q < group@.len() ==> (#[trigger] group@[q]) < rows@.len(),
                out@ == done + pairs_in_group(rows@, valid@, group@, i as int, 0),
            decreases group@.len() - i,
        {
            let a = group[i];
            let item_a = rows[a].1;
            let mut j: usize = 0;
            while j < group.len()
                invariant
                    i < group@.len(),
                    j <= group@.len(),
                    a == group@[i as int],
                    a < rows@.len(),
                    item_a == rows@[a as int].1,
                    forall|r: int|
                        0 <= r < rows@.len() ==> (#[trigger] rows@[r]).1 < valid@.len(),
                    forall|q: int| 0 <= q < group@.len() ==> (#[trigger] group@[q]) < rows@.len(),
                    out@ == done + pairs_in_group(rows@, valid@, group@, i as int, j as int),
                decreases group@.len() - j,
            {
                let b = group[j];
                let item_b = rows[b].1;
                if item_a != item_b && valid[item_a] && valid[item_b] {
                    out.push((a, b));
                }
                proof {
                    let base = pairs_in_group(rows@, valid@, group@, i as int, j as int);
                    if qualifies(rows@, valid@, a as int, b as int) {
                        assert(out@ =~= done + base.push((a, b)));
                    }
                }
                j = j + 1;
            }
            i = i + 1;
        }
        s = s + 1;
    }
    out
}

} // verus!
