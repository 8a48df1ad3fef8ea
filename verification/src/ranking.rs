//! Stable ranking by key: the order a stable sort by descending key leaves
//! positions in, computed by insertion and characterised exactly.
use vstd::prelude::*;

verus! {

/// Position `a` ranks before position `b`: a greater key, or an equal key and
/// an earlier position.
pub open spec fn ranks_before(keys: Seq<i128>, a: int, b: int) -> bool {
    keys[a] > keys[b] || (keys[a] == keys[b] && a < b)
}

/// `order` lists every position of `keys` once, best-ranked first.
pub open spec fn is_rank_order(keys: Seq<i128>, order: Seq<usize>) -> bool {
    &&& order.len() == keys.len()
    &&& forall|i: int| 0 <= i < order.len() ==> #[trigger] order[i] < keys.len()
    &&& forall|i: int, j: int|
        0 <= i < j < order.len() ==> ranks_before(keys, #[trigger] order[i] as int, #[trigger] order[j] as int)
}

/// The ranking of `keys`: greatest first, ties kept in the order they were given.
pub open spec fn rank_spec(keys: Seq<i128>) -> Seq<usize> {
    choose|order: Seq<usize>| is_rank_order(keys, order)
}

/// Positions of `keys` sorted by descending key, stably.
pub fn rank_order(keys: &Vec<i128>) -> (order: Vec<usize>)
    ensures
        is_rank_order(keys@, order@),
        order@ == rank_spec(keys@),
{
    let mut order: Vec<usize> = Vec::new();
    let mut k: usize = 0;
    while k < keys.len()
        invariant
            k <= keys@.len(),
            order@.len() == k,
            forall|i: int| 0 <= i < order@.len() ==> #[trigger] order@[i] < k,
            forall|i: int, j: int|
                0 <= i < j < order@.len() ==> ranks_before(keys@, #[trigger] order@[i] as int, #[trigger] order@[j] as int),
        decreases keys@.len() - k,
    {
        let mut p: usize = 0;
        while p < order.len() && keys[order[p]] >= keys[k]
            invariant
                k < keys@.len(),
                p <= order@.len(),
                order@.len() == k,
                forall|i: int| 0 <= i < order@.len() ==> #[trigger] order@[i] < k,
                forall|q: int| 0 <= q < p ==> keys@[#[trigger] order@[q] as int] >= keys@[k as int],
            decreases order@.len() - p,
        {
            p = p + 1;
        }
        let ghost before = order@;
        proof {
            assert forall|q: int| p <= q < before.len() implies keys@[#[trigger] before[q] as int] < keys@[k as int] by {
                if q > p {
                    assert(ranks_before(keys@, before[p as int] as int, before[q] as int));
                }
            }
        }
        order.insert(p, k);
        proof {
            let now = order@;
            assert(now =~= before.insert(p as int, k));
            assert forall|i: int, j: int| 0 <= i < j < now.len() implies ranks_before(
                keys@,
                #[trigger] now[i] as int,
                #[trigger] now[j] as int,
            ) by {
                if j < p {
                    assert(now[i] == before[i] && now[j] == before[j]);
                } else if j == p {
                    assert(now[i] == before[i]);
                } else if i < p {
                    assert(now[i] == before[i] && now[j] == before[j - 1]);
                } else if i == p {
                    assert(now[j] == before[j - 1]);
                } else {
                    assert(now[i] == before[i - 1] && now[j] == before[j - 1]);
                }
            }
        }
        k = k + 1;
    }
    proof {
        lemma_rank_order_unique(keys@, order@, rank_spec(keys@));
    }
    order
}

/// The ranking is fully determined: any two orders that list every position
/// once, greatest key first with ties in position order, are the same order.
pub proof fn lemma_rank_order_unique(keys: Seq<i128>, a: Seq<usize>, b: Seq<usize>)
    requires
        is_rank_order(keys, a),
        keys.len() <= usize::MAX,
    ensures
        is_rank_order(keys, b) ==> a == b,
{
    if is_rank_order(keys, b) {
        assert forall|i: int| 0 <= i < a.len() implies a[i] == b[i] by {
            lemma_same_at(keys, a, b, i);
        }
        assert(a =~= b);
    }
}

proof fn lemma_same_at(keys: Seq<i128>, a: Seq<usize>, b: Seq<usize>, i: int)
    requires
        is_rank_order(keys, a),
        is_rank_order(keys, b),
        0 <= i < a.len(),
        keys.len() <= usize::MAX,
    ensures
        a[i] == b[i],
    decreases i,
{
    assert forall|m: int| 0 <= m < i implies a[m] == b[m] by {
        lemma_same_at(keys, a, b, m);
    }
    if a[i] != b[i] {
        let x = a[i];
        let y = b[i];
        lemma_rank_covers(keys, b, x as int);
        lemma_rank_covers(keys, a, y as int);
        let kb = choose|k: int| 0 <= k < b.len() && b[k] == x;
        let ka = choose|k: int| 0 <= k < a.len() && a[k] == y;
        if kb < i {
            assert(a[kb] == b[kb]);
            assert(ranks_before(keys, a[kb] as int, a[i] as int));
        }
        if ka < i {
            assert(a[ka] == b[ka]);
            assert(ranks_before(keys, b[ka] as int, b[i] as int));
        }
        assert(ranks_before(keys, b[i] as int, b[kb] as int));
        assert(ranks_before(keys, a[i] as int, a[ka] as int));
    }
}

/// A ranking lists every position.
pub proof fn lemma_rank_covers(keys: Seq<i128>, order: Seq<usize>, x: int)
    requires
        is_rank_order(keys, order),
        0 <= x < keys.len(),
        keys.len() <= usize::MAX,
    ensures
        exists|k: int| 0 <= k < order.len() && order[k] == x,
{
    let n = keys.len() as int;
    assert(order.no_duplicates()) by {
        assert forall|i: int, j: int| 0 <= i < order.len() && 0 <= j < order.len() && i != j implies order[i]
            != order[j] by {
            if i < j {
                assert(ranks_before(keys, order[i] as int, order[j] as int));
            } else {
                assert(ranks_before(keys, order[j] as int, order[i] as int));
            }
        }
    }
    let set_o = order.to_set();
    order.unique_seq_to_set();
    let full = Set::new(|v: usize| (v as int) < n);
    lemma_usize_range_len(n);
    if !(exists|k: int| 0 <= k < order.len() && order[k] == x) {
        let missing = full.remove(x as usize);
        assert(set_o.subset_of(missing)) by {
            assert forall|v: usize| set_o.contains(v) implies missing.contains(v) by {
                assert(order.contains(v));
                let k = choose|k: int| 0 <= k < order.len() && order[k] == v;
                assert(order[k] < keys.len());
                assert(v as int != x);
            }
        }
        assert(full.contains(x as usize));
        vstd::set_lib::lemma_len_subset(set_o, missing);
    }
}

proof fn lemma_usize_range_len(n: int)
    requires
        0 <= n <= usize::MAX + 1,
    ensures
        Set::new(|v: usize| (v as int) < n).finite(),
        Set::new(|v: usize| (v as int) < n).len() == n,
    decreases n,
{
    let cur = Set::new(|v: usize| (v as int) < n);
    if n == 0 {
        assert(cur =~= Set::empty());
    } else {
        lemma_usize_range_len(n - 1);
        let prev = Set::new(|v: usize| (v as int) < n - 1);
        assert(cur =~= prev.insert((n - 1) as usize));
    }
}

/// A ranking of `keys` exists (insertion by descending key).
pub proof fn rank_witness(keys: Seq<i128>) -> (order: Seq<usize>)
    requires
        keys.len() <= usize::MAX,
    ensures
        is_rank_order(keys, order),
    decreases keys.len(),
{
    if keys.len() == 0 {
        Seq::empty()
    } else {
        let k = keys.len() - 1;
        let prev = rank_witness(keys.drop_last());
        let p = first_below(keys, prev, k, 0);
        let order = prev.insert(p, k as usize);
        assert forall|q: int| p <= q < prev.len() implies keys[#[trigger] prev[q] as int] < keys[k] by {
            if q > p {
                assert(ranks_before(keys.drop_last(), prev[p] as int, prev[q] as int));
            }
        }
        assert forall|i: int, j: int| 0 <= i < j < order.len() implies ranks_before(
            keys,
            #[trigger] order[i] as int,
            #[trigger] order[j] as int,
        ) by {
            if j < p {
                assert(order[i] == prev[i] && order[j] == prev[j]);
                assert(ranks_before(keys.drop_last(), prev[i] as int, prev[j] as int));
            } else if j == p {
                assert(order[i] == prev[i]);
            } else if i < p {
                assert(order[i] == prev[i] && order[j] == prev[j - 1]);
            } else if i == p {
                assert(order[j] == prev[j - 1]);
            } else {
                assert(order[i] == prev[i - 1] && order[j] == prev[j - 1]);
                assert(ranks_before(keys.drop_last(), prev[i - 1] as int, prev[j - 1] as int));
            }
        }
        order
    }
}

/// The first position of `prev` (from `from` on) whose length is below
/// `keys[k]`, or its end.
proof fn first_below(keys: Seq<i128>, prev: Seq<usize>, k: int, from: int) -> (p: int)
    requires
        0 <= k < keys.len(),
        0 <= from <= prev.len(),
        forall|i: int| 0 <= i < prev.len() ==> #[trigger] prev[i] < k,
        forall|q: int| 0 <= q < from ==> keys[#[trigger] prev[q] as int] >= keys[k],
    ensures
        from <= p <= prev.len(),
        forall|q: int| 0 <= q < p ==> keys[#[trigger] prev[q] as int] >= keys[k],
        p < prev.len() ==> keys[prev[p] as int] < keys[k],
    decreases prev.len() - from,
{
    if from == prev.len() || keys[prev[from] as int] < keys[k] {
        from
    } else {
        first_below(keys, prev, k, from + 1)
    }
}

} // verus!
