//! The best `limit` entries of a stream, by `(key, index)`.
use vstd::prelude::*;

verus! {

/// `(a_key, a_index) < (b_key, b_index)` lexicographically.
pub open spec fn key_lt(a: (int, int), b: (int, int)) -> bool {
    a.0 < b.0 || (a.0 == b.0 && a.1 < b.1)
}

pub open spec fn pair(p: (u128, usize)) -> (int, int) {
    (p.0 as int, p.1 as int)
}

pub open spec fn has_index(best: Seq<(u128, usize)>, j: int) -> bool {
    exists|k: int| 0 <= k < best.len() && best[k].1 as int == j
}

/// `best` holds, in increasing `(key, index)` order, the `limit` smallest
/// members of `pool` (all of them, if there are fewer).
pub open spec fn is_top(
    best: Seq<(u128, usize)>,
    pool: spec_fn(int) -> bool,
    key: spec_fn(int) -> int,
    limit: int,
) -> bool {
    &&& best.len() <= limit
    &&& forall|k: int|
        0 <= k < best.len() ==> #[trigger] pool(best[k].1 as int) && best[k].0 as int == key(
            best[k].1 as int,
        )
    &&& forall|k: int, l: int|
        0 <= k < l < best.len() ==> key_lt(pair(#[trigger] best[k]), pair(#[trigger] best[l]))
    &&& forall|j: int|
        #[trigger] pool(j) && !has_index(best, j) ==> best.len() == limit && limit > 0 && key_lt(
            pair(best[limit - 1]),
            (key(j), j),
        )
}

/// Membership of the pool is all `is_top` looks at.
pub proof fn lemma_top_pool_ext(
    best: Seq<(u128, usize)>,
    p1: spec_fn(int) -> bool,
    p2: spec_fn(int) -> bool,
    key: spec_fn(int) -> int,
    limit: int,
)
    requires
        is_top(best, p1, key, limit),
        forall|j: int| #[trigger] p1(j) == #[trigger] p2(j),
    ensures
        is_top(best, p2, key, limit),
{
    assert forall|k: int| 0 <= k < best.len() implies #[trigger] p2(best[k].1 as int) && best[k].0 as int
        == key(best[k].1 as int) by {
        assert(p1(best[k].1 as int));
    }
    assert forall|j: int| #[trigger] p2(j) && !has_index(best, j) implies best.len() == limit && limit
        > 0 && key_lt(pair(best[limit - 1]), (key(j), j)) by {
        assert(p1(j));
    }
}

/// An entry ranked after the worst kept one can join the pool without changing the result.
pub proof fn lemma_top_add_worse(
    best: Seq<(u128, usize)>,
    pool: spec_fn(int) -> bool,
    key: spec_fn(int) -> int,
    limit: int,
    j: int,
)
    requires
        is_top(best, pool, key, limit),
        best.len() == limit,
        limit > 0,
        !pool(j),
        key_lt(pair(best[limit - 1]), (key(j), j)),
    ensures
        is_top(best, |i: int| pool(i) || i == j, key, limit),
{
    let p2 = |i: int| pool(i) || i == j;
    assert forall|k: int| 0 <= k < best.len() implies #[trigger] p2(best[k].1 as int) && best[k].0 as int
        == key(best[k].1 as int) by {
        assert(pool(best[k].1 as int));
    }
    assert forall|i: int| #[trigger] p2(i) && !has_index(best, i) implies best.len() == limit && limit
        > 0 && key_lt(pair(best[limit - 1]), (key(i), i)) by {
        if i != j {
            assert(pool(i));
        }
    }
}

/// A bounded, sorted selection of the best entries offered so far.
pub struct TopK {
    pub limit: usize,
    pub best: Vec<(u128, usize)>,
}

impl TopK {
    pub fn new(limit: usize) -> (t: TopK)
        ensures
            t.limit == limit,
            t.best@.len() == 0,
    {
        TopK { limit, best: Vec::new() }
    }

    /// Offers entry `index` with key `key`.
    pub fn offer(
        &mut self,
        key: u128,
        index: usize,
        Ghost(pool): Ghost<spec_fn(int) -> bool>,
        Ghost(keyf): Ghost<spec_fn(int) -> int>,
    )
        requires
            old(self).limit > 0,
            is_top(old(self).best@, pool, keyf, old(self).limit as int),
            !pool(index as int),
            keyf(index as int) == key as int,
        ensures
            final(self).limit == old(self).limit,
            is_top(final(self).best@, |i: int| pool(i) || i == index as int, keyf, final(self).limit as int),
    {
        let ghost old_best = self.best@;
        let ghost x = (key, index);
        let ghost p2 = |i: int| pool(i) || i == index as int;
        let limit = self.limit;
        proof {
            assert forall|k: int| 0 <= k < old_best.len() implies old_best[k].1 != index by {
                assert(pool(old_best[k].1 as int));
            }
        }
        if self.best.len() == limit {
            let w = self.best[limit - 1];
            if !(key < w.0 || (key == w.0 && index < w.1)) {
                proof {
                    assert(w.1 != index);
                    lemma_top_add_worse(old_best, pool, keyf, limit as int, index as int);
                }
                return;
            }
        }
        let mut pos: usize = 0;
        while pos < self.best.len() && !(key < self.best[pos].0 || (key == self.best[pos].0 && index
            < self.best[pos].1))
            invariant
                self.best@ == old_best,
                x == (key, index),
                pos <= old_best.len(),
                forall|k: int| 0 <= k < pos ==> key_lt(pair(old_best[k]), pair(x)),
                forall|k: int| 0 <= k < old_best.len() ==> old_best[k].1 != index,
            decreases old_best.len() - pos,
        {
            proof {
                let b = old_best[pos as int];
                assert(!(key < b.0 || (key == b.0 && index < b.1)));
                assert(b.1 != index);
                assert(key_lt(pair(b), pair(x)));
            }
            pos = pos + 1;
        }
        proof {
            assert forall|k: int| pos <= k < old_best.len() implies key_lt(pair(x), pair(old_best[k])) by {
                if k > pos {
                    assert(key_lt(pair(old_best[pos as int]), pair(old_best[k])));
                }
            }
        }
        self.best.insert(pos, (key, index));
        let ghost ins = self.best@;
        proof {
            assert(ins == old_best.insert(pos as int, x));
            assert forall|k: int, l: int| 0 <= k < l < ins.len() implies key_lt(
                pair(#[trigger] ins[k]),
                pair(#[trigger] ins[l]),
            ) by {
                if k < pos && l < pos {
                    assert(ins[k] == old_best[k] && ins[l] == old_best[l]);
                } else if k < pos && l == pos {
                } else if k < pos {
                    assert(ins[l] == old_best[l - 1]);
                    assert(key_lt(pair(old_best[k]), pair(x)));
                } else if k == pos {
                    assert(ins[l] == old_best[l - 1]);
                } else {
                    assert(ins[k] == old_best[k - 1] && ins[l] == old_best[l - 1]);
                }
            }
            assert forall|k: int| 0 <= k < ins.len() implies #[trigger] p2(ins[k].1 as int) && ins[k].0 as int
                == keyf(ins[k].1 as int) by {
                if k < pos {
                    assert(ins[k] == old_best[k]);
                    assert(pool(old_best[k].1 as int));
                } else if k > pos {
                    assert(ins[k] == old_best[k - 1]);
                    assert(pool(old_best[k - 1].1 as int));
                }
            }
        }
        if self.best.len() > limit {
            let _ = self.best.pop();
            let ghost fin = self.best@;
            proof {
                assert(old_best.len() == limit);
                assert(fin == ins.subrange(0, limit as int));
                let dropped = ins[limit as int];
                assert(dropped == old_best[limit - 1]) by {
                    assert(pos < limit);
                }
                assert forall|k: int| 0 <= k < fin.len() implies #[trigger] p2(fin[k].1 as int) && fin[k].0 as int
                    == keyf(fin[k].1 as int) by {
                    assert(fin[k] == ins[k]);
                }
                assert forall|k: int, l: int| 0 <= k < l < fin.len() implies key_lt(
                    pair(#[trigger] fin[k]),
                    pair(#[trigger] fin[l]),
                ) by {
                    assert(fin[k] == ins[k] && fin[l] == ins[l]);
                }
                assert(key_lt(pair(fin[limit - 1]), pair(dropped))) by {
                    assert(fin[limit - 1] == ins[limit - 1]);
                }
                assert forall|i: int| #[trigger] p2(i) && !has_index(fin, i) implies fin.len() == limit
                    && limit > 0 && key_lt(pair(fin[limit - 1]), (keyf(i), i)) by {
                    if i == dropped.1 as int {
                        assert(pool(i));
                        assert(keyf(i) == dropped.0 as int) by {
                            assert(old_best[limit - 1] == dropped);
                        }
                    } else if i == index as int {
                        assert(fin[pos as int] == x);
                    } else {
                        assert(pool(i));
                        if has_index(old_best, i) {
                            let k = choose|k: int| 0 <= k < old_best.len() && old_best[k].1 as int == i;
                            if k < pos {
                                assert(fin[k] == old_best[k]);
                            } else if k < limit - 1 {
                                assert(fin[k + 1] == old_best[k]);
                            }
                        } else {
                            assert(key_lt(pair(old_best[limit - 1]), (keyf(i), i)));
                        }
                    }
                }
            }
        } else {
            proof {
                assert forall|i: int| #[trigger] p2(i) && !has_index(ins, i) implies ins.len() == limit
                    && limit > 0 && key_lt(pair(ins[limit - 1]), (keyf(i), i)) by {
                    if i == index as int {
                        assert(ins[pos as int] == x);
                    } else {
                        assert(pool(i));
                        if has_index(old_best, i) {
                            let k = choose|k: int| 0 <= k < old_best.len() && old_best[k].1 as int == i;
                            if k < pos {
                                assert(ins[k] == old_best[k]);
                            } else {
                                assert(ins[k + 1] == old_best[k]);
                            }
                        } else {
                            assert(old_best.len() == limit);
                        }
                    }
                }
            }
        }
    }
}

} // verus!
