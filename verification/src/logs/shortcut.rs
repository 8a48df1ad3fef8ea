//! Why `search` may rank a run of prefix matches by length alone: every
//! login that starts with the query is an exact or prefix match and
//! outranks every login that merely contains it, and among prefix matches
//! the score orders exactly as the length does.
use vstd::prelude::*;
use crate::order::starts_with;
use super::Channel;
use super::fuzzy::{is_subseq, match_end, first_index, score_spec, pack_score, lemma_subseq_refl, lemma_subseq_take_extends, lemma_match_end_take, lemma_first_index_take, lemma_subseq_len, lemma_match_end_props, lemma_subseq_same_len, lemma_first_index_bounds};
use super::search::{prefixed, matching, score_key, len_key, count_prefixed, sat_len, MAX_QUERY_LEN, search_result, channels_of};
use super::topk::{is_top, key_lt, pair, has_index};

verus! {

/// The score of a login that starts with the (non-empty) query: exact when
/// it is the query, a prefix match of the query's span otherwise.
proof fn lemma_prefixed_score(q: Seq<u8>, s: Seq<u8>)
    requires
        q.len() > 0,
        starts_with(s, q),
    ensures
        score_spec(q, s) == if s == q {
            Some((0int, 0int, 0int, s.len() as int))
        } else {
            Some((1int, q.len() as int, 0int, s.len() as int))
        },
        s != q ==> s.len() > q.len(),
{
    if s != q {
        let k = q.len() as int;
        lemma_subseq_refl(q);
        assert(s.subrange(0, k) == q);
        lemma_subseq_take_extends(q, s, k);
        lemma_match_end_take(q, s, k);
        assert(s.subrange(0, k) =~= q);
        assert(match_end(q, q) == k) by {
            if is_subseq(q, q.drop_last()) {
                lemma_subseq_len(q, q.drop_last());
            }
        }
        let first = s.subrange(0, 1);
        assert(first_index(first.drop_last(), q[0]) == -1);
        assert(first.last() == q[0]);
        assert(first_index(first, q[0]) == 0);
        lemma_first_index_take(s, q[0], 1);
        if s.len() == q.len() {
            assert(s =~= q);
        }
    }
}

/// A login that contains the query but does not start with it scores rank 2.
proof fn lemma_inner_score(q: Seq<u8>, s: Seq<u8>)
    requires
        q.len() > 0,
        !starts_with(s, q),
        score_spec(q, s) is Some,
    ensures
        score_spec(q, s).unwrap().0 == 2,
{
    if s == q {
        assert(s.subrange(0, q.len() as int) =~= s);
    }
    lemma_match_end_props(q, s);
    let end = match_end(q, s);
    if first_index(s, q[0]) == 0 && end == q.len() {
        lemma_subseq_same_len(q, s.subrange(0, end));
    }
}

/// Bounds of a packed score.
proof fn lemma_pack_bounds(q: Seq<u8>, s: Seq<u8>)
    requires
        q.len() > 0,
        s.len() < 0x1_0000_0000,
        score_spec(q, s) is Some,
    ensures
        score_spec(q, s).unwrap().0 == 2 ==> pack_score(score_spec(q, s).unwrap()) >= 2 * 0x1_0000_0000_0000_0000_0000_0000,
        0 <= pack_score(score_spec(q, s).unwrap()) < 3 * 0x1_0000_0000_0000_0000_0000_0000,
{
    let sc = score_spec(q, s).unwrap();
    if s != q {
        lemma_match_end_props(q, s);
        lemma_first_index_bounds(s, q[0]);
        lemma_subseq_len(q, s);
        let end = match_end(q, s);
        let off = first_index(s, q[0]);
        assert(off >= 0) by {
            if off < 0 {
                super::fuzzy::lemma_subseq_contains(q, s, 0);
            }
        }
        assert(off < end) by {
            if off >= end {
                super::fuzzy::lemma_subseq_contains(q, s.subrange(0, end), 0);
                let w = choose|w: int| 0 <= w < end && s.subrange(0, end)[w] == q[0];
                super::fuzzy::lemma_first_index_before(s, q[0], w);
                assert(s[w] == q[0]);
            }
        }
        assert(0 <= sc.1 < 0x1_0000_0000 && 0 <= sc.2 < 0x1_0000_0000 && 0 <= sc.3 < 0x1_0000_0000);
        assert(1 <= sc.0 <= 2);
        assert(0 <= pack_score(sc) < 3 * 0x1_0000_0000_0000_0000_0000_0000) by (nonlinear_arith)
            requires
                1 <= sc.0 <= 2,
                0 <= sc.1 < 0x1_0000_0000,
                0 <= sc.2 < 0x1_0000_0000,
                0 <= sc.3 < 0x1_0000_0000,
                pack_score(sc) == sc.0 * 0x1_0000_0000_0000_0000_0000_0000 + sc.1 * 0x1_0000_0000_0000_0000
                    + sc.2 * 0x1_0000_0000 + sc.3,
        ;
        assert(sc.0 == 2 ==> pack_score(sc) >= 2 * 0x1_0000_0000_0000_0000_0000_0000) by (nonlinear_arith)
            requires
                0 <= sc.1,
                0 <= sc.2,
                0 <= sc.3,
                pack_score(sc) == sc.0 * 0x1_0000_0000_0000_0000_0000_0000 + sc.1 * 0x1_0000_0000_0000_0000
                    + sc.2 * 0x1_0000_0000 + sc.3,
        ;
    }
}

/// Among prefix matches, packed scores order exactly as lengths do.
proof fn lemma_prefixed_keys(q: Seq<u8>, a: Seq<u8>, b: Seq<u8>)
    requires
        0 < q.len() <= MAX_QUERY_LEN,
        starts_with(a, q),
        starts_with(b, q),
        a.len() < 63,
        b.len() < 63,
    ensures
        (pack_score(score_spec(q, a).unwrap()) < pack_score(score_spec(q, b).unwrap())) == (sat_len(a) < sat_len(b)),
        (pack_score(score_spec(q, a).unwrap()) == pack_score(score_spec(q, b).unwrap())) == (sat_len(a) == sat_len(b)),
        pack_score(score_spec(q, a).unwrap()) < 2 * 0x1_0000_0000_0000_0000_0000_0000,
{
    lemma_prefixed_score(q, a);
    lemma_prefixed_score(q, b);
    let big: int = 0x1_0000_0000_0000_0000_0000_0000;
    assert(pack_score((1int, q.len() as int, 0int, a.len() as int)) == big + q.len() * 0x1_0000_0000_0000_0000
        + a.len());
    assert(pack_score((1int, q.len() as int, 0int, b.len() as int)) == big + q.len() * 0x1_0000_0000_0000_0000
        + b.len());
    assert(q.len() * 0x1_0000_0000_0000_0000 <= 25 * 0x1_0000_0000_0000_0000) by (nonlinear_arith)
        requires
            q.len() <= 25,
    ;
    if a == q {
        assert(a.len() == q.len());
    }
    if b == q {
        assert(b.len() == q.len());
    }
}

/// The entries whose login starts with `q`, as a set.
pub open spec fn prefixed_set(e: Seq<(Seq<u8>, Seq<u8>)>, q: Seq<u8>) -> Set<int> {
    Set::new(|j: int| 0 <= j < e.len() && starts_with(e[j].0, q))
}

/// `count_prefixed` counts that set.
proof fn lemma_count_is_set_len(e: Seq<(Seq<u8>, Seq<u8>)>, q: Seq<u8>)
    ensures
        prefixed_set(e, q).finite(),
        prefixed_set(e, q).len() == count_prefixed(e, q),
    decreases e.len(),
{
    if e.len() == 0 {
        assert(prefixed_set(e, q) =~= Set::empty());
    } else {
        let e1 = e.drop_last();
        let n = e1.len() as int;
        lemma_count_is_set_len(e1, q);
        let s1 = prefixed_set(e1, q);
        if starts_with(e.last().0, q) {
            assert(prefixed_set(e, q) =~= s1.insert(n));
            assert(!s1.contains(n));
        } else {
            assert(prefixed_set(e, q) =~= s1);
        }
    }
}

/// With at least `limit` prefix matches, the top `limit` of them is full.
proof fn lemma_top_full(e: Seq<(Seq<u8>, Seq<u8>)>, q: Seq<u8>, best: Seq<(u128, usize)>, limit: int)
    requires
        is_top(best, prefixed(e, q), len_key(e), limit),
        count_prefixed(e, q) >= limit,
        limit > 0,
    ensures
        best.len() == limit,
{
    if best.len() < limit {
        let idx = best.map_values(|p: (u128, usize)| p.1 as int);
        assert forall|j: int| prefixed_set(e, q).contains(j) implies idx.to_set().contains(j) by {
            assert(prefixed(e, q)(j));
            if !has_index(best, j) {
                assert(best.len() == limit);
            }
            let k = choose|k: int| 0 <= k < best.len() && best[k].1 as int == j;
            assert(idx[k] == j);
        }
        lemma_count_is_set_len(e, q);
        idx.lemma_cardinality_of_set();
        vstd::set_lib::lemma_len_subset(prefixed_set(e, q), idx.to_set());
    }
}

/// `best` with each entry's key replaced by its packed score.
pub open spec fn rescored(best: Seq<(u128, usize)>, e: Seq<(Seq<u8>, Seq<u8>)>, q: Seq<u8>) -> Seq<(u128, usize)> {
    Seq::new(best.len(), |k: int| (score_key(e, q)(best[k].1 as int) as u128, best[k].1))
}

/// The prefix shortcut is exact: when at least `limit` logins start with the
/// query, the best `limit` of them by length (ties by position) are, in the
/// same order, the best `limit` of all matching logins by score. Logins are
/// taken shorter than the 63 bytes the length is kept to (Twitch logins have
/// at most 25).
pub proof fn law_prefix_shortcut_is_exact(
    e: Seq<(Seq<u8>, Seq<u8>)>,
    q: Seq<u8>,
    limit: int,
    best: Seq<(u128, usize)>,
)
    requires
        0 < q.len() <= MAX_QUERY_LEN,
        limit > 0,
        forall|j: int| 0 <= j < e.len() ==> (#[trigger] e[j]).0.len() < 63,
        count_prefixed(e, q) >= limit,
        is_top(best, prefixed(e, q), len_key(e), limit),
    ensures
        is_top(rescored(best, e, q), matching(e, q), score_key(e, q), limit),
        forall|k: int| 0 <= k < best.len() ==> #[trigger] rescored(best, e, q)[k].1 == best[k].1,
{
    lemma_top_full(e, q, best, limit);
    let r = rescored(best, e, q);
    let ks = score_key(e, q);
    assert forall|k: int| 0 <= k < r.len() implies #[trigger] matching(e, q)(r[k].1 as int) && r[k].0 as int == ks(
        r[k].1 as int,
    ) by {
        let j = best[k].1 as int;
        assert(prefixed(e, q)(j));
        lemma_prefixed_score(q, e[j].0);
        lemma_pack_bounds(q, e[j].0);
    }
    assert forall|k: int, l: int| 0 <= k < l < r.len() implies key_lt(pair(#[trigger] r[k]), pair(#[trigger] r[l])) by {
        let jk = best[k].1 as int;
        let jl = best[l].1 as int;
        assert(prefixed(e, q)(jk) && prefixed(e, q)(jl));
        assert(key_lt(pair(best[k]), pair(best[l])));
        lemma_prefixed_keys(q, e[jk].0, e[jl].0);
        lemma_prefixed_score(q, e[jk].0);
        lemma_prefixed_score(q, e[jl].0);
        lemma_pack_bounds(q, e[jk].0);
        lemma_pack_bounds(q, e[jl].0);
    }
    assert forall|j: int| #[trigger] matching(e, q)(j) && !has_index(r, j) implies r.len() == limit && limit > 0
        && key_lt(pair(r[limit - 1]), (ks(j), j)) by {
        if has_index(best, j) {
            let k = choose|k: int| 0 <= k < best.len() && best[k].1 as int == j;
            assert(r[k].1 as int == j);
        }
        let jl = best[limit - 1].1 as int;
        assert(prefixed(e, q)(jl));
        lemma_prefixed_score(q, e[jl].0);
        lemma_pack_bounds(q, e[jl].0);
        lemma_pack_bounds(q, e[j].0);
        if starts_with(e[j].0, q) {
            assert(prefixed(e, q)(j));
            assert(key_lt(pair(best[limit - 1]), (len_key(e)(j), j)));
            lemma_prefixed_keys(q, e[jl].0, e[j].0);
            lemma_prefixed_score(q, e[j].0);
        } else {
            lemma_inner_score(q, e[j].0);
            lemma_prefixed_keys(q, e[jl].0, e[jl].0);
        }
    }
}


/// What a search returns, shortcut or not: for a query of 1 to
/// `MAX_QUERY_LEN` bytes and a positive limit, over logins shorter than 63
/// bytes, the result is the channels of the best `limit` logins holding the
/// query as a subsequence, by score with ties by position (login order), so
/// no returned login is beaten by one left out.
pub proof fn law_search_is_best_by_score(e: Seq<(Seq<u8>, Seq<u8>)>, q: Seq<u8>, limit: int, r: Seq<Channel>)
    requires
        0 < q.len() <= MAX_QUERY_LEN,
        limit > 0,
        forall|j: int| 0 <= j < e.len() ==> (#[trigger] e[j]).0.len() < 63,
        search_result(e, q, limit, r),
    ensures
        exists|best: Seq<(u128, usize)>| is_top(best, matching(e, q), score_key(e, q), limit) && channels_of(r, e, best),
{
    if e.len() == 0 {
        let best = Seq::<(u128, usize)>::empty();
        assert(is_top(best, matching(e, q), score_key(e, q), limit));
        assert(channels_of(r, e, best));
    } else if count_prefixed(e, q) >= limit {
        let best = choose|best: Seq<(u128, usize)>| is_top(best, prefixed(e, q), len_key(e), limit) && channels_of(r, e, best);
        law_prefix_shortcut_is_exact(e, q, limit, best);
        let rs = rescored(best, e, q);
        assert forall|k: int| 0 <= k < r.len() implies crate::logs::search::channel_is_entry(#[trigger] r[k], e[rs[k].1 as int]) by {
            assert(rs[k].1 == best[k].1);
        }
        assert(channels_of(r, e, rs));
    }
}

} // verus!
