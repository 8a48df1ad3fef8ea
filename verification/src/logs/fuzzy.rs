//! Fuzzy login matching: the subsequence score that ranks search results,
//! and the shift-and matcher that computes it.
use vstd::prelude::*;

verus! {

/// `q` occurs in `s` as a (not necessarily contiguous) subsequence.
pub open spec fn is_subseq(q: Seq<u8>, s: Seq<u8>) -> bool
    decreases s.len(),
{
    if q.len() == 0 {
        true
    } else if s.len() == 0 {
        false
    } else if s.last() == q.last() {
        is_subseq(q.drop_last(), s.drop_last())
    } else {
        is_subseq(q, s.drop_last())
    }
}

/// Length of the shortest prefix of `s` that still contains `q` as a subsequence.
pub open spec fn match_end(q: Seq<u8>, s: Seq<u8>) -> int
    decreases s.len(),
{
    if s.len() > 0 && is_subseq(q, s.drop_last()) {
        match_end(q, s.drop_last())
    } else {
        s.len() as int
    }
}

/// Index of the first occurrence of `b` in `s`, or -1.
pub open spec fn first_index(s: Seq<u8>, b: u8) -> int
    decreases s.len(),
{
    if s.len() == 0 {
        -1
    } else if first_index(s.drop_last(), b) >= 0 {
        first_index(s.drop_last(), b)
    } else if s.last() == b {
        s.len() - 1
    } else {
        -1
    }
}

/// How well `login` matches the non-empty `query`, as
/// `(rank, span, offset, len)`, or `None` when the query's bytes do not occur
/// in the login in order. Rank 0 is an exact match, 1 a prefix match, 2 a
/// match somewhere inside; the match scored is the earliest one, starting at
/// the first byte equal to `query[0]` and ending where the whole query has
/// first been seen.
pub open spec fn score_spec(query: Seq<u8>, login: Seq<u8>) -> Option<(int, int, int, int)> {
    if login == query {
        Some((0, 0, 0, login.len() as int))
    } else if is_subseq(query, login) {
        let end = match_end(query, login);
        let offset = first_index(login, query[0]);
        Some(
            (
                if offset == 0 && end == query.len() {
                    1
                } else {
                    2
                },
                end - offset,
                offset,
                login.len() as int,
            ),
        )
    } else {
        None
    }
}

/// A score folded into one integer whose order is the lexicographic order of
/// `(rank, span, offset, len)`.
pub open spec fn pack_score(s: (int, int, int, int)) -> int {
    s.0 * 0x1_0000_0000_0000_0000_0000_0000 + s.1 * 0x1_0000_0000_0000_0000 + s.2 * 0x1_0000_0000
        + s.3
}

pub proof fn lemma_subseq_drop(q: Seq<u8>, s: Seq<u8>)
    requires
        is_subseq(q, s),
        q.len() > 0,
    ensures
        is_subseq(q.drop_last(), s),
    decreases s.len(), 0int,
{
    let q1 = q.drop_last();
    if s.len() > 0 {
        let s1 = s.drop_last();
        if s.last() == q.last() {
            if q1.len() > 0 {
                lemma_subseq_push(q1, s1, s.last());
                assert(s1.push(s.last()) =~= s);
            }
        } else {
            lemma_subseq_drop(q, s1);
            lemma_subseq_push(q1, s1, s.last());
            assert(s1.push(s.last()) =~= s);
        }
    }
}

pub proof fn lemma_subseq_push(q: Seq<u8>, s: Seq<u8>, b: u8)
    requires
        is_subseq(q, s),
    ensures
        is_subseq(q, s.push(b)),
    decreases s.len(), 1int,
{
    assert(s.push(b).drop_last() =~= s);
    if q.len() > 0 && b == q.last() {
        lemma_subseq_drop(q, s);
    }
}

/// The one-byte step of the subsequence relation that the matcher's state follows.
pub proof fn lemma_subseq_step(q: Seq<u8>, s: Seq<u8>, b: u8, i: int)
    requires
        0 <= i < q.len(),
    ensures
        is_subseq(q.subrange(0, i + 1), s.push(b)) == (is_subseq(q.subrange(0, i + 1), s) || (b
            == q[i] && (i == 0 || is_subseq(q.subrange(0, i), s)))),
{
    let qi = q.subrange(0, i + 1);
    let sb = s.push(b);
    assert(sb.drop_last() =~= s);
    assert(sb.last() == b);
    assert(qi.last() == q[i]);
    assert(qi.drop_last() =~= q.subrange(0, i));
    assert(is_subseq(qi, sb) == if b == q[i] {
        is_subseq(q.subrange(0, i), s)
    } else {
        is_subseq(qi, s)
    });
    if b == q[i] && is_subseq(qi, s) {
        lemma_subseq_drop(qi, s);
    }
    if i == 0 {
        assert(q.subrange(0, i).len() == 0);
    }
}

/// The first query byte has been seen exactly when it occurs.
pub proof fn lemma_subseq_first(q: Seq<u8>, s: Seq<u8>)
    requires
        q.len() > 0,
    ensures
        is_subseq(q.subrange(0, 1), s) == (first_index(s, q[0]) >= 0),
    decreases s.len(),
{
    let q1 = q.subrange(0, 1);
    assert(q1.last() == q[0]);
    assert(q1.drop_last().len() == 0);
    if s.len() > 0 {
        lemma_subseq_first(q, s.drop_last());
        assert(is_subseq(q1.drop_last(), s.drop_last()));
    }
}

pub proof fn lemma_subseq_take_extends(q: Seq<u8>, s: Seq<u8>, k: int)
    requires
        0 <= k <= s.len(),
        is_subseq(q, s.subrange(0, k)),
    ensures
        is_subseq(q, s),
    decreases s.len() - k,
{
    if k < s.len() {
        lemma_subseq_push(q, s.subrange(0, k), s[k]);
        assert(s.subrange(0, k).push(s[k]) =~= s.subrange(0, k + 1));
        lemma_subseq_take_extends(q, s, k + 1);
    } else {
        assert(s.subrange(0, k) =~= s);
    }
}

pub proof fn lemma_match_end_take(q: Seq<u8>, s: Seq<u8>, k: int)
    requires
        0 <= k <= s.len(),
        is_subseq(q, s.subrange(0, k)),
    ensures
        match_end(q, s) == match_end(q, s.subrange(0, k)),
    decreases s.len() - k,
{
    if k < s.len() {
        assert(s.drop_last() =~= s.subrange(0, s.len() - 1));
        assert(s.subrange(0, s.len() - 1).subrange(0, k) =~= s.subrange(0, k));
        lemma_subseq_take_extends(q, s.drop_last(), k);
        lemma_match_end_take(q, s.drop_last(), k);
    } else {
        assert(s.subrange(0, k) =~= s);
    }
}

pub proof fn lemma_first_index_take(s: Seq<u8>, b: u8, k: int)
    requires
        0 <= k <= s.len(),
        first_index(s.subrange(0, k), b) >= 0,
    ensures
        first_index(s, b) == first_index(s.subrange(0, k), b),
    decreases s.len() - k,
{
    if k < s.len() {
        assert(s.drop_last() =~= s.subrange(0, s.len() - 1));
        assert(s.subrange(0, s.len() - 1).subrange(0, k) =~= s.subrange(0, k));
        lemma_first_index_take(s.drop_last(), b, k);
    } else {
        assert(s.subrange(0, k) =~= s);
    }
}

pub proof fn lemma_first_index_bounds(s: Seq<u8>, b: u8)
    ensures
        -1 <= first_index(s, b) < s.len(),
        first_index(s, b) >= 0 ==> s[first_index(s, b)] == b,
        first_index(s, b) < 0 ==> !s.contains(b),
    decreases s.len(),
{
    if s.len() > 0 {
        lemma_first_index_bounds(s.drop_last(), b);
        if first_index(s, b) < 0 {
            assert forall|j: int| 0 <= j < s.len() implies s[j] != b by {
                if j < s.len() - 1 {
                    assert(s[j] == s.drop_last()[j]);
                }
            }
        }
    }
}

pub proof fn lemma_subseq_contains(q: Seq<u8>, s: Seq<u8>, j: int)
    requires
        is_subseq(q, s),
        0 <= j < q.len(),
    ensures
        s.contains(q[j]),
    decreases s.len(),
{
    let s1 = s.drop_last();
    if s.last() == q.last() {
        if j == q.len() - 1 {
            assert(s[s.len() - 1] == q[j]);
        } else {
            assert(q.drop_last()[j] == q[j]);
            lemma_subseq_contains(q.drop_last(), s1, j);
            let k = choose|k: int| 0 <= k < s1.len() && s1[k] == q[j];
            assert(s[k] == q[j]);
        }
    } else {
        lemma_subseq_contains(q, s1, j);
        let k = choose|k: int| 0 <= k < s1.len() && s1[k] == q[j];
        assert(s[k] == q[j]);
    }
}

pub proof fn lemma_subseq_refl(q: Seq<u8>)
    ensures
        is_subseq(q, q),
    decreases q.len(),
{
    if q.len() > 0 {
        lemma_subseq_refl(q.drop_last());
    }
}


pub proof fn lemma_subseq_len(q: Seq<u8>, s: Seq<u8>)
    requires
        is_subseq(q, s),
    ensures
        q.len() <= s.len(),
    decreases s.len(),
{
    if q.len() > 0 && s.len() > 0 {
        if s.last() == q.last() {
            lemma_subseq_len(q.drop_last(), s.drop_last());
        } else {
            lemma_subseq_len(q, s.drop_last());
        }
    }
}

/// A subsequence as long as the sequence is the sequence itself.
pub proof fn lemma_subseq_same_len(q: Seq<u8>, s: Seq<u8>)
    requires
        is_subseq(q, s),
        q.len() == s.len(),
    ensures
        q == s,
    decreases s.len(),
{
    if s.len() > 0 {
        if s.last() == q.last() {
            lemma_subseq_same_len(q.drop_last(), s.drop_last());
            assert(q =~= q.drop_last().push(q.last()));
            assert(s =~= s.drop_last().push(s.last()));
        } else {
            lemma_subseq_len(q, s.drop_last());
        }
    } else {
        assert(q =~= s);
    }
}

pub proof fn lemma_match_end_props(q: Seq<u8>, s: Seq<u8>)
    requires
        is_subseq(q, s),
    ensures
        0 <= match_end(q, s) <= s.len(),
        is_subseq(q, s.subrange(0, match_end(q, s))),
    decreases s.len(),
{
    if s.len() > 0 && is_subseq(q, s.drop_last()) {
        lemma_match_end_props(q, s.drop_last());
        assert(s.drop_last().subrange(0, match_end(q, s)) =~= s.subrange(0, match_end(q, s)));
    } else {
        assert(s.subrange(0, s.len() as int) =~= s);
    }
}

pub proof fn lemma_first_index_before(s: Seq<u8>, b: u8, j: int)
    requires
        0 <= j < first_index(s, b),
    ensures
        s[j] != b,
    decreases s.len(),
{
    lemma_first_index_bounds(s.drop_last(), b);
    assert(s[j] == s.drop_last()[j]);
    if first_index(s.drop_last(), b) >= 0 {
        lemma_first_index_before(s.drop_last(), b, j);
    } else {
        assert(!s.drop_last().contains(b));
    }
}

/// `s` begins with `q`.
pub open spec fn has_prefix(s: Seq<u8>, q: Seq<u8>) -> bool {
    q.len() <= s.len() && s.subrange(0, q.len() as int) == q
}

/// What a score says of a non-empty query and a login: the login scores
/// exactly when it holds the query as a subsequence. The score's length is
/// the login's; rank 0 is the login being the query, rank 1 the login
/// starting with it, rank 2 any other match. Past rank 0, the offset is the
/// first position of the query's first byte, and offset plus span is the
/// length of the shortest prefix of the login that holds the query.
pub proof fn law_score_meaning(q: Seq<u8>, s: Seq<u8>)
    requires
        q.len() > 0,
    ensures
        score_spec(q, s) is Some <==> is_subseq(q, s),
        score_spec(q, s) matches Some(sc) ==> {
            &&& sc.3 == s.len()
            &&& 0 <= sc.0 <= 2
            &&& (sc.0 == 0 <==> s == q)
            &&& (sc.0 == 1 <==> s != q && has_prefix(s, q))
            &&& sc.0 != 0 ==> {
                &&& 0 <= sc.2 < s.len()
                &&& s[sc.2] == q[0]
                &&& forall|j: int| 0 <= j < sc.2 ==> s[j] != q[0]
                &&& 0 <= sc.2 + sc.1 <= s.len()
                &&& is_subseq(q, s.subrange(0, sc.2 + sc.1))
                &&& forall|e: int| 0 <= e < sc.2 + sc.1 ==> !is_subseq(q, #[trigger] s.subrange(0, e))
            }
        },
{
    lemma_subseq_refl(q);
    if s != q && is_subseq(q, s) {
        let end = match_end(q, s);
        let off = first_index(s, q[0]);
        lemma_match_end_props(q, s);
        lemma_subseq_contains(q, s, 0);
        lemma_first_index_bounds(s, q[0]);
        assert forall|j: int| 0 <= j < off implies s[j] != q[0] by {
            lemma_first_index_before(s, q[0], j);
        }
        assert forall|e: int| 0 <= e < end implies !is_subseq(q, #[trigger] s.subrange(0, e)) by {
            if is_subseq(q, s.subrange(0, e)) {
                lemma_match_end_take(q, s, e);
                lemma_match_end_props(q, s.subrange(0, e));
            }
        }
        if off == 0 && end == q.len() {
            lemma_subseq_same_len(q, s.subrange(0, end));
        }
        if has_prefix(s, q) {
            let k = q.len() as int;
            lemma_match_end_take(q, s, k);
            lemma_match_end_props(q, s.subrange(0, k));
            lemma_subseq_len(q, s.subrange(0, end));
            assert(s[0] == s.subrange(0, k)[0]);
            if off > 0 {
                lemma_first_index_before(s, q[0], 0);
            }
        }
    }
}

/// A subsequence that cannot start before `o` needs at least its own length after `o`.
pub proof fn lemma_subseq_len_after(q: Seq<u8>, t: Seq<u8>, o: int)
    requires
        q.len() > 0,
        is_subseq(q, t),
        0 <= o,
        forall|j: int| 0 <= j < o && j < t.len() ==> t[j] != q[0],
    ensures
        q.len() + o <= t.len(),
    decreases t.len(),
{
    let t1 = t.drop_last();
    if t.last() == q.last() {
        let q1 = q.drop_last();
        if q1.len() == 0 {
            assert(t[t.len() - 1] == q[0]);
        } else {
            assert(q1[0] == q[0]);
            if o >= t1.len() {
                lemma_subseq_contains(q1, t1, 0);
                let k = choose|k: int| 0 <= k < t1.len() && t1[k] == q1[0];
                assert(t[k] == q[0]);
            } else {
                assert forall|j: int| 0 <= j < o && j < t1.len() implies t1[j] != q1[0] by {
                    assert(t[j] != q[0]);
                }
                lemma_subseq_len_after(q1, t1, o);
            }
        }
    } else {
        assert forall|j: int| 0 <= j < o && j < t1.len() implies t1[j] != q[0] by {
            assert(t[j] != q[0]);
        }
        lemma_subseq_len_after(q, t1, o);
    }
}

/// Anything the scan sees (not an exact or prefix match) scores at least
/// `(2, query.len(), 1, saturated len)`.
pub proof fn lemma_score_lower_bound(q: Seq<u8>, s: Seq<u8>, sat: int)
    requires
        q.len() > 0,
        s.len() <= u32::MAX,
        0 <= sat <= s.len(),
        score_spec(q, s) is Some,
        !(q.len() <= s.len() && s.subrange(0, q.len() as int) == q),
    ensures
        pack_score(score_spec(q, s).unwrap()) >= pack_score((2, q.len() as int, 1, sat)),
        score_spec(q, s).unwrap().0 == 2,
{
    assert(s != q) by {
        if s == q {
            assert(s.subrange(0, q.len() as int) =~= q);
        }
    }
    let e = match_end(q, s);
    let o = first_index(s, q[0]);
    lemma_match_end_props(q, s);
    let t = s.subrange(0, e);
    lemma_subseq_contains(q, t, 0);
    lemma_first_index_bounds(t, q[0]);
    lemma_first_index_take(s, q[0], e);
    assert forall|j: int| 0 <= j < o && j < t.len() implies t[j] != q[0] by {
        lemma_first_index_before(s, q[0], j);
    }
    lemma_subseq_len_after(q, t, o);
    if o == 0 && e == q.len() {
        lemma_subseq_same_len(q, t);
    }
    assert(0 <= o < s.len());
}

/// Bit `i` of `x`.
pub open spec fn bit(x: u64, i: u64) -> bool {
    (x >> i) & 1u64 == 1u64
}

proof fn lemma_bit_step(s: u64, p: u64, i: u64)
    requires
        i < 64,
    ensures
        bit(s | (((s << 1u64) | 1u64) & p), i) == (bit(s, i) || (bit(p, i) && (i == 0 || bit(
            s,
            (i - 1) as u64,
        )))),
{
    assert(bit(s | (((s << 1u64) | 1u64) & p), i) == (bit(s, i) || (bit(p, i) && (i == 0 || bit(
        s,
        (i - 1) as u64,
    ))))) by (bit_vector)
        requires
            i < 64,
    ;
}

proof fn lemma_bit_and_one(x: u64)
    ensures
        (x & 1u64 != 0) == bit(x, 0),
{
    assert((x & 1u64 != 0) == bit(x, 0)) by (bit_vector);
}

proof fn lemma_bit_and_single(x: u64, j: u64)
    requires
        j < 64,
    ensures
        (x & (1u64 << j) != 0) == bit(x, j),
{
    assert((x & (1u64 << j) != 0) == bit(x, j)) by (bit_vector)
        requires
            j < 64,
    ;
}

proof fn lemma_bit_set(x: u64, j: u64, i: u64)
    requires
        j < 64,
        i < 64,
    ensures
        bit(x | (1u64 << j), i) == (bit(x, i) || i == j),
{
    assert(bit(x | (1u64 << j), i) == (bit(x, i) || i == j)) by (bit_vector)
        requires
            j < 64,
            i < 64,
    ;
}

proof fn lemma_bit_zero(i: u64)
    ensures
        !bit(0u64, i),
{
    assert(!bit(0u64, i)) by (bit_vector);
}

/// A score, ordered best-first by `(rank, span, offset, len)`.
#[derive(Clone, Copy)]
pub struct Score {
    /// 0 exact, 1 prefix, 2 matched somewhere inside the login.
    pub rank: u8,
    /// Bytes the match spans.
    pub span: u32,
    /// Where the match starts.
    pub offset: u32,
    /// The login's length.
    pub len: u32,
}

impl Score {
    pub open spec fn view_tuple(self) -> (int, int, int, int) {
        (self.rank as int, self.span as int, self.offset as int, self.len as int)
    }

    /// The score as one integer, ordered as the fields are.
    pub fn packed(&self) -> (r: u128)
        requires
            self.rank <= 2,
        ensures
            r == pack_score(self.view_tuple()),
    {
        (self.rank as u128) * 0x1_0000_0000_0000_0000_0000_0000u128 + (self.span as u128)
            * 0x1_0000_0000_0000_0000u128 + (self.offset as u128) * 0x1_0000_0000u128
            + (self.len as u128)
    }
}

/// A query compiled into the shift-and tables used to score logins.
pub struct Matcher {
    pub query: Vec<u8>,
    /// Bit `i` of entry `b` is set when `query[i] == b`.
    pub positions: Vec<u64>,
    /// The bit that means the whole query has matched.
    pub goal: u64,
}

impl Matcher {
    pub open spec fn wf(&self) -> bool {
        &&& 1 <= self.query@.len() <= 25
        &&& self.positions@.len() == 256
        &&& forall|b: int, i: u64|
            0 <= b < 256 && i < 64 ==> #[trigger] bit(self.positions@[b], i) == (i
                < self.query@.len() && self.query@[i as int] == b)
        &&& self.goal == 1u64 << ((self.query@.len() - 1) as u64)
    }

    pub fn new(query: &[u8]) -> (m: Matcher)
        requires
            1 <= query@.len() <= 25,
        ensures
            m.wf(),
            m.query@ == query@,
    {
        let mut positions: Vec<u64> = Vec::new();
        let mut b: usize = 0;
        while b < 256
            invariant
                b <= 256,
                positions@.len() == b,
                forall|k: int| 0 <= k < b ==> positions@[k] == 0u64,
            decreases 256 - b,
        {
            positions.push(0u64);
            b = b + 1;
        }
        let mut index: usize = 0;
        proof {
            assert forall|bb: int, i: u64| 0 <= bb < 256 && i < 64 implies #[trigger] bit(
                positions@[bb],
                i,
            ) == (i < 0 && query@[i as int] == bb) by {
                lemma_bit_zero(i);
            }
        }
        while index < query.len()
            invariant
                query@.len() <= 25,
                index <= query@.len(),
                positions@.len() == 256,
                forall|bb: int, i: u64|
                    0 <= bb < 256 && i < 64 ==> #[trigger] bit(positions@[bb], i) == (i < index
                        && query@[i as int] == bb),
            decreases query@.len() - index,
        {
            let byte = query[index];
            let ghost old_positions = positions@;
            let updated = positions[byte as usize] | (1u64 << (index as u64));
            positions.set(byte as usize, updated);
            proof {
                assert forall|bb: int, i: u64| 0 <= bb < 256 && i < 64 implies #[trigger] bit(
                    positions@[bb],
                    i,
                ) == (i < index + 1 && query@[i as int] == bb) by {
                    if bb == byte as int {
                        lemma_bit_set(old_positions[bb], index as u64, i);
                    }
                }
            }
            index = index + 1;
        }
        proof {
            assert forall|bb: int, i: u64| 0 <= bb < 256 && i < 64 implies #[trigger] bit(
                positions@[bb],
                i,
            ) == (i < query@.len() && query@[i as int] == bb) by {}
        }
        let mut q: Vec<u8> = Vec::new();
        let mut k: usize = 0;
        while k < query.len()
            invariant
                k <= query@.len(),
                q@ == query@.subrange(0, k as int),
            decreases query@.len() - k,
        {
            q.push(query[k]);
            assert(query@.subrange(0, k + 1) =~= query@.subrange(0, k as int).push(query@[k as int]));
            k = k + 1;
        }
        assert(query@.subrange(0, query@.len() as int) =~= query@);
        Matcher { query: q, positions, goal: 1u64 << ((query.len() - 1) as u64) }
    }

    /// Scores `login`, or `None` if the query's bytes don't occur in it in order.
    pub fn score(&self, login: &[u8]) -> (r: Option<Score>)
        requires
            self.wf(),
            login@.len() <= u32::MAX,
        ensures
            match r {
                Some(sc) => sc.rank <= 2 && score_spec(self.query@, login@) == Some(sc.view_tuple()),
                None => score_spec(self.query@, login@) is None,
            },
    {
        let len = login.len() as u32;
        let q = self.query.as_slice();
        if crate::order::slice_eq(login, q) {
            assert(score_spec(self.query@, login@) == Some(Score { rank: 0, span: 0, offset: 0, len }.view_tuple()));
            return Some(Score { rank: 0, span: 0, offset: 0, len });
        }
        let ghost qs = self.query@;
        let ghost ls = login@;
        let ghost qlen = qs.len();
        let mut state: u64 = 0;
        let mut offset: usize = usize::MAX;
        let mut index: usize = 0;
        proof {
            assert forall|i: u64| i < qlen implies #[trigger] bit(state, i) == is_subseq(
                qs.subrange(0, i + 1),
                ls.subrange(0, 0),
            ) by {
                lemma_bit_zero(i);
            }
        }
        while index < login.len()
            invariant
                self.wf(),
                qs == self.query@,
                ls == login@,
                qlen == qs.len(),
                ls.len() <= u32::MAX,
                len as int == ls.len(),
                ls != qs,
                index <= ls.len(),
                forall|i: u64| i < qlen ==> #[trigger] bit(state, i) == is_subseq(
                    qs.subrange(0, i + 1),
                    ls.subrange(0, index as int),
                ),
                !is_subseq(qs, ls.subrange(0, index as int)),
                first_index(ls.subrange(0, index as int), qs[0]) >= 0 ==> offset == first_index(
                    ls.subrange(0, index as int),
                    qs[0],
                ),
                first_index(ls.subrange(0, index as int), qs[0]) < 0 ==> offset == usize::MAX,
            decreases ls.len() - index,
        {
            let byte = login[index];
            let p = self.positions[byte as usize];
            let ghost old_state = state;
            let ghost pre = ls.subrange(0, index as int);
            let ghost post = ls.subrange(0, index + 1);
            state = state | (((state << 1u64) | 1u64) & p);
            proof {
                assert(post =~= pre.push(byte));
                assert forall|i: u64| i < qlen implies #[trigger] bit(state, i) == is_subseq(
                    qs.subrange(0, i + 1),
                    post,
                ) by {
                    lemma_bit_step(old_state, p, i);
                    lemma_subseq_step(qs, pre, byte, i as int);
                    if i > 0 {
                        assert(bit(old_state, (i - 1) as u64) == is_subseq(
                            qs.subrange(0, (i - 1) as u64 + 1),
                            pre,
                        ));
                    }
                }
                lemma_bit_and_one(state);
                lemma_subseq_first(qs, post);
                lemma_subseq_first(qs, pre);
                assert(post.drop_last() =~= pre);
                assert(bit(state, 0) == (first_index(post, qs[0]) >= 0));
            }
            if state & 1 != 0 {
                offset = if offset < index {
                    offset
                } else {
                    index
                };
            }
            proof {
                lemma_first_index_bounds(pre, qs[0]);
                assert(first_index(post, qs[0]) >= 0 ==> offset == first_index(post, qs[0]));
                assert(first_index(post, qs[0]) < 0 ==> offset == usize::MAX);
            }
            let goal_hit = state & self.goal != 0;
            proof {
                lemma_bit_and_single(state, (qlen - 1) as u64);
                assert(qs.subrange(0, qlen as int) =~= qs);
            }
            if goal_hit {
                let end = index + 1;
                let rank: u8 = if offset == 0 && end == self.query.len() {
                    1
                } else {
                    2
                };
                proof {
                    assert(bit(state, (qlen - 1) as u64));
                    assert(is_subseq(qs, post));
                    lemma_match_end_take(qs, ls, index + 1);
                    assert(post.drop_last() =~= pre);
                    assert(match_end(qs, post) == index + 1);
                    lemma_subseq_take_extends(qs, ls, index + 1);
                    lemma_subseq_contains(qs, post, 0);
                    lemma_first_index_bounds(post, qs[0]);
                    lemma_first_index_take(ls, qs[0], index + 1);
                    assert(offset == first_index(ls, qs[0]));
                    assert(offset <= index);
                    let sc = Score { rank, span: (end - offset) as u32, offset: offset as u32, len };
                    assert(ls != qs);
                    assert(is_subseq(qs, ls));
                    assert(match_end(qs, ls) == end);
                    assert(first_index(ls, qs[0]) == offset);
                    assert(sc.span as int == end - offset);
                    assert(sc.offset as int == offset);
                    assert(sc.len as int == ls.len());
                    assert(sc.rank as int == (if offset == 0 && end == qs.len() { 1int } else { 2int }));
                    assert(score_spec(qs, ls) == Some(sc.view_tuple()));
                }
                return Some(
                    Score {
                        rank,
                        span: (end - offset) as u32,
                        offset: offset as u32,
                        len,
                    },
                );
            }
            index = index + 1;
        }
        proof {
            assert(ls.subrange(0, ls.len() as int) =~= ls);
        }
        None
    }
}

} // verus!
