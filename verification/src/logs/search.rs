//! The channel set arranged for fuzzy login search.
use vstd::prelude::*;
use vstd::utf8::*;
use vstd::string::StringSliceAdditionalSpecFns;
use crate::order::{lex_le, lex_lt, lex_sorted, starts_with, lemma_lex_le_refl, lemma_lex_le_trans, lemma_lex_le_total, lemma_lex_le_antisym, lemma_lex_lt_not_le, lemma_prefix_le, lemma_between_prefix, slice_lex_le, slice_starts_with, slice_eq};
use super::Channel;
use super::fuzzy::{is_subseq, score_spec, pack_score, Matcher, Score, lemma_subseq_contains, lemma_subseq_len, lemma_score_lower_bound};
use super::topk::{TopK, is_top, key_lt, pair, has_index, lemma_top_pool_ext, lemma_top_add_worse};

verus! {

broadcast use {vstd::utf8::encode_utf8_valid_utf8, vstd::utf8::decode_utf8_encode_utf8};

pub const MAX_RESULTS: usize = 10;

/// Twitch logins are at most 25 characters, so nothing longer can match
/// anything; the cap also bounds the per-entry scoring work.
pub const MAX_QUERY_LEN: usize = 25;

/// Bit reserved for any byte outside `[a-z0-9_]`.
pub const OTHER_BIT: u64 = 0x8000_0000_0000_0000;

/// Where a login's (saturated) length sits inside its word.
pub const LEN_SHIFT: u64 = 37;

/// Saturation point of the length carried in a word.
pub const LEN_LIMIT: usize = 63;

/// Entries per block in the scan's rejection pass.
pub const BLOCK: usize = 32;

/// The bits of a word that carry the length.
pub open spec fn len_field() -> u64 {
    0x7E0_0000_0000u64
}

/// The presence bit of one byte.
pub open spec fn byte_bit_spec(b: u8) -> u64 {
    if 97 <= b <= 122 {
        1u64 << ((b - 97) as u64)
    } else if 48 <= b <= 57 {
        1u64 << ((26 + (b - 48)) as u64)
    } else if b == 95 {
        1u64 << 36u64
    } else {
        0x8000_0000_0000_0000u64
    }
}

/// The union of the presence bits of every byte of `s`.
pub open spec fn mask_spec(s: Seq<u8>) -> u64
    decreases s.len(),
{
    if s.len() == 0 {
        0
    } else {
        mask_spec(s.drop_last()) | byte_bit_spec(s.last())
    }
}

/// A login's length, saturated at `LEN_LIMIT`.
pub open spec fn sat_len(s: Seq<u8>) -> int {
    if s.len() < 63 {
        s.len() as int
    } else {
        63
    }
}

/// A login's presence bitmap with its saturated length folded in.
pub open spec fn word_spec(s: Seq<u8>) -> u64 {
    mask_spec(s) | ((sat_len(s) as u64) << 37u64)
}

fn byte_bit(byte: u8) -> (r: u64)
    ensures
        r == byte_bit_spec(byte),
{
    if 97u8 <= byte && byte <= 122u8 {
        1u64 << ((byte - 97u8) as u64)
    } else if 48u8 <= byte && byte <= 57u8 {
        1u64 << ((26 + (byte - 48u8)) as u64)
    } else if byte == 95u8 {
        1u64 << 36u64
    } else {
        OTHER_BIT
    }
}

proof fn lemma_byte_bit_len_free(b: u8)
    ensures
        byte_bit_spec(b) & len_field() == 0,
{
    if 97 <= b <= 122 {
        let k = (b - 97) as u64;
        assert((1u64 << k) & 0x7E0_0000_0000u64 == 0) by (bit_vector)
            requires
                k < 26,
        ;
    } else if 48 <= b <= 57 {
        let k = (26 + (b - 48)) as u64;
        assert((1u64 << k) & 0x7E0_0000_0000u64 == 0) by (bit_vector)
            requires
                26 <= k < 36,
        ;
    } else if b == 95 {
        assert((1u64 << 36u64) & 0x7E0_0000_0000u64 == 0) by (bit_vector);
    } else {
        assert(0x8000_0000_0000_0000u64 & 0x7E0_0000_0000u64 == 0) by (bit_vector);
    }
}

proof fn lemma_or_len_free(x: u64, y: u64)
    requires
        x & 0x7E0_0000_0000u64 == 0,
        y & 0x7E0_0000_0000u64 == 0,
    ensures
        (x | y) & 0x7E0_0000_0000u64 == 0,
{
    assert((x | y) & 0x7E0_0000_0000u64 == 0) by (bit_vector)
        requires
            x & 0x7E0_0000_0000u64 == 0,
            y & 0x7E0_0000_0000u64 == 0,
    ;
}

proof fn lemma_mask_len_free(s: Seq<u8>)
    ensures
        mask_spec(s) & len_field() == 0,
    decreases s.len(),
{
    if s.len() > 0 {
        lemma_mask_len_free(s.drop_last());
        lemma_byte_bit_len_free(s.last());
        lemma_or_len_free(mask_spec(s.drop_last()), byte_bit_spec(s.last()));
    } else {
        assert(0u64 & 0x7E0_0000_0000u64 == 0) by (bit_vector);
    }
}

proof fn lemma_mask_contains(s: Seq<u8>, b: u8)
    requires
        s.contains(b),
    ensures
        mask_spec(s) & byte_bit_spec(b) == byte_bit_spec(b),
    decreases s.len(),
{
    let x = mask_spec(s.drop_last());
    let y = byte_bit_spec(s.last());
    let z = byte_bit_spec(b);
    if s.last() == b {
        assert((x | z) & z == z) by (bit_vector);
    } else {
        let k = choose|k: int| 0 <= k < s.len() && s[k] == b;
        assert(s.drop_last()[k] == b);
        lemma_mask_contains(s.drop_last(), b);
        assert(x & z == z ==> (x | y) & z == z) by (bit_vector);
    }
}

proof fn lemma_mask_subset(q: Seq<u8>, s: Seq<u8>)
    requires
        forall|j: int| 0 <= j < q.len() ==> s.contains(#[trigger] q[j]),
    ensures
        mask_spec(s) & mask_spec(q) == mask_spec(q),
    decreases q.len(),
{
    let m = mask_spec(s);
    if q.len() == 0 {
        assert(m & 0u64 == 0u64) by (bit_vector);
    } else {
        let a = mask_spec(q.drop_last());
        let b = byte_bit_spec(q.last());
        assert forall|j: int| 0 <= j < q.drop_last().len() implies s.contains(
            #[trigger] q.drop_last()[j],
        ) by {
            assert(q.drop_last()[j] == q[j]);
        }
        lemma_mask_subset(q.drop_last(), s);
        assert(s.contains(q[q.len() - 1]));
        lemma_mask_contains(s, q.last());
        assert(m & a == a && m & b == b ==> m & (a | b) == (a | b)) by (bit_vector);
    }
}

/// The prefilter never rejects a match: a login that contains the query as a
/// subsequence has every query byte's presence bit set in its word (bytes
/// outside `[a-z0-9_]` sharing one bit can only let extra logins through).
pub proof fn lemma_match_needs_mask(q: Seq<u8>, s: Seq<u8>)
    requires
        is_subseq(q, s),
    ensures
        word_spec(s) & mask_spec(q) == mask_spec(q),
{
    assert forall|j: int| 0 <= j < q.len() implies s.contains(#[trigger] q[j]) by {
        lemma_subseq_contains(q, s, j);
    }
    lemma_mask_subset(q, s);
    lemma_mask_len_free(q);
    let m = mask_spec(s);
    let mq = mask_spec(q);
    let l = sat_len(s) as u64;
    assert(m & mq == mq && mq & 0x7E0_0000_0000u64 == 0 && l < 64 ==> (m | (l << 37u64)) & mq
        == mq) by (bit_vector);
}

/// The length carried in a login's word is its length saturated at
/// `LEN_LIMIT`: never more than the real length.
pub proof fn lemma_word_len(s: Seq<u8>)
    ensures
        (word_spec(s) >> 37u64) & 63u64 == sat_len(s),
{
    lemma_mask_len_free(s);
    let m = mask_spec(s);
    let l = sat_len(s) as u64;
    assert(m & 0x7E0_0000_0000u64 == 0 && l < 64 ==> ((m | (l << 37u64)) >> 37u64) & 63u64 == l)
        by (bit_vector);
}

fn mask_of(value: &[u8]) -> (r: u64)
    ensures
        r == mask_spec(value@),
{
    let mut mask: u64 = 0;
    let mut i: usize = 0;
    while i < value.len()
        invariant
            i <= value@.len(),
            mask == mask_spec(value@.subrange(0, i as int)),
        decreases value@.len() - i,
    {
        assert(value@.subrange(0, i + 1).drop_last() =~= value@.subrange(0, i as int));
        mask = mask | byte_bit(value[i]);
        i = i + 1;
    }
    assert(value@.subrange(0, value@.len() as int) =~= value@);
    mask
}

fn word_of(login: &[u8]) -> (r: u64)
    ensures
        r == word_spec(login@),
{
    let len: u64 = if login.len() < LEN_LIMIT {
        login.len() as u64
    } else {
        LEN_LIMIT as u64
    };
    mask_of(login) | (len << LEN_SHIFT)
}

/// The login's length, saturated at `LEN_LIMIT`, out of its word.
fn word_len(word: u64) -> (r: usize)
    ensures
        r == (word >> 37u64) & 63u64,
{
    let v = (word >> LEN_SHIFT) & (LEN_LIMIT as u64);
    assert(v <= 63) by (bit_vector)
        requires
            v == (word >> 37u64) & 63u64,
    ;
    v as usize
}

/// The first 8 bytes of `s`, zero-padded, as a big-endian integer.
pub open spec fn prefix_key_upto(s: Seq<u8>, j: int) -> int
    decreases j,
{
    if j <= 0 {
        0
    } else {
        prefix_key_upto(s, j - 1) * 256 + pad_byte(s, j - 1)
    }
}

pub open spec fn pad_byte(s: Seq<u8>, j: int) -> int {
    if 0 <= j < s.len() {
        s[j] as int
    } else {
        0
    }
}

pub open spec fn prefix_key_spec(s: Seq<u8>) -> int {
    prefix_key_upto(s, 8)
}

proof fn lemma_prefix_key_bound(s: Seq<u8>, j: int)
    requires
        0 <= j <= 8,
    ensures
        0 <= prefix_key_upto(s, j),
        prefix_key_upto(s, j) < pow256(j),
    decreases j,
{
    if j > 0 {
        lemma_prefix_key_bound(s, j - 1);
    }
}

pub open spec fn pow256(j: int) -> int
    decreases j,
{
    if j <= 0 {
        1
    } else {
        256 * pow256(j - 1)
    }
}

/// The login's first 8 bytes as a big-endian integer, zero-padded, so that
/// comparing keys orders the same way comparing the strings does.
fn prefix_key(login: &[u8]) -> (r: u64)
    ensures
        r == prefix_key_spec(login@),
{
    let mut key: u64 = 0;
    let mut j: usize = 0;
    while j < 8
        invariant
            j <= 8,
            key == prefix_key_upto(login@, j as int),
        decreases 8 - j,
    {
        proof {
            lemma_prefix_key_bound(login@, j as int);
            assert(pow256(j as int) <= pow256(7)) by {
                lemma_pow256_mono(j as int, 7);
            }
            assert(pow256(7) == 0x100_0000_0000_0000) by {
                reveal_with_fuel(pow256, 8);
            }
        }
        let byte: u64 = if j < login.len() {
            login[j] as u64
        } else {
            0
        };
        key = key * 256 + byte;
        j = j + 1;
    }
    key
}

proof fn lemma_pow256_mono(a: int, b: int)
    requires
        0 <= a <= b,
    ensures
        pow256(a) <= pow256(b),
    decreases b,
{
    if a < b {
        lemma_pow256_mono(a, b - 1);
        assert(pow256(b - 1) >= 1) by {
            lemma_pow256_pos(b - 1);
        }
    }
}

proof fn lemma_pow256_pos(a: int)
    ensures
        pow256(a) >= 1,
    decreases a,
{
    if a > 0 {
        lemma_pow256_pos(a - 1);
    }
}

/// Equal padded bytes up to `j` give equal partial keys.
proof fn lemma_prefix_key_eq(a: Seq<u8>, b: Seq<u8>, j: int)
    requires
        0 <= j <= 8,
        forall|t: int| 0 <= t < j ==> pad_byte(a, t) == pad_byte(b, t),
    ensures
        prefix_key_upto(a, j) == prefix_key_upto(b, j),
    decreases j,
{
    if j > 0 {
        lemma_prefix_key_eq(a, b, j - 1);
    }
}

/// The partial key is decided at the first padded byte that differs.
proof fn lemma_prefix_key_lt(a: Seq<u8>, b: Seq<u8>, t: int, j: int)
    requires
        0 <= t < j <= 8,
        forall|u: int| 0 <= u < t ==> pad_byte(a, u) == pad_byte(b, u),
        pad_byte(a, t) < pad_byte(b, t),
    ensures
        prefix_key_upto(a, j) < prefix_key_upto(b, j),
    decreases j,
{
    if j == t + 1 {
        lemma_prefix_key_eq(a, b, t);
    } else {
        lemma_prefix_key_lt(a, b, t, j - 1);
        lemma_prefix_key_bound(a, j - 1);
        lemma_prefix_key_bound(b, j - 1);
    }
}

/// A common prefix followed by a smaller byte, or a proper prefix, is lexicographically smaller.
proof fn lemma_lex_lt_at(a: Seq<u8>, b: Seq<u8>, t: int)
    requires
        0 <= t <= a.len(),
        t < b.len(),
        forall|u: int| 0 <= u < t ==> a[u] == b[u],
        t == a.len() || a[t] < b[t],
    ensures
        lex_lt(a, b),
    decreases t,
{
    if t > 0 {
        assert forall|u: int| 0 <= u < t - 1 implies a.drop_first()[u] == b.drop_first()[u] by {
            assert(a[u + 1] == b[u + 1]);
        }
        lemma_lex_lt_at(a.drop_first(), b.drop_first(), t - 1);
        assert(a[0] == b[0]);
        if a == b {
            assert(a.drop_first() == b.drop_first());
        }
    } else {
        if a.len() > 0 {
            assert(a[0] < b[0]);
        }
        assert(a != b) by {
            if a.len() == b.len() {
                assert(a[0] != b[0]);
            }
        }
    }
}

/// Ordering by key never contradicts ordering by the strings.
proof fn lemma_prefix_key_order(a: Seq<u8>, b: Seq<u8>)
    requires
        prefix_key_spec(a) < prefix_key_spec(b),
    ensures
        lex_lt(a, b),
{
    if forall|u: int| 0 <= u < 8 ==> pad_byte(a, u) == pad_byte(b, u) {
        lemma_prefix_key_eq(a, b, 8);
    }
    let t = choose|t: int| 0 <= t < 8 && pad_byte(a, t) != pad_byte(b, t) && forall|u: int|
        0 <= u < t ==> pad_byte(a, u) == pad_byte(b, u);
    if pad_byte(a, t) > pad_byte(b, t) {
        lemma_prefix_key_lt(b, a, t, 8);
    }
    assert(t < b.len());
    if t < a.len() {
        assert forall|u: int| 0 <= u < t implies a[u] == b[u] by {
            assert(pad_byte(a, u) == pad_byte(b, u));
        }
        lemma_lex_lt_at(a, b, t);
    } else {
        let la = a.len() as int;
        assert forall|u: int| 0 <= u < la implies a[u] == b[u] by {
            assert(pad_byte(a, u) == pad_byte(b, u));
        }
        assert(la < b.len());
        lemma_lex_lt_at(a, b, la);
    }
}


/// Offsets that cut a buffer of `buf_len` bytes into `n` consecutive segments.
pub open spec fn offsets_ok(buf_len: int, offs: Seq<u32>, n: int) -> bool {
    &&& n >= 0
    &&& offs.len() == n + 1
    &&& offs[0] == 0
    &&& offs[n] == buf_len
    &&& forall|i: int, j: int| 0 <= i <= j <= n ==> #[trigger] offs[i] <= #[trigger] offs[j]
}

/// Segment `i` of a buffer cut by `offs`.
pub open spec fn seg(buf: Seq<u8>, offs: Seq<u32>, i: int) -> Seq<u8> {
    buf.subrange(offs[i] as int, offs[i + 1] as int)
}

/// The entries (login bytes, id bytes) a pair of cut buffers holds.
pub open spec fn entries_of(
    logins: Seq<u8>,
    login_offsets: Seq<u32>,
    ids: Seq<u8>,
    id_offsets: Seq<u32>,
    n: int,
) -> Seq<(Seq<u8>, Seq<u8>)> {
    Seq::new(n as nat, |i: int| (seg(logins, login_offsets, i), seg(ids, id_offsets, i)))
}

/// Cut buffers whose segments are well-formed UTF-8.
pub open spec fn buffers_ok(
    logins: Seq<u8>,
    login_offsets: Seq<u32>,
    ids: Seq<u8>,
    id_offsets: Seq<u32>,
    n: int,
) -> bool {
    &&& offsets_ok(logins.len() as int, login_offsets, n)
    &&& offsets_ok(ids.len() as int, id_offsets, n)
    &&& forall|i: int| 0 <= i < n ==> valid_utf8(#[trigger] seg(logins, login_offsets, i))
    &&& forall|i: int| 0 <= i < n ==> valid_utf8(#[trigger] seg(ids, id_offsets, i))
}

/// The `Channel` built from an entry: its login and id, decoded.
pub open spec fn channel_is_entry(c: Channel, e: (Seq<u8>, Seq<u8>)) -> bool {
    encode_utf8(c.name@) == e.0 && encode_utf8(c.user_id@) == e.1
}

/// Bytes of logins held by a list of entries.
pub open spec fn login_total(e: Seq<(Seq<u8>, Seq<u8>)>) -> int
    decreases e.len(),
{
    if e.len() == 0 {
        0
    } else {
        login_total(e.drop_last()) + e.last().0.len()
    }
}

/// Bytes of ids held by a list of entries.
pub open spec fn id_total(e: Seq<(Seq<u8>, Seq<u8>)>) -> int
    decreases e.len(),
{
    if e.len() == 0 {
        0
    } else {
        id_total(e.drop_last()) + e.last().1.len()
    }
}

/// `r` is `s` reordered by the index permutation `p`.
pub open spec fn permutes<T>(r: Seq<T>, s: Seq<T>, p: Seq<int>) -> bool {
    &&& p.len() == r.len() == s.len()
    &&& forall|k: int| 0 <= k < p.len() ==> 0 <= #[trigger] p[k] < s.len() && r[k] == s[p[k]]
    &&& forall|k: int, l: int| 0 <= k < l < p.len() ==> #[trigger] p[k] != #[trigger] p[l]
}

/// Removing entry `i` takes its bytes off the totals.
proof fn lemma_total_remove(s: Seq<(Seq<u8>, Seq<u8>)>, i: int)
    requires
        0 <= i < s.len(),
    ensures
        login_total(s) == login_total(s.remove(i)) + s[i].0.len(),
        id_total(s) == id_total(s.remove(i)) + s[i].1.len(),
    decreases s.len(),
{
    if i == s.len() - 1 {
        assert(s.remove(i) =~= s.drop_last());
    } else {
        lemma_total_remove(s.drop_last(), i);
        assert(s.remove(i).drop_last() =~= s.drop_last().remove(i));
        assert(s.remove(i).last() == s.last());
    }
}

/// A reordering keeps the same entries, and so the same byte totals.
proof fn lemma_permutes_keeps(r: Seq<(Seq<u8>, Seq<u8>)>, s: Seq<(Seq<u8>, Seq<u8>)>, p: Seq<int>)
    requires
        permutes(r, s, p),
    ensures
        r.to_multiset() == s.to_multiset(),
        login_total(r) == login_total(s),
        id_total(r) == id_total(s),
    decreases r.len(),
{
    broadcast use vstd::seq_lib::group_to_multiset_ensures;
    if r.len() == 0 {
        assert(r =~= s);
    } else {
        let m = r.len() - 1;
        let j = p[m];
        let s2 = s.remove(j);
        let p2 = Seq::new(m as nat, |k: int| if p[k] < j { p[k] } else { p[k] - 1 });
        let r2 = r.drop_last();
        assert forall|k: int| 0 <= k < p2.len() implies 0 <= #[trigger] p2[k] < s2.len() && r2[k] == s2[p2[k]] by {
            assert(p[k] != p[m]);
        }
        assert forall|k: int, l: int| 0 <= k < l < p2.len() implies #[trigger] p2[k] != #[trigger] p2[l] by {
            assert(p[k] != p[l]);
        }
        lemma_permutes_keeps(r2, s2, p2);
        lemma_total_remove(s, j);
        assert(r =~= r2.push(r.last()));
        assert(r.last() == s[j]);
        assert(s.to_multiset().count(s[j]) > 0);
        assert(s.to_multiset().remove(s[j]).insert(s[j]) =~= s.to_multiset());
    }
}

/// Finishing keeps every pushed entry, each id with its own login: as long
/// as no more entries were pushed than a `u32` counts, the index holds
/// exactly the pushed entries (as a multiset), as many of them, and the same
/// login and id byte totals.
pub proof fn law_finish_keeps_entries(pushed: Seq<(Seq<u8>, Seq<u8>)>, finished: Seq<(Seq<u8>, Seq<u8>)>)
    requires
        pushed.len() <= u32::MAX,
        finished.len() == (pushed.len() as u32) as int,
        exists|p: Seq<int>| permutes(finished, pushed.subrange(0, finished.len() as int), p),
    ensures
        finished.len() == pushed.len(),
        finished.to_multiset() == pushed.to_multiset(),
        login_total(finished) == login_total(pushed),
        id_total(finished) == id_total(pushed),
{
    assert(finished.len() == pushed.len());
    let p = choose|p: Seq<int>| permutes(finished, pushed.subrange(0, finished.len() as int), p);
    assert(pushed.subrange(0, finished.len() as int) =~= pushed);
    lemma_permutes_keeps(finished, pushed, p);
}

/// Segment `i` of a cut buffer, as a slice.
fn segment<'a>(buf: &'a Vec<u8>, offs: &Vec<u32>, i: usize) -> (r: &'a [u8])
    requires
        offsets_ok(buf@.len() as int, offs@, offs@.len() - 1),
        i + 1 < offs@.len(),
    ensures
        r@ == seg(buf@, offs@, i as int),
{
    let count = offs.len();
    let start = offs[i] as usize;
    let end = offs[i + 1] as usize;
    proof {
        let n = offs@.len() - 1;
        assert(offs@[i as int] <= offs@[i + 1]);
        assert(offs@[i + 1] <= offs@[n]);
    }
    vstd::slice::slice_subrange(buf.as_slice(), start, end)
}

/// `std::str::from_utf8`: the bytes as a string slice when they are valid
/// UTF-8, an error otherwise.
#[verifier::external_body]
fn str_from_utf8(bytes: &[u8]) -> (r: Result<&str, core::str::Utf8Error>)
    ensures
        r is Ok <==> valid_utf8(bytes@),
        r matches Ok(s) ==> s@ == decode_utf8(bytes@),
{
    core::str::from_utf8(bytes)
}

#[verifier::external_type_specification]
#[verifier::external_body]
pub struct ExUtf8Error(core::str::Utf8Error);

/// The channel set arranged for fuzzy login search.
///
/// Logins and user ids live in two flat buffers cut by `u32` offsets;
/// entries are sorted by login, which gives exact and prefix matches a
/// binary search and lets the entry index stand in for the alphabetical
/// tie-break. `words` holds, per entry, a character-presence bitmap and the
/// login's saturated length, which rejects most non-matches with one `AND`.
pub struct SearchIndex {
    logins: Vec<u8>,
    login_offsets: Vec<u32>,
    ids: Vec<u8>,
    id_offsets: Vec<u32>,
    words: Vec<u64>,
}

impl View for SearchIndex {
    type V = Seq<(Seq<u8>, Seq<u8>)>;

    closed spec fn view(&self) -> Seq<(Seq<u8>, Seq<u8>)> {
        entries_of(
            self.logins@,
            self.login_offsets@,
            self.ids@,
            self.id_offsets@,
            self.words@.len() as int,
        )
    }
}

impl SearchIndex {
    #[verifier::type_invariant]
    closed spec fn inv(&self) -> bool {
        let n = self.words@.len() as int;
        &&& n <= u32::MAX
        &&& buffers_ok(self.logins@, self.login_offsets@, self.ids@, self.id_offsets@, n)
        &&& forall|i: int|
            0 <= i < n ==> #[trigger] self.words@[i] == word_spec(
                seg(self.logins@, self.login_offsets@, i),
            )
        &&& forall|i: int, j: int|
            0 <= i <= j < n ==> lex_le(
                #[trigger] seg(self.logins@, self.login_offsets@, i),
                #[trigger] seg(self.logins@, self.login_offsets@, j),
            )
    }

    pub fn empty() -> (r: SearchIndex)
        ensures
            r@.len() == 0,
    {
        let mut login_offsets: Vec<u32> = Vec::new();
        login_offsets.push(0);
        let mut id_offsets: Vec<u32> = Vec::new();
        id_offsets.push(0);
        let r = SearchIndex {
            logins: Vec::new(),
            login_offsets,
            ids: Vec::new(),
            id_offsets,
            words: Vec::new(),
        };
        assert(r@ =~= Seq::<(Seq<u8>, Seq<u8>)>::empty());
        r
    }

    pub fn len(&self) -> (r: usize)
        ensures
            r == self@.len(),
    {
        self.words.len()
    }

    /// Heap bytes held by the index.
    pub fn footprint_bytes(&self) -> (r: usize)
        requires
            login_total(self@) + id_total(self@) + 16 * self@.len() + 8 <= usize::MAX,
        ensures
            r == login_total(self@) + id_total(self@) + 16 * self@.len() + 8,
    {
        proof {
            use_type_invariant(self);
            self.lemma_totals();
        }
        let _ = self.login_offsets.len();
        self.logins.len() + self.ids.len() + 4 * self.login_offsets.len() + 4
            * self.id_offsets.len() + 8 * self.words.len()
    }

    proof fn lemma_totals(&self)
        requires
            self.inv(),
        ensures
            login_total(self@) == self.logins@.len(),
            id_total(self@) == self.ids@.len(),
    {
        lemma_entries_totals(
            self.logins@,
            self.login_offsets@,
            self.ids@,
            self.id_offsets@,
            self.words@.len() as int,
        );
    }

    /// The login bytes of entry `index`.
    fn login(&self, index: usize) -> (r: &[u8])
        requires
            index < self@.len(),
        ensures
            r@ == self@[index as int].0,
    {
        proof {
            use_type_invariant(self);
        }
        segment(&self.logins, &self.login_offsets, index)
    }

    /// The login of entry `index`, as a string slice.
    fn login_str(&self, index: usize) -> (r: &str)
        requires
            index < self@.len(),
        ensures
            encode_utf8(r@) == self@[index as int].0,
    {
        proof {
            use_type_invariant(self);
        }
        let bytes = self.login(index);
        match str_from_utf8(bytes) {
            Ok(s) => s,
            Err(_) => {
                proof {
                    assert(valid_utf8(seg(self.logins@, self.login_offsets@, index as int)));
                }
                ""
            },
        }
    }

    /// The user id of entry `index`, as a string slice.
    fn id_str(&self, index: usize) -> (r: &str)
        requires
            index < self@.len(),
        ensures
            encode_utf8(r@) == self@[index as int].1,
    {
        proof {
            use_type_invariant(self);
        }
        let bytes = segment(&self.ids, &self.id_offsets, index);
        match str_from_utf8(bytes) {
            Ok(s) => s,
            Err(_) => {
                proof {
                    assert(valid_utf8(seg(self.ids@, self.id_offsets@, index as int)));
                }
                ""
            },
        }
    }

    fn channel(&self, index: usize) -> (r: Channel)
        requires
            index < self@.len(),
        ensures
            channel_is_entry(r, self@[index as int]),
    {
        Channel { name: self.login_str(index).to_owned(), user_id: self.id_str(index).to_owned() }
    }
}

proof fn lemma_entries_totals(
    logins: Seq<u8>,
    login_offsets: Seq<u32>,
    ids: Seq<u8>,
    id_offsets: Seq<u32>,
    n: int,
)
    requires
        offsets_ok(logins.len() as int, login_offsets, n),
        offsets_ok(ids.len() as int, id_offsets, n),
    ensures
        login_total(entries_of(logins, login_offsets, ids, id_offsets, n)) == logins.len(),
        id_total(entries_of(logins, login_offsets, ids, id_offsets, n)) == ids.len(),
{
    assert forall|k: int| 0 <= k <= n implies login_total(
        #[trigger] entries_of(logins, login_offsets, ids, id_offsets, n).subrange(0, k),
    ) == login_offsets[k] && id_total(entries_of(logins, login_offsets, ids, id_offsets, n).subrange(0, k))
        == id_offsets[k] by {
        lemma_prefix_totals(logins, login_offsets, ids, id_offsets, n, k);
    }
    let e = entries_of(logins, login_offsets, ids, id_offsets, n);
    assert(e.subrange(0, n) =~= e);
}

proof fn lemma_prefix_totals(
    logins: Seq<u8>,
    login_offsets: Seq<u32>,
    ids: Seq<u8>,
    id_offsets: Seq<u32>,
    n: int,
    k: int,
)
    requires
        offsets_ok(logins.len() as int, login_offsets, n),
        offsets_ok(ids.len() as int, id_offsets, n),
        0 <= k <= n,
    ensures
        login_total(entries_of(logins, login_offsets, ids, id_offsets, n).subrange(0, k))
            == login_offsets[k],
        id_total(entries_of(logins, login_offsets, ids, id_offsets, n).subrange(0, k))
            == id_offsets[k],
    decreases k,
{
    let e = entries_of(logins, login_offsets, ids, id_offsets, n);
    if k > 0 {
        lemma_prefix_totals(logins, login_offsets, ids, id_offsets, n, k - 1);
        assert(e.subrange(0, k).drop_last() =~= e.subrange(0, k - 1));
        assert(login_offsets[k - 1] <= login_offsets[k]);
        assert(login_offsets[k] <= login_offsets[n]);
        assert(id_offsets[k - 1] <= id_offsets[k]);
        assert(id_offsets[k] <= id_offsets[n]);
    }
}


/// `offsets` cut all of `buf`.
pub open spec fn cut_ok(buf: Seq<u8>, offsets: Seq<u32>) -> bool {
    offsets_ok(buf.len() as int, offsets, offsets.len() - 1)
}

/// Entry order used while building: by key, then by login bytes.
pub open spec fn entry_order_lt(a: (u64, u32), b: (u64, u32), logins: Seq<u8>, offsets: Seq<u32>) -> bool {
    a.0 < b.0 || (a.0 == b.0 && lex_lt(
        seg(logins, offsets, a.1 as int),
        seg(logins, offsets, b.1 as int),
    ))
}

fn entry_before(a: (u64, u32), b: (u64, u32), logins: &Vec<u8>, offsets: &Vec<u32>) -> (r: bool)
    requires
        offsets_ok(logins@.len() as int, offsets@, offsets@.len() - 1),
        a.1 + 1 < offsets@.len(),
        b.1 + 1 < offsets@.len(),
    ensures
        r == entry_order_lt(a, b, logins@, offsets@),
{
    if a.0 != b.0 {
        return a.0 < b.0;
    }
    let sa = segment(logins, offsets, a.1 as usize);
    let sb = segment(logins, offsets, b.1 as usize);
    proof {
        lemma_lex_lt_not_le(sa@, sb@);
    }
    !slice_lex_le(sb, sa)
}

/// `slice::sort_unstable_by` over the entry order, comparing by key and then
/// by the login bytes each entry points at.
#[verifier::external_body]
fn sort_entry_order(order: &mut Vec<(u64, u32)>, logins: &Vec<u8>, offsets: &Vec<u32>)
    requires
        cut_ok(logins@, offsets@),
        forall|k: int| 0 <= k < old(order)@.len() ==> #[trigger] old(order)@[k].1 + 1 < offsets@.len(),
    ensures
        final(order)@.to_multiset() == old(order)@.to_multiset(),
        forall|i: int, j: int|
            0 <= i <= j < final(order)@.len() ==> !entry_order_lt(
                #[trigger] final(order)@[j],
                #[trigger] final(order)@[i],
                logins@,
                offsets@,
            ),
{
    order.sort_unstable_by(
        |a, b|
            if entry_before(*a, *b, logins, offsets) {
                std::cmp::Ordering::Less
            } else if entry_before(*b, *a, logins, offsets) {
                std::cmp::Ordering::Greater
            } else {
                std::cmp::Ordering::Equal
            },
    );
}

fn append_bytes(buf: &mut Vec<u8>, bytes: &[u8])
    ensures
        final(buf)@ == old(buf)@ + bytes@,
{
    let mut i: usize = 0;
    while i < bytes.len()
        invariant
            i <= bytes@.len(),
            buf@ == old(buf)@ + bytes@.subrange(0, i as int),
        decreases bytes@.len() - i,
    {
        buf.push(bytes[i]);
        assert(bytes@.subrange(0, i + 1) =~= bytes@.subrange(0, i as int).push(bytes@[i as int]));
        i = i + 1;
    }
    assert(bytes@.subrange(0, bytes@.len() as int) =~= bytes@);
}

/// Bytes held by the segments marked in `used`, among the first `k`.
pub open spec fn used_total(used: Seq<bool>, offs: Seq<u32>, k: int) -> int
    decreases k,
{
    if k <= 0 {
        0
    } else {
        used_total(used, offs, k - 1) + if used[k - 1] {
            offs[k] - offs[k - 1]
        } else {
            0
        }
    }
}

proof fn lemma_used_total_bound(used: Seq<bool>, offs: Seq<u32>, n: int, k: int)
    requires
        0 <= k <= n,
        offs.len() == n + 1,
        forall|i: int, j: int| 0 <= i <= j <= n ==> #[trigger] offs[i] <= #[trigger] offs[j],
    ensures
        0 <= used_total(used, offs, k) <= offs[k] - offs[0],
    decreases k,
{
    if k > 0 {
        lemma_used_total_bound(used, offs, n, k - 1);
        assert(offs[k - 1] <= offs[k]);
    }
}

proof fn lemma_used_total_mark(used: Seq<bool>, offs: Seq<u32>, idx: int, k: int)
    requires
        0 <= idx < used.len(),
        !used[idx],
        0 <= k <= used.len(),
    ensures
        used_total(used.update(idx, true), offs, k) == used_total(used, offs, k) + if k > idx {
            offs[idx + 1] - offs[idx]
        } else {
            0
        },
    decreases k,
{
    if k > 0 {
        lemma_used_total_mark(used, offs, idx, k - 1);
    }
}

/// Accumulates entries for a `SearchIndex`, copying them into the flat
/// buffers as they arrive.
pub struct SearchIndexBuilder {
    logins: Vec<u8>,
    login_offsets: Vec<u32>,
    ids: Vec<u8>,
    id_offsets: Vec<u32>,
}

impl View for SearchIndexBuilder {
    type V = Seq<(Seq<u8>, Seq<u8>)>;

    closed spec fn view(&self) -> Seq<(Seq<u8>, Seq<u8>)> {
        entries_of(
            self.logins@,
            self.login_offsets@,
            self.ids@,
            self.id_offsets@,
            self.login_offsets@.len() - 1,
        )
    }
}

impl SearchIndexBuilder {
    pub closed spec fn wf(&self) -> bool {
        buffers_ok(
            self.logins@,
            self.login_offsets@,
            self.ids@,
            self.id_offsets@,
            self.login_offsets@.len() - 1,
        )
    }

    pub fn with_capacity(entries: usize) -> (b: SearchIndexBuilder)
        requires
            entries * 16 <= isize::MAX,
        ensures
            b.wf(),
            b@.len() == 0,
    {
        let mut login_offsets: Vec<u32> = Vec::with_capacity(entries + 1);
        let mut id_offsets: Vec<u32> = Vec::with_capacity(entries + 1);
        login_offsets.push(0);
        id_offsets.push(0);
        let b = SearchIndexBuilder {
            logins: Vec::with_capacity(entries * 16),
            login_offsets,
            ids: Vec::with_capacity(entries * 10),
            id_offsets,
        };
        assert(b@ =~= Seq::<(Seq<u8>, Seq<u8>)>::empty());
        b
    }

    proof fn lemma_view_totals(&self)
        requires
            self.wf(),
        ensures
            login_total(self@) == self.logins@.len(),
            id_total(self@) == self.ids@.len(),
    {
        lemma_entries_totals(
            self.logins@,
            self.login_offsets@,
            self.ids@,
            self.id_offsets@,
            self.login_offsets@.len() - 1,
        );
    }

    /// Appends one entry. An entry that would push either buffer past what a
    /// `u32` offset can address is dropped.
    pub fn push(&mut self, login: &str, id: &str)
        requires
            old(self).wf(),
        ensures
            final(self).wf(),
            if login_total(old(self)@) + login.spec_bytes().len() > u32::MAX || id_total(old(self)@)
                + id.spec_bytes().len() > u32::MAX {
                final(self)@ == old(self)@
            } else {
                final(self)@ == old(self)@.push((login.spec_bytes(), id.spec_bytes()))
            },
    {
        proof {
            self.lemma_view_totals();
        }
        let ghost old_self = *self;
        let ghost n = self.login_offsets@.len() - 1;
        let lb = login.as_bytes();
        let ib = id.as_bytes();
        let logins_len = self.logins.len();
        let ids_len = self.ids.len();
        proof {
            assert(self.login_offsets@[n] == logins_len);
            assert(self.id_offsets@[n] == ids_len);
        }
        if lb.len() > 0xffff_ffffusize - logins_len || ib.len() > 0xffff_ffffusize - ids_len {
            return;
        }
        append_bytes(&mut self.logins, lb);
        append_bytes(&mut self.ids, ib);
        let new_login_end = self.logins.len() as u32;
        let new_id_end = self.ids.len() as u32;
        self.login_offsets.push(new_login_end);
        self.id_offsets.push(new_id_end);
        proof {
            let lo = self.login_offsets@;
            let io = self.id_offsets@;
            assert forall|i: int, j: int| 0 <= i <= j <= n + 1 implies #[trigger] lo[i] <= #[trigger] lo[j] by {
                if j == n + 1 && i <= n {
                    assert(old_self.login_offsets@[i] <= old_self.login_offsets@[n]);
                }
            }
            assert forall|i: int, j: int| 0 <= i <= j <= n + 1 implies #[trigger] io[i] <= #[trigger] io[j] by {
                if j == n + 1 && i <= n {
                    assert(old_self.id_offsets@[i] <= old_self.id_offsets@[n]);
                }
            }
            assert forall|i: int| 0 <= i <= n implies seg(self.logins@, lo, i) == if i < n {
                seg(old_self.logins@, old_self.login_offsets@, i)
            } else {
                lb@
            } by {
                if i < n {
                    assert(old_self.login_offsets@[i + 1] <= old_self.login_offsets@[n]);
                    assert(old_self.login_offsets@[i] <= old_self.login_offsets@[i + 1]);
                    assert(seg(self.logins@, lo, i) =~= seg(old_self.logins@, old_self.login_offsets@, i));
                } else {
                    assert(seg(self.logins@, lo, i) =~= lb@);
                }
            }
            assert forall|i: int| 0 <= i <= n implies seg(self.ids@, io, i) == if i < n {
                seg(old_self.ids@, old_self.id_offsets@, i)
            } else {
                ib@
            } by {
                if i < n {
                    assert(old_self.id_offsets@[i + 1] <= old_self.id_offsets@[n]);
                    assert(old_self.id_offsets@[i] <= old_self.id_offsets@[i + 1]);
                    assert(seg(self.ids@, io, i) =~= seg(old_self.ids@, old_self.id_offsets@, i));
                } else {
                    assert(seg(self.ids@, io, i) =~= ib@);
                }
            }
            assert forall|i: int| 0 <= i < n + 1 implies valid_utf8(#[trigger] seg(self.logins@, lo, i)) by {
                if i < n {
                    assert(valid_utf8(seg(old_self.logins@, old_self.login_offsets@, i)));
                }
            }
            assert forall|i: int| 0 <= i < n + 1 implies valid_utf8(#[trigger] seg(self.ids@, io, i)) by {
                if i < n {
                    assert(valid_utf8(seg(old_self.ids@, old_self.id_offsets@, i)));
                }
            }
            assert(self@ =~= old_self@.push((login.spec_bytes(), id.spec_bytes())));
        }
    }

    /// Sorts by login and lays the entries out in that order. Only the first
    /// `len as u32` entries are laid out (all of them, unless there are more
    /// than a `u32` can count).
    pub fn finish(self) -> (r: SearchIndex)
        requires
            self.wf(),
        ensures
            r@.len() == (self@.len() as u32) as int,
            exists|p: Seq<int>| permutes(r@, self@.subrange(0, r@.len() as int), p),
            forall|i: int, j: int| 0 <= i <= j < r@.len() ==> lex_le(#[trigger] r@[i].0, #[trigger] r@[j].0),
    {
        let ghost total = self.login_offsets@.len() - 1;
        let ghost old_view = self@;
        let count = self.login_offsets.len() - 1;
        let n32 = count as u32;
        let mut order: Vec<(u64, u32)> = Vec::new();
        let mut index: u32 = 0;
        while index < n32
            invariant
                self.wf(),
                total == self.login_offsets@.len() - 1,
                n32 as int <= total,
                index <= n32,
                order@.len() == index,
                forall|k: int| 0 <= k < index ==> #[trigger] order@[k] == (
                    prefix_key_spec(seg(self.logins@, self.login_offsets@, k)) as u64,
                    k as u32,
                ),
            decreases n32 - index,
        {
            let login = segment(&self.logins, &self.login_offsets, index as usize);
            proof {
                assert(prefix_key_spec(login@) < 0x1_0000_0000_0000_0000) by {
                    lemma_prefix_key_bound(login@, 8);
                    reveal_with_fuel(pow256, 9);
                }
            }
            order.push((prefix_key(login), index));
            index = index + 1;
        }
        let ghost init = order@;
        proof {
            assert(init.no_duplicates()) by {
                assert forall|i: int, j: int| 0 <= i < init.len() && 0 <= j < init.len() && i != j implies init[i] != init[j] by {
                    assert(init[i].1 == i as u32);
                    assert(init[j].1 == j as u32);
                }
            }
        }
        sort_entry_order(&mut order, &self.logins, &self.login_offsets);
        proof {
            broadcast use vstd::seq_lib::group_to_multiset_ensures;
            init.lemma_multiset_has_no_duplicates();
            assert forall|x: (u64, u32)| order@.to_multiset().contains(x) implies order@.to_multiset().count(x) == 1 by {}
            order@.lemma_multiset_has_no_duplicates_conv();
            assert(order@.to_multiset().len() == order@.len());
            assert(init.to_multiset().len() == init.len());
            assert(order@.len() == init.len());
            assert forall|k: int| 0 <= k < order@.len() implies init.contains(#[trigger] order@[k]) by {
                assert(order@.contains(order@[k]));
                assert(order@.to_multiset().count(order@[k]) > 0);
                assert(init.to_multiset().count(order@[k]) > 0);
            }
        }
        let mut sorted_logins: Vec<u8> = Vec::with_capacity(self.logins.len());
        let mut sorted_login_offsets: Vec<u32> = Vec::with_capacity(count + 1);
        let mut sorted_ids: Vec<u8> = Vec::with_capacity(self.ids.len());
        let mut sorted_id_offsets: Vec<u32> = Vec::with_capacity(count + 1);
        let mut words: Vec<u64> = Vec::with_capacity(count);
        sorted_login_offsets.push(0);
        sorted_id_offsets.push(0);
        let ghost mut used: Seq<bool> = Seq::new(total as nat, |i: int| false);
        let mut k: usize = 0;
        proof {
            lemma_used_total_zero(used, self.login_offsets@, total);
            lemma_used_total_zero(used, self.id_offsets@, total);
        }
        while k < order.len()
            invariant
                self.wf(),
                total == self.login_offsets@.len() - 1,
                n32 as int <= total,
                order@.len() == n32,
                order@.no_duplicates(),
                forall|m: int| 0 <= m < order@.len() ==> init.contains(#[trigger] order@[m]),
                forall|m: int| 0 <= m < n32 ==> #[trigger] init[m] == (
                    prefix_key_spec(seg(self.logins@, self.login_offsets@, m)) as u64,
                    m as u32,
                ),
                init.len() == n32,
                k <= order@.len(),
                used.len() == total,
                forall|i: int| 0 <= i < total ==> #[trigger] used[i] == exists|m: int|
                    0 <= m < k && order@[m].1 as int == i,
                sorted_logins@.len() == used_total(used, self.login_offsets@, total),
                sorted_ids@.len() == used_total(used, self.id_offsets@, total),
                words@.len() == k,
                buffers_ok(sorted_logins@, sorted_login_offsets@, sorted_ids@, sorted_id_offsets@, k as int),
                forall|m: int| 0 <= m < k ==> #[trigger] seg(sorted_logins@, sorted_login_offsets@, m)
                    == seg(self.logins@, self.login_offsets@, order@[m].1 as int),
                forall|m: int| 0 <= m < k ==> #[trigger] seg(sorted_ids@, sorted_id_offsets@, m)
                    == seg(self.ids@, self.id_offsets@, order@[m].1 as int),
                forall|m: int| 0 <= m < k ==> #[trigger] words@[m] == word_spec(
                    seg(sorted_logins@, sorted_login_offsets@, m),
                ),
            decreases order@.len() - k,
        {
            let index = order[k].1 as usize;
            proof {
                assert(init.contains(order@[k as int]));
                let m0 = choose|m0: int| 0 <= m0 < init.len() && init[m0] == order@[k as int];
                assert(index == m0);
                assert(!used[index as int]) by {
                    if used[index as int] {
                        let m = choose|m: int| 0 <= m < k && order@[m].1 as int == index;
                        assert(init.contains(order@[m]));
                        let m1 = choose|m1: int| 0 <= m1 < init.len() && init[m1] == order@[m];
                        assert(order@[m] == order@[k as int]);
                    }
                }
            }
            let login = segment(&self.logins, &self.login_offsets, index);
            let id = segment(&self.ids, &self.id_offsets, index);
            let ghost prev_logins = sorted_logins@;
            let ghost prev_lo = sorted_login_offsets@;
            let ghost prev_ids = sorted_ids@;
            let ghost prev_io = sorted_id_offsets@;
            words.push(word_of(login));
            append_bytes(&mut sorted_logins, login);
            append_bytes(&mut sorted_ids, id);
            proof {
                lemma_used_total_mark(used, self.login_offsets@, index as int, total);
                lemma_used_total_mark(used, self.id_offsets@, index as int, total);
                used = used.update(index as int, true);
                lemma_used_total_bound(used, self.login_offsets@, total, total);
                lemma_used_total_bound(used, self.id_offsets@, total, total);
            }
            let login_end = sorted_logins.len() as u32;
            let id_end = sorted_ids.len() as u32;
            sorted_login_offsets.push(login_end);
            sorted_id_offsets.push(id_end);
            proof {
                let lo = sorted_login_offsets@;
                let io = sorted_id_offsets@;
                let kk = k as int;
                assert forall|i: int, j: int| 0 <= i <= j <= kk + 1 implies #[trigger] lo[i] <= #[trigger] lo[j] by {
                    if j == kk + 1 && i <= kk {
                        assert(prev_lo[i] <= prev_lo[kk]);
                    }
                }
                assert forall|i: int, j: int| 0 <= i <= j <= kk + 1 implies #[trigger] io[i] <= #[trigger] io[j] by {
                    if j == kk + 1 && i <= kk {
                        assert(prev_io[i] <= prev_io[kk]);
                    }
                }
                assert forall|m: int| 0 <= m <= kk implies #[trigger] seg(sorted_logins@, lo, m)
                    == seg(self.logins@, self.login_offsets@, order@[m].1 as int) by {
                    if m < kk {
                        assert(prev_lo[m + 1] <= prev_lo[kk]);
                        assert(prev_lo[m] <= prev_lo[m + 1]);
                        assert(seg(sorted_logins@, lo, m) =~= seg(prev_logins, prev_lo, m));
                    } else {
                        assert(seg(sorted_logins@, lo, m) =~= login@);
                    }
                }
                assert forall|m: int| 0 <= m <= kk implies #[trigger] seg(sorted_ids@, io, m)
                    == seg(self.ids@, self.id_offsets@, order@[m].1 as int) by {
                    if m < kk {
                        assert(prev_io[m + 1] <= prev_io[kk]);
                        assert(prev_io[m] <= prev_io[m + 1]);
                        assert(seg(sorted_ids@, io, m) =~= seg(prev_ids, prev_io, m));
                    } else {
                        assert(seg(sorted_ids@, io, m) =~= id@);
                    }
                }
                assert forall|m: int| 0 <= m < kk + 1 implies valid_utf8(#[trigger] seg(sorted_logins@, lo, m)) by {
                    assert(valid_utf8(seg(self.logins@, self.login_offsets@, order@[m].1 as int)));
                }
                assert forall|m: int| 0 <= m < kk + 1 implies valid_utf8(#[trigger] seg(sorted_ids@, io, m)) by {
                    assert(valid_utf8(seg(self.ids@, self.id_offsets@, order@[m].1 as int)));
                }
                assert forall|m: int| 0 <= m < kk + 1 implies #[trigger] words@[m] == word_spec(
                    seg(sorted_logins@, lo, m),
                ) by {
                    if m < kk {
                        assert(seg(sorted_logins@, lo, m) == seg(prev_logins, prev_lo, m));
                    }
                }
                assert forall|i: int| 0 <= i < total implies #[trigger] used[i] == exists|m: int|
                    0 <= m < kk + 1 && order@[m].1 as int == i by {
                    if i == index as int {
                        assert(order@[kk].1 as int == i);
                    }
                }
            }
            k = k + 1;
        }
        proof {
            let lo = sorted_login_offsets@;
            assert forall|i: int, j: int| 0 <= i <= j < n32 implies lex_le(
                #[trigger] seg(sorted_logins@, lo, i),
                #[trigger] seg(sorted_logins@, lo, j),
            ) by {
                let a = order@[i];
                let b = order@[j];
                assert(!entry_order_lt(b, a, self.logins@, self.login_offsets@));
                assert(init.contains(a));
                assert(init.contains(b));
                let ia = choose|m: int| 0 <= m < init.len() && init[m] == a;
                let ib = choose|m: int| 0 <= m < init.len() && init[m] == b;
                let sa = seg(self.logins@, self.login_offsets@, a.1 as int);
                let sb = seg(self.logins@, self.login_offsets@, b.1 as int);
                lemma_lex_lt_not_le(sb, sa);
                lemma_lex_le_total(sa, sb);
                assert(a.1 as int == ia);
                assert(b.1 as int == ib);
                lemma_prefix_key_bound(sa, 8);
                lemma_prefix_key_bound(sb, 8);
                assert(pow256(8) == 0x1_0000_0000_0000_0000) by {
                    reveal_with_fuel(pow256, 9);
                }
                if a.0 < b.0 {
                    lemma_prefix_key_order(sa, sb);
                }
            }
        }

        let r = SearchIndex {
            logins: sorted_logins,
            login_offsets: sorted_login_offsets,
            ids: sorted_ids,
            id_offsets: sorted_id_offsets,
            words,
        };
        proof {
            let p = Seq::new(n32 as nat, |m: int| order@[m].1 as int);
            let sub = old_view.subrange(0, n32 as int);
            assert forall|m: int| 0 <= m < p.len() implies 0 <= #[trigger] p[m] < sub.len() && r@[m] == sub[p[m]] by {
                assert(init.contains(order@[m]));
                let i0 = choose|i0: int| 0 <= i0 < init.len() && init[i0] == order@[m];
                assert(r@[m].0 == seg(r.logins@, r.login_offsets@, m));
                assert(r@[m].1 == seg(r.ids@, r.id_offsets@, m));
            }
            assert forall|k1: int, k2: int| 0 <= k1 < k2 < p.len() implies #[trigger] p[k1] != #[trigger] p[k2] by {
                assert(order@[k1] != order@[k2]);
                assert(init.contains(order@[k1]));
                assert(init.contains(order@[k2]));
                let i1 = choose|i: int| 0 <= i < init.len() && init[i] == order@[k1];
                let i2 = choose|i: int| 0 <= i < init.len() && init[i] == order@[k2];
            }
            assert(permutes(r@, sub, p));
            assert forall|i: int, j: int| 0 <= i <= j < r@.len() implies lex_le(#[trigger] r@[i].0, #[trigger] r@[j].0) by {
                assert(r@[i].0 == seg(r.logins@, r.login_offsets@, i));
                assert(r@[j].0 == seg(r.logins@, r.login_offsets@, j));
            }
        }
        r
    }
}

proof fn lemma_used_total_zero(used: Seq<bool>, offs: Seq<u32>, k: int)
    requires
        forall|i: int| 0 <= i < used.len() ==> !#[trigger] used[i],
        k <= used.len(),
    ensures
        used_total(used, offs, k) == 0,
    decreases k,
{
    if k > 0 {
        lemma_used_total_zero(used, offs, k - 1);
    }
}


/// Entries whose login starts with `q`.
pub open spec fn prefixed(e: Seq<(Seq<u8>, Seq<u8>)>, q: Seq<u8>) -> spec_fn(int) -> bool {
    |j: int| 0 <= j < e.len() && starts_with(e[j].0, q)
}

/// Entries whose login contains `q` as a subsequence.
pub open spec fn matching(e: Seq<(Seq<u8>, Seq<u8>)>, q: Seq<u8>) -> spec_fn(int) -> bool {
    |j: int| 0 <= j < e.len() && score_spec(q, e[j].0) is Some
}

/// An entry's rank key: its packed score.
pub open spec fn score_key(e: Seq<(Seq<u8>, Seq<u8>)>, q: Seq<u8>) -> spec_fn(int) -> int {
    |j: int| pack_score(score_spec(q, e[j].0).unwrap())
}

/// An entry's rank key among prefix matches: its saturated login length.
pub open spec fn len_key(e: Seq<(Seq<u8>, Seq<u8>)>) -> spec_fn(int) -> int {
    |j: int| sat_len(e[j].0)
}

/// How many entries' logins start with `q`.
pub open spec fn count_prefixed(e: Seq<(Seq<u8>, Seq<u8>)>, q: Seq<u8>) -> int
    decreases e.len(),
{
    if e.len() == 0 {
        0
    } else {
        count_prefixed(e.drop_last(), q) + if starts_with(e.last().0, q) {
            1int
        } else {
            0
        }
    }
}

/// The channels `r` are the entries `best` selects, in order.
pub open spec fn channels_of(r: Seq<Channel>, e: Seq<(Seq<u8>, Seq<u8>)>, best: Seq<(u128, usize)>) -> bool {
    &&& r.len() == best.len()
    &&& forall|k: int| 0 <= k < r.len() ==> channel_is_entry(#[trigger] r[k], e[best[k].1 as int])
}

/// What `search` returns for `query` (its bytes) and `limit`.
pub open spec fn search_result(
    e: Seq<(Seq<u8>, Seq<u8>)>,
    q: Seq<u8>,
    limit: int,
    r: Seq<Channel>,
) -> bool {
    if limit == 0 || e.len() == 0 || q.len() == 0 || q.len() > MAX_QUERY_LEN {
        r.len() == 0
    } else if count_prefixed(e, q) >= limit {
        exists|best: Seq<(u128, usize)>|
            is_top(best, prefixed(e, q), len_key(e), limit) && channels_of(r, e, best)
    } else {
        exists|best: Seq<(u128, usize)>|
            is_top(best, matching(e, q), score_key(e, q), limit) && channels_of(r, e, best)
    }
}

proof fn lemma_count_range(e: Seq<(Seq<u8>, Seq<u8>)>, q: Seq<u8>, lo: int, hi: int)
    requires
        0 <= lo <= hi <= e.len(),
        forall|j: int| 0 <= j < e.len() ==> (starts_with(#[trigger] e[j].0, q) <==> lo <= j < hi),
    ensures
        count_prefixed(e, q) == hi - lo,
    decreases e.len(),
{
    if e.len() > 0 {
        let n = e.len() - 1;
        let e1 = e.drop_last();
        if hi == e.len() && lo < hi {
            assert forall|j: int| 0 <= j < e1.len() implies (starts_with(#[trigger] e1[j].0, q) <==> lo <= j
                < n) by {
                assert(e1[j] == e[j]);
            }
            assert(starts_with(e[n].0, q));
            lemma_count_range(e1, q, lo, n);
        } else {
            let h = if hi > n {
                n
            } else {
                hi
            };
            let l = if lo > h {
                h
            } else {
                lo
            };
            assert forall|j: int| 0 <= j < e1.len() implies (starts_with(#[trigger] e1[j].0, q) <==> l <= j
                < h) by {
                assert(e1[j] == e[j]);
            }
            assert(!starts_with(e[n].0, q));
            lemma_count_range(e1, q, l, h);
        }
    }
}

impl SearchIndex {
    /// The partition point of a binary search over the sorted logins:
    /// with `past_prefix` unset, the first entry not below `prefix`; with it
    /// set, the first entry past every login that starts with `prefix`.
    fn bound(&self, prefix: &[u8], past_prefix: bool) -> (r: usize)
        ensures
            r <= self@.len(),
            forall|j: int| 0 <= j < r ==> #[trigger] self.before(prefix@, past_prefix, self@[j].0),
            forall|j: int| r <= j < self@.len() ==> !#[trigger] self.before(prefix@, past_prefix, self@[j].0),
    {
        proof {
            use_type_invariant(self);
        }
        let mut low: usize = 0;
        let mut high: usize = self.len();
        while low < high
            invariant
                low <= high <= self@.len(),
                self.inv(),
                forall|j: int| 0 <= j < low ==> #[trigger] self.before(prefix@, past_prefix, self@[j].0),
                forall|j: int| high <= j < self@.len() ==> !#[trigger] self.before(prefix@, past_prefix, self@[j].0),
            decreases high - low,
        {
            let mid = low + (high - low) / 2;
            let login = self.login(mid);
            let before = if login.len() >= prefix.len() && slice_starts_with(login, prefix) {
                past_prefix
            } else {
                proof {
                    lemma_lex_lt_not_le(login@, prefix@);
                }
                !slice_lex_le(prefix, login)
            };
            proof {
                assert(before == self.before(prefix@, past_prefix, self@[mid as int].0));
                if before {
                    assert forall|j: int| 0 <= j <= mid implies #[trigger] self.before(prefix@, past_prefix, self@[j].0) by {
                        self.lemma_sorted(j, mid as int);
                        lemma_before_down(prefix@, past_prefix, self@[j].0, self@[mid as int].0);
                    }
                } else {
                    assert forall|j: int| mid <= j < self@.len() implies !#[trigger] self.before(prefix@, past_prefix, self@[j].0) by {
                        self.lemma_sorted(mid as int, j);
                        if self.before(prefix@, past_prefix, self@[j].0) {
                            lemma_before_down(prefix@, past_prefix, self@[mid as int].0, self@[j].0);
                        }
                    }
                }
            }
            if before {
                low = mid + 1;
            } else {
                high = mid;
            }
        }
        low
    }

    /// Whether `login` sorts before the partition point `bound` searches for.
    pub open spec fn before(&self, prefix: Seq<u8>, past_prefix: bool, login: Seq<u8>) -> bool {
        if starts_with(login, prefix) {
            past_prefix
        } else {
            lex_lt(login, prefix)
        }
    }

    proof fn lemma_sorted(&self, i: int, j: int)
        requires
            self.inv(),
            0 <= i <= j < self@.len(),
        ensures
            lex_le(self@[i].0, self@[j].0),
    {
        assert(lex_le(
            seg(self.logins@, self.login_offsets@, i),
            seg(self.logins@, self.login_offsets@, j),
        ));
    }

    /// The range of entries whose login starts with `prefix`.
    fn prefix_range(&self, prefix: &[u8]) -> (r: (usize, usize))
        ensures
            r.0 <= r.1 <= self@.len(),
            forall|j: int| 0 <= j < self@.len() ==> (starts_with(#[trigger] self@[j].0, prefix@) <==> r.0 <= j < r.1),
    {
        let lo = self.bound(prefix, false);
        let hi = self.bound(prefix, true);
        proof {
            assert forall|j: int| 0 <= j < self@.len() implies (starts_with(#[trigger] self@[j].0, prefix@) <==> lo <= j < hi) by {
                if starts_with(self@[j].0, prefix@) {
                    assert(!self.before(prefix@, false, self@[j].0) ==> j >= lo);
                    if j < lo {
                        assert(self.before(prefix@, false, self@[j].0));
                    }
                    if j >= hi {
                        assert(!self.before(prefix@, true, self@[j].0));
                    }
                } else {
                    if lo <= j && j < hi {
                        assert(!self.before(prefix@, false, self@[j].0));
                        assert(self.before(prefix@, true, self@[j].0));
                    }
                }
            }
            if lo > hi {
                assert(self.before(prefix@, false, self@[hi as int].0));
                assert(!self.before(prefix@, true, self@[hi as int].0));
            }
        }
        (lo, hi)
    }
}

/// `before` is closed downwards in byte order.
proof fn lemma_before_down(p: Seq<u8>, past: bool, a: Seq<u8>, b: Seq<u8>)
    requires
        lex_le(a, b),
        (if starts_with(b, p) {
            past
        } else {
            lex_lt(b, p)
        }),
    ensures
        (if starts_with(a, p) {
            past
        } else {
            lex_lt(a, p)
        }),
{
    lemma_lex_lt_not_le(a, p);
    lemma_lex_lt_not_le(b, p);
    if starts_with(b, p) {
        if !starts_with(a, p) && lex_le(p, a) {
            lemma_between_prefix(p, a, b);
        }
    } else {
        if lex_le(p, a) {
            lemma_lex_le_trans(p, a, b);
        }
        if starts_with(a, p) {
            lemma_prefix_le(a, p);
            lemma_lex_le_trans(p, a, b);
        }
    }
}


proof fn lemma_encode_nonempty(c: Seq<char>)
    requires
        c.len() > 0,
    ensures
        encode_utf8(c).len() > 0,
{
    assert(encode_scalar(c[0] as u32).len() > 0);
}

impl SearchIndex {
    proof fn lemma_entry(&self, j: int)
        requires
            self.inv(),
            0 <= j < self@.len(),
        ensures
            self.words@[j] == word_spec(self@[j].0),
            self@[j].0.len() <= u32::MAX,
            self@[j].0 == seg(self.logins@, self.login_offsets@, j),
    {
        let n = self.words@.len() as int;
        assert(self.login_offsets@[j] <= self.login_offsets@[j + 1]);
        assert(self.login_offsets@[j + 1] <= self.login_offsets@[n]);
        assert(self.words@[j] == word_spec(seg(self.logins@, self.login_offsets@, j)));
    }

    /// The channels of the selected entries, in order.
    fn collect(&self, best: &Vec<(u128, usize)>) -> (r: Vec<Channel>)
        requires
            forall|k: int| 0 <= k < best@.len() ==> #[trigger] best@[k].1 < self@.len(),
        ensures
            channels_of(r@, self@, best@),
    {
        let mut r: Vec<Channel> = Vec::new();
        let mut k: usize = 0;
        while k < best.len()
            invariant
                k <= best@.len(),
                forall|m: int| 0 <= m < best@.len() ==> #[trigger] best@[m].1 < self@.len(),
                r@.len() == k,
                forall|m: int| 0 <= m < k ==> channel_is_entry(#[trigger] r@[m], self@[best@[m].1 as int]),
            decreases best@.len() - k,
        {
            assert(best@[k as int].1 < self@.len());
            r.push(self.channel(best[k].1));
            k = k + 1;
        }
        r
    }

    /// Ranks a range that is entirely exact/prefix matches by saturated
    /// login length, then by position.
    fn rank_prefixed(&self, lo: usize, hi: usize, limit: usize, Ghost(q): Ghost<Seq<u8>>) -> (r: Vec<Channel>)
        requires
            limit > 0,
            lo <= hi <= self@.len(),
            forall|j: int| 0 <= j < self@.len() ==> (starts_with(#[trigger] self@[j].0, q) <==> lo <= j < hi),
        ensures
            exists|best: Seq<(u128, usize)>|
                is_top(best, prefixed(self@, q), len_key(self@), limit as int) && channels_of(r@, self@, best),
    {
        proof {
            use_type_invariant(self);
        }
        let ghost e = self@;
        let ghost keyf = len_key(e);
        let mut top = TopK::new(limit);
        let mut index = lo;
        proof {
            lemma_top_pool_ext(top.best@, |j: int| false, |j: int| lo <= j < index, keyf, limit as int);
        }
        while index < hi
            invariant
                self.inv(),
                e == self@,
                keyf == len_key(e),
                lo <= index <= hi <= e.len(),
                top.limit == limit,
                limit > 0,
                is_top(top.best@, |j: int| lo <= j < index, keyf, limit as int),
            decreases hi - index,
        {
            proof {
                self.lemma_entry(index as int);
                lemma_word_len(e[index as int].0);
            }
            let len = word_len(self.words[index]);
            let ghost pool = |j: int| lo <= j < index;
            top.offer(len as u128, index, Ghost(pool), Ghost(keyf));
            proof {
                lemma_top_pool_ext(top.best@, |j: int| pool(j) || j == index as int, |j: int| lo <= j < index + 1, keyf, limit as int);
            }
            index = index + 1;
        }
        proof {
            lemma_top_pool_ext(top.best@, |j: int| lo <= j < hi, prefixed(e, q), keyf, limit as int);
            assert forall|k: int| 0 <= k < top.best@.len() implies #[trigger] top.best@[k].1 < self@.len() by {
                assert(prefixed(e, q)(top.best@[k].1 as int));
            }
        }
        self.collect(&top.best)
    }

    /// Scores and offers one run of entries, none of which is an exact or
    /// prefix match, skipping what provably cannot make the results.
    fn scan_segment(
        &self,
        matcher: &Matcher,
        mask: u64,
        start: usize,
        end: usize,
        top: &mut TopK,
        Ghost(p): Ghost<spec_fn(int) -> bool>,
    )
        requires
            matcher.wf(),
            mask == mask_spec(matcher.query@),
            start <= end <= self@.len(),
            forall|j: int| start <= j < end ==> !starts_with(#[trigger] self@[j].0, matcher.query@) && !p(j),
            old(top).limit > 0,
            is_top(
                old(top).best@,
                |j: int| p(j) && matching(self@, matcher.query@)(j),
                score_key(self@, matcher.query@),
                old(top).limit as int,
            ),
        ensures
            final(top).limit == old(top).limit,
            is_top(
                final(top).best@,
                |j: int| (p(j) || start <= j < end) && matching(self@, matcher.query@)(j),
                score_key(self@, matcher.query@),
                final(top).limit as int,
            ),
    {
        proof {
            use_type_invariant(self);
        }
        let ghost e = self@;
        let ghost q = matcher.query@;
        let ghost keyf = score_key(e, q);
        let ghost limit = top.limit as int;
        let qlen = matcher.query.len();
        let mut block_start = start;
        proof {
            lemma_top_pool_ext(top.best@, |j: int| p(j) && matching(e, q)(j), |j: int| (p(j) || start <= j < block_start) && matching(e, q)(j), keyf, limit);
        }
        while block_start < end
            invariant
                self.inv(),
                matcher.wf(),
                e == self@,
                q == matcher.query@,
                qlen == q.len(),
                keyf == score_key(e, q),
                mask == mask_spec(q),
                start <= block_start <= end <= e.len(),
                forall|j: int| start <= j < end ==> !starts_with(#[trigger] e[j].0, q) && !p(j),
                top.limit == limit,
                limit > 0,
                is_top(top.best@, |j: int| (p(j) || start <= j < block_start) && matching(e, q)(j), keyf, limit),
            decreases end - block_start,
        {
            let block_end = if end - block_start > BLOCK {
                block_start + BLOCK
            } else {
                end
            };
            let mut hit = false;
            let mut i = block_start;
            while i < block_end
                invariant
                    block_start <= i <= block_end <= e.len(),
                    self.inv(),
                    e == self@,
                    hit == exists|j: int| block_start <= j < i && #[trigger] self.words@[j] & mask == mask,
                decreases block_end - i,
            {
                proof {
                    self.lemma_entry(i as int);
                }
                let passes = self.words[i] & mask == mask;
                hit = hit || passes;
                i = i + 1;
            }
            if hit {
                let mut index = block_start;
                while index < block_end
                    invariant
                        self.inv(),
                        matcher.wf(),
                        e == self@,
                        q == matcher.query@,
                        qlen == q.len(),
                        keyf == score_key(e, q),
                        mask == mask_spec(q),
                        start <= block_start <= index <= block_end <= end <= e.len(),
                        forall|j: int| start <= j < end ==> !starts_with(#[trigger] e[j].0, q) && !p(j),
                        top.limit == limit,
                        limit > 0,
                        is_top(top.best@, |j: int| (p(j) || start <= j < index) && matching(e, q)(j), keyf, limit),
                    decreases block_end - index,
                {
                    let ghost pool = |j: int| (p(j) || start <= j < index) && matching(e, q)(j);
                    let ghost next = |j: int| (p(j) || start <= j < index + 1) && matching(e, q)(j);
                    proof {
                        self.lemma_entry(index as int);
                        lemma_word_len(e[index as int].0);
                        assert(!starts_with(e[index as int].0, q));
                        assert(!p(index as int));
                    }
                    let word = self.words[index];
                    if word & mask != mask {
                        proof {
                            if matching(e, q)(index as int) {
                                self.lemma_matches_subseq(q, index as int);
                                lemma_match_needs_mask(q, e[index as int].0);
                            }
                            lemma_top_pool_ext(top.best@, pool, next, keyf, limit);
                        }
                    } else {
                        let len = word_len(word);
                        if len < qlen {
                            proof {
                                if matching(e, q)(index as int) {
                                    self.lemma_matches_subseq(q, index as int);
                                    lemma_subseq_len(q, e[index as int].0);
                                }
                                lemma_top_pool_ext(top.best@, pool, next, keyf, limit);
                            }
                        } else {
                            let mut pruned = false;
                            if top.best.len() == top.limit {
                                let worst = top.best[top.limit - 1];
                                let bound = Score { rank: 2, span: qlen as u32, offset: 1, len: len as u32 }.packed();
                                if !(bound < worst.0 || (bound == worst.0 && index < worst.1)) {
                                    pruned = true;
                                    proof {
                                        if matching(e, q)(index as int) {
                                            lemma_score_lower_bound(q, e[index as int].0, len as int);
                                            assert(pool(worst.1 as int));
                                            lemma_top_add_worse(top.best@, pool, keyf, limit, index as int);
                                            lemma_top_pool_ext(top.best@, |j: int| pool(j) || j == index as int, next, keyf, limit);
                                        } else {
                                            lemma_top_pool_ext(top.best@, pool, next, keyf, limit);
                                        }
                                    }
                                }
                            }
                            if !pruned {
                                match matcher.score(self.login(index)) {
                                    None => {
                                        proof {
                                            lemma_top_pool_ext(top.best@, pool, next, keyf, limit);
                                        }
                                    },
                                    Some(score) => {
                                        top.offer(score.packed(), index, Ghost(pool), Ghost(keyf));
                                        proof {
                                            lemma_top_pool_ext(top.best@, |j: int| pool(j) || j == index as int, next, keyf, limit);
                                        }
                                    },
                                }
                            }
                        }
                    }
                    index = index + 1;
                }
                proof {
                    lemma_top_pool_ext(top.best@, |j: int| (p(j) || start <= j < block_end) && matching(e, q)(j), |j: int| (p(j) || start <= j < block_end) && matching(e, q)(j), keyf, limit);
                }
            } else {
                proof {
                    assert forall|j: int| block_start <= j < block_end implies !#[trigger] matching(e, q)(j) by {
                        self.lemma_entry(j);
                        if matching(e, q)(j) {
                            self.lemma_matches_subseq(q, j);
                            lemma_match_needs_mask(q, e[j].0);
                            assert(self.words@[j] & mask == mask);
                        }
                    }
                    lemma_top_pool_ext(top.best@, |j: int| (p(j) || start <= j < block_start) && matching(e, q)(j), |j: int| (p(j) || start <= j < block_end) && matching(e, q)(j), keyf, limit);
                }
            }
            block_start = block_end;
        }
    }

    proof fn lemma_matches_subseq(&self, q: Seq<u8>, j: int)
        requires
            matching(self@, q)(j),
        ensures
            is_subseq(q, self@[j].0),
    {
        if self@[j].0 == q {
            super::fuzzy::lemma_subseq_refl(q);
        }
    }

    /// Full scan for queries with too few prefix matches to fill the results.
    fn scan(&self, query: &[u8], lo: usize, hi: usize, limit: usize) -> (r: Vec<Channel>)
        requires
            limit > 0,
            1 <= query@.len() <= MAX_QUERY_LEN,
            lo <= hi <= self@.len(),
            forall|j: int| 0 <= j < self@.len() ==> (starts_with(#[trigger] self@[j].0, query@) <==> lo <= j < hi),
        ensures
            exists|best: Seq<(u128, usize)>|
                is_top(best, matching(self@, query@), score_key(self@, query@), limit as int) && channels_of(r@, self@, best),
    {
        proof {
            use_type_invariant(self);
        }
        let ghost e = self@;
        let ghost q = query@;
        let ghost keyf = score_key(e, q);
        let matcher = Matcher::new(query);
        let mut top = TopK::new(limit);
        let mut index = lo;
        proof {
            lemma_top_pool_ext(top.best@, |j: int| false, |j: int| lo <= j < index && matching(e, q)(j), keyf, limit as int);
        }
        while index < hi
            invariant
                self.inv(),
                matcher.wf(),
                matcher.query@ == q,
                e == self@,
                keyf == score_key(e, q),
                lo <= index <= hi <= e.len(),
                top.limit == limit,
                limit > 0,
                is_top(top.best@, |j: int| lo <= j < index && matching(e, q)(j), keyf, limit as int),
            decreases hi - index,
        {
            let ghost pool = |j: int| lo <= j < index && matching(e, q)(j);
            let ghost next = |j: int| lo <= j < index + 1 && matching(e, q)(j);
            proof {
                self.lemma_entry(index as int);
            }
            match matcher.score(self.login(index)) {
                None => {
                    proof {
                        lemma_top_pool_ext(top.best@, pool, next, keyf, limit as int);
                    }
                },
                Some(score) => {
                    top.offer(score.packed(), index, Ghost(pool), Ghost(keyf));
                    proof {
                        lemma_top_pool_ext(top.best@, |j: int| pool(j) || j == index as int, next, keyf, limit as int);
                    }
                },
            }
            index = index + 1;
        }
        let mask = mask_of(query);
        let ghost p1 = |j: int| lo <= j < hi;
        proof {
            lemma_top_pool_ext(top.best@, |j: int| lo <= j < hi && matching(e, q)(j), |j: int| p1(j) && matching(e, q)(j), keyf, limit as int);
        }
        self.scan_segment(&matcher, mask, 0, lo, &mut top, Ghost(p1));
        let ghost p2 = |j: int| lo <= j < hi || 0 <= j < lo;
        proof {
            lemma_top_pool_ext(top.best@, |j: int| (p1(j) || 0 <= j < lo) && matching(e, q)(j), |j: int| p2(j) && matching(e, q)(j), keyf, limit as int);
        }
        let len = self.len();
        self.scan_segment(&matcher, mask, hi, len, &mut top, Ghost(p2));
        proof {
            lemma_top_pool_ext(top.best@, |j: int| (p2(j) || hi <= j < len) && matching(e, q)(j), matching(e, q), keyf, limit as int);
            assert forall|k: int| 0 <= k < top.best@.len() implies #[trigger] top.best@[k].1 < self@.len() by {
                assert(matching(e, q)(top.best@[k].1 as int));
            }
        }
        self.collect(&top.best)
    }

    /// The best `limit` channels for an already-normalized, non-empty
    /// `query`, best match first.
    ///
    /// When at least `limit` logins start with the query, those are ranked by
    /// (saturated) length and then alphabetically; otherwise every login that
    /// contains the query as a subsequence is ranked by its score and then
    /// alphabetically.
    pub fn search(&self, query: &str, limit: usize) -> (r: Vec<Channel>)
        ensures
            search_result(self@, query.spec_bytes(), limit as int, r@),
    {
        proof {
            if query@.len() > 0 {
                lemma_encode_nonempty(query@);
            }
        }
        let q = query.as_bytes();
        if limit == 0 || self.len() == 0 || query.is_empty() || q.len() > MAX_QUERY_LEN {
            return Vec::new();
        }
        let range = self.prefix_range(q);
        let lo = range.0;
        let hi = range.1;
        proof {
            lemma_count_range(self@, q@, lo as int, hi as int);
        }
        if hi - lo >= limit {
            return self.rank_prefixed(lo, hi, limit, Ghost(q@));
        }
        self.scan(q, lo, hi, limit)
    }
}

} // verus!
