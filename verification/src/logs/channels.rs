//! An instance's `/channels` list, arranged so a membership test is a
//! binary search instead of a scan.
use vstd::prelude::*;
use vstd::utf8::*;
use vstd::string::StringSliceAdditionalSpecFns;
use crate::order::{lex_le, lex_lt, lemma_lex_le_refl, lemma_lex_le_trans, lemma_lex_le_total, lemma_lex_le_antisym, lemma_lex_lt_not_le, slice_lex_le, slice_eq};
use super::Channel;

verus! {

broadcast use {vstd::utf8::encode_utf8_decode_utf8, vstd::seq_lib::group_to_multiset_ensures};

/// The bytes of a channel's login.
pub open spec fn name_bytes(c: Channel) -> Seq<u8> {
    encode_utf8(c.name@)
}

/// The bytes of a channel's user id.
pub open spec fn id_bytes(c: Channel) -> Seq<u8> {
    encode_utf8(c.user_id@)
}

/// Channels in non-decreasing login order.
pub open spec fn sorted_by_name(s: Seq<Channel>) -> bool {
    forall|i: int, j: int| 0 <= i <= j < s.len() ==> lex_le(name_bytes(#[trigger] s[i]), name_bytes(#[trigger] s[j]))
}

/// Whether `value` is the login of one of `s`, or the user id of one of the
/// first `u32::MAX` of them.
pub open spec fn lists_channel(s: Seq<Channel>, value: Seq<char>) -> bool {
    (exists|i: int| 0 <= i < s.len() && #[trigger] s[i].name@ == value) || (exists|i: int|
        0 <= i < id_index_len(s.len() as int) && #[trigger] s[i].user_id@ == value)
}

/// How many channels the id index covers: all of them, up to what a `u32` can address.
pub open spec fn id_index_len(n: int) -> int {
    if n < u32::MAX {
        n
    } else {
        u32::MAX as int
    }
}

/// `slice::sort_unstable_by` on the channels, ordering them by login
/// (`str`'s order, which is lexicographic on the bytes).
#[verifier::external_body]
fn sort_by_name(channels: &mut Vec<Channel>)
    ensures
        final(channels)@.to_multiset() == old(channels)@.to_multiset(),
        sorted_by_name(final(channels)@),
{
    channels.sort_unstable_by(|a, b| a.name.cmp(&b.name));
}

/// The channel at position `i`.
pub open spec fn chan_at(channels: Seq<Channel>, i: u32) -> Channel {
    channels[i as int]
}

/// The user id of the channel at position `i`.
fn id_of(channels: &Vec<Channel>, i: u32) -> (r: &String)
    requires
        i < channels@.len(),
    ensures
        r == channels@[i as int].user_id,
{
    &channels[i as usize].user_id
}

/// `slice::sort_unstable_by` on the id index, ordering the positions it
/// holds by the user id of the channel at each (lexicographic on the bytes).
#[verifier::external_body]
fn sort_by_id(by_id: &mut Vec<u32>, channels: &Vec<Channel>)
    requires
        forall|k: int| 0 <= k < old(by_id)@.len() ==> #[trigger] old(by_id)@[k] < channels@.len(),
    ensures
        final(by_id)@.to_multiset() == old(by_id)@.to_multiset(),
        forall|i: int, j: int|
            0 <= i <= j < final(by_id)@.len() ==> lex_le(
                id_bytes(chan_at(channels@, #[trigger] final(by_id)@[i])),
                id_bytes(chan_at(channels@, #[trigger] final(by_id)@[j])),
            ),
{
    by_id.sort_unstable_by(|&a, &b| id_of(channels, a).cmp(id_of(channels, b)));
}

/// An instance's channel list: `channels` sorted by login, `by_id` the
/// positions of the first `id_index_len` of them sorted by user id.
pub struct InstanceChannels {
    channels: Vec<Channel>,
    by_id: Vec<u32>,
}

impl View for InstanceChannels {
    type V = Seq<Channel>;

    closed spec fn view(&self) -> Seq<Channel> {
        self.channels@
    }
}

impl InstanceChannels {
    #[verifier::type_invariant]
    closed spec fn inv(&self) -> bool {
        let n = self.channels@.len() as int;
        &&& sorted_by_name(self.channels@)
        &&& self.by_id@.len() == id_index_len(n)
        &&& forall|k: int| 0 <= k < self.by_id@.len() ==> #[trigger] self.by_id@[k] < id_index_len(n)
        &&& self.by_id@.no_duplicates()
        &&& forall|i: int, j: int|
            0 <= i <= j < self.by_id@.len() ==> lex_le(
                id_bytes(self.channels@[#[trigger] self.by_id@[i] as int]),
                id_bytes(self.channels@[#[trigger] self.by_id@[j] as int]),
            )
    }

    /// Arranges `channels` for lookup: sorted by login, with an id index over
    /// the first `u32::MAX` of them.
    pub fn new(channels: Vec<Channel>) -> (r: InstanceChannels)
        ensures
            r@.to_multiset() == channels@.to_multiset(),
            sorted_by_name(r@),
    {
        let mut channels = channels;
        let total = channels.len();
        let len: usize = if total < 0xffff_ffffusize {
            total
        } else {
            0xffff_ffffusize
        };
        sort_by_name(&mut channels);
        assert(channels@.to_multiset().len() == channels@.len());
        let mut by_id: Vec<u32> = Vec::new();
        let mut i: u32 = 0;
        while (i as usize) < len
            invariant
                len <= 0xffff_ffff,
                len == id_index_len(channels@.len() as int),
                i <= len,
                by_id@.len() == i,
                forall|k: int| 0 <= k < i ==> #[trigger] by_id@[k] == k,
            decreases len - i,
        {
            by_id.push(i);
            i = i + 1;
        }
        let ghost init = by_id@;
        proof {
            assert(init.no_duplicates());
            init.lemma_multiset_has_no_duplicates();
        }
        sort_by_id(&mut by_id, &channels);
        proof {
            assert forall|x: u32| by_id@.to_multiset().contains(x) implies by_id@.to_multiset().count(x) == 1 by {}
            by_id@.lemma_multiset_has_no_duplicates_conv();
            assert(by_id@.to_multiset().len() == by_id@.len());
            assert(init.to_multiset().len() == init.len());
            assert forall|k: int| 0 <= k < by_id@.len() implies #[trigger] by_id@[k] < id_index_len(channels@.len() as int) by {
                assert(by_id@.contains(by_id@[k]));
                assert(by_id@.to_multiset().count(by_id@[k]) > 0);
                assert(init.contains(by_id@[k]));
            }
        }
        InstanceChannels { channels, by_id }
    }

    pub fn empty() -> (r: InstanceChannels)
        ensures
            r@.len() == 0,
    {
        InstanceChannels { channels: Vec::new(), by_id: Vec::new() }
    }

    /// Whether any channel here matches `value` as either a login or a
    /// Twitch user id. Only the channels the id index covers are matched by id.
    pub fn contains(&self, value: &str) -> (r: bool)
        ensures
            r == lists_channel(self@, value@),
    {
        proof {
            use_type_invariant(self);
        }
        let v = value.as_bytes();
        let by_name = self.find_name(v);
        let by_id = self.find_id(v);
        proof {
            let n = self@.len() as int;
            if by_name {
                let i = choose|i: int| 0 <= i < n && name_bytes(self@[i]) == v@;
                assert(decode_utf8(name_bytes(self@[i])) == decode_utf8(v@));
                assert(self@[i].name@ == value@);
            } else {
                assert forall|i: int| 0 <= i < n implies #[trigger] self@[i].name@ != value@ by {
                    if self@[i].name@ == value@ {
                        assert(name_bytes(self@[i]) == v@);
                    }
                }
            }
            if by_id {
                let k = choose|k: int| 0 <= k < self.by_id@.len() && id_bytes(self@[self.by_id@[k] as int]) == v@;
                let i = self.by_id@[k] as int;
                assert(decode_utf8(id_bytes(self@[i])) == decode_utf8(v@));
                assert(self@[i].user_id@ == value@);
            } else {
                assert forall|i: int| 0 <= i < id_index_len(n) implies #[trigger] self@[i].user_id@ != value@ by {
                    if self@[i].user_id@ == value@ {
                        self.lemma_id_covered(i);
                        let k = choose|k: int| 0 <= k < self.by_id@.len() && self.by_id@[k] as int == i;
                        assert(id_bytes(self@[self.by_id@[k] as int]) == v@);
                    }
                }
            }
        }
        by_name || by_id
    }

    /// Every position the id index covers is in it.
    proof fn lemma_id_covered(&self, i: int)
        requires
            self.inv(),
            0 <= i < id_index_len(self@.len() as int),
        ensures
            exists|k: int| 0 <= k < self.by_id@.len() && self.by_id@[k] as int == i,
    {
        let n = id_index_len(self@.len() as int);
        let s = self.by_id@;
        if !(exists|k: int| 0 <= k < s.len() && s[k] as int == i) {
            lemma_pigeonhole(s, n, i);
        }
    }

    /// Binary search of the logins for `v`.
    fn find_name(&self, v: &[u8]) -> (r: bool)
        requires
            self.inv(),
        ensures
            r == exists|i: int| 0 <= i < self@.len() && name_bytes(#[trigger] self@[i]) == v@,
    {
        let mut lo: usize = 0;
        let mut hi: usize = self.channels.len();
        while lo < hi
            invariant
                self.inv(),
                lo <= hi <= self@.len(),
                forall|j: int| 0 <= j < lo ==> lex_lt(name_bytes(#[trigger] self@[j]), v@),
                forall|j: int| hi <= j < self@.len() ==> lex_lt(v@, name_bytes(#[trigger] self@[j])),
            decreases hi - lo,
        {
            let mid = lo + (hi - lo) / 2;
            let name = self.channels[mid].name.as_str().as_bytes();
            if slice_eq(name, v) {
                return true;
            }
            let below = slice_lex_le(name, v);
            proof {
                lemma_lex_lt_not_le(name@, v@);
                lemma_lex_lt_not_le(v@, name@);
                lemma_lex_le_total(name@, v@);
                if below {
                    assert forall|j: int| 0 <= j <= mid implies lex_lt(name_bytes(#[trigger] self@[j]), v@) by {
                        let nj = name_bytes(self@[j]);
                        assert(lex_le(nj, name@));
                        lemma_lex_le_trans(nj, name@, v@);
                        if nj == v@ {
                            lemma_lex_le_antisym(name@, v@);
                        }
                    }
                } else {
                    assert forall|j: int| mid <= j < self@.len() implies lex_lt(v@, name_bytes(#[trigger] self@[j])) by {
                        let nj = name_bytes(self@[j]);
                        assert(lex_le(name@, nj));
                        lemma_lex_le_trans(v@, name@, nj);
                        if nj == v@ {
                            lemma_lex_le_antisym(name@, v@);
                        }
                    }
                }
            }
            if below {
                lo = mid + 1;
            } else {
                hi = mid;
            }
        }
        proof {
            assert forall|i: int| 0 <= i < self@.len() implies name_bytes(#[trigger] self@[i]) != v@ by {
                if i < lo {
                    assert(lex_lt(name_bytes(self@[i]), v@));
                } else {
                    assert(lex_lt(v@, name_bytes(self@[i])));
                }
            }
        }
        false
    }

    /// Binary search of the id index for `v`.
    fn find_id(&self, v: &[u8]) -> (r: bool)
        requires
            self.inv(),
        ensures
            r == exists|k: int| 0 <= k < self.by_id@.len() && id_bytes(self@[#[trigger] self.by_id@[k] as int]) == v@,
    {
        let mut lo: usize = 0;
        let mut hi: usize = self.by_id.len();
        let ghost s = self.by_id@;
        while lo < hi
            invariant
                self.inv(),
                s == self.by_id@,
                lo <= hi <= s.len(),
                forall|j: int| 0 <= j < lo ==> lex_lt(id_bytes(self@[#[trigger] s[j] as int]), v@),
                forall|j: int| hi <= j < s.len() ==> lex_lt(v@, id_bytes(self@[#[trigger] s[j] as int])),
            decreases hi - lo,
        {
            let mid = lo + (hi - lo) / 2;
            let at = self.by_id[mid] as usize;
            assert(s[mid as int] < id_index_len(self@.len() as int));
            let id = self.channels[at].user_id.as_str().as_bytes();
            if slice_eq(id, v) {
                return true;
            }
            let below = slice_lex_le(id, v);
            proof {
                lemma_lex_lt_not_le(id@, v@);
                lemma_lex_lt_not_le(v@, id@);
                lemma_lex_le_total(id@, v@);
                if below {
                    assert forall|j: int| 0 <= j <= mid implies lex_lt(id_bytes(self@[#[trigger] s[j] as int]), v@) by {
                        let x = id_bytes(self@[s[j] as int]);
                        assert(lex_le(x, id@));
                        lemma_lex_le_trans(x, id@, v@);
                        if x == v@ {
                            lemma_lex_le_antisym(id@, v@);
                        }
                    }
                } else {
                    assert forall|j: int| mid <= j < s.len() implies lex_lt(v@, id_bytes(self@[#[trigger] s[j] as int])) by {
                        let x = id_bytes(self@[s[j] as int]);
                        assert(lex_le(id@, x));
                        lemma_lex_le_trans(v@, id@, x);
                        if x == v@ {
                            lemma_lex_le_antisym(id@, v@);
                        }
                    }
                }
            }
            if below {
                lo = mid + 1;
            } else {
                hi = mid;
            }
        }
        proof {
            assert forall|k: int| 0 <= k < s.len() implies id_bytes(self@[#[trigger] s[k] as int]) != v@ by {
                if k < lo {
                    assert(lex_lt(id_bytes(self@[s[k] as int]), v@));
                } else {
                    assert(lex_lt(v@, id_bytes(self@[s[k] as int])));
                }
            }
        }
        false
    }

    /// The channels, in login order.
    pub fn channels(&self) -> (r: &Vec<Channel>)
        ensures
            r@ == self@,
    {
        &self.channels
    }

    pub fn is_empty(&self) -> (r: bool)
        ensures
            r == (self@.len() == 0),
    {
        self.channels.len() == 0
    }

    pub fn len(&self) -> (r: usize)
        ensures
            r == self@.len(),
    {
        self.channels.len()
    }
}

/// `c` has `value` as its login or its user id.
pub open spec fn channel_is(c: Channel, value: Seq<char>) -> bool {
    c.name@ == value || c.user_id@ == value
}

/// Some channel of `s` has `value` as its login or its user id.
pub open spec fn any_channel_is(s: Seq<Channel>, value: Seq<char>) -> bool {
    exists|i: int| 0 <= i < s.len() && #[trigger] channel_is(s[i], value)
}

/// The sorted lookup answers what a plain scan would: over channels that
/// hold the same entries as the list given to `InstanceChannels::new` (fewer
/// than `u32::MAX` of them, all covered by the id index), a value is listed
/// exactly when some channel of the list has it as login or user id.
pub proof fn law_lookup_is_scan(given: Seq<Channel>, arranged: Seq<Channel>, value: Seq<char>)
    requires
        arranged.to_multiset() == given.to_multiset(),
        given.len() < u32::MAX,
    ensures
        lists_channel(arranged, value) <==> any_channel_is(given, value),
{
    vstd::seq_lib::to_multiset_len(arranged);
    vstd::seq_lib::to_multiset_len(given);
    assert(id_index_len(arranged.len() as int) == arranged.len());
    if lists_channel(arranged, value) {
        let i = if exists|i: int| 0 <= i < arranged.len() && #[trigger] arranged[i].name@ == value {
            choose|i: int| 0 <= i < arranged.len() && #[trigger] arranged[i].name@ == value
        } else {
            choose|i: int| 0 <= i < id_index_len(arranged.len() as int) && #[trigger] arranged[i].user_id@ == value
        };
        assert(arranged.contains(arranged[i]));
        assert(given.to_multiset().count(arranged[i]) > 0);
        assert(given.contains(arranged[i]));
        let j = choose|j: int| 0 <= j < given.len() && given[j] == arranged[i];
        assert(channel_is(given[j], value));
    }
    if any_channel_is(given, value) {
        let j = choose|j: int| 0 <= j < given.len() && #[trigger] channel_is(given[j], value);
        assert(given.contains(given[j]));
        assert(arranged.to_multiset().count(given[j]) > 0);
        assert(arranged.contains(given[j]));
        let i = choose|i: int| 0 <= i < arranged.len() && arranged[i] == given[j];
        if arranged[i].name@ == value {
            assert(exists|k: int| 0 <= k < arranged.len() && #[trigger] arranged[k].name@ == value);
        } else {
            assert(arranged[i].user_id@ == value);
            assert(exists|k: int| 0 <= k < id_index_len(arranged.len() as int) && #[trigger] arranged[k].user_id@ == value);
        }
        assert(lists_channel(arranged, value));
    }
}

/// `n` distinct values below `n` cover every value below `n`.
proof fn lemma_pigeonhole(s: Seq<u32>, n: int, i: int)
    requires
        s.len() == n,
        s.no_duplicates(),
        forall|k: int| 0 <= k < s.len() ==> #[trigger] s[k] < n,
        0 <= i < n,
        n <= u32::MAX,
    ensures
        exists|k: int| 0 <= k < s.len() && s[k] as int == i,
{
    let set_s = s.to_set();
    s.unique_seq_to_set();
    let full = Set::new(|x: u32| (x as int) < n);
    assert forall|x: u32| set_s.contains(x) implies full.contains(x) by {
        assert(s.contains(x));
        let k = choose|k: int| 0 <= k < s.len() && s[k] == x;
    }
    assert(full =~= Set::new(|x: u32| (x as int) < n));
    lemma_u32_range_len(n);
    if !(exists|k: int| 0 <= k < s.len() && s[k] as int == i) {
        let missing = full.remove(i as u32);
        assert(set_s.subset_of(missing)) by {
            assert forall|x: u32| set_s.contains(x) implies missing.contains(x) by {
                assert(s.contains(x));
                let k = choose|k: int| 0 <= k < s.len() && s[k] == x;
                assert(s[k] as int != i);
                assert(full.contains(x));
            }
        }
        assert(full.contains(i as u32));
        vstd::set_lib::lemma_len_subset(set_s, missing);
        assert(set_s.len() == n);
    }
}

proof fn lemma_u32_range_len(n: int)
    requires
        0 <= n <= u32::MAX + 1,
    ensures
        Set::new(|x: u32| (x as int) < n).finite(),
        Set::new(|x: u32| (x as int) < n).len() == n,
    decreases n,
{
    let cur = Set::new(|x: u32| (x as int) < n);
    if n == 0 {
        assert(cur =~= Set::empty());
    } else {
        lemma_u32_range_len(n - 1);
        let prev = Set::new(|x: u32| (x as int) < n - 1);
        assert(cur =~= prev.insert((n - 1) as u32));
    }
}

} // verus!
