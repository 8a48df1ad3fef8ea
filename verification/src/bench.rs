//! The fan-out load generator's deterministic parts: instance latency
//! profiles, the hash that decides what the mock instances report, the
//! random stream the clients draw from, and the mock `/list` bodies.
use vstd::prelude::*;
use crate::util::{decimal, push_char, push_decimal, push_str};

verus! {

/// How a mock instance behaves.
#[derive(Clone, Copy)]
pub struct Profile {
    pub name: &'static str,
    pub base_ms: u64,
    pub jitter_ms: u64,
    pub spike_pct: u64,
    pub spike_ms: u64,
    pub error_pct: u64,
    pub blackhole: bool,
}

/// A profile from its parts.
pub fn profile(
    name: &'static str,
    base_ms: u64,
    jitter_ms: u64,
    spike_pct: u64,
    spike_ms: u64,
    error_pct: u64,
    blackhole: bool,
) -> (r: Profile)
    ensures
        r == (Profile { name, base_ms, jitter_ms, spike_pct, spike_ms, error_pct, blackhole }),
{
    Profile { name, base_ms, jitter_ms, spike_pct, spike_ms, error_pct, blackhole }
}

/// `a * b` modulo 2^64.
pub open spec fn mul64(a: u64, b: u64) -> u64 {
    ((a as int * b as int) % 0x1_0000_0000_0000_0000) as u64
}

/// FNV-style mixing of `bytes` into `value`.
pub open spec fn mix_bytes(value: u64, bytes: Seq<u8>) -> u64
    decreases bytes.len(),
{
    if bytes.len() == 0 {
        value
    } else {
        mul64(mix_bytes(value, bytes.drop_last()) ^ (bytes.last() as u64), 0x1000_0000_01b3)
    }
}

/// The hash of `parts` salted with `salt`: each part's bytes mixed in,
/// followed by a scramble.
pub open spec fn hash_spec(parts: Seq<Seq<u8>>, salt: u64) -> u64
    decreases parts.len(),
{
    if parts.len() == 0 {
        0xcbf2_9ce4_8422_2325u64 ^ salt
    } else {
        mul64(mix_bytes(hash_spec(parts.drop_last(), salt), parts.last()), 0x9e37_79b9_7f4a_7c15)
    }
}

/// The UTF-8 bytes of each part.
pub open spec fn part_bytes(parts: Seq<&str>) -> Seq<Seq<u8>> {
    Seq::new(parts.len(), |i: int| vstd::utf8::encode_utf8(parts[i]@))
}

/// Deterministic hash of `parts` and `salt` (see `hash_spec`).
pub fn hash(parts: &[&str], salt: u64) -> (r: u64)
    ensures
        r == hash_spec(part_bytes(parts@), salt),
{
    let mut value: u64 = 0xcbf2_9ce4_8422_2325u64 ^ salt;
    let mut i: usize = 0;
    while i < parts.len()
        invariant
            i <= parts@.len(),
            value == hash_spec(part_bytes(parts@).subrange(0, i as int), salt),
        decreases parts@.len() - i,
    {
        let bytes = parts[i].as_bytes();
        let ghost start = value;
        let mut j: usize = 0;
        while j < bytes.len()
            invariant
                j <= bytes@.len(),
                value == mix_bytes(start, bytes@.subrange(0, j as int)),
            decreases bytes@.len() - j,
        {
            proof {
                assert(bytes@.subrange(0, j + 1).drop_last() =~= bytes@.subrange(0, j as int));
            }
            value = value ^ (bytes[j] as u64);
            value = value.wrapping_mul(0x1000_0000_01b3);
            j = j + 1;
        }
        value = value.wrapping_mul(0x9e37_79b9_7f4a_7c15);
        proof {
            assert(bytes@.subrange(0, bytes@.len() as int) =~= bytes@);
            assert(part_bytes(parts@).subrange(0, i + 1).drop_last() =~= part_bytes(parts@).subrange(0, i as int));
        }
        i = i + 1;
    }
    proof {
        assert(part_bytes(parts@).subrange(0, parts@.len() as int) =~= part_bytes(parts@));
    }
    value
}

/// One xorshift64 step.
pub open spec fn xorshift(x: u64) -> u64 {
    let a = x ^ ((x << 13u64) as u64);
    let b = a ^ (a >> 7u64);
    b ^ ((b << 17u64) as u64)
}

/// The clients' random stream: xorshift64.
pub struct Rng(pub u64);

impl Rng {
    /// Advances the state and returns it.
    pub fn next(&mut self) -> (r: u64)
        ensures
            final(self).0 == xorshift(old(self).0),
            r == final(self).0,
    {
        self.0 = self.0 ^ (self.0 << 13u64);
        self.0 = self.0 ^ (self.0 >> 7u64);
        self.0 = self.0 ^ (self.0 << 17u64);
        self.0
    }

    /// A draw below `bound` (0 for an empty range, without advancing).
    pub fn below(&mut self, bound: u64) -> (r: u64)
        ensures
            bound == 0 ==> r == 0 && final(self).0 == old(self).0,
            bound > 0 ==> final(self).0 == xorshift(old(self).0) && r == xorshift(old(self).0) % bound,
    {
        if bound == 0 {
            0
        } else {
            self.next() % bound
        }
    }
}

/// The JSON entry of the `day`-th mock log day.
pub open spec fn day_entry(day: nat) -> Seq<char> {
    "{\"year\":\""@ + decimal(2020 + day / 365) + "\",\"month\":\""@ + decimal(1 + (day / 28) % 12)
        + "\",\"day\":\""@ + decimal(1 + day % 28) + "\"}"@
}

/// The entries of the first `n` mock days, comma-separated.
pub open spec fn day_entries(n: nat) -> Seq<char>
    decreases n,
{
    if n == 0 {
        Seq::empty()
    } else if n == 1 {
        day_entry(0)
    } else {
        day_entries((n - 1) as nat) + ","@ + day_entry((n - 1) as nat)
    }
}

/// A mock `/list` body reporting `days` days of logs.
pub open spec fn list_body_spec(days: nat) -> Seq<char> {
    "{\"availableLogs\":["@ + day_entries(days) + "]}"@
}

/// A mock instance's `/list` body for `days` days of logs.
pub fn list_body(days: usize) -> (r: String)
    requires
        days < u64::MAX,
    ensures
        r@ == list_body_spec(days as nat),
{
    let mut json = String::new();
    push_str(&mut json, "{\"availableLogs\":[");
    let ghost head = json@;
    let mut day: usize = 0;
    while day < days
        invariant
            day <= days < u64::MAX,
            json@ == head + day_entries(day as nat),
        decreases days - day,
    {
        let ghost before = json@;
        if day > 0 {
            push_char(&mut json, ',');
        }
        push_str(&mut json, "{\"year\":\"");
        push_decimal(&mut json, 2020 + (day as u64) / 365);
        push_str(&mut json, "\",\"month\":\"");
        push_decimal(&mut json, 1 + ((day as u64) / 28) % 12);
        push_str(&mut json, "\",\"day\":\"");
        push_decimal(&mut json, 1 + (day as u64) % 28);
        push_str(&mut json, "\"}");
        proof {
            reveal_strlit(",");
            if day > 0 {
                assert(json@ =~= before + ","@ + day_entry(day as nat));
            } else {
                assert(json@ =~= before + day_entry(0));
            }
        }
        day = day + 1;
    }
    push_str(&mut json, "]}");
    json
}

/// `s` up to its first `sep` (all of it without one).
pub open spec fn before_sep(s: Seq<char>, sep: char) -> Seq<char>
    decreases s.len(),
{
    if s.len() == 0 {
        s
    } else if s[0] == sep {
        Seq::empty()
    } else {
        seq![s[0]] + before_sep(s.subrange(1, s.len() as int), sep)
    }
}

/// `s` after its first `sep`, if it has one.
pub open spec fn after_sep(s: Seq<char>, sep: char) -> Option<Seq<char>>
    decreases s.len(),
{
    if s.len() == 0 {
        None
    } else if s[0] == sep {
        Some(s.subrange(1, s.len() as int))
    } else {
        after_sep(s.subrange(1, s.len() as int), sep)
    }
}

/// The value of a `key=value` pair when its key is one of `keys`.
pub open spec fn pair_value(pair: Seq<char>, keys: Seq<Seq<char>>) -> Option<Seq<char>> {
    match after_sep(pair, '=') {
        Some(value) => if keys.contains(before_sep(pair, '=')) {
            Some(value)
        } else {
            None
        },
        None => None,
    }
}

/// The value of the first `&`-separated pair of `query` whose key is one of `keys`.
pub open spec fn query_value_spec(query: Seq<char>, keys: Seq<Seq<char>>) -> Option<Seq<char>>
    decreases query.len(),
{
    match pair_value(before_sep(query, '&'), keys) {
        Some(v) => Some(v),
        None => match after_sep(query, '&') {
            Some(rest) => if rest.len() < query.len() {
                query_value_spec(rest, keys)
            } else {
                None
            },
            None => None,
        },
    }
}

/// Position of the first `sep` in `s[from..to]`, or `to`.
fn find_sep(s: &str, sep: char, from: usize, to: usize) -> (r: usize)
    requires
        from <= to <= s@.len(),
    ensures
        from <= r <= to,
        before_sep(s@.subrange(from as int, to as int), sep) == s@.subrange(from as int, r as int),
        after_sep(s@.subrange(from as int, to as int), sep) == if r < to {
            Some(s@.subrange(r + 1, to as int))
        } else {
            None
        },
    decreases to - from,
{
    if from == to {
        return to;
    }
    let ghost part = s@.subrange(from as int, to as int);
    proof {
        assert(part.subrange(1, part.len() as int) =~= s@.subrange(from + 1, to as int));
    }
    if s.get_char(from) == sep {
        proof {
            assert(s@.subrange(from as int, from as int) =~= Seq::<char>::empty());
        }
        return from;
    }
    let r = find_sep(s, sep, from + 1, to);
    proof {
        assert(s@.subrange(from as int, r as int) =~= seq![s@[from as int]] + s@.subrange(from + 1, r as int));
    }
    r
}

fn key_listed(key: &str, keys: &[&str]) -> (r: bool)
    ensures
        r == Seq::new(keys@.len(), |i: int| keys@[i]@).contains(key@),
{
    let ghost ks = Seq::new(keys@.len(), |i: int| keys@[i]@);
    let mut i: usize = 0;
    while i < keys.len()
        invariant
            i <= keys@.len(),
            ks == Seq::new(keys@.len(), |i: int| keys@[i]@),
            forall|j: int| 0 <= j < i ==> ks[j] != key@,
        decreases keys@.len() - i,
    {
        if crate::text::same_text(keys[i], key) {
            assert(ks[i as int] == key@);
            return true;
        }
        i = i + 1;
    }
    false
}

/// The value of the first pair of a query string whose key is one of
/// `keys` (see `query_value_spec`).
pub fn query_value<'a>(query: &'a str, keys: &[&str]) -> (r: Option<&'a str>)
    ensures
        match r {
            Some(v) => query_value_spec(query@, Seq::new(keys@.len(), |i: int| keys@[i]@)) == Some(v@),
            None => query_value_spec(query@, Seq::new(keys@.len(), |i: int| keys@[i]@)) is None,
        },
{
    let ghost ks = Seq::new(keys@.len(), |i: int| keys@[i]@);
    let n = query.unicode_len();
    let mut from: usize = 0;
    proof {
        assert(query@.subrange(0, n as int) =~= query@);
    }
    loop
        invariant
            from <= n,
            n == query@.len(),
            ks == Seq::new(keys@.len(), |i: int| keys@[i]@),
            query_value_spec(query@, ks) == query_value_spec(query@.subrange(from as int, n as int), ks),
        decreases n - from,
    {
        let ghost rest = query@.subrange(from as int, n as int);
        let end = find_sep(query, '&', from, n);
        let eq = find_sep(query, '=', from, end);
        proof {
            let pair = query@.subrange(from as int, end as int);
            assert(before_sep(rest, '&') == pair);
        }
        if eq < end {
            let key = query.substring_char(from, eq);
            if key_listed(key, keys) {
                let value = query.substring_char(eq + 1, end);
                return Some(value);
            }
        }
        if end == n {
            return None;
        }
        proof {
            assert(query@.subrange(end + 1, n as int).len() < rest.len());
        }
        from = end + 1;
    }
}

/// Whether a profile takes part in a benchmark scenario: `healthy` is the
/// fast and middling instances, `degraded` everything but the black hole and
/// the flapping one, `recovery` the fast ones and the flapping one, and any
/// other scenario everything but the flapping one.
pub open spec fn in_scenario_spec(scenario: Seq<char>, name: Seq<char>, blackhole: bool) -> bool {
    if scenario == "healthy"@ {
        crate::util::starts_with_chars(name, "fast"@) || crate::util::starts_with_chars(name, "mid"@)
    } else if scenario == "degraded"@ {
        !blackhole && name != "flappy"@
    } else if scenario == "recovery"@ {
        crate::util::starts_with_chars(name, "fast"@) || name == "flappy"@
    } else {
        name != "flappy"@
    }
}

fn begins_with(s: &str, prefix: &str) -> (r: bool)
    ensures
        r == crate::util::starts_with_chars(s@, prefix@),
{
    let a = crate::text::chars_of(s);
    let b = crate::text::chars_of(prefix);
    if b.len() > a.len() {
        return false;
    }
    let mut i: usize = 0;
    while i < b.len()
        invariant
            a@ == s@,
            b@ == prefix@,
            b@.len() <= a@.len(),
            i <= b@.len(),
            forall|j: int| 0 <= j < i ==> a@[j] == b@[j],
        decreases b@.len() - i,
    {
        if a[i] != b[i] {
            proof {
                assert(s@.subrange(0, prefix@.len() as int)[i as int] != prefix@[i as int]);
            }
            return false;
        }
        i = i + 1;
    }
    proof {
        assert(s@.subrange(0, prefix@.len() as int) =~= prefix@);
    }
    true
}

/// Whether `profile` takes part in `scenario` (see `in_scenario_spec`).
pub fn in_scenario(scenario: &str, profile: &Profile) -> (r: bool)
    ensures
        r == in_scenario_spec(scenario@, profile.name@, profile.blackhole),
{
    let name = profile.name;
    if crate::text::same_text(scenario, "healthy") {
        begins_with(name, "fast") || begins_with(name, "mid")
    } else if crate::text::same_text(scenario, "degraded") {
        !profile.blackhole && !crate::text::same_text(name, "flappy")
    } else if crate::text::same_text(scenario, "recovery") {
        begins_with(name, "fast") || crate::text::same_text(name, "flappy")
    } else {
        !crate::text::same_text(name, "flappy")
    }
}

/// The status line a mock answers a user probe with: 70% logged, 20% not
/// found, 10% opted out, decided by a roll below 100.
pub fn mock_user_status(roll: u64) -> (r: &'static str)
    ensures
        r@ == if roll < 70 {
            "200 OK"@
        } else if roll < 90 {
            "404 Not Found"@
        } else {
            "403 Forbidden"@
        },
{
    if roll < 70 {
        "200 OK"
    } else if roll < 90 {
        "404 Not Found"
    } else {
        "403 Forbidden"
    }
}

/// Days of logs a mock instance reports for a channel: 30 to 929.
pub fn mock_days(channel: &str, index: u64) -> (r: usize)
    ensures
        r == 30 + hash_spec(part_bytes(seq![channel]), index) % 900,
{
    let parts: [&str; 1] = [channel];
    proof {
        assert(parts@ =~= seq![channel]);
    }
    let h = hash(&parts, index);
    (30 + h % 900) as usize
}

/// How long a mock instance takes to answer: its base latency, a jitter
/// draw, and a spike when the spike roll comes up.
pub fn mock_latency(profile: &Profile, rng: &mut Rng) -> (r: u64)
    requires
        profile.base_ms + profile.jitter_ms + profile.spike_ms <= u64::MAX,
    ensures
        ({
            let bound: u64 = if profile.jitter_ms > 1 {
                profile.jitter_ms
            } else {
                1
            };
            let s1 = xorshift(old(rng).0);
            let base = profile.base_ms + s1 % bound;
            if profile.spike_pct > 0 {
                let s2 = xorshift(s1);
                &&& final(rng).0 == s2
                &&& r == if s2 % 100 < profile.spike_pct {
                    base + profile.spike_ms
                } else {
                    base
                }
            } else {
                &&& final(rng).0 == s1
                &&& r == base
            }
        }),
{
    let bound: u64 = if profile.jitter_ms > 1 {
        profile.jitter_ms
    } else {
        1
    };
    let jitter = rng.below(bound);
    let mut latency = profile.base_ms + jitter;
    if profile.spike_pct > 0 && rng.below(100) < profile.spike_pct {
        latency = latency + profile.spike_ms;
    }
    latency
}

} // verus!
