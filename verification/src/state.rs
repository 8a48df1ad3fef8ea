//! Cache budgets and the small decisions the shared state makes.
use vstd::prelude::*;
use vstd::string::StringSliceAdditionalSpecFns;
use crate::config::JustlogInstanceMeta;
use crate::logs::AvailableLogDate;
use crate::twitch::TwitchUser;

verus! {

/// Full channel-list reload period.
pub const RELOAD_INTERVAL_MS: i64 = 60 * 60 * 1000;

/// Down-instance recheck period.
pub const ERROR_INTERVAL_MS: i64 = 60 * 1000;

/// Per-allocation overhead charged on top of payload bytes by the weighers.
pub const ALLOC_OVERHEAD: usize = 32;

/// Bytes a string is charged: its payload plus one allocation's overhead.
pub open spec fn string_weight_spec(s: Seq<char>) -> int {
    vstd::utf8::encode_utf8(s).len() as int + 32
}

pub fn string_weight(value: &str) -> (r: usize)
    requires
        value.spec_bytes().len() + 32 <= usize::MAX,
    ensures
        r == string_weight_spec(value@),
{
    value.len() + ALLOC_OVERHEAD
}

/// A byte count as a cache weight, saturating at `u32::MAX`.
pub fn clamp_weight(bytes: usize) -> (r: u32)
    ensures
        r == if bytes < u32::MAX {
            bytes as int
        } else {
            u32::MAX as int
        },
{
    if bytes < 0xffff_ffffusize {
        bytes as u32
    } else {
        0xffff_ffffu32
    }
}

/// Bytes one date entry is charged.
pub open spec fn date_weight(d: AvailableLogDate) -> int {
    vstd::layout::size_of::<AvailableLogDate>() + string_weight_spec(d.year@) + string_weight_spec(
        d.month@,
    ) + match d.day {
        Some(day) => string_weight_spec(day@),
        None => 0,
    }
}

/// Bytes a list of dates is charged.
pub open spec fn dates_weight(s: Seq<AvailableLogDate>) -> int
    decreases s.len(),
{
    if s.len() == 0 {
        0
    } else {
        dates_weight(s.drop_last()) + date_weight(s.last())
    }
}

proof fn lemma_dates_weight_nonneg(s: Seq<AvailableLogDate>)
    ensures
        dates_weight(s) >= 0,
    decreases s.len(),
{
    if s.len() > 0 {
        lemma_dates_weight_nonneg(s.drop_last());
        assert(date_weight(s.last()) >= 0);
    }
}

proof fn lemma_dates_weight_mono(s: Seq<AvailableLogDate>, k: int)
    requires
        0 <= k <= s.len(),
    ensures
        dates_weight(s.subrange(0, k)) <= dates_weight(s),
        dates_weight(s.subrange(0, k)) >= 0,
    decreases s.len(),
{
    if k < s.len() {
        lemma_dates_weight_mono(s.drop_last(), k);
        assert(s.drop_last().subrange(0, k) =~= s.subrange(0, k));
        assert(date_weight(s.last()) >= 0);
    } else {
        assert(s.subrange(0, k) =~= s);
        lemma_dates_weight_nonneg(s);
    }
}

/// Cache weight of a `/list` entry: the key, every date, and the list itself.
pub open spec fn list_weight_bytes(key: Seq<char>, list: Seq<AvailableLogDate>) -> int {
    string_weight_spec(key) + dates_weight(list) + 32
}

fn optional_weight(day: &Option<String>) -> (r: usize)
    requires
        match day {
            Some(d) => d@.len() >= 0 && vstd::utf8::encode_utf8(d@).len() + 32 <= usize::MAX,
            None => true,
        },
    ensures
        r == match day {
            Some(d) => string_weight_spec(d@),
            None => 0,
        },
{
    match day {
        Some(d) => string_weight(d.as_str()),
        None => 0,
    }
}

/// Weight of a cached `/list` result for the memory-bounded cache.
pub fn list_weight(key: &str, list: &Vec<AvailableLogDate>) -> (r: u32)
    requires
        list_weight_bytes(key@, list@) <= usize::MAX,
    ensures
        r == if list_weight_bytes(key@, list@) < u32::MAX {
            list_weight_bytes(key@, list@)
        } else {
            u32::MAX as int
        },
{
    let mut dates: usize = 0;
    let mut i: usize = 0;
    proof {
        lemma_dates_weight_mono(list@, list@.len() as int);
        assert(string_weight_spec(key@) >= 0);
    }
    while i < list.len()
        invariant
            i <= list@.len(),
            dates == dates_weight(list@.subrange(0, i as int)),
            dates_weight(list@) + string_weight_spec(key@) + 32 <= usize::MAX,
            string_weight_spec(key@) >= 0,
        decreases list@.len() - i,
    {
        let date = &list[i];
        proof {
            lemma_dates_weight_mono(list@, i + 1);
            assert(list@.subrange(0, i + 1).drop_last() =~= list@.subrange(0, i as int));
            assert(list@.subrange(0, i + 1).last() == list@[i as int]);
            assert(string_weight_spec(date.year@) >= 0);
            assert(string_weight_spec(date.month@) >= 0);
        }
        let w = core::mem::size_of::<AvailableLogDate>() + string_weight(date.year.as_str())
            + string_weight(date.month.as_str()) + optional_weight(&date.day);
        dates = dates + w;
        i = i + 1;
    }
    proof {
        assert(list@.subrange(0, list@.len() as int) =~= list@);
    }
    clamp_weight(string_weight(key) + dates + ALLOC_OVERHEAD)
}

/// Cache weight of a resolved Twitch user.
pub open spec fn user_weight_bytes(key: Seq<char>, u: TwitchUser) -> int {
    string_weight_spec(key) + vstd::layout::size_of::<TwitchUser>() + string_weight_spec(u.name@)
        + string_weight_spec(u.login@) + string_weight_spec(u.avatar@) + string_weight_spec(u.id@)
}

pub fn user_weight(key: &str, user: &TwitchUser) -> (r: u32)
    requires
        user_weight_bytes(key@, *user) <= usize::MAX,
    ensures
        r == if user_weight_bytes(key@, *user) < u32::MAX {
            user_weight_bytes(key@, *user)
        } else {
            u32::MAX as int
        },
{
    clamp_weight(
        string_weight(key) + core::mem::size_of::<TwitchUser>() + string_weight(user.name.as_str())
            + string_weight(user.login.as_str()) + string_weight(user.avatar.as_str())
            + string_weight(user.id.as_str()),
    )
}

/// The hostname actually queried for an instance: its configured
/// `alternate`, or the instance key itself.
pub fn instance_host(meta: Option<&JustlogInstanceMeta>, key: &str) -> (r: String)
    ensures
        r@ == match meta {
            Some(m) => match m.alternate {
                Some(a) => a@,
                None => key@,
            },
            None => key@,
        },
{
    match meta {
        Some(m) => match &m.alternate {
            Some(a) => a.clone(),
            None => key.to_owned(),
        },
        None => key.to_owned(),
    }
}

/// Whether an instance takes part in lookups: not flagged down (an empty
/// channel list), where `loaded` is the length of its last loaded list, if any.
pub fn instance_alive(loaded: Option<usize>) -> (r: bool)
    ensures
        r == match loaded {
            Some(n) => n > 0,
            None => true,
        },
{
    match loaded {
        Some(n) => n > 0,
        None => true,
    }
}

/// Number of instances in `lens` currently flagged down (empty channel list).
pub open spec fn count_down(lens: Seq<usize>) -> int
    decreases lens.len(),
{
    if lens.len() == 0 {
        0
    } else {
        count_down(lens.drop_last()) + if lens.last() == 0 {
            1int
        } else {
            0
        }
    }
}

/// `(tracked, down)` over the loaded channel-list lengths.
pub fn instance_stats(lens: &Vec<usize>) -> (r: (usize, usize))
    ensures
        r.0 == lens@.len(),
        r.1 == count_down(lens@),
{
    let mut down: usize = 0;
    let mut i: usize = 0;
    while i < lens.len()
        invariant
            i <= lens@.len(),
            down == count_down(lens@.subrange(0, i as int)),
            down <= i,
        decreases lens@.len() - i,
    {
        assert(lens@.subrange(0, i + 1).drop_last() =~= lens@.subrange(0, i as int));
        if lens[i] == 0 {
            down = down + 1;
        }
        i = i + 1;
    }
    assert(lens@.subrange(0, lens@.len() as int) =~= lens@);
    (lens.len(), down)
}

/// Cache weight of a user-status entry: its key and the status code.
pub fn status_weight(key: &str) -> (r: u32)
    requires
        string_weight_spec(key@) + 2 <= usize::MAX,
    ensures
        r == if string_weight_spec(key@) + 2 < u32::MAX {
            string_weight_spec(key@) + 2
        } else {
            u32::MAX as int
        },
{
    clamp_weight(string_weight(key) + core::mem::size_of::<u16>())
}

/// The instances taking part in lookups, from their keys and the length of
/// each one's last loaded channel list (if loaded).
pub open spec fn alive_spec(keys: Seq<Seq<char>>, loaded: Seq<Option<usize>>) -> Seq<Seq<char>>
    decreases keys.len(),
{
    if keys.len() == 0 {
        Seq::empty()
    } else {
        let rest = alive_spec(keys.drop_last(), loaded.drop_last());
        if loaded.last() != Some(0usize) {
            rest.push(keys.last())
        } else {
            rest
        }
    }
}

/// The instances not flagged down (see `alive_spec`), in configured order.
pub fn alive_instances(keys: &Vec<String>, loaded: &Vec<Option<usize>>) -> (r: Vec<String>)
    requires
        keys@.len() == loaded@.len(),
    ensures
        crate::logs::recent_messages::views(r@) == alive_spec(crate::logs::recent_messages::views(keys@), loaded@),
{
    let ghost vk = crate::logs::recent_messages::views(keys@);
    let mut alive: Vec<String> = Vec::new();
    let mut i: usize = 0;
    while i < keys.len()
        invariant
            i <= keys@.len(),
            keys@.len() == loaded@.len(),
            vk == crate::logs::recent_messages::views(keys@),
            crate::logs::recent_messages::views(alive@) == alive_spec(vk.subrange(0, i as int), loaded@.subrange(0, i as int)),
        decreases keys@.len() - i,
    {
        proof {
            assert(vk.subrange(0, i + 1).drop_last() =~= vk.subrange(0, i as int));
            assert(loaded@.subrange(0, i + 1).drop_last() =~= loaded@.subrange(0, i as int));
        }
        if instance_alive(loaded[i]) {
            let ghost before = alive@;
            alive.push(keys[i].clone());
            proof {
                assert(crate::logs::recent_messages::views(alive@) =~= crate::logs::recent_messages::views(before).push(keys@[i as int]@));
            }
        }
        i = i + 1;
    }
    proof {
        assert(vk.subrange(0, keys@.len() as int) =~= vk);
        assert(loaded@.subrange(0, loaded@.len() as int) =~= loaded@);
    }
    alive
}

} // verus!
