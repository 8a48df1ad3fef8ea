//! Which instances a channel-list reload refreshes, and what a refresh keeps.
use vstd::prelude::*;
use crate::logs::Channel;
use crate::logs::channels::{InstanceChannels, sorted_by_name};
use crate::logs::recent_messages::views;

verus! {

/// The instances a reload pass refreshes, from their keys and the length
/// of each one's loaded channel list (if loaded): all of them, or on the
/// down-instance recheck only those loaded with an empty list.
pub open spec fn reload_keys(keys: Seq<Seq<char>>, loaded: Seq<Option<usize>>, only_error: bool) -> Seq<Seq<char>>
    decreases keys.len(),
{
    if keys.len() == 0 {
        Seq::empty()
    } else {
        let rest = reload_keys(keys.drop_last(), loaded.drop_last(), only_error);
        if !only_error || loaded.last() == Some(0usize) {
            rest.push(keys.last())
        } else {
            rest
        }
    }
}

/// The instances to refresh (see `reload_keys`); `None` when a full reload
/// has none at all, which is only logged.
pub fn reload_plan(keys: &Vec<String>, loaded: &Vec<Option<usize>>, only_error: bool) -> (r: Option<Vec<String>>)
    requires
        keys@.len() == loaded@.len(),
    ensures
        match r {
            Some(t) => views(t@) == reload_keys(views(keys@), loaded@, only_error) && (t@.len() > 0 || only_error),
            None => reload_keys(views(keys@), loaded@, only_error).len() == 0 && !only_error,
        },
{
    let mut targets: Vec<String> = Vec::new();
    let mut i: usize = 0;
    while i < keys.len()
        invariant
            i <= keys@.len(),
            keys@.len() == loaded@.len(),
            views(targets@) == reload_keys(views(keys@).subrange(0, i as int), loaded@.subrange(0, i as int), only_error),
        decreases keys@.len() - i,
    {
        proof {
            assert(views(keys@).subrange(0, i + 1).drop_last() =~= views(keys@).subrange(0, i as int));
            assert(loaded@.subrange(0, i + 1).drop_last() =~= loaded@.subrange(0, i as int));
        }
        let pick = match loaded[i] {
            Some(n) => !only_error || n == 0,
            None => !only_error,
        };
        if pick {
            let ghost before = targets@;
            targets.push(keys[i].clone());
            proof {
                assert(views(targets@) =~= views(before).push(keys@[i as int]@));
            }
        }
        i = i + 1;
    }
    proof {
        assert(views(keys@).subrange(0, keys@.len() as int) =~= views(keys@));
        assert(loaded@.subrange(0, loaded@.len() as int) =~= loaded@);
    }
    if targets.len() == 0 && !only_error {
        None
    } else {
        Some(targets)
    }
}

/// The lookup structure for a refreshed channel list; an instance that
/// reports no channels counts as failed.
pub fn accept_channels(channels: Vec<Channel>) -> (r: Result<InstanceChannels, String>)
    ensures
        match r {
            Ok(c) => channels@.len() > 0 && c@.to_multiset() == channels@.to_multiset() && sorted_by_name(c@),
            Err(m) => channels@.len() == 0 && m@ == "No channels found"@,
        },
{
    if channels.len() == 0 {
        Err("No channels found".to_owned())
    } else {
        Ok(InstanceChannels::new(channels))
    }
}

} // verus!
