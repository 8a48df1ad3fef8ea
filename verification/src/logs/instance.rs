//! One channel (and optional user) lookup across every justlog instance:
//! what each instance is asked, how its answers are classified, when the
//! fan-out stops waiting, how instances are ranked, and the response built
//! from all of it.
use std::sync::Arc;
use vstd::prelude::*;
use crate::logs::AvailableLogDate;
use crate::logs::channels::{InstanceChannels, lists_channel};
use crate::twitch::TwitchUser;
use crate::logs::health::sat_add;
use crate::ranking::{is_rank_order, rank_order, rank_spec, ranks_before, lemma_rank_order_unique, lemma_rank_covers, rank_witness};
use crate::util::{utc_string, to_utc_string, is_id_ref, is_user_id, id_dash, id_dash_key, push_str, strip_id_prefix, starts_with_chars};

verus! {

/// How long the fan-out keeps collecting once it has an answer worth returning.
pub const FANOUT_RESULT_GRACE_MS: u64 = 300;

/// However late the first usable answer arrives, an answerable lookup returns
/// by this point.
pub const FANOUT_SOFT_DEADLINE_MS: u64 = 1200;

/// The point at which a lookup answers with whatever it has, even nothing.
pub const FANOUT_HARD_DEADLINE_MS: u64 = 6000;

/// Who a lookup was about, as ivr.fi described them.
#[derive(Debug, Clone)]
pub struct RequestPersonInfo {
    pub login: String,
    pub id: String,
    pub banned: bool,
}

impl<'a> From<&'a TwitchUser> for RequestPersonInfo {
    fn from(u: &'a TwitchUser) -> (r: RequestPersonInfo) {
        RequestPersonInfo { login: u.login.clone(), id: u.id.clone(), banned: u.banned }
    }
}

impl<'a> vstd::std_specs::convert::FromSpecImpl<&'a TwitchUser> for RequestPersonInfo {
    open spec fn obeys_from_spec() -> bool {
        true
    }

    open spec fn from_spec(u: &'a TwitchUser) -> RequestPersonInfo {
        RequestPersonInfo { login: u.login, id: u.id, banned: u.banned }
    }
}

#[derive(Debug, Clone)]
pub struct RequestInfo {
    pub channel: Option<RequestPersonInfo>,
    pub user: Option<RequestPersonInfo>,
    pub forced: bool,
}

#[derive(Debug, Clone)]
pub struct Available {
    pub user: bool,
    pub channel: bool,
}

#[derive(Debug, Clone)]
pub struct LoggedData {
    pub list: Arc<Vec<AvailableLogDate>>,
    pub days: usize,
    pub since: Option<AvailableLogDate>,
}

#[derive(Debug, Clone)]
pub struct LinksBlock {
    pub count: usize,
    pub instances: Vec<String>,
    pub full_link: Vec<String>,
}

#[derive(Debug, Clone)]
pub struct OptedOut {
    pub count: usize,
    pub instances: Vec<String>,
}

#[derive(Debug, Clone)]
pub struct LastUpdated {
    pub unix: i64,
    pub utc: String,
}

#[derive(Debug, Clone)]
pub struct InstancesInfo {
    pub count: usize,
    pub down: usize,
}

/// What probing one instance for a channel (and optionally a user) found.
pub enum GetLogsOutcome {
    /// The instance has no working channel list at all right now.
    Down,
    /// The instance is up but does not have this channel.
    ChannelNotFound,
    /// The user (or channel) opted out of logging there.
    OptedOut { link: String },
    /// The channel is logged; no user was asked for, or it is not logged.
    ChannelOnly { link: String, channel_full: String, list: Arc<Vec<AvailableLogDate>> },
    /// The channel and the requested user are logged here.
    Available {
        link: String,
        channel_full: String,
        full: String,
        list: Arc<Vec<AvailableLogDate>>,
    },
}

/// `https://` followed by `host`.
pub open spec fn instance_link_spec(host: Seq<char>) -> Seq<char> {
    "https://"@ + host
}

/// Link to a channel's logs: on tv.supa.sh when `pretty`, on the instance otherwise.
pub open spec fn channel_link_spec(host: Seq<char>, channel: Seq<char>, pretty: bool) -> Seq<char> {
    if pretty {
        "https://tv.supa.sh/logs?c="@ + channel
    } else {
        "https://"@ + host + "/?channel="@ + channel
    }
}

/// Link to a user's logs in a channel.
pub open spec fn user_link_spec(host: Seq<char>, channel: Seq<char>, user: Seq<char>, pretty: bool) -> Seq<char> {
    if pretty {
        "https://tv.supa.sh/logs?c="@ + channel + "&u="@ + user
    } else {
        "https://"@ + host + "/?channel="@ + channel + "&username="@ + user
    }
}

/// Cache key of an instance's day list for a channel.
pub open spec fn list_key_spec(host: Seq<char>, channel: Seq<char>) -> Seq<char> {
    "logs:list:"@ + host + ":"@ + id_dash(channel)
}

/// Cache key of an instance's user-availability answer.
pub open spec fn status_key_spec(host: Seq<char>, channel: Seq<char>, user: Seq<char>) -> Seq<char> {
    "logs:instance:"@ + host + ":"@ + id_dash(channel) + ":"@ + id_dash(user)
}

/// The instance's landing page.
pub fn instance_link(host: &str) -> (r: String)
    ensures
        r@ == instance_link_spec(host@),
{
    let mut r = String::new();
    push_str(&mut r, "https://");
    push_str(&mut r, host);
    r
}

/// Link to a channel's logs.
pub fn channel_link(host: &str, channel: &str, pretty: bool) -> (r: String)
    ensures
        r@ == channel_link_spec(host@, channel@, pretty),
{
    let mut r = String::new();
    if pretty {
        push_str(&mut r, "https://tv.supa.sh/logs?c=");
        push_str(&mut r, channel);
    } else {
        push_str(&mut r, "https://");
        push_str(&mut r, host);
        push_str(&mut r, "/?channel=");
        push_str(&mut r, channel);
    }
    r
}

/// Link to a user's logs in a channel.
pub fn user_link(host: &str, channel: &str, user: &str, pretty: bool) -> (r: String)
    ensures
        r@ == user_link_spec(host@, channel@, user@, pretty),
{
    let mut r = String::new();
    if pretty {
        push_str(&mut r, "https://tv.supa.sh/logs?c=");
        push_str(&mut r, channel);
        push_str(&mut r, "&u=");
        push_str(&mut r, user);
    } else {
        push_str(&mut r, "https://");
        push_str(&mut r, host);
        push_str(&mut r, "/?channel=");
        push_str(&mut r, channel);
        push_str(&mut r, "&username=");
        push_str(&mut r, user);
    }
    r
}

/// Cache key of an instance's day list for a channel.
pub fn list_cache_key(host: &str, channel: &str) -> (r: String)
    ensures
        r@ == list_key_spec(host@, channel@),
{
    let mut r = String::new();
    push_str(&mut r, "logs:list:");
    push_str(&mut r, host);
    push_str(&mut r, ":");
    let c = id_dash_key(channel);
    push_str(&mut r, c.as_str());
    r
}

/// Cache key of an instance's user-availability answer.
pub fn status_cache_key(host: &str, channel: &str, user: &str) -> (r: String)
    ensures
        r@ == status_key_spec(host@, channel@, user@),
{
    let mut r = String::new();
    push_str(&mut r, "logs:instance:");
    push_str(&mut r, host);
    push_str(&mut r, ":");
    let c = id_dash_key(channel);
    push_str(&mut r, c.as_str());
    push_str(&mut r, ":");
    let u = id_dash_key(user);
    push_str(&mut r, u.as_str());
    r
}

/// The `/list` query parameter naming a channel: `channelid` for an `id:`
/// reference, `channel` otherwise.
pub fn channel_param(channel: &str) -> (r: &'static str)
    ensures
        r@ == if is_id_ref(channel@) {
            "channelid"@
        } else {
            "channel"@
        },
{
    if is_user_id(channel) {
        "channelid"
    } else {
        "channel"
    }
}

/// The `/list` query parameter naming a user: `userid` for an `id:`
/// reference, `user` otherwise.
pub fn user_param(user: &str) -> (r: &'static str)
    ensures
        r@ == if is_id_ref(user@) {
            "userid"@
        } else {
            "user"@
        },
{
    if is_user_id(user) {
        "userid"
    } else {
        "user"
    }
}

/// Whether an instance is worth querying for `channel`, decided from its
/// loaded channel list before anything goes on the wire. An instance whose
/// list is not loaded counts as down; an unknown channel is only looked for
/// when it is banned (banned channels drop out of the lists).
pub fn probe_gate(channels: Option<&InstanceChannels>, channel: &str, banned: bool) -> (r: Option<GetLogsOutcome>)
    ensures
        ({
            let clean = if starts_with_chars(channel@, "id:"@) {
                channel@.subrange(3, channel@.len() as int)
            } else {
                channel@
            };
            let known = match channels {
                Some(c) => lists_channel(c@, clean),
                None => false,
            };
            let down = match channels {
                Some(c) => c@.len() == 0,
                None => true,
            };
            if !banned && !known {
                r matches Some(GetLogsOutcome::ChannelNotFound)
            } else if down {
                r matches Some(GetLogsOutcome::Down)
            } else {
                r is None
            }
        }),
{
    let clean = strip_id_prefix(channel);
    let (known, down) = match channels {
        Some(c) => (c.contains(clean), c.is_empty()),
        None => (false, true),
    };
    if !banned && !known {
        Some(GetLogsOutcome::ChannelNotFound)
    } else if down {
        Some(GetLogsOutcome::Down)
    } else {
        None
    }
}

/// Classifies an instance's answers: `list` is its day list (`None` when
/// its breaker is open with nothing cached), `status` the HTTP status of the
/// user probe (`None` when no user was asked for or nothing is known).
pub open spec fn classify_spec(
    host: Seq<char>,
    channel_full: Seq<char>,
    full: Seq<char>,
    list: Option<Seq<AvailableLogDate>>,
    status: Option<u16>,
    r: GetLogsOutcome,
) -> bool {
    match list {
        None => r is Down,
        Some(l) => if status == Some(403u16) {
            r matches GetLogsOutcome::OptedOut { link } && link@ == instance_link_spec(host)
        } else if status matches Some(s) && s / 100 == 2 {
            r matches GetLogsOutcome::Available { link, channel_full: c, full: f, list: l2 }
                && link@ == instance_link_spec(host) && c@ == channel_full && f@ == full && l2@ == l
        } else {
            r matches GetLogsOutcome::ChannelOnly { link, channel_full: c, list: l2 }
                && link@ == instance_link_spec(host) && c@ == channel_full && l2@ == l
        },
    }
}

/// What an instance's answers add up to.
pub fn classify(
    host: &str,
    channel_full: String,
    full: String,
    list: Option<Arc<Vec<AvailableLogDate>>>,
    status: Option<u16>,
) -> (r: GetLogsOutcome)
    ensures
        classify_spec(
            host@,
            channel_full@,
            full@,
            match list {
                Some(l) => Some(l@),
                None => None,
            },
            status,
            r,
        ),
{
    let list = match list {
        Some(l) => l,
        None => {
            return GetLogsOutcome::Down;
        },
    };
    let link = instance_link(host);
    match status {
        Some(403) => GetLogsOutcome::OptedOut { link },
        Some(s) if s / 100 == 2 => GetLogsOutcome::Available { link, channel_full, full, list },
        _ => GetLogsOutcome::ChannelOnly { link, channel_full, list },
    }
}

/// `Arc::clone`: another handle to the same day list.
#[verifier::external_body]
fn share_list(list: &Arc<Vec<AvailableLogDate>>) -> (r: Arc<Vec<AvailableLogDate>>)
    ensures
        r == *list,
{
    Arc::clone(list)
}

/// When the fan-out stops waiting. Until the lookup has an answer worth
/// returning the wait is bounded by the hard deadline; from then on by the
/// grace window, itself capped by the soft deadline. A forced refresh starts
/// armed, so it waits for everything.
#[derive(Clone, Copy)]
pub struct FanOutClock {
    pub grace_armed: bool,
    pub deadline: u64,
    pub soft_deadline: u64,
}

impl FanOutClock {
    /// The clock after an answer arrived at `now`, `answered` telling
    /// whether the lookup can now be answered.
    pub open spec fn after_observe(self, answered: bool, now: u64) -> FanOutClock {
        if answered && !self.grace_armed {
            let grace = sat_add(now, FANOUT_RESULT_GRACE_MS);
            FanOutClock {
                grace_armed: true,
                deadline: if grace < self.soft_deadline {
                    grace
                } else {
                    self.soft_deadline
                },
                ..self
            }
        } else {
            self
        }
    }

    /// The clock of a fan-out started at `started`.
    pub fn start(started: u64, force: bool) -> (r: FanOutClock)
        ensures
            r.grace_armed == force,
            r.deadline == sat_add(started, FANOUT_HARD_DEADLINE_MS),
            r.soft_deadline == sat_add(started, FANOUT_SOFT_DEADLINE_MS),
    {
        FanOutClock {
            grace_armed: force,
            deadline: started.saturating_add(FANOUT_HARD_DEADLINE_MS),
            soft_deadline: started.saturating_add(FANOUT_SOFT_DEADLINE_MS),
        }
    }

    /// Arms the grace window on the first answer that makes the lookup answerable.
    pub fn observe(&mut self, answered: bool, now: u64)
        ensures
            *final(self) == old(self).after_observe(answered, now),
    {
        if answered && !self.grace_armed {
            self.grace_armed = true;
            let grace = now.saturating_add(FANOUT_RESULT_GRACE_MS);
            self.deadline = if grace < self.soft_deadline {
                grace
            } else {
                self.soft_deadline
            };
        }
    }
}

/// One instance's ranking entry: its landing page, the user-facing link,
/// and the day list its rank comes from.
pub struct RankedInstance {
    pub link: String,
    pub full: String,
    pub list: Arc<Vec<AvailableLogDate>>,
}

/// Everything the fan-out has collected so far.
pub struct FanOut {
    pub down_sites: usize,
    pub opt_outs: Vec<String>,
    pub channel_with_len: Vec<RankedInstance>,
    pub user_with_len: Vec<RankedInstance>,
    /// Whether a user was asked for.
    pub wants_user: bool,
    pub clock: FanOutClock,
}

/// The channel entries after taking in `outcome`: an instance with the
/// channel's logs joins them.
pub open spec fn channel_entries_after(entries: Seq<RankedInstance>, outcome: Option<GetLogsOutcome>) -> Seq<RankedInstance> {
    match outcome {
        Some(GetLogsOutcome::Available { link, channel_full, full, list }) => entries.push(
            RankedInstance { link, full: channel_full, list },
        ),
        Some(GetLogsOutcome::ChannelOnly { link, channel_full, list }) => entries.push(
            RankedInstance { link, full: channel_full, list },
        ),
        _ => entries,
    }
}

/// The user entries after taking in `outcome`: an instance with the user's
/// logs joins them.
pub open spec fn user_entries_after(entries: Seq<RankedInstance>, outcome: Option<GetLogsOutcome>) -> Seq<RankedInstance> {
    match outcome {
        Some(GetLogsOutcome::Available { link, channel_full, full, list }) => entries.push(
            RankedInstance { link, full, list },
        ),
        _ => entries,
    }
}

/// Some entry of `chan` is the instance at `link`.
pub open spec fn has_link(chan: Seq<RankedInstance>, link: String) -> bool {
    exists|j: int| 0 <= j < chan.len() && #[trigger] chan[j].link == link
}

/// Every user entry's instance is also among the channel entries.
pub open spec fn users_within_channels(chan: Seq<RankedInstance>, user: Seq<RankedInstance>) -> bool {
    forall|k: int| 0 <= k < user.len() ==> has_link(chan, #[trigger] user[k].link)
}

impl FanOut {
    /// The lookup can be answered: some instance logs the channel and, when a
    /// user was asked for, some instance logs the user.
    pub open spec fn answered(self) -> bool {
        self.channel_with_len@.len() > 0 && (!self.wants_user || self.user_with_len@.len() > 0)
    }

    /// A fan-out started at `started`.
    pub fn new(started: u64, force: bool, wants_user: bool) -> (r: FanOut)
        ensures
            r.down_sites == 0,
            r.opt_outs@.len() == 0,
            r.channel_with_len@.len() == 0,
            r.user_with_len@.len() == 0,
            r.wants_user == wants_user,
            r.clock.grace_armed == force,
            r.clock.deadline == sat_add(started, FANOUT_HARD_DEADLINE_MS),
            r.clock.soft_deadline == sat_add(started, FANOUT_SOFT_DEADLINE_MS),
    {
        FanOut {
            down_sites: 0,
            opt_outs: Vec::new(),
            channel_with_len: Vec::new(),
            user_with_len: Vec::new(),
            wants_user,
            clock: FanOutClock::start(started, force),
        }
    }

    /// Takes in one instance's outcome, arriving at `now`; `None` is a probe
    /// that failed outright (counted as down).
    pub fn record(&mut self, outcome: Option<GetLogsOutcome>, now: u64)
        requires
            old(self).down_sites < usize::MAX,
        ensures
            final(self).wants_user == old(self).wants_user,
            final(self).down_sites == old(self).down_sites + match outcome {
                None => 1int,
                Some(GetLogsOutcome::Down) => 1int,
                _ => 0int,
            },
            final(self).opt_outs@ == match outcome {
                Some(GetLogsOutcome::OptedOut { link }) => old(self).opt_outs@.push(link),
                _ => old(self).opt_outs@,
            },
            final(self).channel_with_len@ == channel_entries_after(old(self).channel_with_len@, outcome),
            final(self).user_with_len@ == user_entries_after(old(self).user_with_len@, outcome),
            final(self).clock == old(self).clock.after_observe(final(self).answered(), now),
    {
        match outcome {
            None => {
                self.down_sites = self.down_sites + 1;
            },
            Some(GetLogsOutcome::Down) => {
                self.down_sites = self.down_sites + 1;
            },
            Some(GetLogsOutcome::Available { link, channel_full, full, list }) => {
                let shared = share_list(&list);
                self.channel_with_len.push(RankedInstance { link: link.clone(), full: channel_full, list: shared });
                self.user_with_len.push(RankedInstance { link, full, list });
            },
            Some(GetLogsOutcome::ChannelOnly { link, channel_full, list }) => {
                self.channel_with_len.push(RankedInstance { link, full: channel_full, list });
            },
            Some(GetLogsOutcome::ChannelNotFound) => {},
            Some(GetLogsOutcome::OptedOut { link }) => {
                self.opt_outs.push(link);
            },
        }
        let answered = self.channel_with_len.len() > 0 && (!self.wants_user || self.user_with_len.len() > 0);
        self.clock.observe(answered, now);
    }
}

/// What ivr.fi said of a person, as the response reports it.
pub open spec fn person(u: TwitchUser) -> RequestPersonInfo {
    RequestPersonInfo { login: u.login, id: u.id, banned: u.banned }
}

/// The `id:` reference to a user.
pub open spec fn id_ref_of(u: TwitchUser) -> Seq<char> {
    "id:"@ + u.id@
}

/// The lookup as it goes out to the instances, after the channel and user
/// were resolved: banned accounts are looked up by id (their login no
/// longer resolves on the instances).
pub struct Resolved {
    pub request: RequestInfo,
    pub channel: String,
    pub banned: bool,
    pub user: Option<String>,
    pub error: Option<String>,
}

fn id_ref(id: &String) -> (r: String)
    ensures
        r@ == "id:"@ + id@,
{
    let mut r = String::new();
    push_str(&mut r, "id:");
    push_str(&mut r, id.as_str());
    r
}

fn message(prefix: &str, subject: &str) -> (r: String)
    ensures
        r@ == prefix@ + subject@,
{
    let mut r = String::new();
    push_str(&mut r, prefix);
    push_str(&mut r, subject);
    r
}

/// Combines the lookup with what ivr.fi said of the channel
/// (`channel_info`) and, when a user was asked for, of the user
/// (`user_info`); `None` is a failed resolution.
pub fn resolve_lookup(
    channel: &str,
    user: Option<&str>,
    force: bool,
    pre_error: Option<String>,
    channel_info: Option<TwitchUser>,
    user_info: Option<TwitchUser>,
) -> (r: Resolved)
    ensures
        r.request.forced == force,
        r.request.channel == match channel_info {
            Some(i) => Some(person(i)),
            None => None,
        },
        r.request.user == match (user, user_info) {
            (Some(_), Some(i)) => Some(person(i)),
            _ => None,
        },
        r.banned == (channel_info matches Some(i) && i.banned),
        r.channel@ == match channel_info {
            Some(i) => if i.banned {
                id_ref_of(i)
            } else {
                channel@
            },
            None => channel@,
        },
        r.user is Some == user is Some,
        user matches Some(u) ==> r.user->0@ == match user_info {
            Some(i) => if i.banned {
                id_ref_of(i)
            } else {
                u@
            },
            None => u@,
        },
        match (user, user_info) {
            (Some(u), None) => r.error matches Some(e) && e@ == "The user does not exist: "@ + u@,
            _ => match channel_info {
                None => r.error matches Some(e) && e@ == "The channel does not exist: "@ + channel@,
                Some(_) => r.error == pre_error,
            },
        },
{
    let mut error = pre_error;
    let mut request = RequestInfo { channel: None, user: None, forced: force };
    let mut resolved_channel = channel.to_owned();
    let mut banned = false;
    match &channel_info {
        Some(info) => {
            request.channel = Some(RequestPersonInfo::from(info));
            banned = info.banned;
            if info.banned {
                resolved_channel = id_ref(&info.id);
            }
        },
        None => {
            error = Some(message("The channel does not exist: ", channel));
        },
    }
    let mut resolved_user: Option<String> = match user {
        Some(u) => Some(u.to_owned()),
        None => None,
    };
    if let Some(u) = user {
        match &user_info {
            Some(info) => {
                request.user = Some(RequestPersonInfo::from(info));
                if info.banned {
                    resolved_user = Some(id_ref(&info.id));
                }
            },
            None => {
                error = Some(message("The user does not exist: ", u));
            },
        }
    }
    Resolved { request, channel: resolved_channel, banned, user: resolved_user, error }
}

/// Day counts of the collected entries, the keys they are ranked by.
pub open spec fn lens_of(entries: Seq<RankedInstance>) -> Seq<i128> {
    Seq::new(entries.len(), |i: int| entries[i].list@.len() as i128)
}

/// Landing pages of the entries, best-ranked first.
pub open spec fn ranked_links(entries: Seq<RankedInstance>) -> Seq<String> {
    let order = rank_spec(lens_of(entries));
    Seq::new(order.len(), |i: int| entries[order[i] as int].link)
}

/// User-facing links of the entries, best-ranked first.
pub open spec fn ranked_fulls(entries: Seq<RankedInstance>) -> Seq<String> {
    let order = rank_spec(lens_of(entries));
    Seq::new(order.len(), |i: int| entries[order[i] as int].full)
}

/// The day list of the best-ranked entry, empty when there is none.
pub open spec fn top_list(entries: Seq<RankedInstance>) -> Seq<AvailableLogDate> {
    if entries.len() == 0 {
        Seq::empty()
    } else {
        entries[rank_spec(lens_of(entries))[0] as int].list@
    }
}

/// The links block of the collected entries, and the best-ranked day list.
fn rank_entries(entries: &Vec<RankedInstance>) -> (r: (LinksBlock, Arc<Vec<AvailableLogDate>>))
    ensures
        r.0.count == entries@.len(),
        r.0.instances@ == ranked_links(entries@),
        r.0.full_link@ == ranked_fulls(entries@),
        r.1@ == top_list(entries@),
{
    let mut lens: Vec<i128> = Vec::new();
    let mut k: usize = 0;
    while k < entries.len()
        invariant
            k <= entries@.len(),
            lens@ == lens_of(entries@).subrange(0, k as int),
        decreases entries@.len() - k,
    {
        lens.push(entries[k].list.len() as i128);
        proof {
            assert(lens_of(entries@).subrange(0, k + 1) =~= lens_of(entries@).subrange(0, k as int).push(
                entries@[k as int].list@.len() as i128,
            ));
        }
        k = k + 1;
    }
    proof {
        assert(lens_of(entries@).subrange(0, entries@.len() as int) =~= lens_of(entries@));
    }
    let order = rank_order(&lens);
    let mut instances: Vec<String> = Vec::new();
    let mut full_link: Vec<String> = Vec::new();
    let mut i: usize = 0;
    while i < order.len()
        invariant
            order@ == rank_spec(lens_of(entries@)),
            is_rank_order(lens_of(entries@), order@),
            lens_of(entries@).len() == entries@.len(),
            i <= order@.len(),
            instances@ == ranked_links(entries@).subrange(0, i as int),
            full_link@ == ranked_fulls(entries@).subrange(0, i as int),
        decreases order@.len() - i,
    {
        let e = &entries[order[i]];
        instances.push(e.link.clone());
        full_link.push(e.full.clone());
        proof {
            assert(ranked_links(entries@).subrange(0, i + 1) =~= ranked_links(entries@).subrange(0, i as int).push(
                entries@[order@[i as int] as int].link,
            ));
            assert(ranked_fulls(entries@).subrange(0, i + 1) =~= ranked_fulls(entries@).subrange(0, i as int).push(
                entries@[order@[i as int] as int].full,
            ));
        }
        i = i + 1;
    }
    proof {
        assert(ranked_links(entries@).subrange(0, order@.len() as int) =~= ranked_links(entries@));
        assert(ranked_fulls(entries@).subrange(0, order@.len() as int) =~= ranked_fulls(entries@));
    }
    let top = if entries.len() == 0 {
        Arc::new(Vec::new())
    } else {
        share_list(&entries[order[0]].list)
    };
    (LinksBlock { count: entries.len(), instances, full_link }, top)
}

/// `Option<String>` by its characters.
pub open spec fn opt_chars(o: Option<String>) -> Option<Seq<char>> {
    match o {
        Some(s) => Some(s@),
        None => None,
    }
}

/// The error and status of a lookup: an earlier error stands (404);
/// otherwise opted out with no channel logs is 403, no channel logs 404, no
/// user logs for a requested user 404, anything else 200.
pub open spec fn verdict(
    prior: Option<Seq<char>>,
    opted_out: bool,
    has_channel: bool,
    has_user: bool,
    wants_user: bool,
) -> (Option<Seq<char>>, u16) {
    if prior is Some {
        (prior, 404)
    } else if opted_out && !has_channel {
        (Some("User or channel has opted out"@), 403)
    } else if !has_channel {
        (Some("No channel logs found"@), 404)
    } else if !has_user && wants_user {
        (Some("No user logs found"@), 404)
    } else {
        (None, 200)
    }
}

/// A lookup whose channel some instance logs (and, when a user was asked
/// for, whose user some instance logs) and that carries no earlier error is
/// answered 200 with no error, whatever other instances report: an opt-out
/// on one instance never hides another instance's logs. A 403 comes only
/// from an opt-out when no instance has the channel; every other failure is
/// a 404 with an error.
pub proof fn law_found_logs_answer_ok(
    prior: Option<Seq<char>>,
    opted_out: bool,
    has_channel: bool,
    has_user: bool,
    wants_user: bool,
)
    ensures
        (prior is None && has_channel && (!wants_user || has_user)) ==> verdict(prior, opted_out, has_channel, has_user, wants_user) == (None::<Seq<char>>, 200u16),
        has_channel ==> verdict(prior, opted_out, has_channel, has_user, wants_user) == verdict(prior, false, has_channel, has_user, wants_user),
        verdict(prior, opted_out, has_channel, has_user, wants_user).1 == 403 ==> prior is None && opted_out && !has_channel,
        verdict(prior, opted_out, has_channel, has_user, wants_user).0 is None <==> verdict(prior, opted_out, has_channel, has_user, wants_user).1 == 200,
        verdict(prior, opted_out, has_channel, has_user, wants_user).1 == 200 || verdict(prior, opted_out, has_channel, has_user, wants_user).1 == 403 || verdict(prior, opted_out, has_channel, has_user, wants_user).1 == 404,
{
}

/// `ms / 1000`, rounding toward zero.
pub open spec fn whole_seconds(ms: i64) -> int {
    if ms >= 0 {
        ms / 1000
    } else {
        -((-ms) / 1000)
    }
}

/// When the channel lists were last refreshed.
pub fn last_updated(ms: i64) -> (r: LastUpdated)
    ensures
        r.unix == whole_seconds(ms),
        r.utc@ == utc_string(ms),
{
    let unix: i64 = if ms >= 0 {
        ms / 1000
    } else {
        let pos: u64 = (0i128 - ms as i128) as u64;
        let q: u64 = pos / 1000;
        0i64 - q as i64
    };
    LastUpdated { unix, utc: to_utc_string(ms) }
}

/// The response to a lookup, but for how long it took.
pub struct InstanceReport {
    pub error: Option<String>,
    pub status: u16,
    pub instances_info: InstancesInfo,
    pub request: RequestInfo,
    pub available: Available,
    pub logged_data: LoggedData,
    pub user_logs: LinksBlock,
    pub channel_logs: LinksBlock,
    pub opted_out: OptedOut,
    pub last_updated: LastUpdated,
}

/// Builds the response from the resolved lookup and what the fan-out
/// collected; `abandoned` probes were still running at the deadline and
/// count as down. The flag says whether the (banned) channel was found on
/// some instance and should join the list of known channels.
pub fn conclude(
    resolved: Resolved,
    fan: FanOut,
    abandoned: usize,
    instance_count: usize,
    last_updated_ms: i64,
) -> (r: (InstanceReport, bool))
    requires
        fan.down_sites + abandoned <= usize::MAX,
    ensures
        (opt_chars(r.0.error), r.0.status) == verdict(
            opt_chars(resolved.error),
            fan.opt_outs@.len() > 0,
            fan.channel_with_len@.len() > 0,
            fan.user_with_len@.len() > 0,
            resolved.user is Some,
        ),
        r.0.instances_info.count == instance_count,
        r.0.instances_info.down == fan.down_sites + abandoned,
        r.0.request == resolved.request,
        r.0.available.user == (fan.user_with_len@.len() > 0),
        r.0.available.channel == (fan.channel_with_len@.len() > 0),
        r.0.logged_data.list@ == top_list(fan.channel_with_len@),
        r.0.logged_data.days == top_list(fan.channel_with_len@).len(),
        r.0.logged_data.since == if top_list(fan.channel_with_len@).len() == 0 {
            None
        } else {
            Some(top_list(fan.channel_with_len@).last())
        },
        r.0.user_logs.count == fan.user_with_len@.len(),
        r.0.user_logs.instances@ == ranked_links(fan.user_with_len@),
        r.0.user_logs.full_link@ == ranked_fulls(fan.user_with_len@),
        r.0.channel_logs.count == fan.channel_with_len@.len(),
        r.0.channel_logs.instances@ == ranked_links(fan.channel_with_len@),
        r.0.channel_logs.full_link@ == ranked_fulls(fan.channel_with_len@),
        r.0.opted_out.count == fan.opt_outs@.len(),
        r.0.opted_out.instances@ == fan.opt_outs@,
        r.0.last_updated.unix == whole_seconds(last_updated_ms),
        r.0.last_updated.utc@ == utc_string(last_updated_ms),
        r.1 == (resolved.banned && fan.channel_with_len@.len() > 0),
{
    let (channel_logs, channel_list) = rank_entries(&fan.channel_with_len);
    let (user_logs, _) = rank_entries(&fan.user_with_len);
    let has_channel = fan.channel_with_len.len() > 0;
    let has_user = fan.user_with_len.len() > 0;
    let mut status: u16 = 404;
    let error: Option<String> = if resolved.error.is_some() {
        resolved.error
    } else if fan.opt_outs.len() > 0 && !has_channel {
        status = 403;
        Some("User or channel has opted out".to_owned())
    } else if !has_channel {
        Some("No channel logs found".to_owned())
    } else if !has_user && resolved.user.is_some() {
        Some("No user logs found".to_owned())
    } else {
        status = 200;
        None
    };
    let days = channel_list.len();
    let since = if days == 0 {
        None
    } else {
        Some(channel_list[days - 1].copied())
    };
    let remember = resolved.banned && has_channel;
    let report = InstanceReport {
        error,
        status,
        instances_info: InstancesInfo { count: instance_count, down: fan.down_sites + abandoned },
        request: resolved.request,
        available: Available { user: has_user, channel: has_channel },
        logged_data: LoggedData { list: channel_list, days, since },
        user_logs,
        channel_logs,
        opted_out: OptedOut { count: fan.opt_outs.len(), instances: fan.opt_outs },
        last_updated: last_updated(last_updated_ms),
    };
    (report, remember)
}

/// A forced refresh never cuts the fan-out short: an armed clock keeps its
/// deadline whatever arrives.
pub proof fn law_armed_clock_keeps_deadline(clock: FanOutClock, answered: bool, now: u64)
    requires
        clock.grace_armed,
    ensures
        clock.after_observe(answered, now) == clock,
{
}

/// The first answerable moment bounds the rest of the wait by the grace
/// window and by the soft deadline, and the wait never grows.
pub proof fn law_grace_bounds_wait(clock: FanOutClock, now: u64)
    requires
        !clock.grace_armed,
        clock.soft_deadline <= clock.deadline,
    ensures
        clock.after_observe(true, now).grace_armed,
        clock.after_observe(true, now).deadline <= clock.soft_deadline,
        clock.after_observe(true, now).deadline <= sat_add(now, FANOUT_RESULT_GRACE_MS),
        clock.after_observe(true, now).deadline <= clock.deadline,
{
}

/// A fresh clock's soft deadline is never after its hard deadline.
pub proof fn law_start_soft_before_hard(started: u64)
    ensures
        sat_add(started, FANOUT_SOFT_DEADLINE_MS) <= sat_add(started, FANOUT_HARD_DEADLINE_MS),
{
}

/// The reported day list is the longest one collected.
pub proof fn law_top_list_is_longest(entries: Seq<RankedInstance>, k: int)
    requires
        0 <= k < entries.len(),
        entries.len() <= usize::MAX,
        forall|i: int| 0 <= i < entries.len() ==> entries[i].list@.len() <= usize::MAX,
    ensures
        top_list(entries).len() >= entries[k].list@.len(),
{
    let lens = lens_of(entries);
    let order = rank_witness(lens);
    lemma_rank_order_unique(lens, order, rank_spec(lens));
    lemma_rank_covers(lens, order, k);
    let p = choose|p: int| 0 <= p < order.len() && order[p] == k;
    if p > 0 {
        assert(ranks_before(lens, order[0] as int, order[p] as int));
    }
}

/// An instance that logs the user also logs the channel: it holds for the
/// empty lists a fan-out starts with, and taking in any outcome keeps it.
pub proof fn law_user_links_within_channel(
    chan: Seq<RankedInstance>,
    user: Seq<RankedInstance>,
    outcome: Option<GetLogsOutcome>,
)
    requires
        users_within_channels(chan, user),
    ensures
        users_within_channels(Seq::empty(), Seq::empty()),
        users_within_channels(channel_entries_after(chan, outcome), user_entries_after(user, outcome)),
{
    let c2 = channel_entries_after(chan, outcome);
    let u2 = user_entries_after(user, outcome);
    assert forall|k: int| 0 <= k < u2.len() implies has_link(c2, #[trigger] u2[k].link) by {
        if k < user.len() {
            assert(u2[k] == user[k]);
            assert(has_link(chan, user[k].link));
            let j = choose|j: int| 0 <= j < chan.len() && #[trigger] chan[j].link == user[k].link;
            assert(c2[j] == chan[j]);
        } else {
            assert(c2[chan.len() as int].link == u2[k].link);
        }
    }
    assert(users_within_channels(c2, u2));
}

/// Day counts fall along the ranked list: an instance ranked earlier has at
/// least as many log days as one ranked later.
pub proof fn law_ranked_days_fall(entries: Seq<RankedInstance>, i: int, j: int)
    requires
        0 <= i <= j < entries.len(),
        entries.len() <= usize::MAX,
        forall|k: int| 0 <= k < entries.len() ==> entries[k].list@.len() <= usize::MAX,
    ensures
        rank_spec(lens_of(entries)).len() == entries.len(),
        entries[rank_spec(lens_of(entries))[i] as int].list@.len() >= entries[rank_spec(lens_of(entries))[j] as int].list@.len(),
{
    let lens = lens_of(entries);
    let order = rank_witness(lens);
    lemma_rank_order_unique(lens, order, rank_spec(lens));
    if i < j {
        assert(ranks_before(lens, order[i] as int, order[j] as int));
    }
}

/// A probe's outcome counts against the instance's health: a transport
/// failure (no status at all) or a 5xx does; any other status is an answer.
pub open spec fn counts_against(status: Option<u16>) -> bool {
    match status {
        Some(s) => 500 <= s <= 599,
        None => true,
    }
}

/// Whether a probe's outcome counts against the instance (see `counts_against`).
pub fn counts_as_failure(status: Option<u16>) -> (r: bool)
    ensures
        r == counts_against(status),
{
    match status {
        Some(s) => 500 <= s && s <= 599,
        None => true,
    }
}

/// An answer below 500 (a 403 or 404 for an opted-out or unlogged channel
/// among them) never counts against an instance, so it can never trip its
/// breaker.
pub proof fn law_answers_never_trip(status: u16)
    requires
        status < 500,
    ensures
        !counts_against(Some(status)),
{
}

/// Where an instance's day list (or user status) is taken from.
pub enum ProbeRoute {
    /// The breaker is open: only what is cached.
    CacheOnly,
    /// A forced refresh: fetch, and store what came back.
    Refresh,
    /// Through the cache, fetching on a miss (concurrent misses share one fetch).
    Cached,
}

/// The route a probe takes given the instance's permit and whether the
/// lookup forces a refresh.
pub fn probe_route(permit: &crate::logs::health::Permit, force: bool) -> (r: ProbeRoute)
    ensures
        match permit {
            crate::logs::health::Permit::CachedOnly => r is CacheOnly,
            crate::logs::health::Permit::Fetch(_) => if force {
                r is Refresh
            } else {
                r is Cached
            },
        },
{
    match permit {
        crate::logs::health::Permit::CachedOnly => ProbeRoute::CacheOnly,
        crate::logs::health::Permit::Fetch(_) => if force {
            ProbeRoute::Refresh
        } else {
            ProbeRoute::Cached
        },
    }
}

} // verus!
