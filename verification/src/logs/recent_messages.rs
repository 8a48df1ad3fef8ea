//! Recent chat history for a channel: the answers of the recent-messages
//! instances, optionally backfilled with older lines from the best-ranked
//! log instance, day by day.
use vstd::prelude::*;
use crate::logs::instance::{instance_link, instance_link_spec, opt_chars};
use crate::patterns::{TmiSentPattern, tmi_sent_digits};
use crate::text::{same_text, contains, contains_spec, i64_text, parse_i64, parse_i64_spec, parse_usize, parse_usize_spec, push_i64, replace_first, replace_first_spec};
use crate::util::push_str;
use crate::logs::AvailableLogDate;

verus! {

/// Most log days one backfill attempt reads.
pub const MAX_BACKFILL_DAYS: usize = 7;

/// Failed instances after which the backfill gives up.
pub const MAX_RETRIES: usize = 3;

/// Messages asked for when the request names no usable `limit`.
pub const DEFAULT_LIMIT: usize = 1000;

/// The characters of each string.
pub open spec fn views(v: Seq<String>) -> Seq<Seq<char>> {
    Seq::new(v.len(), |i: int| v[i]@)
}

/// `s` without its first character.
pub open spec fn drop_first(s: Seq<char>) -> Seq<char> {
    if s.len() == 0 {
        s
    } else {
        s.subrange(1, s.len() as int)
    }
}

/// A backfilled line as Chatterino expects historical replay: `None` when
/// recent-messages already covers it (its timestamp is at or after
/// `first_ts`); otherwise its first character (the `@` of the tags) replaced
/// by `@historical=1;`, and `rm-received-ts` added after its `tmi-sent-ts`.
/// `digits` is the timestamp text the line carries; one that does not parse
/// counts as 0.
pub open spec fn tag_line_spec(line: Seq<char>, digits: Option<Seq<char>>, first_ts: Option<i64>) -> Option<Seq<char>> {
    match digits {
        Some(d) => {
            let ts: i64 = match parse_i64_spec(d) {
                Some(v) => v,
                None => 0,
            };
            if first_ts matches Some(f) && ts >= f {
                None
            } else {
                let old = "tmi-sent-ts="@ + i64_text(ts) + ";"@;
                let new = "tmi-sent-ts="@ + i64_text(ts) + ";rm-received-ts="@ + i64_text(ts) + ";"@;
                Some("@historical=1;"@ + drop_first(replace_first_spec(line, old, new)))
            }
        },
        None => Some("@historical=1;"@ + drop_first(line)),
    }
}

/// Every line tagged, dropping those recent-messages already covers.
pub open spec fn tag_all(lines: Seq<Seq<char>>, first_ts: Option<i64>) -> Seq<Seq<char>>
    decreases lines.len(),
{
    if lines.len() == 0 {
        Seq::empty()
    } else {
        let rest = tag_all(lines.drop_last(), first_ts);
        match tag_line_spec(lines.last(), tmi_sent_digits(lines.last()), first_ts) {
            Some(t) => rest.push(t),
            None => rest,
        }
    }
}

fn drop_first_char(s: &str) -> (r: String)
    ensures
        r@ == drop_first(s@),
{
    let cs = crate::text::chars_of(s);
    if cs.len() == 0 {
        String::new()
    } else {
        crate::text::string_of(&cs, 1, cs.len())
    }
}

/// Tags one line given the timestamp text it carries (see `tag_line_spec`).
pub fn tag_line(line: &str, digits: Option<&str>, first_ts: Option<i64>) -> (r: Option<String>)
    ensures
        opt_chars(r) == tag_line_spec(
            line@,
            match digits {
                Some(d) => Some(d@),
                None => None,
            },
            first_ts,
        ),
{
    let mut out = String::new();
    push_str(&mut out, "@historical=1;");
    match digits {
        Some(d) => {
            let ts: i64 = match parse_i64(d) {
                Some(v) => v,
                None => 0,
            };
            if let Some(f) = first_ts {
                if ts >= f {
                    return None;
                }
            }
            let mut old = String::new();
            push_str(&mut old, "tmi-sent-ts=");
            push_i64(&mut old, ts);
            push_str(&mut old, ";");
            let mut new = String::new();
            push_str(&mut new, "tmi-sent-ts=");
            push_i64(&mut new, ts);
            push_str(&mut new, ";rm-received-ts=");
            push_i64(&mut new, ts);
            push_str(&mut new, ";");
            let replaced = replace_first(line, old.as_str(), new.as_str());
            let rest = drop_first_char(replaced.as_str());
            push_str(&mut out, rest.as_str());
        },
        None => {
            let rest = drop_first_char(line);
            push_str(&mut out, rest.as_str());
        },
    }
    Some(out)
}

/// Tags backfilled lines as historical replay and drops those already
/// covered by recent-messages (at or after `first_ts`).
pub fn tag_historical(lines: Vec<String>, first_ts: Option<i64>) -> (r: Vec<String>)
    ensures
        views(r@) == tag_all(views(lines@), first_ts),
{
    let pattern = TmiSentPattern::new();
    let mut out: Vec<String> = Vec::new();
    let mut i: usize = 0;
    while i < lines.len()
        invariant
            i <= lines@.len(),
            views(out@) == tag_all(views(lines@).subrange(0, i as int), first_ts),
        decreases lines@.len() - i,
    {
        let line = &lines[i];
        let digits = pattern.sent_digits(line.as_str());
        let tagged = match &digits {
            Some(d) => tag_line(line.as_str(), Some(d.as_str()), first_ts),
            None => tag_line(line.as_str(), None, first_ts),
        };
        proof {
            let pre = views(lines@).subrange(0, i as int);
            let cur = views(lines@).subrange(0, i + 1);
            assert(cur.drop_last() =~= pre);
            assert(cur.last() == line@);
        }
        match tagged {
            Some(t) => {
                let ghost before = out@;
                let ghost tv = t@;
                out.push(t);
                proof {
                    assert(views(out@) =~= views(before).push(tv));
                }
            },
            None => {},
        }
        i = i + 1;
    }
    proof {
        assert(views(lines@).subrange(0, lines@.len() as int) =~= views(lines@));
    }
    out
}

/// Timestamp of the first recent message, if it carries a parsable one.
pub open spec fn first_ts_spec(messages: Seq<Seq<char>>) -> Option<i64> {
    if messages.len() == 0 {
        None
    } else {
        match tmi_sent_digits(messages[0]) {
            Some(d) => parse_i64_spec(d),
            None => None,
        }
    }
}

/// The send timestamp of the first message, which backfilled lines must
/// predate.
pub fn first_timestamp(messages: &Vec<String>) -> (r: Option<i64>)
    ensures
        r == first_ts_spec(views(messages@)),
{
    if messages.len() == 0 {
        return None;
    }
    let pattern = TmiSentPattern::new();
    match pattern.sent_digits(messages[0].as_str()) {
        Some(d) => parse_i64(d.as_str()),
        None => None,
    }
}

/// The `limit` query value: a positive integer, else `DEFAULT_LIMIT`.
pub fn recent_limit(raw: Option<&str>) -> (r: usize)
    ensures
        r == match raw {
            Some(v) => match parse_usize_spec(v@) {
                Some(n) => if n > 0 {
                    n
                } else {
                    DEFAULT_LIMIT
                },
                None => DEFAULT_LIMIT,
            },
            None => DEFAULT_LIMIT,
        },
{
    match raw {
        Some(v) => match parse_usize(v) {
            Some(n) => if n > 0 {
                n
            } else {
                DEFAULT_LIMIT
            },
            None => DEFAULT_LIMIT,
        },
        None => DEFAULT_LIMIT,
    }
}

/// Whether the `rm_only` query value asks to skip the backfill.
pub fn rm_only(raw: Option<&str>) -> (r: bool)
    ensures
        r == (match raw {
            Some(v) => v@ == "true"@,
            None => false,
        }),
{
    match raw {
        Some(v) => same_text(v, "true"),
        None => false,
    }
}

/// How the request is echoed back: `true`/`false` as booleans, anything
/// else as text.
pub enum QueryValue {
    Bool(bool),
    Text(String),
}

/// A query value as the response echoes it.
pub fn echo_value(v: &str) -> (r: QueryValue)
    ensures
        v@ == "true"@ ==> r == QueryValue::Bool(true),
        v@ == "false"@ ==> r == QueryValue::Bool(false),
        v@ != "true"@ && v@ != "false"@ ==> (r matches QueryValue::Text(t) && t@ == v@),
{
    proof {
        reveal_strlit("true");
        reveal_strlit("false");
        assert("true"@.len() != "false"@.len());
    }
    if same_text(v, "true") {
        QueryValue::Bool(true)
    } else if same_text(v, "false") {
        QueryValue::Bool(false)
    } else {
        QueryValue::Text(v.to_owned())
    }
}

/// Whether a query key is echoed on top of `channel` and `limit`.
pub fn echoed_key(key: &str) -> (r: bool)
    ensures
        r == (key@ != "channel"@ && key@ != "limit"@),
{
    !same_text(key, "channel") && !same_text(key, "limit")
}

/// The ROOMSTATE lines recent-messages instances include.
pub open spec fn is_roomstate(m: Seq<char>) -> bool {
    contains_spec(m, ":tmi.twitch.tv ROOMSTATE #"@)
}

/// `messages` without ROOMSTATE lines.
pub open spec fn without_roomstate(messages: Seq<Seq<char>>) -> Seq<Seq<char>>
    decreases messages.len(),
{
    if messages.len() == 0 {
        Seq::empty()
    } else {
        let rest = without_roomstate(messages.drop_last());
        if is_roomstate(messages.last()) {
            rest
        } else {
            rest.push(messages.last())
        }
    }
}

fn drop_roomstate(messages: Vec<String>) -> (r: Vec<String>)
    ensures
        views(r@) == without_roomstate(views(messages@)),
{
    let mut out: Vec<String> = Vec::new();
    let mut i: usize = 0;
    while i < messages.len()
        invariant
            i <= messages@.len(),
            views(out@) == without_roomstate(views(messages@).subrange(0, i as int)),
        decreases messages@.len() - i,
    {
        let m = &messages[i];
        proof {
            let cur = views(messages@).subrange(0, i + 1);
            assert(cur.drop_last() =~= views(messages@).subrange(0, i as int));
            assert(cur.last() == m@);
        }
        if !contains(m.as_str(), ":tmi.twitch.tv ROOMSTATE #") {
            let ghost before = out@;
            out.push(m.clone());
            proof {
                assert(views(out@) =~= views(before).push(m@));
            }
        }
        i = i + 1;
    }
    proof {
        assert(views(messages@).subrange(0, messages@.len() as int) =~= views(messages@));
    }
    out
}

/// A recent-messages instance's answer.
pub struct RmResponse {
    pub messages: Vec<String>,
    pub error: Option<String>,
    pub error_code: Option<String>,
    pub status_message: Option<String>,
}

/// The response being built.
pub struct RecentState {
    pub messages: Vec<String>,
    pub status_message: Option<String>,
    pub error_code: Option<String>,
    pub error: Option<String>,
    pub status: u16,
    /// The instances the messages came from; the first is the last
    /// recent-messages instance asked.
    pub instance: Vec<String>,
}

impl RecentState {
    /// Nothing answered yet: status 500, no messages.
    pub fn new() -> (r: RecentState)
        ensures
            r.messages@.len() == 0,
            r.status_message is None,
            r.error_code is None,
            r.error is None,
            r.status == 500,
            r.instance@.len() == 1,
            r.instance@[0]@ == Seq::<char>::empty(),
    {
        let mut instance: Vec<String> = Vec::new();
        instance.push(String::new());
        RecentState { messages: Vec::new(), status_message: None, error_code: None, error: None, status: 500, instance }
    }

    /// Takes in the answer of the recent-messages instance `entry`; returns
    /// whether it is usable (a 200 with messages), which ends the search.
    pub fn take_response(&mut self, entry: &str, status_code: u16, body: RmResponse) -> (done: bool)
        requires
            old(self).instance@.len() == 1,
        ensures
            done == (status_code == 200 && body.messages@.len() > 0),
            final(self).status_message == body.status_message,
            final(self).status == status_code,
            final(self).instance@.len() == 1,
            final(self).instance@[0]@ == instance_link_spec(entry@),
            done ==> views(final(self).messages@) == without_roomstate(views(body.messages@)),
            done ==> final(self).error_code == body.error_code,
            done ==> final(self).error == body.error,
            !done ==> final(self).messages == old(self).messages,
            !done ==> opt_chars(final(self).error_code) == Some(
                match body.error_code {
                    Some(c) => c@,
                    None => "internal_server_error"@,
                },
            ),
            !done ==> opt_chars(final(self).error) == Some(
                match body.error {
                    Some(e) => e@,
                    None => "Internal Server Error"@,
                },
            ),
    {
        self.status_message = body.status_message;
        self.instance.set(0, instance_link(entry));
        self.status = status_code;
        if status_code == 200 && body.messages.len() > 0 {
            self.messages = drop_roomstate(body.messages);
            self.error_code = body.error_code;
            self.error = body.error;
            true
        } else {
            self.error_code = Some(
                match body.error_code {
                    Some(c) => c,
                    None => "internal_server_error".to_owned(),
                },
            );
            self.error = Some(
                match body.error {
                    Some(e) => e,
                    None => "Internal Server Error".to_owned(),
                },
            );
            false
        }
    }
}

/// The backfill, as values.
pub struct BackfillModel {
    pub limit: nat,
    pub channel_available: bool,
    pub days: nat,
    pub instances: Seq<Seq<char>>,
    /// The answer so far (recent-messages, or an accepted backfill).
    pub messages: Seq<Seq<char>>,
    pub retries: nat,
    pub index: nat,
    pub success: bool,
    /// The instance whose backfill was accepted.
    pub used: Option<Seq<char>>,
    /// An attempt on `instances[index]` is under way.
    pub attempt: bool,
    /// Lines gathered by the attempt: older days in front.
    pub collected: Seq<Seq<char>>,
    /// Days the attempt has asked for.
    pub fetched: nat,
}

/// A day of logs to fetch: from instance `instance`, the `day`-th entry of
/// the channel's day list, at most `limit` lines.
pub struct DayRequest {
    pub instance: String,
    pub day: usize,
    pub limit: usize,
}

/// The bookkeeping up to the next day to fetch: the state then, and the
/// request as (instance position, day, line limit), or `None` when the
/// backfill is over. An attempt reads day after day while it has fewer lines
/// than `limit`, at most `MAX_BACKFILL_DAYS` and no more than the list has;
/// then its lines replace the answer if there are at least as many. Instances
/// are tried in order until one is accepted, the list ends, or
/// `MAX_RETRIES` attempts failed. Nothing is read when the channel has no logs.
pub open spec fn advance(m: BackfillModel) -> (BackfillModel, Option<(nat, nat, nat)>)
    decreases m.instances.len() - m.index, if m.attempt {
        0int
    } else {
        1int
    },
{
    if m.attempt {
        if m.index >= m.instances.len() {
            (m, None)
        } else if m.collected.len() < m.limit && m.fetched < MAX_BACKFILL_DAYS && m.fetched < m.days {
            (m, Some((m.index, m.fetched, (m.limit - m.collected.len()) as nat)))
        } else {
            let judged = if m.collected.len() >= m.messages.len() {
                BackfillModel {
                    success: true,
                    messages: m.collected,
                    used: Some(m.instances[m.index as int]),
                    ..m
                }
            } else {
                m
            };
            advance(BackfillModel { attempt: false, index: m.index + 1, collected: Seq::empty(), ..judged })
        }
    } else if !(m.retries < MAX_RETRIES && m.index < m.instances.len() && !m.success) {
        (m, None)
    } else if !m.channel_available {
        advance(BackfillModel { index: m.index + 1, ..m })
    } else {
        advance(BackfillModel { attempt: true, collected: m.messages, fetched: 0, ..m })
    }
}

/// One bookkeeping step of `advance` that does not yet decide.
pub open spec fn advance_step(m: BackfillModel) -> BackfillModel {
    if m.attempt {
        let judged = if m.collected.len() >= m.messages.len() {
            BackfillModel { success: true, messages: m.collected, used: Some(m.instances[m.index as int]), ..m }
        } else {
            m
        };
        BackfillModel { attempt: false, index: m.index + 1, collected: Seq::empty(), ..judged }
    } else if !m.channel_available {
        BackfillModel { index: m.index + 1, ..m }
    } else {
        BackfillModel { attempt: true, collected: m.messages, fetched: 0, ..m }
    }
}

/// A copy of every line.
pub(crate) fn clone_lines(v: &Vec<String>) -> (r: Vec<String>)
    ensures
        views(r@) == views(v@),
{
    let mut r: Vec<String> = Vec::new();
    let mut i: usize = 0;
    while i < v.len()
        invariant
            i <= v@.len(),
            views(r@) == views(v@).subrange(0, i as int),
        decreases v@.len() - i,
    {
        let ghost before = r@;
        r.push(v[i].clone());
        proof {
            assert(views(r@) =~= views(before).push(v@[i as int]@));
            assert(views(v@).subrange(0, i + 1) =~= views(v@).subrange(0, i as int).push(v@[i as int]@));
        }
        i = i + 1;
    }
    proof {
        assert(views(v@).subrange(0, v@.len() as int) =~= views(v@));
    }
    r
}

/// The state after the requested day came back: its lines in front of what
/// the attempt has, or, on failure, the attempt failing when it was the
/// first day and the day skipped otherwise.
pub open spec fn on_day_spec(m: BackfillModel, day: Option<Seq<Seq<char>>>) -> BackfillModel {
    match day {
        Some(lines) => BackfillModel { collected: lines + m.collected, fetched: m.fetched + 1, ..m },
        None => if m.fetched == 0 {
            BackfillModel { attempt: false, retries: m.retries + 1, index: m.index + 1, ..m }
        } else {
            BackfillModel { fetched: m.fetched + 1, ..m }
        },
    }
}

/// A day request is outstanding.
pub open spec fn awaiting(m: BackfillModel) -> bool {
    m.attempt && m.index < m.instances.len() && m.collected.len() < m.limit && m.fetched < MAX_BACKFILL_DAYS
        && m.fetched < m.days
}

/// Backfill of a channel's recent messages from the ranked log instances.
pub struct Backfill {
    limit: usize,
    channel_available: bool,
    days: usize,
    instances: Vec<String>,
    messages: Vec<String>,
    retries: usize,
    index: usize,
    success: bool,
    used: Option<String>,
    attempt: bool,
    collected: Vec<String>,
    fetched: usize,
}

impl View for Backfill {
    type V = BackfillModel;

    closed spec fn view(&self) -> BackfillModel {
        BackfillModel {
            limit: self.limit as nat,
            channel_available: self.channel_available,
            days: self.days as nat,
            instances: views(self.instances@),
            messages: views(self.messages@),
            retries: self.retries as nat,
            index: self.index as nat,
            success: self.success,
            used: opt_chars(self.used),
            attempt: self.attempt,
            collected: views(self.collected@),
            fetched: self.fetched as nat,
        }
    }
}

impl Backfill {
    /// Counters stay within their bounds.
    pub closed spec fn wf(&self) -> bool {
        &&& self.retries <= MAX_RETRIES
        &&& self.index <= self.instances@.len()
        &&& self.fetched <= MAX_BACKFILL_DAYS
        &&& self.attempt ==> self.index < self.instances@.len()
        &&& self.attempt ==> self.retries < MAX_RETRIES
    }

    /// A backfill over `instances` (best first) of a channel with `days`
    /// listed log days, starting from `messages`.
    pub fn new(limit: usize, channel_available: bool, days: usize, instances: Vec<String>, messages: Vec<String>) -> (r: Backfill)
        ensures
            r.wf(),
            r@ == (BackfillModel {
                limit: limit as nat,
                channel_available,
                days: days as nat,
                instances: views(instances@),
                messages: views(messages@),
                retries: 0,
                index: 0,
                success: false,
                used: None,
                attempt: false,
                collected: Seq::empty(),
                fetched: 0,
            }),
    {
        let r = Backfill {
            limit,
            channel_available,
            days,
            instances,
            messages,
            retries: 0,
            index: 0,
            success: false,
            used: None,
            attempt: false,
            collected: Vec::new(),
            fetched: 0,
        };
        proof {
            assert(views(r.collected@) =~= Seq::<Seq<char>>::empty());
        }
        r
    }

    /// Whether a day request is outstanding.
    pub fn awaiting_day(&self) -> (r: bool)
        ensures
            r == awaiting(self@),
    {
        self.attempt && self.index < self.instances.len() && self.collected.len() < self.limit
            && self.fetched < MAX_BACKFILL_DAYS && self.fetched < self.days
    }

    /// Whether a backfill was accepted.
    pub fn succeeded(&self) -> (r: bool)
        ensures
            r == self@.success,
    {
        self.success
    }

    /// Moves on to the next day to fetch, or `None` when the backfill is over.
    pub fn next_request(&mut self) -> (r: Option<DayRequest>)
        requires
            old(self).wf(),
        ensures
            final(self).wf(),
            final(self)@ == advance(old(self)@).0,
            match advance(old(self)@).1 {
                Some((i, d, l)) => r matches Some(q) && q.instance@ == old(self)@.instances[i as int] && q.day
                    == d && q.limit == l,
                None => r is None,
            },
    {
        let ghost start = self@;
        loop
            invariant
                self.wf(),
                start == old(self)@,
                advance(self@) == advance(start),
                self@.instances == start.instances,
            decreases self.instances@.len() - self.index, if self.attempt {
                0int
            } else {
                1int
            },
        {
            let ghost prev = self@;
            if self.attempt {
                if self.collected.len() < self.limit && self.fetched < MAX_BACKFILL_DAYS && self.fetched < self.days {
                    let q = DayRequest {
                        instance: self.instances[self.index].clone(),
                        day: self.fetched,
                        limit: self.limit - self.collected.len(),
                    };
                    proof {
                        assert(self@.instances[self.index as int] == self.instances@[self.index as int]@);
                        assert(advance(self@) == (
                            self@,
                            Some((self@.index, self@.fetched, (self@.limit - self@.collected.len()) as nat)),
                        ));
                    }
                    return Some(q);
                }
                let n = self.instances.len();
                assert(self.index < n);
                let mut taken: Vec<String> = Vec::new();
                core::mem::swap(&mut taken, &mut self.collected);
                if taken.len() >= self.messages.len() {
                    self.success = true;
                    self.messages = taken;
                    self.used = Some(self.instances[self.index].clone());
                }
                self.attempt = false;
                self.index = self.index + 1;
                proof {
                    assert(views(self.collected@) =~= Seq::<Seq<char>>::empty());
                    assert(self@ == advance_step(prev));
                }
            } else {
                if !(self.retries < MAX_RETRIES && self.index < self.instances.len() && !self.success) {
                    proof {
                        assert(advance(self@) == (self@, None::<(nat, nat, nat)>));
                    }
                    return None;
                }
                if !self.channel_available {
                    self.index = self.index + 1;
                } else {
                    self.attempt = true;
                    self.collected = clone_lines(&self.messages);
                    self.fetched = 0;
                }
                proof {
                    assert(self@ == advance_step(prev));
                }
            }
        }
    }

    /// Takes in the requested day: its lines, or `None` when it failed.
    pub fn on_day(&mut self, day: Option<Vec<String>>)
        requires
            old(self).wf(),
            awaiting(old(self)@),
        ensures
            final(self).wf(),
            final(self)@ == on_day_spec(
                old(self)@,
                match day {
                    Some(v) => Some(views(v@)),
                    None => None,
                },
            ),
    {
        match day {
            Some(lines) => {
                let mut joined = lines;
                let ghost front = views(joined@);
                let mut i: usize = 0;
                while i < self.collected.len()
                    invariant
                        i <= self.collected@.len(),
                        views(joined@) == front + views(self.collected@).subrange(0, i as int),
                    decreases self.collected@.len() - i,
                {
                    let ghost before = joined@;
                    joined.push(self.collected[i].clone());
                    proof {
                        assert(views(joined@) =~= views(before).push(self.collected@[i as int]@));
                        assert(views(self.collected@).subrange(0, i + 1) =~= views(self.collected@).subrange(
                            0,
                            i as int,
                        ).push(self.collected@[i as int]@));
                    }
                    i = i + 1;
                }
                proof {
                    assert(views(self.collected@).subrange(0, self.collected@.len() as int) =~= views(
                        self.collected@,
                    ));
                }
                self.collected = joined;
                self.fetched = self.fetched + 1;
            },
            None => {
                if self.fetched == 0 {
                    let n = self.instances.len();
                    assert(self.index < n);
                    self.attempt = false;
                    self.retries = self.retries + 1;
                    self.index = self.index + 1;
                } else {
                    self.fetched = self.fetched + 1;
                }
            },
        }
    }

    /// The accepted backfill: its lines and the instance they came from.
    pub fn into_result(self) -> (r: Option<(Vec<String>, String)>)
        ensures
            match r {
                Some((m, link)) => self@.success && self@.used == Some(link@) && views(m@) == self@.messages,
                None => !(self@.success && self@.used is Some),
            },
    {
        if self.success {
            match self.used {
                Some(link) => Some((self.messages, link)),
                None => None,
            }
        } else {
            None
        }
    }
}

impl RecentState {
    /// Adopts an accepted backfill: its lines become the answer, its
    /// instance is listed, and the error is cleared with status 200.
    pub fn adopt(&mut self, accepted: Option<(Vec<String>, String)>)
        ensures
            match accepted {
                Some((m, link)) => final(self).messages == m && final(self).instance@ == old(self).instance@.push(link)
                    && final(self).error_code is None && final(self).error is None && final(self).status == 200
                    && final(self).status_message == old(self).status_message,
                None => *final(self) == *old(self),
            },
    {
        if let Some((m, link)) = accepted {
            self.instance.push(link);
            self.messages = m;
            self.error_code = None;
            self.error = None;
            self.status = 200;
        }
    }
}

/// First position, from `from` on, holding `x`.
pub open spec fn index_from(s: Seq<Seq<char>>, x: Seq<char>, from: int) -> Option<int>
    decreases s.len() - from,
{
    if from < 0 || from >= s.len() {
        None
    } else if s[from] == x {
        Some(from)
    } else {
        index_from(s, x, from + 1)
    }
}

/// The log instances in ranked order, with the main instance (the first
/// configured one) moved to the front when it is listed.
pub open spec fn promote_spec(instances: Seq<Seq<char>>, main: Seq<char>) -> Seq<Seq<char>> {
    match index_from(instances, main, 0) {
        Some(i) => seq![instances[i]] + instances.remove(i),
        None => instances,
    }
}

/// The instances to backfill from: the ranked ones, the main instance first.
pub fn promote_main(instances: Vec<String>, first_key: Option<&str>) -> (r: Vec<String>)
    ensures
        views(r@) == match first_key {
            Some(k) => promote_spec(views(instances@), instance_link_spec(k@)),
            None => views(instances@),
        },
{
    let key = match first_key {
        Some(k) => k,
        None => {
            return instances;
        },
    };
    let main = instance_link(key);
    let ghost v = views(instances@);
    let mut i: usize = 0;
    while i < instances.len()
        invariant
            i <= instances@.len(),
            v == views(instances@),
            first_key == Some(key),
            main@ == instance_link_spec(key@),
            index_from(v, main@, 0) == index_from(v, main@, i as int),
        decreases instances@.len() - i,
    {
        if instances[i] == main {
            let mut rest = instances;
            if i > 0 {
                let picked = rest.remove(i);
                rest.insert(0, picked);
            }
            proof {
                assert(index_from(v, main@, i as int) == Some(i as int));
                assert(views(rest@) =~= seq![v[i as int]] + v.remove(i as int));
            }
            return rest;
        }
        i = i + 1;
    }
    instances
}

/// Counters of a backfill within bounds.
pub open spec fn model_ok(m: BackfillModel) -> bool {
    &&& m.retries <= MAX_RETRIES
    &&& m.fetched <= MAX_BACKFILL_DAYS
    &&& m.attempt ==> m.retries < MAX_RETRIES && m.index < m.instances.len() && !m.success
}

/// What `advance` keeps and what it guarantees of the request it makes.
pub proof fn lemma_advance(m: BackfillModel)
    requires
        model_ok(m),
    ensures
        model_ok(advance(m).0),
        advance(m).0.limit == m.limit,
        advance(m).0.days == m.days,
        advance(m).0.instances == m.instances,
        advance(m).0.channel_available == m.channel_available,
        advance(m).0.retries == m.retries,
        advance(m).0.messages.len() >= m.messages.len(),
        m.success ==> advance(m).0.messages == m.messages,
        match advance(m).1 {
            Some((i, d, l)) => advance(m).0.attempt && i == advance(m).0.index && i < m.instances.len()
                && d == advance(m).0.fetched && d < MAX_BACKFILL_DAYS && d < m.days && 1 <= l <= m.limit,
            None => true,
        },
    decreases m.instances.len() - m.index, if m.attempt {
        0int
    } else {
        1int
    },
{
    if m.attempt {
        if m.index >= m.instances.len() {
        } else if m.collected.len() < m.limit && m.fetched < MAX_BACKFILL_DAYS && m.fetched < m.days {
        } else {
            let judged = if m.collected.len() >= m.messages.len() {
                BackfillModel { success: true, messages: m.collected, used: Some(m.instances[m.index as int]), ..m }
            } else {
                m
            };
            lemma_advance(BackfillModel { attempt: false, index: m.index + 1, collected: Seq::empty(), ..judged });
        }
    } else if !(m.retries < MAX_RETRIES && m.index < m.instances.len() && !m.success) {
    } else if !m.channel_available {
        lemma_advance(BackfillModel { index: m.index + 1, ..m });
    } else {
        lemma_advance(BackfillModel { attempt: true, collected: m.messages, fetched: 0, ..m });
    }
}

/// Each request stays within bounds: a listed day, among the first
/// `MAX_BACKFILL_DAYS`, for at least one and at most `limit` lines, from a
/// listed instance.
pub proof fn law_requests_bounded(m: BackfillModel)
    requires
        model_ok(m),
    ensures
        advance(m).1 matches Some((i, d, l)) ==> i < m.instances.len() && d < MAX_BACKFILL_DAYS && d < m.days
            && 1 <= l <= m.limit,
{
    lemma_advance(m);
}

/// The answer never shrinks: a backfill replaces it only with at least as
/// many lines, and once one was accepted nothing more is fetched.
pub proof fn law_answer_never_shrinks(m: BackfillModel)
    requires
        model_ok(m),
    ensures
        advance(m).0.messages.len() >= m.messages.len(),
        m.success && !m.attempt ==> advance(m).1 is None && advance(m).0.messages == m.messages,
{
    lemma_advance(m);
}

/// At most `MAX_RETRIES` instances fail before the backfill gives up: the
/// counters stay in bounds through every step.
pub proof fn law_retries_bounded(m: BackfillModel, day: Option<Seq<Seq<char>>>)
    requires
        model_ok(m),
    ensures
        model_ok(advance(m).0),
        advance(m).0.retries <= MAX_RETRIES,
        awaiting(m) ==> model_ok(on_day_spec(m, day)),
{
    lemma_advance(m);
}

/// A channel without logs is never backfilled.
pub proof fn law_no_logs_no_requests(m: BackfillModel)
    requires
        !m.channel_available,
        !m.attempt,
    ensures
        advance(m).1 is None,
    decreases m.instances.len() - m.index,
{
    if m.retries < MAX_RETRIES && m.index < m.instances.len() && !m.success {
        law_no_logs_no_requests(BackfillModel { index: m.index + 1, ..m });
    }
}

/// The recent-messages request URL for a channel, with the client's query
/// passed on when there is one.
pub open spec fn rm_url_spec(instance: Seq<char>, channel: Seq<char>, query: Seq<char>) -> Seq<char> {
    "https://"@ + instance + "/api/v2/recent-messages/"@ + channel + if query.len() == 0 {
        Seq::<char>::empty()
    } else {
        "?"@ + query
    }
}

/// The recent-messages request URL (see `rm_url_spec`).
pub fn recent_messages_url(instance: &str, channel: &str, query: &str) -> (r: String)
    ensures
        r@ == rm_url_spec(instance@, channel@, query@),
{
    let mut url = String::new();
    push_str(&mut url, "https://");
    push_str(&mut url, instance);
    push_str(&mut url, "/api/v2/recent-messages/");
    push_str(&mut url, channel);
    if query.unicode_len() > 0 {
        push_str(&mut url, "?");
        push_str(&mut url, query);
    }
    url
}

/// The URL of one day of raw logs on a rustlog instance, newest first; a
/// month entry (user logs) reads as its first day.
pub open spec fn rustlog_day_url_spec(link: Seq<char>, channel: Seq<char>, date: AvailableLogDate, limit: nat) -> Seq<char> {
    link + "/channel/"@ + channel + "/"@ + date.year@ + "/"@ + date.month@ + "/"@ + match date.day {
        Some(d) => d@,
        None => "1"@,
    } + "?limit="@ + crate::util::decimal(limit) + "&raw&reverse"@
}

/// The URL of one day of raw logs (see `rustlog_day_url_spec`).
pub fn rustlog_day_url(link: &str, channel: &str, date: &AvailableLogDate, limit: usize) -> (r: String)
    requires
        limit <= u64::MAX,
    ensures
        r@ == rustlog_day_url_spec(link@, channel@, *date, limit as nat),
{
    let mut url = String::new();
    push_str(&mut url, link);
    push_str(&mut url, "/channel/");
    push_str(&mut url, channel);
    push_str(&mut url, "/");
    push_str(&mut url, date.year.as_str());
    push_str(&mut url, "/");
    push_str(&mut url, date.month.as_str());
    push_str(&mut url, "/");
    match &date.day {
        Some(d) => push_str(&mut url, d.as_str()),
        None => push_str(&mut url, "1"),
    }
    push_str(&mut url, "?limit=");
    crate::util::push_decimal(&mut url, limit as u64);
    push_str(&mut url, "&raw&reverse");
    url
}

/// `body` split at every line break (`\n` or `\r\n`).
pub open spec fn split_lines(body: Seq<char>) -> Seq<Seq<char>>
    decreases body.len(),
{
    match first_newline(body, 0) {
        Some(i) => if i < 0 || i >= body.len() {
            seq![body]
        } else {
            let line = if i > 0 && body[i - 1] == '\r' {
                body.subrange(0, i - 1)
            } else {
                body.subrange(0, i)
            };
            seq![line] + split_lines(body.subrange(i + 1, body.len() as int))
        },
        None => seq![body],
    }
}

/// First `\n` in `body` from `from` on.
pub open spec fn first_newline(body: Seq<char>, from: int) -> Option<int>
    decreases body.len() - from,
{
    if from < 0 || from >= body.len() {
        None
    } else if body[from] == '\n' {
        Some(from)
    } else {
        first_newline(body, from + 1)
    }
}

/// `regex::Regex::new(r"\r?\n")` then `Regex::split`: the text between
/// line breaks (claimed to be `split_lines`).
#[verifier::external_body]
fn split_at_newlines(body: &str) -> (r: Vec<String>)
    ensures
        views(r@) == split_lines(body@),
{
    let re = regex::Regex::new(r"\r?\n").unwrap();
    re.split(body).map(|line| line.to_string()).collect()
}

/// A day of raw logs, newest first as rustlog serves it, turned into
/// backfill lines: split into lines, put oldest first, the (empty) text after
/// the final line break dropped, then tagged (see `tag_all`).
pub open spec fn day_lines_spec(body: Seq<char>, first_ts: Option<i64>) -> Seq<Seq<char>> {
    let reversed = split_lines(body).reverse();
    tag_all(
        if reversed.len() > 0 {
            reversed.subrange(1, reversed.len() as int)
        } else {
            reversed
        },
        first_ts,
    )
}

/// Backfill lines from one day of raw logs (see `day_lines_spec`).
pub fn day_lines(body: &str, first_ts: Option<i64>) -> (r: Vec<String>)
    ensures
        views(r@) == day_lines_spec(body@, first_ts),
{
    let lines = split_at_newlines(body);
    let ghost all = views(lines@);
    let mut reversed: Vec<String> = Vec::new();
    let mut i: usize = lines.len();
    while i > 0
        invariant
            i <= lines@.len(),
            all == views(lines@),
            views(reversed@) == all.reverse().subrange(0, (lines@.len() - i) as int),
        decreases i,
    {
        i = i - 1;
        let ghost before = reversed@;
        reversed.push(lines[i].clone());
        proof {
            assert(views(reversed@) =~= views(before).push(lines@[i as int]@));
            assert(all.reverse().subrange(0, (lines@.len() - i) as int) =~= all.reverse().subrange(
                0,
                (lines@.len() - i - 1) as int,
            ).push(all[i as int]));
        }
    }
    proof {
        assert(all.reverse().subrange(0, lines@.len() as int) =~= all.reverse());
    }
    if reversed.len() > 0 {
        let ghost before = reversed@;
        reversed.remove(0);
        proof {
            assert(views(reversed@) =~= views(before).subrange(1, before.len() as int));
        }
    }
    tag_historical(reversed, first_ts)
}

/// Every backfilled line is marked as historical replay: it starts with
/// `@historical=1;`.
pub proof fn law_backfill_lines_are_historical(lines: Seq<Seq<char>>, first_ts: Option<i64>, k: int)
    requires
        0 <= k < tag_all(lines, first_ts).len(),
    ensures
        tag_all(lines, first_ts)[k].subrange(0, 14) == "@historical=1;"@,
    decreases lines.len(),
{
    reveal_strlit("@historical=1;");
    let rest = tag_all(lines.drop_last(), first_ts);
    if k < rest.len() {
        law_backfill_lines_are_historical(lines.drop_last(), first_ts, k);
    } else {
        let t = tag_line_spec(lines.last(), tmi_sent_digits(lines.last()), first_ts);
        let h = "@historical=1;"@;
        match tmi_sent_digits(lines.last()) {
            Some(d) => {
                let ts: i64 = match parse_i64_spec(d) {
                    Some(v) => v,
                    None => 0,
                };
                let old = "tmi-sent-ts="@ + i64_text(ts) + ";"@;
                let new = "tmi-sent-ts="@ + i64_text(ts) + ";rm-received-ts="@ + i64_text(ts) + ";"@;
                let body = drop_first(replace_first_spec(lines.last(), old, new));
                assert((h + body).subrange(0, 14) =~= h);
            },
            None => {
                assert((h + drop_first(lines.last())).subrange(0, 14) =~= h);
            },
        }
    }
}

} // verus!
