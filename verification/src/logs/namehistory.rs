//! A Twitch user's previous logins, merged from what every instance reports.
use vstd::prelude::*;
use crate::logs::instance::instance_link;
use crate::ranking::{is_rank_order, rank_order, rank_spec, ranks_before, rank_witness};
use crate::text::all_digits;
use crate::util::{starts_with_chars, strip_prefix};

verus! {

/// An instant in UTC: whole seconds since the epoch and the nanoseconds past them.
#[derive(Clone, Copy, Debug, PartialEq, Eq)]
pub struct Timestamp {
    pub secs: i64,
    pub nanos: u32,
}

/// `a` is strictly before `b`.
pub open spec fn ts_before(a: Timestamp, b: Timestamp) -> bool {
    a.secs < b.secs || (a.secs == b.secs && a.nanos < b.nanos)
}

/// One login a user had, and when it was first and last seen.
pub struct PreviousName {
    pub user_login: String,
    pub last_timestamp: Timestamp,
    pub first_timestamp: Timestamp,
}

/// How a name-history lookup names its user.
pub enum UserRef {
    /// `login:<name>`: resolved to an id first.
    Login(String),
    /// A numeric Twitch id.
    Id(String),
}

/// What a name-history request refers to: an optional `id:` prefix is
/// dropped; then `login:<name>` names a login and a non-empty run of ASCII
/// digits an id; anything else is refused.
pub open spec fn user_ref_spec(user: Seq<char>) -> Option<(bool, Seq<char>)> {
    let stripped = if starts_with_chars(user, "id:"@) {
        user.subrange(3, user.len() as int)
    } else {
        user
    };
    if starts_with_chars(stripped, "login:"@) {
        Some((true, stripped.subrange(6, stripped.len() as int)))
    } else if stripped.len() > 0 && all_digits(stripped) {
        Some((false, stripped))
    } else {
        None
    }
}

/// Reads a name-history request's user reference (see `user_ref_spec`).
pub fn parse_user_ref(user: &str) -> (r: Result<UserRef, String>)
    ensures
        match user_ref_spec(user@) {
            Some((true, name)) => r matches Ok(UserRef::Login(n)) && n@ == name,
            Some((false, id)) => r matches Ok(UserRef::Id(n)) && n@ == id,
            None => r matches Err(m) && m@
                == "The value must be an ID or use 'login:' to refer to usernames. Example: 754201843 or login:zonianmidian"@,
        },
{
    proof {
        reveal_strlit("id:");
        reveal_strlit("login:");
    }
    let stripped = match strip_prefix(user, "id:") {
        Some(rest) => rest,
        None => user,
    };
    if let Some(name) = strip_prefix(stripped, "login:") {
        return Ok(UserRef::Login(name.to_owned()));
    }
    let cs = crate::text::chars_of(stripped);
    let mut i: usize = 0;
    while i < cs.len()
        invariant
            i <= cs@.len(),
            cs@ == stripped@,
            stripped@ == (if starts_with_chars(user@, "id:"@) {
                user@.subrange(3, user@.len() as int)
            } else {
                user@
            }),
            !starts_with_chars(stripped@, "login:"@),
            forall|j: int| 0 <= j < i ==> crate::text::is_digit(#[trigger] cs@[j]),
        decreases cs@.len() - i,
    {
        if !('0' <= cs[i] && cs[i] <= '9') {
            proof {
                assert(!crate::text::is_digit(stripped@[i as int]));
            }
            return Err(
                "The value must be an ID or use 'login:' to refer to usernames. Example: 754201843 or login:zonianmidian".to_owned(),
            );
        }
        i = i + 1;
    }
    if cs.len() == 0 {
        return Err(
            "The value must be an ID or use 'login:' to refer to usernames. Example: 754201843 or login:zonianmidian".to_owned(),
        );
    }
    proof {
        assert(all_digits(stripped@));
    }
    Ok(UserRef::Id(stripped.to_owned()))
}

/// First position, from `from` on, of an entry for `login`.
pub open spec fn login_index(h: Seq<PreviousName>, login: Seq<char>, from: int) -> Option<int>
    decreases h.len() - from,
{
    if from < 0 || from >= h.len() {
        None
    } else if h[from].user_login@ == login {
        Some(from)
    } else {
        login_index(h, login, from + 1)
    }
}

/// `h` with `e` merged in: an entry for the same login widens its seen
/// range to cover `e`'s; a new login is appended.
pub open spec fn merge_one(h: Seq<PreviousName>, e: PreviousName) -> Seq<PreviousName> {
    match login_index(h, e.user_login@, 0) {
        Some(i) => h.update(
            i,
            PreviousName {
                user_login: h[i].user_login,
                last_timestamp: if ts_before(h[i].last_timestamp, e.last_timestamp) {
                    e.last_timestamp
                } else {
                    h[i].last_timestamp
                },
                first_timestamp: if ts_before(e.first_timestamp, h[i].first_timestamp) {
                    e.first_timestamp
                } else {
                    h[i].first_timestamp
                },
            },
        ),
        None => h.push(e),
    }
}

/// `h` with every entry of `es` merged in, in order.
pub open spec fn merge_all(h: Seq<PreviousName>, es: Seq<PreviousName>) -> Seq<PreviousName>
    decreases es.len(),
{
    if es.len() == 0 {
        h
    } else {
        merge_one(merge_all(h, es.drop_last()), es.last())
    }
}

fn before(a: Timestamp, b: Timestamp) -> (r: bool)
    ensures
        r == ts_before(a, b),
{
    a.secs < b.secs || (a.secs == b.secs && a.nanos < b.nanos)
}

fn same_login(a: &String, b: &String) -> (r: bool)
    ensures
        r == (a@ == b@),
{
    *a == *b
}

/// Merges one reported entry into the history.
pub fn merge_name(history: &mut Vec<PreviousName>, e: &PreviousName)
    ensures
        final(history)@ == merge_one(old(history)@, *e),
{
    let ghost h = history@;
    let mut i: usize = 0;
    while i < history.len()
        invariant
            i <= history@.len(),
            history@ == h,
            h == old(history)@,
            login_index(h, e.user_login@, 0) == login_index(h, e.user_login@, i as int),
        decreases history@.len() - i,
    {
        if same_login(&history[i].user_login, &e.user_login) {
            let cur = &history[i];
            let last = if before(cur.last_timestamp, e.last_timestamp) {
                e.last_timestamp
            } else {
                cur.last_timestamp
            };
            let first = if before(e.first_timestamp, cur.first_timestamp) {
                e.first_timestamp
            } else {
                cur.first_timestamp
            };
            let merged = PreviousName { user_login: cur.user_login.clone(), last_timestamp: last, first_timestamp: first };
            history.set(i, merged);
            return;
        }
        i = i + 1;
    }
    history.push(PreviousName { user_login: e.user_login.clone(), last_timestamp: e.last_timestamp, first_timestamp: e.first_timestamp });
}

/// Merges every reported entry, in order.
pub fn merge_names(history: &mut Vec<PreviousName>, entries: &Vec<PreviousName>)
    ensures
        final(history)@ == merge_all(old(history)@, entries@),
{
    let ghost start = history@;
    let mut k: usize = 0;
    while k < entries.len()
        invariant
            k <= entries@.len(),
            history@ == merge_all(start, entries@.subrange(0, k as int)),
        decreases entries@.len() - k,
    {
        merge_name(history, &entries[k]);
        proof {
            assert(entries@.subrange(0, k + 1).drop_last() =~= entries@.subrange(0, k as int));
        }
        k = k + 1;
    }
    proof {
        assert(entries@.subrange(0, entries@.len() as int) =~= entries@);
    }
}

/// The key that ranks later-seen logins after earlier ones.
pub open spec fn time_key(t: Timestamp) -> i128 {
    (-(t.secs as int * 4294967296 + t.nanos as int)) as i128
}

/// Ranking keys of the entries: by last-seen time, earliest first.
pub open spec fn time_keys(h: Seq<PreviousName>) -> Seq<i128> {
    Seq::new(h.len(), |i: int| time_key(h[i].last_timestamp))
}

/// The entries sorted by last-seen time, earliest first, stably (a stable
/// sort by `last_timestamp`).
pub open spec fn by_last_seen(h: Seq<PreviousName>) -> Seq<PreviousName> {
    let order = rank_spec(time_keys(h));
    Seq::new(order.len(), |i: int| h[order[i] as int])
}

fn time_key_of(t: Timestamp) -> (r: i128)
    ensures
        r == time_key(t),
{
    0i128 - ((t.secs as i128) * 4294967296i128 + (t.nanos as i128))
}

/// Sorts the history by last-seen time (see `by_last_seen`).
pub fn sort_by_last_seen(history: Vec<PreviousName>) -> (r: Vec<PreviousName>)
    ensures
        r@ == by_last_seen(history@),
{
    let mut keys: Vec<i128> = Vec::new();
    let mut k: usize = 0;
    while k < history.len()
        invariant
            k <= history@.len(),
            keys@ == time_keys(history@).subrange(0, k as int),
        decreases history@.len() - k,
    {
        keys.push(time_key_of(history[k].last_timestamp));
        proof {
            assert(time_keys(history@).subrange(0, k + 1) =~= time_keys(history@).subrange(0, k as int).push(
                time_key(history@[k as int].last_timestamp),
            ));
        }
        k = k + 1;
    }
    proof {
        assert(time_keys(history@).subrange(0, history@.len() as int) =~= time_keys(history@));
    }
    let order = rank_order(&keys);
    let mut out: Vec<PreviousName> = Vec::new();
    let mut i: usize = 0;
    while i < order.len()
        invariant
            order@ == rank_spec(time_keys(history@)),
            is_rank_order(time_keys(history@), order@),
            time_keys(history@).len() == history@.len(),
            i <= order@.len(),
            out@ == by_last_seen(history@).subrange(0, i as int),
        decreases order@.len() - i,
    {
        let e = &history[order[i]];
        out.push(PreviousName { user_login: e.user_login.clone(), last_timestamp: e.last_timestamp, first_timestamp: e.first_timestamp });
        proof {
            assert(by_last_seen(history@).subrange(0, i + 1) =~= by_last_seen(history@).subrange(0, i as int).push(
                history@[order@[i as int] as int],
            ));
        }
        i = i + 1;
    }
    proof {
        assert(by_last_seen(history@).subrange(0, order@.len() as int) =~= by_last_seen(history@));
    }
    out
}

/// The name history being gathered: where it came from, and the merged entries.
pub struct NameHistoryResult {
    pub source_instances: Vec<String>,
    pub name_history: Vec<PreviousName>,
}

impl NameHistoryResult {
    /// Nothing gathered.
    pub fn new() -> (r: NameHistoryResult)
        ensures
            r.source_instances@.len() == 0,
            r.name_history@.len() == 0,
    {
        NameHistoryResult { source_instances: Vec::new(), name_history: Vec::new() }
    }

    /// Takes in what the instance at `host` reported (`None` when it did
    /// not answer usably): an instance reporting anything is listed as a
    /// source, and its entries are merged.
    pub fn take(&mut self, host: &str, entries: Option<Vec<PreviousName>>)
        ensures
            match entries {
                Some(es) => final(self).name_history@ == merge_all(old(self).name_history@, es@) && (if es@.len()
                    > 0 {
                    final(self).source_instances@.len() == old(self).source_instances@.len() + 1
                        && final(self).source_instances@.drop_last() == old(self).source_instances@
                        && final(self).source_instances@.last()@ == "https://"@ + host@
                } else {
                    final(self).source_instances@ == old(self).source_instances@
                }),
                None => *final(self) == *old(self),
            },
    {
        if let Some(es) = entries {
            if es.len() > 0 {
                self.source_instances.push(instance_link(host));
            }
            merge_names(&mut self.name_history, &es);
        }
    }

    /// The result, its entries sorted by last-seen time.
    pub fn finish(self) -> (r: NameHistoryResult)
        ensures
            r.source_instances == self.source_instances,
            r.name_history@ == by_last_seen(self.name_history@),
    {
        NameHistoryResult {
            source_instances: self.source_instances,
            name_history: sort_by_last_seen(self.name_history),
        }
    }
}

/// No login appears twice.
pub open spec fn unique_logins(h: Seq<PreviousName>) -> bool {
    forall|i: int, j: int| 0 <= i < j < h.len() ==> h[i].user_login@ != h[j].user_login@
}

proof fn lemma_login_index(h: Seq<PreviousName>, login: Seq<char>, from: int)
    requires
        0 <= from,
    ensures
        match login_index(h, login, from) {
            Some(i) => from <= i < h.len() && h[i].user_login@ == login && forall|j: int|
                from <= j < i ==> h[j].user_login@ != login,
            None => forall|j: int| from <= j < h.len() ==> h[j].user_login@ != login,
        },
    decreases h.len() - from,
{
    if from < h.len() && h[from].user_login@ != login {
        lemma_login_index(h, login, from + 1);
    }
}

/// Merging keeps one entry per login: a history without repeated logins
/// stays so, whatever the instances report.
pub proof fn law_merge_keeps_logins_unique(h: Seq<PreviousName>, es: Seq<PreviousName>)
    requires
        unique_logins(h),
    ensures
        unique_logins(merge_all(h, es)),
    decreases es.len(),
{
    if es.len() > 0 {
        law_merge_keeps_logins_unique(h, es.drop_last());
        let m = merge_all(h, es.drop_last());
        let e = es.last();
        lemma_login_index(m, e.user_login@, 0);
    }
}

/// After merging an entry, the history holds its login, seen at least as
/// late and at least as early as the entry says.
pub proof fn law_merge_covers(h: Seq<PreviousName>, e: PreviousName)
    ensures
        exists|i: int|
            0 <= i < merge_one(h, e).len() && merge_one(h, e)[i].user_login@ == e.user_login@ && !ts_before(
                merge_one(h, e)[i].last_timestamp,
                e.last_timestamp,
            ) && !ts_before(e.first_timestamp, merge_one(h, e)[i].first_timestamp),
{
    lemma_login_index(h, e.user_login@, 0);
    match login_index(h, e.user_login@, 0) {
        Some(i) => {
            assert(merge_one(h, e)[i].user_login@ == e.user_login@);
        },
        None => {
            assert(merge_one(h, e)[h.len() as int] == e);
        },
    }
}

/// Merging an entry for a login already held never narrows what is known:
/// the held entry (the first one with that login) becomes seen from the
/// earlier of the two first-seen times to the later of the two last-seen
/// times, and every other entry stays as it was.
pub proof fn law_merge_widens_held(h: Seq<PreviousName>, e: PreviousName, i: int)
    requires
        0 <= i < h.len(),
        h[i].user_login@ == e.user_login@,
        forall|k: int| 0 <= k < i ==> h[k].user_login@ != e.user_login@,
    ensures
        merge_one(h, e).len() == h.len(),
        merge_one(h, e)[i].user_login == h[i].user_login,
        !ts_before(merge_one(h, e)[i].last_timestamp, h[i].last_timestamp),
        !ts_before(merge_one(h, e)[i].last_timestamp, e.last_timestamp),
        merge_one(h, e)[i].last_timestamp == h[i].last_timestamp || merge_one(h, e)[i].last_timestamp == e.last_timestamp,
        !ts_before(h[i].first_timestamp, merge_one(h, e)[i].first_timestamp),
        !ts_before(e.first_timestamp, merge_one(h, e)[i].first_timestamp),
        merge_one(h, e)[i].first_timestamp == h[i].first_timestamp || merge_one(h, e)[i].first_timestamp == e.first_timestamp,
        forall|k: int| 0 <= k < h.len() && k != i ==> merge_one(h, e)[k] == h[k],
{
    lemma_login_index(h, e.user_login@, 0);
}

/// Merging an entry for a login not yet held appends it unchanged.
pub proof fn law_merge_appends_new(h: Seq<PreviousName>, e: PreviousName)
    requires
        forall|k: int| 0 <= k < h.len() ==> h[k].user_login@ != e.user_login@,
    ensures
        merge_one(h, e) == h.push(e),
{
    lemma_login_index(h, e.user_login@, 0);
}

proof fn lemma_time_key_order(a: Timestamp, b: Timestamp)
    ensures
        time_key(a) >= time_key(b) ==> !ts_before(b, a),
{
    let ka = a.secs as int * 4294967296 + a.nanos as int;
    let kb = b.secs as int * 4294967296 + b.nanos as int;
    assert(i128::MIN <= -ka <= i128::MAX) by (nonlinear_arith)
        requires
            i64::MIN <= a.secs <= i64::MAX,
            0 <= a.nanos < 4294967296,
            ka == a.secs as int * 4294967296 + a.nanos as int,
    ;
    assert(i128::MIN <= -kb <= i128::MAX) by (nonlinear_arith)
        requires
            i64::MIN <= b.secs <= i64::MAX,
            0 <= b.nanos < 4294967296,
            kb == b.secs as int * 4294967296 + b.nanos as int,
    ;
    if b.secs < a.secs {
        assert(kb < ka) by (nonlinear_arith)
            requires
                b.secs < a.secs,
                0 <= a.nanos < 4294967296,
                0 <= b.nanos < 4294967296,
                ka == a.secs as int * 4294967296 + a.nanos as int,
                kb == b.secs as int * 4294967296 + b.nanos as int,
        ;
    }
}

/// The history comes out ordered by when each login was last seen,
/// earliest first.
pub proof fn law_sorted_by_last_seen(h: Seq<PreviousName>, i: int, j: int)
    requires
        h.len() <= usize::MAX,
        0 <= i < j < h.len(),
    ensures
        by_last_seen(h).len() == h.len(),
        !ts_before(by_last_seen(h)[j].last_timestamp, by_last_seen(h)[i].last_timestamp),
{
    let keys = time_keys(h);
    let w = rank_witness(keys);
    let order = rank_spec(keys);
    assert(is_rank_order(keys, order));
    assert(ranks_before(keys, order[i] as int, order[j] as int));
    lemma_time_key_order(h[order[i] as int].last_timestamp, h[order[j] as int].last_timestamp);
}

} // verus!
