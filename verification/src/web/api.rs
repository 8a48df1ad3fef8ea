//! What the lookup endpoints decide: parameter checks, the plain-text and
//! redirect answers, and the error page location.
use vstd::prelude::*;
use vstd::string::StringSliceAdditionalSpecFns;
use crate::logs::instance::{InstanceReport, opt_chars};
use crate::logs::recent_messages::{clone_lines, views};
use crate::util::{is_user_or_channel, is_user_or_channel_spec, push_decimal, decimal, push_str};

verus! {

/// Query of `/api/...`.
pub struct ApiQuery {
    pub pretty: Option<String>,
    pub plain: Option<String>,
}

/// Query of `/rdr/...`.
pub struct RdrQuery {
    pub pretty: Option<String>,
}

/// `char::to_ascii_lowercase`.
pub open spec fn ascii_lower(c: char) -> char {
    if 'A' <= c && c <= 'Z' {
        ((c as int) + 32) as char
    } else {
        c
    }
}

/// `str::eq_ignore_ascii_case`.
pub open spec fn eq_ignore_ascii_case_spec(a: Seq<char>, b: Seq<char>) -> bool {
    a.len() == b.len() && forall|i: int| 0 <= i < a.len() ==> ascii_lower(#[trigger] a[i]) == ascii_lower(b[i])
}

pub(crate) fn lower(c: char) -> (r: char)
    ensures
        r == ascii_lower(c),
{
    if 'A' <= c && c <= 'Z' {
        let b: u8 = c as u8;
        (b + 32) as char
    } else {
        c
    }
}

/// `str::eq_ignore_ascii_case`.
pub fn eq_ignore_ascii_case(a: &str, b: &str) -> (r: bool)
    ensures
        r == eq_ignore_ascii_case_spec(a@, b@),
{
    let x = crate::text::chars_of(a);
    let y = crate::text::chars_of(b);
    if x.len() != y.len() {
        return false;
    }
    let mut i: usize = 0;
    while i < x.len()
        invariant
            x@ == a@,
            y@ == b@,
            x@.len() == y@.len(),
            i <= x@.len(),
            forall|j: int| 0 <= j < i ==> ascii_lower(#[trigger] x@[j]) == ascii_lower(y@[j]),
        decreases x@.len() - i,
    {
        if lower(x[i]) != lower(y[i]) {
            return false;
        }
        i = i + 1;
    }
    true
}

/// A `true` flag in any letter case.
pub open spec fn flag_set(v: Option<String>) -> bool {
    match v {
        Some(s) => eq_ignore_ascii_case_spec(s@, "true"@),
        None => false,
    }
}

/// Whether the `pretty` query flag is set: `true` in any letter case.
pub fn pretty_bool(pretty: &Option<String>) -> (r: bool)
    ensures
        r == flag_set(*pretty),
{
    match pretty {
        Some(s) => eq_ignore_ascii_case(s.as_str(), "true"),
        None => false,
    }
}

/// The error a lookup starts with: an invalid channel, overridden by an
/// invalid user.
pub fn lookup_error(channel: &str, user: Option<&str>) -> (r: Option<String>)
    ensures
        match user {
            Some(u) if !is_user_or_channel_spec(u@) => r matches Some(e) && e@ == "Invalid username or user ID: "@
                + u@,
            _ => if !is_user_or_channel_spec(channel@) {
                r matches Some(e) && e@ == "Invalid channel or channel ID: "@ + channel@
            } else {
                r is None
            },
        },
{
    if let Some(u) = user {
        if !is_user_or_channel(u) {
            let mut e = String::new();
            push_str(&mut e, "Invalid username or user ID: ");
            push_str(&mut e, u);
            return Some(e);
        }
    }
    if !is_user_or_channel(channel) {
        let mut e = String::new();
        push_str(&mut e, "Invalid channel or channel ID: ");
        push_str(&mut e, channel);
        Some(e)
    } else {
        None
    }
}

/// The link a lookup points to: the best for the user when one was asked
/// for, for the channel otherwise.
pub open spec fn target_spec(report: InstanceReport, has_user: bool) -> Option<String> {
    let links = if has_user {
        report.user_logs.full_link@
    } else {
        report.channel_logs.full_link@
    };
    if links.len() > 0 {
        Some(links[0])
    } else {
        None
    }
}

/// A lookup that names a user points to the first of the user's ranked
/// links, and to nothing when the user has no logs; the channel's links
/// never answer a user lookup (the answer does not change with them). A
/// lookup without a user points to the first of the channel's links.
pub proof fn law_target_follows_the_user(report: InstanceReport, other: InstanceReport)
    ensures
        target_spec(report, true) is None <==> report.user_logs.full_link@.len() == 0,
        target_spec(report, true) matches Some(t) ==> t == report.user_logs.full_link@[0],
        target_spec(report, false) is None <==> report.channel_logs.full_link@.len() == 0,
        target_spec(report, false) matches Some(t) ==> t == report.channel_logs.full_link@[0],
        other.user_logs.full_link@ == report.user_logs.full_link@ ==> target_spec(other, true) == target_spec(report, true),
{
}

/// Where `/rdr` sends the client.
pub fn rdr_target(report: &InstanceReport, has_user: bool) -> (r: Option<String>)
    ensures
        r == target_spec(*report, has_user),
{
    let links = if has_user {
        &report.user_logs.full_link
    } else {
        &report.channel_logs.full_link
    };
    if links.len() > 0 {
        Some(links[0].clone())
    } else {
        None
    }
}

/// The plain-text answer of `/api?plain=true`: the instances it names as
/// source, and the body (the best link, else the error, else empty).
pub fn plain_answer(report: &InstanceReport, has_user: bool) -> (r: (Vec<String>, String))
    ensures
        views(r.0@) == if has_user {
            views(report.user_logs.instances@)
        } else {
            views(report.channel_logs.instances@)
        },
        r.1@ == match target_spec(*report, has_user) {
            Some(t) => t@,
            None => match report.error {
                Some(e) => e@,
                None => Seq::<char>::empty(),
            },
        },
{
    let source = if has_user {
        clone_lines(&report.user_logs.instances)
    } else {
        clone_lines(&report.channel_logs.instances)
    };
    let body = match rdr_target(report, has_user) {
        Some(t) => t,
        None => match &report.error {
            Some(e) => e.clone(),
            None => String::new(),
        },
    };
    (source, body)
}

/// Bytes `urlencoding::encode` leaves as they are.
pub open spec fn url_safe(b: u8) -> bool {
    (48 <= b <= 57) || (65 <= b <= 90) || (97 <= b <= 122) || b == 45 || b == 46 || b == 95 || b == 126
}

/// An uppercase hex digit.
pub open spec fn hex_digit(d: u8) -> char {
    if d < 10 {
        (48 + d) as char
    } else {
        (55 + d) as char
    }
}

/// Percent-encoding of `bytes`: safe bytes as they are, each other byte as
/// `%` and two uppercase hex digits.
pub open spec fn percent_encoded(bytes: Seq<u8>) -> Seq<char>
    decreases bytes.len(),
{
    if bytes.len() == 0 {
        Seq::empty()
    } else {
        let b = bytes.last();
        percent_encoded(bytes.drop_last()) + if url_safe(b) {
            seq![b as char]
        } else {
            seq!['%', hex_digit(b / 16), hex_digit(b % 16)]
        }
    }
}

/// `urlencoding::encode`: percent-encodes every byte of the UTF-8 text but
/// ASCII letters, digits and `-`, `.`, `_`, `~`.
#[verifier::external_body]
fn url_encode(s: &str) -> (r: String)
    ensures
        r@ == percent_encoded(s.spec_bytes()),
{
    urlencoding::encode(s).into_owned()
}

/// The error page a redirect lookup sends the client to.
pub fn error_location(status: u16, message: &str) -> (r: String)
    ensures
        r@ == "/error?code="@ + decimal(status as nat) + "&message="@ + percent_encoded(message.spec_bytes()),
{
    let mut r = String::new();
    push_str(&mut r, "/error?code=");
    push_decimal(&mut r, status as u64);
    push_str(&mut r, "&message=");
    let encoded = url_encode(message);
    push_str(&mut r, encoded.as_str());
    r
}

/// `/health` answers 500 while no channel is known.
pub fn health_status(channel_count: usize) -> (r: u16)
    ensures
        r == if channel_count == 0 {
            500u16
        } else {
            200u16
        },
{
    if channel_count == 0 {
        500
    } else {
        200
    }
}

} // verus!
