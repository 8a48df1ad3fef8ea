//! The logs mirror: which instance a mirrored URL goes to, and how the URL
//! is rewritten to refer to Twitch ids.
use vstd::prelude::*;
use crate::logs::instance::{InstanceReport, opt_chars};
use crate::logs::recent_messages::{clone_lines, views};
use crate::patterns::{LinkPatterns, channel_link_match, user_link_match, id_style_match, split_view};
use crate::text::{contains, contains_spec};
use crate::util::{format_username, lowercase, push_str, strip_marks};

verus! {

/// Which link a URL is searched for.
pub enum LinkKind {
    /// `channel/<name>`, `channelid/<id>`, `channel=<name>`, ...
    Channel,
    /// `user/<name>`, `userid/<id>`, `user=<name>`, ...
    User,
}

/// The first link of that kind in a URL, split at the match.
pub open spec fn link_match(kind: LinkKind, url: Seq<char>) -> Option<(Seq<char>, Seq<char>, Seq<char>, Seq<char>)> {
    match kind {
        LinkKind::Channel => channel_link_match(url),
        LinkKind::User => user_link_match(url),
    }
}

/// The token a link match names, as an `id:` reference when the URL uses
/// id-style references anywhere.
pub open spec fn value_spec(m: Option<(Seq<char>, Seq<char>, Seq<char>, Seq<char>)>, id_style: bool) -> Option<Seq<char>> {
    match m {
        Some((_, _, token, _)) => Some(
            if id_style {
                "id:"@ + token
            } else {
                token
            },
        ),
        None => None,
    }
}

/// The value a link match names (see `value_spec`).
pub fn value_of_match(m: Option<(String, String, String, String)>, id_style: bool) -> (r: Option<String>)
    ensures
        opt_chars(r) == value_spec(split_view(m), id_style),
{
    match m {
        Some((_, _, token, _)) => {
            if id_style {
                let mut v = String::new();
                push_str(&mut v, "id:");
                push_str(&mut v, token.as_str());
                Some(v)
            } else {
                Some(token)
            }
        },
        None => None,
    }
}

/// The channel or user a mirrored URL names: the URL is normalized as a
/// username is (`@`, `#`, `,` dropped, lowercased), then searched.
pub fn extract_value(raw_url: &str, patterns: &LinkPatterns, kind: LinkKind) -> (r: Option<String>)
    ensures
        ({
            let formatted = lowercase(strip_marks(raw_url@));
            opt_chars(r) == value_spec(link_match(kind, formatted), id_style_match(formatted))
        }),
{
    let formatted = format_username(raw_url);
    let m = match kind {
        LinkKind::Channel => patterns.channel_match(formatted.as_str()),
        LinkKind::User => patterns.user_match(formatted.as_str()),
    };
    let id_style = patterns.id_style(formatted.as_str());
    value_of_match(m, id_style)
}

/// `url` with the matched link replaced by `word`, the separator it had,
/// and `id`; unchanged without a match.
pub open spec fn relink(url: Seq<char>, m: Option<(Seq<char>, Seq<char>, Seq<char>, Seq<char>)>, word: Seq<char>, id: Seq<char>) -> Seq<char> {
    match m {
        Some((before, sep, _, after)) => before + word + sep + id + after,
        None => url,
    }
}

/// Rewrites a matched link (see `relink`).
pub fn relink_match(url: &str, m: Option<(String, String, String, String)>, word: &str, id: &str) -> (r: String)
    ensures
        r@ == relink(url@, split_view(m), word@, id@),
{
    match m {
        Some((before, sep, _, after)) => {
            let mut r = before;
            push_str(&mut r, word);
            push_str(&mut r, sep.as_str());
            push_str(&mut r, id);
            push_str(&mut r, after.as_str());
            r
        },
        None => url.to_owned(),
    }
}

/// Rewriting a matched link keeps everything around it and the separator
/// the URL used: the result is the text before the match, then `word`, then
/// the matched separator (group 1), then `id`, then the text after the match,
/// each at its place; the token the link named is gone, whatever it was.
/// So a `channel=<name>` query becomes `channelid=<id>`.
pub proof fn law_relink_keeps_separator(
    url: Seq<char>,
    before: Seq<char>,
    sep: Seq<char>,
    token: Seq<char>,
    after: Seq<char>,
    other_token: Seq<char>,
    word: Seq<char>,
    id: Seq<char>,
)
    ensures
        ({
            let r = relink(url, Some((before, sep, token, after)), word, id);
            let b = before.len() as int;
            let w = word.len() as int;
            let s = sep.len() as int;
            let n = id.len() as int;
            &&& r.len() == b + w + s + n + after.len()
            &&& r.subrange(0, b) == before
            &&& r.subrange(b, b + w) == word
            &&& r.subrange(b + w, b + w + s) == sep
            &&& r.subrange(b + w + s, b + w + s + n) == id
            &&& r.subrange(b + w + s + n, r.len() as int) == after
            &&& r == relink(url, Some((before, sep, other_token, after)), word, id)
        }),
        relink(url, None, word, id) == url,
{
    let r = relink(url, Some((before, sep, token, after)), word, id);
    let b = before.len() as int;
    let w = word.len() as int;
    let s = sep.len() as int;
    let n = id.len() as int;
    assert(r.subrange(0, b) =~= before);
    assert(r.subrange(b, b + w) =~= word);
    assert(r.subrange(b + w, b + w + s) =~= sep);
    assert(r.subrange(b + w + s, b + w + s + n) =~= id);
    assert(r.subrange(b + w + s + n, r.len() as int) =~= after);
}

/// What to do with a mirror request once the lookup is done.
pub enum MirrorPlan {
    /// Answer with this status and message.
    NotFound { status: u16, message: String },
    /// Proxy `url`, naming `source` as where the logs come from.
    Fetch { url: String, source: Vec<String> },
}

/// The instance to proxy to: the best for the user's logs, else for the channel's.
pub open spec fn first_link(report: InstanceReport) -> Option<String> {
    if report.user_logs.instances@.len() > 0 {
        Some(report.user_logs.instances@[0])
    } else if report.channel_logs.instances@.len() > 0 {
        Some(report.channel_logs.instances@[0])
    } else {
        None
    }
}

/// The mirrored path with the channel, and the user when one was asked for
/// and resolved, referred to by id.
pub open spec fn mirror_path(raw_url: Seq<char>, wants_user: bool, report: InstanceReport, channel_id: Seq<char>) -> Seq<char> {
    let with_channel = relink(raw_url, channel_link_match(raw_url), "channelid"@, channel_id);
    match report.request.user {
        Some(u) => if wants_user {
            relink(with_channel, user_link_match(with_channel), "userid"@, u.id@)
        } else {
            with_channel
        },
        None => with_channel,
    }
}

/// Decides a mirror request from the lookup of the channel (and user) it
/// names: the lookup's error, no instance, or an unresolved channel answer
/// it; otherwise the URL is rewritten and proxied to the best instance.
pub fn plan_mirror(raw_url: &str, wants_user: bool, report: &InstanceReport, patterns: &LinkPatterns) -> (r: MirrorPlan)
    ensures
        match report.error {
            Some(e) => r matches MirrorPlan::NotFound { status, message } && status == report.status && message@
                == e@,
            None => match first_link(*report) {
                None => r matches MirrorPlan::NotFound { status, message } && status == 404 && message@
                    == "No channel logs found"@,
                Some(link) => match report.request.channel {
                    None => r matches MirrorPlan::NotFound { status, message } && status == 404 && message@
                        == "Invalid channel"@,
                    Some(c) => r matches MirrorPlan::Fetch { url, source } && url@ == link@ + mirror_path(
                        raw_url@,
                        wants_user,
                        *report,
                        c.id@,
                    ) && views(source@) == if report.user_logs.instances@.len() > 0 {
                        views(report.user_logs.instances@)
                    } else {
                        views(report.channel_logs.instances@)
                    },
                },
            },
        },
{
    if let Some(e) = &report.error {
        return MirrorPlan::NotFound { status: report.status, message: e.clone() };
    }
    let link = if report.user_logs.instances.len() > 0 {
        report.user_logs.instances[0].clone()
    } else if report.channel_logs.instances.len() > 0 {
        report.channel_logs.instances[0].clone()
    } else {
        return MirrorPlan::NotFound { status: 404, message: "No channel logs found".to_owned() };
    };
    let channel_id = match &report.request.channel {
        Some(c) => c.id.clone(),
        None => {
            return MirrorPlan::NotFound { status: 404, message: "Invalid channel".to_owned() };
        },
    };
    let m = patterns.channel_match(raw_url);
    let mut path = relink_match(raw_url, m, "channelid", channel_id.as_str());
    if wants_user {
        if let Some(u) = &report.request.user {
            let um = patterns.user_match(path.as_str());
            path = relink_match(path.as_str(), um, "userid", u.id.as_str());
        }
    }
    let source = if report.user_logs.instances.len() > 0 {
        clone_lines(&report.user_logs.instances)
    } else {
        clone_lines(&report.channel_logs.instances)
    };
    let mut url = link;
    push_str(&mut url, path.as_str());
    MirrorPlan::Fetch { url, source }
}

/// Whether an upstream `Content-Type` says HTML: the endpoint is not an API one.
pub fn is_html(content_type: Option<&str>) -> (r: bool)
    ensures
        r == match content_type {
            Some(ct) => contains_spec(ct@, "text/html"@),
            None => false,
        },
{
    match content_type {
        Some(ct) => contains(ct, "text/html"),
        None => false,
    }
}

} // verus!
