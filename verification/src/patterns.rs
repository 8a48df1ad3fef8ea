//! The compiled regular expressions the logic matches IRC lines and mirror
//! URLs against. Each holder is built only from its own fixed pattern, so
//! what a match returns is a function of the input text alone.
use vstd::prelude::*;
use crate::logs::instance::opt_chars;

verus! {

#[verifier::external_type_specification]
#[verifier::external_body]
pub struct ExRegex(regex::Regex);

/// Group 1 of the first match of `tmi-sent-ts=(\d+)(;|\s:)` in a line: the
/// digits of its send timestamp (`\d` and `\s` are Unicode classes).
pub uninterp spec fn tmi_sent_digits(line: Seq<char>) -> Option<Seq<char>>;

/// `tmi-sent-ts=(\d+)(;|\s:)`, compiled.
pub struct TmiSentPattern {
    re: regex::Regex,
}

impl TmiSentPattern {
    /// `regex::Regex::new` on the fixed pattern, which is valid, so it
    /// cannot fail.
    #[verifier::external_body]
    pub(crate) fn new() -> TmiSentPattern {
        TmiSentPattern { re: regex::Regex::new(r"tmi-sent-ts=(\d+)(;|\s:)").unwrap() }
    }

    /// `regex::Regex::captures`, group 1, as text: claims it is
    /// `tmi_sent_digits` of the line.
    #[verifier::external_body]
    pub(crate) fn sent_digits(&self, line: &str) -> (r: Option<String>)
        ensures
            opt_chars(r) == tmi_sent_digits(line@),
    {
        match self.re.captures(line) {
            Some(c) => Some(c[1].to_string()),
            None => None,
        }
    }
}

/// The first match of `(?i-u)channel(?:id)?([/=])([a-z0-9]\w{0,24})` in a
/// URL, as (text before it, group 1, group 2, text after it). With Unicode
/// mode off, `\w` and the case folding are ASCII-only, as in JavaScript.
pub uninterp spec fn channel_link_match(url: Seq<char>) -> Option<(Seq<char>, Seq<char>, Seq<char>, Seq<char>)>;

/// The first match of `(?i-u)user(?:id)?([/=])([a-z0-9]\w{0,24})` in a URL,
/// as (text before it, group 1, group 2, text after it). With Unicode mode
/// off, `\w` and the case folding are ASCII-only, as in JavaScript.
pub uninterp spec fn user_link_match(url: Seq<char>) -> Option<(Seq<char>, Seq<char>, Seq<char>, Seq<char>)>;

/// Whether `id[/=][0-9]+` matches somewhere in a URL.
pub uninterp spec fn id_style_match(url: Seq<char>) -> bool;

/// A match split into the text around it and its two groups.
pub open spec fn split_view(m: Option<(String, String, String, String)>) -> Option<(Seq<char>, Seq<char>, Seq<char>, Seq<char>)> {
    match m {
        Some((a, b, c, d)) => Some((a@, b@, c@, d@)),
        None => None,
    }
}

/// The mirror URL patterns, compiled.
pub struct LinkPatterns {
    channel: regex::Regex,
    user: regex::Regex,
    id_style: regex::Regex,
}

impl LinkPatterns {
    /// `regex::Regex::new` on the three fixed patterns, which are valid, so
    /// it cannot fail.
    #[verifier::external_body]
    pub(crate) fn new() -> LinkPatterns {
        LinkPatterns {
            channel: regex::Regex::new(r"(?i-u)channel(?:id)?([/=])([a-z0-9]\w{0,24})").unwrap(),
            user: regex::Regex::new(r"(?i-u)user(?:id)?([/=])([a-z0-9]\w{0,24})").unwrap(),
            id_style: regex::Regex::new(r"id[/=][0-9]+").unwrap(),
        }
    }

    /// The mirror URL patterns, ready for matching. What a holder matches is
    /// stated by `channel_match`, `user_match` and `id_style` for every holder,
    /// so nothing about the returned value is left to state.
    pub fn compile() -> (r: LinkPatterns) {
        LinkPatterns::new()
    }

    /// `regex::Regex::captures` with the channel-link pattern, split at the
    /// match: claims it is `channel_link_match` of the URL.
    #[verifier::external_body]
    pub(crate) fn channel_match(&self, url: &str) -> (r: Option<(String, String, String, String)>)
        ensures
            split_view(r) == channel_link_match(url@),
    {
        match self.channel.captures(url) {
            Some(c) => {
                let m = c.get(0).unwrap();
                Some((url[..m.start()].to_string(), c[1].to_string(), c[2].to_string(), url[m.end()..].to_string()))
            },
            None => None,
        }
    }

    /// `regex::Regex::captures` with the user-link pattern, split at the
    /// match: claims it is `user_link_match` of the URL.
    #[verifier::external_body]
    pub(crate) fn user_match(&self, url: &str) -> (r: Option<(String, String, String, String)>)
        ensures
            split_view(r) == user_link_match(url@),
    {
        match self.user.captures(url) {
            Some(c) => {
                let m = c.get(0).unwrap();
                Some((url[..m.start()].to_string(), c[1].to_string(), c[2].to_string(), url[m.end()..].to_string()))
            },
            None => None,
        }
    }

    /// `regex::Regex::is_match` with `id[/=][0-9]+`: claims it is
    /// `id_style_match` of the URL.
    #[verifier::external_body]
    pub(crate) fn id_style(&self, url: &str) -> (r: bool)
        ensures
            r == id_style_match(url@),
    {
        self.id_style.is_match(url)
    }
}

} // verus!
