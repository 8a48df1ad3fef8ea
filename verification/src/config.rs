//! Configuration shapes and the rate-limit defaults.
use vstd::prelude::*;

verus! {

/// Contact details an instance operator can publish.
#[derive(Debug, Clone, Default)]
pub struct InstanceMeta {
    pub maintainer: Option<String>,
    pub message: Option<String>,
    pub country: Option<String>,
    pub city: Option<String>,
    pub flag: Option<String>,
    pub url: Option<String>,
}

#[derive(Debug, Clone, Default)]
pub struct JustlogInstanceMeta {
    pub maintainer: Option<String>,
    /// Optional alternate hostname to actually connect to, while the outer
    /// map key stays the public/display hostname.
    pub alternate: Option<String>,
}

#[derive(Debug, Clone, Default)]
pub struct RecentMessagesInstanceMeta {
    pub maintainer: Option<String>,
}

/// Token-bucket limits for the log-lookup endpoints.
#[derive(Debug, Clone, Copy)]
pub struct RateLimitConfig {
    pub enabled: bool,
    pub events: u32,
    pub interval_seconds: u64,
    /// Only honour forwarding headers behind a proxy that overwrites them.
    pub trust_proxy: bool,
}

pub fn default_rate_limit_enabled() -> (r: bool)
    ensures
        r,
{
    true
}

pub fn default_rate_limit_events() -> (r: u32)
    ensures
        r == 30,
{
    30
}

pub fn default_rate_limit_interval_seconds() -> (r: u64)
    ensures
        r == 10,
{
    10
}

impl Default for RateLimitConfig {
    fn default() -> (r: RateLimitConfig)
        ensures
            r.enabled,
            r.events == 30,
            r.interval_seconds == 10,
            !r.trust_proxy,
    {
        RateLimitConfig {
            enabled: default_rate_limit_enabled(),
            events: default_rate_limit_events(),
            interval_seconds: default_rate_limit_interval_seconds(),
            trust_proxy: false,
        }
    }
}

impl RateLimitConfig {
    /// Whether a limiter is installed at all: not when switched off, nor
    /// with a zero budget (which would reject every request).
    pub fn is_active(&self) -> (r: bool)
        ensures
            r == (self.enabled && self.events != 0 && self.interval_seconds != 0),
    {
        self.enabled && self.events != 0 && self.interval_seconds != 0
    }
}

#[derive(Debug, Clone)]
pub struct UmamiConfig {
    pub token: String,
    pub id: String,
    pub url: String,
}

impl InstanceMeta {
    /// Whether any contact detail is configured.
    pub fn has_any(&self) -> (r: bool)
        ensures
            r == (self.maintainer is Some || self.message is Some || self.country is Some
                || self.city is Some || self.flag is Some || self.url is Some),
    {
        self.maintainer.is_some() || self.message.is_some() || self.country.is_some()
            || self.city.is_some() || self.flag.is_some() || self.url.is_some()
    }
}

impl UmamiConfig {
    /// Whether analytics events can be posted: both the website id and the
    /// token must be set.
    pub fn can_send(&self) -> (r: bool)
        ensures
            r == (self.id@.len() > 0 && self.token@.len() > 0),
    {
        !self.id.as_str().is_empty() && !self.token.as_str().is_empty()
    }

    /// Whether `/meta` advertises the analytics site: its id must be set.
    pub fn is_listed(&self) -> (r: bool)
        ensures
            r == (self.id@.len() > 0),
    {
        !self.id.as_str().is_empty()
    }

    /// The referrer an event is posted with: the request's `Referer`, else
    /// the instance's configured URL, else empty.
    pub fn referrer(referer: Option<&str>, instance_url: &Option<String>) -> (r: String)
        ensures
            r@ == match referer {
                Some(v) => v@,
                None => match instance_url {
                    Some(u) => u@,
                    None => Seq::<char>::empty(),
                },
            },
    {
        match referer {
            Some(v) => v.to_owned(),
            None => match instance_url {
                Some(u) => u.clone(),
                None => String::new(),
            },
        }
    }
}

} // verus!
