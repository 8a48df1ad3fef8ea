use std::sync::Arc;

use bestlogs::config::{default_rate_limit_enabled, default_rate_limit_events, default_rate_limit_interval_seconds, InstanceMeta, RateLimitConfig, UmamiConfig};
use bestlogs::logs::instance::{Available, InstanceReport, InstancesInfo, LastUpdated, LinksBlock, LoggedData, OptedOut, RequestInfo};
use bestlogs::web::api::{eq_ignore_ascii_case, error_location, health_status, lookup_error, plain_answer, pretty_bool, rdr_target};
use bestlogs::web::meta::{instance_status, normalize_search};
use bestlogs::web::ratelimit::forwarded_candidate;

fn block(instances: &[&str], full: &[&str]) -> LinksBlock {
    LinksBlock {
        count: instances.len(),
        instances: instances.iter().map(|s| s.to_string()).collect(),
        full_link: full.iter().map(|s| s.to_string()).collect(),
    }
}

fn report(error: Option<&str>, user: LinksBlock, channel: LinksBlock) -> InstanceReport {
    InstanceReport {
        error: error.map(str::to_string),
        status: 404,
        instances_info: InstancesInfo { count: 0, down: 0 },
        request: RequestInfo { channel: None, user: None, forced: false },
        available: Available { user: false, channel: false },
        logged_data: LoggedData { list: Arc::new(Vec::new()), days: 0, since: None },
        user_logs: user,
        channel_logs: channel,
        opted_out: OptedOut { count: 0, instances: Vec::new() },
        last_updated: LastUpdated { unix: 0, utc: String::new() },
    }
}

#[test]
fn flags_ignore_ascii_case() {
    assert!(pretty_bool(&Some("TRUE".to_string())));
    assert!(pretty_bool(&Some("true".to_string())));
    assert!(!pretty_bool(&Some("yes".to_string())));
    assert!(!pretty_bool(&None));
    assert!(eq_ignore_ascii_case("TrUe", "tRuE"));
    assert!(!eq_ignore_ascii_case("true", "truE "));
}

#[test]
fn lookup_errors() {
    assert_eq!(lookup_error("forsen", Some("nymn")), None);
    assert_eq!(lookup_error("bad channel", None).as_deref(), Some("Invalid channel or channel ID: bad channel"));
    assert_eq!(lookup_error("bad channel", Some("bad user")).as_deref(), Some("Invalid username or user ID: bad user"));
    assert_eq!(lookup_error("forsen", Some("bad user")).as_deref(), Some("Invalid username or user ID: bad user"));
}

#[test]
fn redirect_and_plain_answers() {
    let r = report(None, block(&["https://u"], &["https://u/full"]), block(&["https://c", "https://d"], &["https://c/full", "https://d/full"]));
    assert_eq!(rdr_target(&r, true).as_deref(), Some("https://u/full"));
    assert_eq!(rdr_target(&r, false).as_deref(), Some("https://c/full"));
    assert_eq!(plain_answer(&r, false), (vec!["https://c".to_string(), "https://d".to_string()], "https://c/full".to_string()));
    let failed = report(Some("No channel logs found"), block(&[], &[]), block(&[], &[]));
    assert_eq!(rdr_target(&failed, false), None);
    assert_eq!(plain_answer(&failed, true), (Vec::new(), "No channel logs found".to_string()));
    let silent = report(None, block(&[], &[]), block(&[], &[]));
    assert_eq!(plain_answer(&silent, false).1, "");
}

#[test]
fn error_page_location_is_percent_encoded() {
    assert_eq!(error_location(404, "No channel logs found"), "/error?code=404&message=No%20channel%20logs%20found");
    assert_eq!(error_location(400, "Invalid channel or channel ID: a&b"), "/error?code=400&message=Invalid%20channel%20or%20channel%20ID%3A%20a%26b");
    assert_eq!(error_location(403, "é~-_."), "/error?code=403&message=%C3%A9~-_.");
}

#[test]
fn health_answers_500_without_channels() {
    assert_eq!(health_status(0), 500);
    assert_eq!(health_status(3), 200);
}

#[test]
fn search_query_normalization() {
    assert_eq!(normalize_search(Some("  ##ForSen ".to_string())), Ok("forsen".to_string()));
    assert_eq!(normalize_search(Some("\u{3000}NymN\t".to_string())), Ok("nymn".to_string()));
    assert_eq!(normalize_search(Some("   ".to_string())), Err("Missing search query".to_string()));
    assert_eq!(normalize_search(Some("###".to_string())), Err("Missing search query".to_string()));
    assert_eq!(normalize_search(None), Err("Missing search query".to_string()));
    assert_eq!(normalize_search(Some("a".repeat(26))), Err("Search query too long".to_string()));
    assert_eq!(normalize_search(Some("a".repeat(25))), Ok("a".repeat(25)));
    assert_eq!(normalize_search(Some("ÀÀÀÀÀÀÀÀÀÀÀÀÀ".to_string())), Err("Search query too long".to_string()));
}

#[test]
fn status_of_an_instance() {
    assert_eq!(instance_status(Some(5)), (5, true));
    assert_eq!(instance_status(Some(0)), (0, false));
    assert_eq!(instance_status(None), (0, false));
}

#[test]
fn forwarded_address_candidates() {
    assert_eq!(forwarded_candidate(Some(" 1.1.1.1 "), Some("2.2.2.2"), None).as_deref(), Some("1.1.1.1"));
    assert_eq!(forwarded_candidate(Some("1.1.1.1, 2.2.2.2"), None, None).as_deref(), Some("1.1.1.1, 2.2.2.2"));
    assert_eq!(forwarded_candidate(None, Some("2.2.2.2"), Some("3.3.3.3")).as_deref(), Some("2.2.2.2"));
    assert_eq!(forwarded_candidate(None, None, Some(" 3.3.3.3 , 4.4.4.4")).as_deref(), Some("3.3.3.3"));
    assert_eq!(forwarded_candidate(None, None, None), None);
}

#[test]
fn configuration_defaults_and_switches() {
    assert!(default_rate_limit_enabled());
    assert_eq!(default_rate_limit_events(), 30);
    assert_eq!(default_rate_limit_interval_seconds(), 10);
    let d = RateLimitConfig::default();
    assert!(d.is_active());
    assert!(!RateLimitConfig { events: 0, ..d }.is_active());
    assert!(!RateLimitConfig { interval_seconds: 0, ..d }.is_active());
    assert!(!RateLimitConfig { enabled: false, ..d }.is_active());
    let umami = UmamiConfig { token: String::new(), id: "site".to_string(), url: "https://u".to_string() };
    assert!(!umami.can_send());
    assert!(umami.is_listed());
    assert_eq!(UmamiConfig::referrer(None, &Some("https://me".to_string())), "https://me");
    assert_eq!(UmamiConfig::referrer(Some("https://r"), &Some("https://me".to_string())), "https://r");
    assert_eq!(UmamiConfig::referrer(None, &None), "");
    let meta = InstanceMeta { maintainer: None, message: None, country: Some("DE".to_string()), city: None, flag: None, url: None };
    assert!(meta.has_any());
    assert!(!InstanceMeta::default().has_any());
}
