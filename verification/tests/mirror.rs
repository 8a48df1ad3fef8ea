use std::sync::Arc;

use bestlogs::logs::instance::{
    Available, InstanceReport, InstancesInfo, LastUpdated, LinksBlock, LoggedData, OptedOut, RequestInfo,
    RequestPersonInfo,
};
use bestlogs::logs::mirror::{extract_value, is_html, plan_mirror, relink_match, value_of_match, LinkKind, MirrorPlan};
use bestlogs::patterns::LinkPatterns;

fn links(v: &[&str]) -> LinksBlock {
    LinksBlock {
        count: v.len(),
        instances: v.iter().map(|s| s.to_string()).collect(),
        full_link: v.iter().map(|s| format!("{s}/full")).collect(),
    }
}

fn person(id: &str) -> RequestPersonInfo {
    RequestPersonInfo { login: "x".to_string(), id: id.to_string(), banned: false }
}

fn report(error: Option<&str>, user_links: &[&str], channel_links: &[&str], channel: Option<&str>, user: Option<&str>) -> InstanceReport {
    InstanceReport {
        error: error.map(str::to_string),
        status: if error.is_some() { 403 } else { 200 },
        instances_info: InstancesInfo { count: 2, down: 0 },
        request: RequestInfo { channel: channel.map(person), user: user.map(person), forced: false },
        available: Available { user: !user_links.is_empty(), channel: !channel_links.is_empty() },
        logged_data: LoggedData { list: Arc::new(Vec::new()), days: 0, since: None },
        user_logs: links(user_links),
        channel_logs: links(channel_links),
        opted_out: OptedOut { count: 0, instances: Vec::new() },
        last_updated: LastUpdated { unix: 0, utc: String::new() },
    }
}

#[test]
fn extract_value_finds_channel_and_user() {
    let p = LinkPatterns::compile();
    assert_eq!(extract_value("/channel/forsen/user/nymn/2024/1", &p, LinkKind::Channel).as_deref(), Some("forsen"));
    assert_eq!(extract_value("/channel/forsen/user/nymn/2024/1", &p, LinkKind::User).as_deref(), Some("nymn"));
    assert_eq!(extract_value("/list?channel=ForSen&user=NyMN", &p, LinkKind::Channel).as_deref(), Some("forsen"));
    assert_eq!(extract_value("/list?channel=ForSen&user=NyMN", &p, LinkKind::User).as_deref(), Some("nymn"));
    assert_eq!(
        extract_value("/channelid/22484632/userid/62300805", &p, LinkKind::Channel).as_deref(),
        Some("id:22484632")
    );
    assert_eq!(extract_value("/list", &p, LinkKind::Channel), None);
}

#[test]
fn value_and_relink_from_a_match() {
    let m = Some(("/".to_string(), "/".to_string(), "forsen".to_string(), "/2024".to_string()));
    assert_eq!(value_of_match(m.clone(), false).as_deref(), Some("forsen"));
    assert_eq!(value_of_match(m.clone(), true).as_deref(), Some("id:forsen"));
    assert_eq!(value_of_match(None, true), None);
    assert_eq!(relink_match("/channel/forsen/2024", m, "channelid", "1"), "/channelid/1/2024");
    assert_eq!(relink_match("/plain", None, "channelid", "1"), "/plain");
}

#[test]
fn plan_mirror_rewrites_to_ids() {
    let p = LinkPatterns::compile();
    let r = report(None, &[], &["https://logs.a", "https://logs.b"], Some("22484632"), None);
    match plan_mirror("/channel/forsen/2024/1/1", false, &r, &p) {
        MirrorPlan::Fetch { url, source } => {
            assert_eq!(url, "https://logs.a/channelid/22484632/2024/1/1");
            assert_eq!(source, vec!["https://logs.a".to_string(), "https://logs.b".to_string()]);
        }
        _ => panic!("expected a fetch"),
    }
    let r = report(None, &["https://logs.u"], &["https://logs.a"], Some("1"), Some("2"));
    match plan_mirror("/channel/forsen/user/nymn?json", true, &r, &p) {
        MirrorPlan::Fetch { url, source } => {
            assert_eq!(url, "https://logs.u/channelid/1/userid/2?json");
            assert_eq!(source, vec!["https://logs.u".to_string()]);
        }
        _ => panic!("expected a fetch"),
    }
}

#[test]
fn plan_mirror_refusals() {
    let p = LinkPatterns::compile();
    match plan_mirror("/channel/x", false, &report(Some("User or channel has opted out"), &[], &[], None, None), &p) {
        MirrorPlan::NotFound { status, message } => {
            assert_eq!(status, 403);
            assert_eq!(message, "User or channel has opted out");
        }
        _ => panic!("expected not found"),
    }
    match plan_mirror("/channel/x", false, &report(None, &[], &[], Some("1"), None), &p) {
        MirrorPlan::NotFound { status, message } => {
            assert_eq!(status, 404);
            assert_eq!(message, "No channel logs found");
        }
        _ => panic!("expected not found"),
    }
    match plan_mirror("/channel/x", false, &report(None, &[], &["https://a"], None, None), &p) {
        MirrorPlan::NotFound { status, message } => {
            assert_eq!(status, 404);
            assert_eq!(message, "Invalid channel");
        }
        _ => panic!("expected not found"),
    }
}

#[test]
fn html_content_type_detection() {
    assert!(is_html(Some("text/html; charset=utf-8")));
    assert!(!is_html(Some("application/json")));
    assert!(!is_html(None));
}

#[test]
fn extract_value_is_ascii_only() {
    let p = LinkPatterns::compile();
    assert_eq!(extract_value("/channel/forsenø/2024", &p, LinkKind::Channel).as_deref(), Some("forsen"));
    assert_eq!(extract_value("/channel/forsen/uſer/nymn", &p, LinkKind::User), None);
    assert_eq!(extract_value("/channel/forsen/UsEr/nymn", &p, LinkKind::User).as_deref(), Some("nymn"));
}
