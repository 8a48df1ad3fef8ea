use std::sync::Arc;

use bestlogs::logs::channels::InstanceChannels;
use bestlogs::logs::health::Permit;
use bestlogs::logs::instance::{
    channel_link, channel_param, classify, conclude, counts_as_failure, instance_link, last_updated,
    list_cache_key, probe_gate, probe_route, resolve_lookup, status_cache_key, user_link, user_param,
    FanOut, FanOutClock, GetLogsOutcome, ProbeRoute, RequestPersonInfo,
};
use bestlogs::logs::{AvailableLogDate, Channel};
use bestlogs::ranking::rank_order;
use bestlogs::twitch::TwitchUser;

fn day(y: &str, m: &str, d: &str) -> AvailableLogDate {
    AvailableLogDate { year: y.to_string(), month: m.to_string(), day: Some(d.to_string()) }
}

fn days(n: usize) -> Arc<Vec<AvailableLogDate>> {
    Arc::new((0..n).map(|i| day("2024", "1", &(i + 1).to_string())).collect())
}

fn user(login: &str, id: &str, banned: bool) -> TwitchUser {
    TwitchUser {
        name: login.to_string(),
        login: login.to_string(),
        avatar: String::new(),
        id: id.to_string(),
        banned,
    }
}

#[test]
fn links_and_cache_keys() {
    assert_eq!(instance_link("logs.ivr.fi"), "https://logs.ivr.fi");
    assert_eq!(channel_link("logs.ivr.fi", "forsen", false), "https://logs.ivr.fi/?channel=forsen");
    assert_eq!(channel_link("logs.ivr.fi", "forsen", true), "https://tv.supa.sh/logs?c=forsen");
    assert_eq!(
        user_link("logs.ivr.fi", "forsen", "nymn", false),
        "https://logs.ivr.fi/?channel=forsen&username=nymn"
    );
    assert_eq!(user_link("h", "forsen", "nymn", true), "https://tv.supa.sh/logs?c=forsen&u=nymn");
    assert_eq!(list_cache_key("h", "id:123"), "logs:list:h:id-123");
    assert_eq!(status_cache_key("h", "id:1", "nymn"), "logs:instance:h:id-1:nymn");
}

#[test]
fn query_parameters_follow_id_references() {
    assert_eq!(channel_param("id:22484632"), "channelid");
    assert_eq!(channel_param("forsen"), "channel");
    assert_eq!(user_param("ID:5"), "userid");
    assert_eq!(user_param("nymn"), "user");
}

#[test]
fn probe_gate_decides_before_the_wire() {
    let channels = InstanceChannels::new(vec![Channel { name: "forsen".to_string(), user_id: "22484632".to_string() }]);
    assert!(probe_gate(Some(&channels), "forsen", false).is_none());
    assert!(probe_gate(Some(&channels), "id:22484632", false).is_none());
    assert!(matches!(probe_gate(Some(&channels), "nymn", false), Some(GetLogsOutcome::ChannelNotFound)));
    assert!(probe_gate(Some(&channels), "nymn", true).is_none());
    let empty = InstanceChannels::empty();
    assert!(matches!(probe_gate(Some(&empty), "nymn", true), Some(GetLogsOutcome::Down)));
    assert!(matches!(probe_gate(None, "forsen", true), Some(GetLogsOutcome::Down)));
    assert!(matches!(probe_gate(None, "forsen", false), Some(GetLogsOutcome::ChannelNotFound)));
}

#[test]
fn classify_answers() {
    let full = || "full".to_string();
    let chan = || "chan".to_string();
    assert!(matches!(classify("h", chan(), full(), None, Some(200)), GetLogsOutcome::Down));
    match classify("h", chan(), full(), Some(days(2)), Some(403)) {
        GetLogsOutcome::OptedOut { link } => assert_eq!(link, "https://h"),
        _ => panic!("expected opted out"),
    }
    match classify("h", chan(), full(), Some(days(2)), Some(204)) {
        GetLogsOutcome::Available { link, channel_full, full, list } => {
            assert_eq!(link, "https://h");
            assert_eq!(channel_full, "chan");
            assert_eq!(full, "full");
            assert_eq!(list.len(), 2);
        }
        _ => panic!("expected available"),
    }
    assert!(matches!(classify("h", chan(), full(), Some(days(1)), Some(404)), GetLogsOutcome::ChannelOnly { .. }));
    assert!(matches!(classify("h", chan(), full(), Some(days(1)), None), GetLogsOutcome::ChannelOnly { .. }));
}

#[test]
fn probe_failures_and_routes() {
    assert!(counts_as_failure(None));
    assert!(counts_as_failure(Some(502)));
    assert!(!counts_as_failure(Some(403)));
    assert!(!counts_as_failure(Some(404)));
    assert!(!counts_as_failure(Some(200)));
    let fetch = Permit::Fetch(std::time::Duration::from_secs(1));
    assert!(matches!(probe_route(&Permit::CachedOnly, true), ProbeRoute::CacheOnly));
    assert!(matches!(probe_route(&fetch, true), ProbeRoute::Refresh));
    assert!(matches!(probe_route(&fetch, false), ProbeRoute::Cached));
}

#[test]
fn rank_order_is_stable_descending() {
    assert_eq!(rank_order(&vec![3, 5, 5, 1]), vec![1, 2, 0, 3]);
    assert_eq!(rank_order(&vec![]), Vec::<usize>::new());
    assert_eq!(rank_order(&vec![7, 7, 7]), vec![0, 1, 2]);
}

#[test]
fn fanout_clock_arms_grace_once() {
    let mut clock = FanOutClock::start(1_000, false);
    assert_eq!(clock.deadline, 7_000);
    assert_eq!(clock.soft_deadline, 2_200);
    clock.observe(false, 1_100);
    assert_eq!(clock.deadline, 7_000);
    clock.observe(true, 1_200);
    assert!(clock.grace_armed);
    assert_eq!(clock.deadline, 1_500);
    clock.observe(true, 1_400);
    assert_eq!(clock.deadline, 1_500);
    let mut late = FanOutClock::start(0, false);
    late.observe(true, 1_100);
    assert_eq!(late.deadline, 1_200);
    let mut forced = FanOutClock::start(0, true);
    forced.observe(true, 10);
    assert_eq!(forced.deadline, 6_000);
}

#[test]
fn fanout_collects_outcomes() {
    let mut fan = FanOut::new(0, false, true);
    fan.record(None, 10);
    fan.record(Some(GetLogsOutcome::Down), 20);
    assert_eq!(fan.down_sites, 2);
    fan.record(
        Some(GetLogsOutcome::ChannelOnly { link: "https://a".to_string(), channel_full: "ca".to_string(), list: days(3) }),
        30,
    );
    assert_eq!(fan.channel_with_len.len(), 1);
    assert!(!fan.clock.grace_armed);
    fan.record(Some(GetLogsOutcome::OptedOut { link: "https://o".to_string() }), 40);
    fan.record(Some(GetLogsOutcome::ChannelNotFound), 50);
    fan.record(
        Some(GetLogsOutcome::Available {
            link: "https://b".to_string(),
            channel_full: "cb".to_string(),
            full: "ub".to_string(),
            list: days(5),
        }),
        60,
    );
    assert_eq!(fan.channel_with_len.len(), 2);
    assert_eq!(fan.user_with_len.len(), 1);
    assert_eq!(fan.opt_outs, vec!["https://o".to_string()]);
    assert!(fan.clock.grace_armed);
    assert_eq!(fan.clock.deadline, 360);
}

#[test]
fn resolve_lookup_uses_ids_for_banned_accounts() {
    let r = resolve_lookup("forsen", Some("nymn"), true, None, Some(user("forsen", "22484632", true)), Some(user("nymn", "62300805", false)));
    assert_eq!(r.channel, "id:22484632");
    assert!(r.banned);
    assert_eq!(r.user.as_deref(), Some("nymn"));
    assert!(r.error.is_none());
    assert!(r.request.forced);
    assert_eq!(r.request.user.as_ref().map(|u| u.id.clone()), Some("62300805".to_string()));
    let person = RequestPersonInfo::from(&user("a", "1", false));
    assert_eq!(person.login, "a");
}

#[test]
fn resolve_lookup_reports_missing_accounts() {
    let r = resolve_lookup("ghost", None, false, None, None, None);
    assert_eq!(r.error.as_deref(), Some("The channel does not exist: ghost"));
    let r = resolve_lookup("forsen", Some("ghost"), false, None, Some(user("forsen", "1", false)), None);
    assert_eq!(r.error.as_deref(), Some("The user does not exist: ghost"));
    let r = resolve_lookup("forsen", None, false, Some("Invalid channel or channel ID: x".to_string()), Some(user("forsen", "1", false)), None);
    assert_eq!(r.error.as_deref(), Some("Invalid channel or channel ID: x"));
}

#[test]
fn conclude_ranks_and_reports() {
    let resolved = resolve_lookup("forsen", Some("nymn"), false, None, Some(user("forsen", "1", false)), Some(user("nymn", "2", false)));
    let mut fan = FanOut::new(0, false, true);
    fan.record(Some(GetLogsOutcome::ChannelOnly { link: "https://a".to_string(), channel_full: "ca".to_string(), list: days(3) }), 1);
    fan.record(
        Some(GetLogsOutcome::Available { link: "https://b".to_string(), channel_full: "cb".to_string(), full: "ub".to_string(), list: days(5) }),
        2,
    );
    fan.record(Some(GetLogsOutcome::Down), 3);
    let (report, remember) = conclude(resolved, fan, 2, 17, 3_600_000);
    assert_eq!(report.status, 200);
    assert!(report.error.is_none());
    assert_eq!(report.channel_logs.instances, vec!["https://b".to_string(), "https://a".to_string()]);
    assert_eq!(report.channel_logs.full_link, vec!["cb".to_string(), "ca".to_string()]);
    assert_eq!(report.user_logs.instances, vec!["https://b".to_string()]);
    assert_eq!(report.user_logs.count, 1);
    assert_eq!(report.logged_data.days, 5);
    assert_eq!(report.logged_data.since, Some(day("2024", "1", "5")));
    assert_eq!(report.instances_info.down, 3);
    assert_eq!(report.instances_info.count, 17);
    assert!(report.available.user && report.available.channel);
    assert_eq!(report.last_updated.unix, 3_600);
    assert!(!remember);
}

#[test]
fn conclude_verdicts() {
    let ok = || resolve_lookup("forsen", Some("nymn"), false, None, Some(user("forsen", "1", true)), Some(user("nymn", "2", false)));
    let mut fan = FanOut::new(0, false, true);
    fan.record(Some(GetLogsOutcome::OptedOut { link: "https://o".to_string() }), 1);
    let (report, remember) = conclude(ok(), fan, 0, 1, 0);
    assert_eq!(report.status, 403);
    assert_eq!(report.error.as_deref(), Some("User or channel has opted out"));
    assert!(!remember);

    let (report, _) = conclude(ok(), FanOut::new(0, false, true), 0, 1, 0);
    assert_eq!(report.status, 404);
    assert_eq!(report.error.as_deref(), Some("No channel logs found"));

    let mut fan = FanOut::new(0, false, true);
    fan.record(Some(GetLogsOutcome::ChannelOnly { link: "https://a".to_string(), channel_full: "ca".to_string(), list: days(1) }), 1);
    let (report, remember) = conclude(ok(), fan, 0, 1, 0);
    assert_eq!(report.status, 404);
    assert_eq!(report.error.as_deref(), Some("No user logs found"));
    assert!(remember);

    let failed = resolve_lookup("ghost", None, false, None, None, None);
    let (report, _) = conclude(failed, FanOut::new(0, false, false), 0, 1, 0);
    assert_eq!(report.status, 404);
    assert_eq!(report.error.as_deref(), Some("The channel does not exist: ghost"));
    assert!(report.logged_data.since.is_none());
}

#[test]
fn last_updated_rounds_toward_zero() {
    let l = last_updated(1_700_000_000_999);
    assert_eq!(l.unix, 1_700_000_000);
    assert_eq!(l.utc, "Tue, 14 Nov 2023 22:13:20 GMT");
    assert_eq!(last_updated(-1_500).unix, -1);
}

#[test]
fn fanout_user_links_are_channel_links() {
    let mut fan = FanOut::new(0, false, true);
    fan.record(
        Some(GetLogsOutcome::ChannelOnly { link: "https://a".to_string(), channel_full: "ca".to_string(), list: days(3) }),
        10,
    );
    fan.record(
        Some(GetLogsOutcome::Available {
            link: "https://b".to_string(),
            channel_full: "cb".to_string(),
            full: "ub".to_string(),
            list: days(5),
        }),
        20,
    );
    for u in fan.user_with_len.iter() {
        assert!(fan.channel_with_len.iter().any(|c| c.link == u.link));
    }
}
