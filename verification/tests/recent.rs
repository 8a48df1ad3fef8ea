use bestlogs::logs::recent_messages::{
    day_lines, echo_value, echoed_key, first_timestamp, promote_main, recent_limit, recent_messages_url, rm_only,
    rustlog_day_url, tag_historical, tag_line, Backfill, QueryValue, RecentState, RmResponse,
};
use bestlogs::logs::AvailableLogDate;

fn strings(v: &[&str]) -> Vec<String> {
    v.iter().map(|s| s.to_string()).collect()
}

const LINE: &str = "@badge-info=;tmi-sent-ts=1700000000000;x :a!a@a PRIVMSG #c :hi";

#[test]
fn tag_line_marks_history_and_received_time() {
    assert_eq!(
        tag_line(LINE, Some("1700000000000"), None).as_deref(),
        Some("@historical=1;badge-info=;tmi-sent-ts=1700000000000;rm-received-ts=1700000000000;x :a!a@a PRIVMSG #c :hi")
    );
    assert_eq!(tag_line(LINE, Some("1700000000000"), Some(1700000000000)), None);
    assert!(tag_line(LINE, Some("1700000000000"), Some(1700000000001)).is_some());
    assert_eq!(tag_line("@a=b :x", None, Some(0)).as_deref(), Some("@historical=1;a=b :x"));
    assert_eq!(tag_line("", None, None).as_deref(), Some("@historical=1;"));
}

#[test]
fn tag_line_unparsable_timestamp_counts_as_zero() {
    assert_eq!(tag_line("@tmi-sent-ts=99999999999999999999;x", Some("99999999999999999999"), Some(0)), None);
    assert_eq!(
        tag_line("@q;tmi-sent-ts=0;", Some("99999999999999999999"), Some(1)).as_deref(),
        Some("@historical=1;q;tmi-sent-ts=0;rm-received-ts=0;")
    );
}

#[test]
fn tag_historical_uses_the_line_timestamp() {
    let tagged = tag_historical(
        strings(&[LINE, "@tmi-sent-ts=5 :tmi.twitch.tv", "@tmi-sent-ts=1800000000000;y", "@plain"]),
        Some(1750000000000),
    );
    assert_eq!(
        tagged,
        strings(&[
            "@historical=1;badge-info=;tmi-sent-ts=1700000000000;rm-received-ts=1700000000000;x :a!a@a PRIVMSG #c :hi",
            "@historical=1;tmi-sent-ts=5 :tmi.twitch.tv",
            "@historical=1;plain",
        ])
    );
}

#[test]
fn first_timestamp_of_messages() {
    assert_eq!(first_timestamp(&strings(&["@tmi-sent-ts=42;foo", "@tmi-sent-ts=1;"])), Some(42));
    assert_eq!(first_timestamp(&strings(&["@foo"])), None);
    assert_eq!(first_timestamp(&Vec::new()), None);
}

#[test]
fn limit_and_flags_from_the_query() {
    assert_eq!(recent_limit(Some("50")), 50);
    assert_eq!(recent_limit(Some("+7")), 7);
    assert_eq!(recent_limit(Some("0")), 1000);
    assert_eq!(recent_limit(Some("-3")), 1000);
    assert_eq!(recent_limit(Some("abc")), 1000);
    assert_eq!(recent_limit(None), 1000);
    assert!(rm_only(Some("true")));
    assert!(!rm_only(Some("True")));
    assert!(!rm_only(None));
    assert!(matches!(echo_value("true"), QueryValue::Bool(true)));
    assert!(matches!(echo_value("false"), QueryValue::Bool(false)));
    match echo_value("5") {
        QueryValue::Text(t) => assert_eq!(t, "5"),
        _ => panic!("expected text"),
    }
    assert!(echoed_key("hide_moderation_messages"));
    assert!(!echoed_key("channel"));
    assert!(!echoed_key("limit"));
}

#[test]
fn recent_state_takes_the_first_usable_answer() {
    let mut state = RecentState::new();
    assert_eq!(state.status, 500);
    let failed = RmResponse { messages: Vec::new(), error: None, error_code: None, status_message: Some("down".to_string()) };
    assert!(!state.take_response("rm.one", 503, failed));
    assert_eq!(state.error.as_deref(), Some("Internal Server Error"));
    assert_eq!(state.error_code.as_deref(), Some("internal_server_error"));
    assert_eq!(state.instance, strings(&["https://rm.one"]));
    let good = RmResponse {
        messages: strings(&["@a :tmi.twitch.tv ROOMSTATE #forsen", "@b PRIVMSG #forsen :hi"]),
        error: None,
        error_code: None,
        status_message: None,
    };
    assert!(state.take_response("rm.two", 200, good));
    assert_eq!(state.messages, strings(&["@b PRIVMSG #forsen :hi"]));
    assert_eq!(state.status, 200);
    assert!(state.error.is_none());
    assert_eq!(state.instance, strings(&["https://rm.two"]));
    state.adopt(Some((strings(&["x", "y"]), "https://logs".to_string())));
    assert_eq!(state.instance, strings(&["https://rm.two", "https://logs"]));
    assert_eq!(state.messages, strings(&["x", "y"]));
}

#[test]
fn backfill_reads_days_until_limit() {
    let mut bf = Backfill::new(5, true, 3, strings(&["https://a", "https://b"]), Vec::new());
    let q = bf.next_request().expect("first day");
    assert_eq!((q.instance.as_str(), q.day, q.limit), ("https://a", 0, 5));
    assert!(bf.awaiting_day());
    bf.on_day(Some(strings(&["x1", "x2"])));
    let q = bf.next_request().expect("second day");
    assert_eq!((q.day, q.limit), (1, 3));
    bf.on_day(None);
    let q = bf.next_request().expect("third day");
    assert_eq!((q.day, q.limit), (2, 3));
    bf.on_day(Some(strings(&["y"])));
    assert!(bf.next_request().is_none());
    assert!(bf.succeeded());
    assert_eq!(bf.into_result(), Some((strings(&["y", "x1", "x2"]), "https://a".to_string())));
}

#[test]
fn backfill_moves_on_after_a_failed_first_day() {
    let mut bf = Backfill::new(2, true, 1, strings(&["https://a", "https://b"]), strings(&["m"]));
    let q = bf.next_request().expect("first instance");
    assert_eq!((q.instance.as_str(), q.day, q.limit), ("https://a", 0, 1));
    bf.on_day(None);
    let q = bf.next_request().expect("second instance");
    assert_eq!(q.instance, "https://b");
    bf.on_day(Some(strings(&["old"])));
    assert!(bf.next_request().is_none());
    assert_eq!(bf.into_result(), Some((strings(&["old", "m"]), "https://b".to_string())));
}

#[test]
fn backfill_gives_up_after_three_failed_instances() {
    let mut bf = Backfill::new(10, true, 5, strings(&["a", "b", "c", "d"]), Vec::new());
    for _ in 0..3 {
        assert!(bf.next_request().is_some());
        bf.on_day(None);
    }
    assert!(bf.next_request().is_none());
    assert_eq!(bf.into_result(), None);
}

#[test]
fn backfill_skips_channels_without_logs() {
    let mut bf = Backfill::new(10, false, 5, strings(&["a"]), Vec::new());
    assert!(bf.next_request().is_none());
    let mut full = Backfill::new(1, true, 5, strings(&["a"]), strings(&["m"]));
    assert!(full.next_request().is_none());
    assert_eq!(full.into_result(), Some((strings(&["m"]), "a".to_string())));
}

#[test]
fn main_instance_goes_first() {
    let ranked = strings(&["https://b", "https://main", "https://c"]);
    assert_eq!(promote_main(ranked.clone(), Some("main")), strings(&["https://main", "https://b", "https://c"]));
    assert_eq!(promote_main(ranked.clone(), Some("other")), ranked);
    assert_eq!(promote_main(ranked.clone(), None), ranked);
}

#[test]
fn request_urls() {
    assert_eq!(recent_messages_url("rm.example", "forsen", ""), "https://rm.example/api/v2/recent-messages/forsen");
    assert_eq!(recent_messages_url("rm.example", "forsen", "limit=5"), "https://rm.example/api/v2/recent-messages/forsen?limit=5");
    let date = AvailableLogDate { year: "2024".to_string(), month: "3".to_string(), day: None };
    assert_eq!(rustlog_day_url("https://logs", "forsen", &date, 42), "https://logs/channel/forsen/2024/3/1?limit=42&raw&reverse");
    let date = AvailableLogDate { year: "2024".to_string(), month: "3".to_string(), day: Some("9".to_string()) };
    assert_eq!(rustlog_day_url("https://logs", "forsen", &date, 7), "https://logs/channel/forsen/2024/3/9?limit=7&raw&reverse");
}

#[test]
fn day_lines_are_oldest_first() {
    let body = "@tmi-sent-ts=3;c\n@tmi-sent-ts=2;b\r\n@tmi-sent-ts=1;a\n";
    assert_eq!(
        day_lines(body, Some(3)),
        strings(&[
            "@historical=1;tmi-sent-ts=1;rm-received-ts=1;a",
            "@historical=1;tmi-sent-ts=2;rm-received-ts=2;b",
        ])
    );
    assert!(day_lines("", None).is_empty());
}
