use bestlogs::logs::namehistory::{
    merge_name, merge_names, parse_user_ref, sort_by_last_seen, NameHistoryResult, PreviousName, Timestamp, UserRef,
};

fn entry(login: &str, first: i64, last: i64) -> PreviousName {
    PreviousName {
        user_login: login.to_string(),
        last_timestamp: Timestamp { secs: last, nanos: 0 },
        first_timestamp: Timestamp { secs: first, nanos: 0 },
    }
}

const ERR: &str = "The value must be an ID or use 'login:' to refer to usernames. Example: 754201843 or login:zonianmidian";

#[test]
fn user_references() {
    assert!(matches!(parse_user_ref("login:forsen"), Ok(UserRef::Login(n)) if n == "forsen"));
    assert!(matches!(parse_user_ref("id:login:forsen"), Ok(UserRef::Login(n)) if n == "forsen"));
    assert!(matches!(parse_user_ref("id:754201843"), Ok(UserRef::Id(n)) if n == "754201843"));
    assert!(matches!(parse_user_ref("754201843"), Ok(UserRef::Id(n)) if n == "754201843"));
    assert!(matches!(parse_user_ref("forsen"), Err(m) if m == ERR));
    assert!(matches!(parse_user_ref(""), Err(m) if m == ERR));
    assert!(matches!(parse_user_ref("id:"), Err(m) if m == ERR));
    assert!(matches!(parse_user_ref("12a"), Err(m) if m == ERR));
}

#[test]
fn merge_widens_the_seen_range() {
    let mut history = Vec::new();
    merge_name(&mut history, &entry("a", 5, 10));
    merge_name(&mut history, &entry("a", 1, 20));
    merge_name(&mut history, &entry("a", 3, 15));
    assert_eq!(history.len(), 1);
    assert_eq!(history[0].first_timestamp.secs, 1);
    assert_eq!(history[0].last_timestamp.secs, 20);
    merge_names(&mut history, &vec![entry("b", 2, 12), entry("a", 0, 5)]);
    assert_eq!(history.len(), 2);
    assert_eq!(history[0].first_timestamp.secs, 0);
    assert_eq!(history[1].user_login, "b");
}

#[test]
fn history_sorted_by_last_seen_stably() {
    let sorted = sort_by_last_seen(vec![entry("c", 0, 30), entry("a", 0, 10), entry("b", 0, 10), entry("d", 0, 5)]);
    let logins: Vec<&str> = sorted.iter().map(|e| e.user_login.as_str()).collect();
    assert_eq!(logins, vec!["d", "a", "b", "c"]);
    let nanos = sort_by_last_seen(vec![
        PreviousName { user_login: "late".to_string(), last_timestamp: Timestamp { secs: 1, nanos: 9 }, first_timestamp: Timestamp { secs: 0, nanos: 0 } },
        PreviousName { user_login: "early".to_string(), last_timestamp: Timestamp { secs: 1, nanos: 2 }, first_timestamp: Timestamp { secs: 0, nanos: 0 } },
    ]);
    assert_eq!(nanos[0].user_login, "early");
}

#[test]
fn name_history_result_gathers_sources() {
    let mut result = NameHistoryResult::new();
    result.take("logs.a", Some(vec![entry("x", 1, 2)]));
    result.take("logs.b", Some(Vec::new()));
    result.take("logs.c", None);
    result.take("logs.d", Some(vec![entry("y", 0, 1), entry("x", 0, 3)]));
    let done = result.finish();
    assert_eq!(done.source_instances, vec!["https://logs.a".to_string(), "https://logs.d".to_string()]);
    let logins: Vec<&str> = done.name_history.iter().map(|e| e.user_login.as_str()).collect();
    assert_eq!(logins, vec!["y", "x"]);
    assert_eq!(done.name_history[1].first_timestamp.secs, 0);
    assert_eq!(done.name_history[1].last_timestamp.secs, 3);
}
