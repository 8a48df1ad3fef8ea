use bestlogs::bench::{hash, in_scenario, list_body, mock_days, mock_latency, mock_user_status, profile, query_value, Rng};

#[test]
fn hash_values() {
    assert_eq!(hash(&[], 0), 0xcbf2_9ce4_8422_2325);
    assert_eq!(hash(&["a"], 0), 8375179371378653052);
    assert_eq!(hash(&["forsen", "nymn"], 7), 1209003600043570891);
    assert_ne!(hash(&["forsen"], 1), hash(&["forsen"], 2));
}

#[test]
fn rng_is_xorshift64() {
    let mut rng = Rng(1);
    assert_eq!(rng.next(), 1082269761);
    assert_eq!(rng.next(), 1152992998833853505);
    let mut other = Rng(1);
    assert_eq!(other.below(100), 61);
    assert_eq!(other.below(0), 0);
    assert_eq!(other.0, 1082269761);
}

#[test]
fn mock_list_bodies() {
    assert_eq!(list_body(0), "{\"availableLogs\":[]}");
    assert_eq!(
        list_body(2),
        "{\"availableLogs\":[{\"year\":\"2020\",\"month\":\"1\",\"day\":\"1\"},{\"year\":\"2020\",\"month\":\"1\",\"day\":\"2\"}]}"
    );
    let body = list_body(400);
    assert!(body.contains("{\"year\":\"2021\",\"month\":\"3\",\"day\":\"8\"}"));
}

#[test]
fn query_values() {
    assert_eq!(query_value("channel=forsen&user=nymn", &["user", "userid"]), Some("nymn"));
    assert_eq!(query_value("a&channelid=5", &["channel", "channelid"]), Some("5"));
    assert_eq!(query_value("x=1", &["y"]), None);
    assert_eq!(query_value("", &["y"]), None);
    assert_eq!(query_value("y=1=2&y=3", &["y"]), Some("1=2"));
    assert_eq!(query_value("y&y=", &["y"]), Some(""));
}

#[test]
fn profiles() {
    let p = profile("fast-1", 25, 20, 0, 0, 0, false);
    assert_eq!((p.name, p.base_ms, p.jitter_ms, p.blackhole), ("fast-1", 25, 20, false));
}

#[test]
fn mock_decisions() {
    let fast = profile("fast-1", 25, 20, 0, 0, 0, false);
    let mid = profile("mid-2", 150, 90, 0, 0, 0, false);
    let hole = profile("blackhole", 0, 0, 0, 0, 0, true);
    let flappy = profile("flappy", 60, 40, 0, 0, 0, false);
    assert!(in_scenario("healthy", &fast) && in_scenario("healthy", &mid));
    assert!(!in_scenario("healthy", &hole));
    assert!(!in_scenario("degraded", &hole) && !in_scenario("degraded", &flappy) && in_scenario("degraded", &mid));
    assert!(in_scenario("recovery", &flappy) && in_scenario("recovery", &fast) && !in_scenario("recovery", &mid));
    assert!(in_scenario("outage", &hole) && !in_scenario("outage", &flappy));
    assert_eq!(mock_user_status(0), "200 OK");
    assert_eq!(mock_user_status(75), "404 Not Found");
    assert_eq!(mock_user_status(95), "403 Forbidden");
    assert_eq!(mock_days("forsen", 3), 30 + (hash(&["forsen"], 3) % 900) as usize);
    let mut rng = Rng(1);
    assert_eq!(mock_latency(&fast, &mut rng), 25 + 1082269761 % 20);
    assert_eq!(rng.0, 1082269761);
    let spiky = profile("spiky", 250, 100, 100, 4_000, 0, false);
    let mut rng = Rng(1);
    assert_eq!(mock_latency(&spiky, &mut rng), 250 + 1082269761 % 100 + 4_000);
}
