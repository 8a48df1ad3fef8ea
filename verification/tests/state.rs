use bestlogs::config::JustlogInstanceMeta;
use bestlogs::logs::{AvailableLogDate, Channel};
use bestlogs::reload::{accept_channels, reload_plan};
use bestlogs::state::{alive_instances, clamp_weight, instance_alive, instance_host, instance_stats, list_weight, status_weight, string_weight, user_weight};
use bestlogs::twitch::TwitchUser;

fn keys(v: &[&str]) -> Vec<String> {
    v.iter().map(|s| s.to_string()).collect()
}

#[test]
fn weights_charge_payload_and_overhead() {
    assert_eq!(string_weight("abc"), 35);
    assert_eq!(string_weight("é"), 34);
    assert_eq!(clamp_weight(5), 5);
    assert_eq!(clamp_weight(5_000_000_000), u32::MAX);
    assert_eq!(status_weight("k"), 35);
    let date_size = std::mem::size_of::<AvailableLogDate>() as u32;
    let list = vec![AvailableLogDate { year: "2024".to_string(), month: "1".to_string(), day: None }];
    assert_eq!(list_weight("key", &list), 35 + date_size + 36 + 33 + 32);
    let user = TwitchUser { name: "a".to_string(), login: "a".to_string(), avatar: String::new(), id: "1".to_string(), banned: false };
    let user_size = std::mem::size_of::<TwitchUser>() as u32;
    assert_eq!(user_weight("k", &user), 33 + user_size + 33 + 33 + 32 + 33);
}

#[test]
fn hosts_and_liveness() {
    let meta = JustlogInstanceMeta { maintainer: None, alternate: Some("alt.host".to_string()) };
    assert_eq!(instance_host(Some(&meta), "logs.key"), "alt.host");
    assert_eq!(instance_host(Some(&JustlogInstanceMeta::default()), "logs.key"), "logs.key");
    assert_eq!(instance_host(None, "logs.key"), "logs.key");
    assert!(instance_alive(None));
    assert!(instance_alive(Some(3)));
    assert!(!instance_alive(Some(0)));
    assert_eq!(instance_stats(&vec![3, 0, 0, 7]), (4, 2));
    assert_eq!(alive_instances(&keys(&["a", "b", "c"]), &vec![Some(0), None, Some(2)]), keys(&["b", "c"]));
}

#[test]
fn reload_selects_instances() {
    let k = keys(&["a", "b", "c"]);
    let loaded = vec![Some(0), Some(3), None];
    assert_eq!(reload_plan(&k, &loaded, false), Some(k.clone()));
    assert_eq!(reload_plan(&k, &loaded, true), Some(keys(&["a"])));
    assert_eq!(reload_plan(&Vec::new(), &Vec::new(), false), None);
    assert_eq!(reload_plan(&Vec::new(), &Vec::new(), true), Some(Vec::new()));
}

#[test]
fn refreshed_channel_lists() {
    assert_eq!(accept_channels(Vec::new()).err().as_deref(), Some("No channels found"));
    let ok = accept_channels(vec![Channel { name: "b".to_string(), user_id: "2".to_string() }, Channel { name: "a".to_string(), user_id: "1".to_string() }]).ok().expect("channels");
    assert_eq!(ok.len(), 2);
    assert!(ok.contains("a") && ok.contains("2"));
}
