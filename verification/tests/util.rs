use bestlogs::twitch::{display_name, info_cache_key, ivr_query, twitch_user, user_from_response, IvrUser};
use bestlogs::util::{format_username, id_dash_key, is_user_id, is_user_or_channel, millis_to_i64, now_ms, strip_id_prefix, to_utc_string};

#[test]
fn format_username_strips_marks_and_lowercases() {
    assert_eq!(format_username("@ForSen#,"), "forsen");
    assert_eq!(format_username("#NyMN"), "nymn");
    assert_eq!(format_username("ÀB"), "àb");
    assert_eq!(format_username(""), "");
}

#[test]
fn user_or_channel_pattern() {
    assert!(is_user_or_channel("forsen"));
    assert!(is_user_or_channel("Forsen_1"));
    assert!(is_user_or_channel("id:22484632"));
    assert!(is_user_or_channel("ID:22484632"));
    assert!(!is_user_or_channel("_forsen"));
    assert!(!is_user_or_channel("for-sen"));
    assert!(!is_user_or_channel("abcdefghijklmnopqrstuvwxyz"));
    assert!(is_user_or_channel("abcdefghijklmnopqrstuvwxy"));
    assert!(!is_user_or_channel(""));
    assert!(!is_user_or_channel("id:"));
    assert!(!is_user_or_channel("\u{17f}"));
    assert!(!is_user_or_channel("\u{212a}x"));
}

#[test]
fn id_references() {
    assert!(is_user_id("id:5"));
    assert!(is_user_id("ID:5"));
    assert!(!is_user_id("id:5a"));
    assert_eq!(strip_id_prefix("id:5"), "5");
    assert_eq!(strip_id_prefix("ID:5"), "ID:5");
    assert_eq!(strip_id_prefix("forsen"), "forsen");
    assert_eq!(id_dash_key("id:5"), "id-5");
    assert_eq!(id_dash_key("xid:5:id:6"), "xid-5:id:6");
    assert_eq!(id_dash_key("forsen"), "forsen");
}

#[test]
fn clock_and_dates() {
    assert_eq!(to_utc_string(0), "Thu, 01 Jan 1970 00:00:00 GMT");
    assert_eq!(to_utc_string(1_700_000_000_000), "Tue, 14 Nov 2023 22:13:20 GMT");
    assert!(now_ms() > 1_600_000_000_000);
    assert_eq!(millis_to_i64(None), 0);
    assert_eq!(millis_to_i64(Some(42)), 42);
}

#[test]
fn twitch_user_resolution() {
    assert_eq!(info_cache_key("id:5"), "id-5");
    assert_eq!(ivr_query("id:5"), (true, "5"));
    assert_eq!(ivr_query("forsen"), (false, "forsen"));
    assert_eq!(display_name("ForSen".to_string(), &"forsen".to_string()), "ForSen");
    assert_eq!(display_name("포센".to_string(), &"forsen".to_string()), "forsen");
    let u = twitch_user("1".to_string(), "forsen".to_string(), "FORSEN".to_string(), "logo".to_string(), true);
    assert_eq!(u.name, "FORSEN");
    assert!(u.banned);
    assert!(user_from_response(Vec::new()).is_none());
    let u = user_from_response(vec![IvrUser {
        id: "2".to_string(),
        login: "nymn".to_string(),
        display_name: "NymN".to_string(),
        logo: "l".to_string(),
        banned: false,
    }])
    .expect("user");
    assert_eq!((u.name.as_str(), u.id.as_str()), ("NymN", "2"));
}
