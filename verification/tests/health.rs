use std::time::Duration;

use bestlogs::logs::health::{Breaker, Permit, BASE_COOLDOWN_MS, FAILURE_THRESHOLD};

fn fetches(p: Permit) -> Option<Duration> {
    match p {
        Permit::Fetch(d) => Some(d),
        Permit::CachedOnly => None,
    }
}

#[test]
fn breaker_lets_a_fresh_host_through() {
    let mut b = Breaker::new();
    assert_eq!(fetches(b.permit(0, Duration::from_millis(750))), Some(Duration::from_millis(750)));
}

#[test]
fn breaker_trips_at_threshold_and_skips_while_cooling() {
    let mut b = Breaker::new();
    assert_eq!(FAILURE_THRESHOLD, 3);
    assert_eq!(b.record_failure(0), None);
    assert_eq!(b.record_failure(10), None);
    assert_eq!(b.record_failure(20), Some(BASE_COOLDOWN_MS));
    assert_eq!(fetches(b.permit(1_000, Duration::from_secs(5))), None);
    assert_eq!(fetches(b.permit(15_019, Duration::from_secs(5))), None);
}

#[test]
fn breaker_allows_a_single_trial_after_cooldown() {
    let mut b = Breaker::new();
    b.record_failure(0);
    b.record_failure(0);
    b.record_failure(0);
    assert!(fetches(b.permit(15_000, Duration::from_secs(5))).is_some());
    assert!(fetches(b.permit(15_001, Duration::from_secs(5))).is_none());
    assert!(fetches(b.permit(24_999, Duration::from_secs(5))).is_none());
    assert!(fetches(b.permit(25_000, Duration::from_secs(5))).is_some());
}

#[test]
fn breaker_failed_trial_doubles_cooldown() {
    let mut b = Breaker::new();
    b.record_failure(0);
    b.record_failure(0);
    b.record_failure(0);
    assert!(fetches(b.permit(15_000, Duration::from_secs(5))).is_some());
    assert_eq!(b.record_failure(16_000), Some(30_000));
    assert!(fetches(b.permit(45_999, Duration::from_secs(5))).is_none());
}

#[test]
fn breaker_in_flight_failures_do_not_extend() {
    let mut b = Breaker::new();
    b.record_failure(0);
    b.record_failure(0);
    assert_eq!(b.record_failure(0), Some(15_000));
    assert_eq!(b.record_failure(100), None);
    assert_eq!(b.record_failure(200), None);
    assert_eq!(b.open_until, Some(15_000));
    assert_eq!(b.trips, 1);
}

#[test]
fn breaker_success_closes_and_resets() {
    let mut b = Breaker::new();
    b.record_failure(0);
    b.record_failure(0);
    b.record_failure(0);
    assert!(b.record_success());
    assert_eq!(b.trips, 0);
    assert_eq!(b.consecutive_failures, 0);
    assert!(fetches(b.permit(1, Duration::from_secs(5))).is_some());
    assert!(!b.record_success());
}

#[test]
fn breaker_cooldown_is_capped() {
    let mut b = Breaker::new();
    b.trips = 9;
    assert_eq!(b.cooldown_ms(), 300_000);
    b.trips = 2;
    assert_eq!(b.cooldown_ms(), 60_000);
}

#[test]
fn breaker_third_failure_blocks_the_base_window() {
    let mut b = Breaker::new();
    b.record_failure(100);
    assert!(fetches(b.permit(101, Duration::from_secs(1))).is_some());
    b.record_failure(200);
    assert!(fetches(b.permit(201, Duration::from_secs(1))).is_some());
    b.record_failure(300);
    assert!(fetches(b.permit(300, Duration::from_secs(1))).is_none());
    assert!(fetches(b.permit(300 + BASE_COOLDOWN_MS - 1, Duration::from_secs(1))).is_none());
}

#[test]
fn breaker_success_restarts_with_base_cooldown() {
    let mut b = Breaker::new();
    for _ in 0..3 {
        b.record_failure(0);
    }
    assert!(fetches(b.permit(15_000, Duration::from_secs(1))).is_some());
    assert_eq!(b.record_failure(15_000), Some(2 * BASE_COOLDOWN_MS));
    assert!(fetches(b.permit(45_000, Duration::from_secs(1))).is_some());
    assert!(b.record_success());
    assert_eq!(b.trips, 0);
    assert!(fetches(b.permit(45_001, Duration::from_secs(1))).is_some());
    assert_eq!(b.record_failure(50_000), None);
    assert_eq!(b.record_failure(50_001), None);
    assert_eq!(b.record_failure(50_002), Some(BASE_COOLDOWN_MS));
}
