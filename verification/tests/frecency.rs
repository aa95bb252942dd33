use fish_reader::path_jump::frecency::{frecency_score, Timestamp};
use std::time::{Duration, SystemTime, UNIX_EPOCH};

fn stamp(t: SystemTime) -> Timestamp {
    let d = t.duration_since(UNIX_EPOCH).unwrap();
    Timestamp { secs: d.as_secs() as i64, nanos: d.subsec_nanos() }
}

fn score(frequency: u32, last_used: SystemTime, now: SystemTime) -> f64 {
    frecency_score(frequency, stamp(last_used), stamp(now)) as f64
}

#[test]
fn test_frecency_score_recent_items_score_higher() {
    let now = SystemTime::now();
    let one_minute_ago = now - Duration::from_secs(60);
    let one_week_ago = now - Duration::from_secs(7 * 86400);

    let recent = score(1, one_minute_ago, now);
    let old = score(1, one_week_ago, now);
    assert!(recent > old, "recent={recent} should be > old={old}");
}

#[test]
fn test_frecency_score_frequency_multiplies() {
    let now = SystemTime::now();
    let ts = now - Duration::from_secs(60);

    let once = score(1, ts, now);
    let five_times = score(5, ts, now);
    assert_eq!(five_times, once * 5.0);
}

#[test]
fn test_frecency_score_decay_buckets() {
    let now = SystemTime::now();
    // <1h: 16x
    assert_eq!(score(1, now - Duration::from_secs(30 * 60), now), 16.0);
    // <1d: 8x
    assert_eq!(score(1, now - Duration::from_secs(2 * 3600), now), 8.0);
    // <1w: 4x
    assert_eq!(score(1, now - Duration::from_secs(3 * 86400), now), 4.0);
    // <1mo: 2x
    assert_eq!(score(1, now - Duration::from_secs(14 * 86400), now), 2.0);
    // older: 1x
    assert_eq!(score(1, now - Duration::from_secs(60 * 86400), now), 1.0);
}

fn at(secs: i64, nanos: u32) -> Timestamp {
    Timestamp { secs, nanos }
}

#[test]
fn bucket_limits_are_exact() {
    let now = at(10_000_000, 500);
    for (age, below, from) in
        [(3600, 16, 8), (86_400, 8, 4), (604_800, 4, 2), (2_592_000, 2, 1)]
    {
        assert_eq!(frecency_score(3, at(10_000_000 - age, 500), now), 3 * from);
        // One nanosecond younger is a whole second less.
        assert_eq!(frecency_score(3, at(10_000_000 - age, 501), now), 3 * below);
    }
}

#[test]
fn future_uses_have_no_age() {
    let now = at(1_000, 0);
    assert_eq!(frecency_score(2, at(1_000, 1), now), 32);
    assert_eq!(frecency_score(2, at(i64::MAX, 0), now), 32);
    assert_eq!(frecency_score(2, now, now), 32);
}

#[test]
fn extreme_times_and_frequencies() {
    assert_eq!(frecency_score(7, at(i64::MIN, 0), at(i64::MAX, 999_999_999)), 7);
    assert_eq!(frecency_score(u32::MAX, at(0, 0), at(0, 0)), u32::MAX as u64 * 16);
    assert_eq!(frecency_score(0, at(0, 0), at(0, 0)), 0);
    // Before 1970.
    assert_eq!(frecency_score(1, at(-3600, 0), at(0, 0)), 8);
    assert_eq!(frecency_score(1, at(-3600, 1), at(0, 0)), 16);
}

#[test]
fn more_recent_is_never_lower() {
    let now = at(5_000_000, 0);
    let mut last = u64::MAX;
    for age in (0..5_000_000).step_by(997) {
        let score = frecency_score(5, at(5_000_000 - age, 0), now);
        assert!(score <= last);
        last = score;
    }
}

#[test]
fn frequency_multiplies_at_any_age() {
    let now = at(5_000_000, 0);
    for age in [0, 4_000, 90_000, 700_000, 3_000_000] {
        let then = at(5_000_000 - age, 0);
        assert_eq!(frecency_score(12, then, now), 3 * frecency_score(4, then, now));
    }
}
