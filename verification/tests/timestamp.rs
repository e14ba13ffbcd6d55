use pulsar_topic_health::timestamp::{
    civil_from_days, days_from_civil, format_epoch_secs, now_rfc3339, parse_rfc3339,
};

#[test]
fn formats_known_epochs() {
    assert_eq!(format_epoch_secs(0), "1970-01-01T00:00:00Z");
    // 2001-09-09T01:46:40Z, the classic 1e9 epoch.
    assert_eq!(format_epoch_secs(1_000_000_000), "2001-09-09T01:46:40Z");
    // A leap day: 2020-02-29T12:00:00Z = 1582977600.
    assert_eq!(format_epoch_secs(1_582_977_600), "2020-02-29T12:00:00Z");
}

#[test]
fn now_has_expected_shape() {
    let s = now_rfc3339();
    assert_eq!(s.len(), 20, "YYYY-MM-DDThh:mm:ssZ is 20 chars");
    assert!(s.ends_with('Z'));
    assert_eq!(&s[4..5], "-");
    assert_eq!(&s[10..11], "T");
}

#[test]
fn parse_is_inverse_of_format() {
    for epoch in [0_i64, 1_000_000_000, 1_582_977_600, 1_800_000_000] {
        let s = format_epoch_secs(epoch);
        assert_eq!(parse_rfc3339(&s), Some(epoch), "round-trip {s}");
    }
}

#[test]
fn parse_rejects_malformed() {
    assert!(parse_rfc3339("not-a-time").is_none());
    assert!(parse_rfc3339("2026-07-30 12:00:00").is_none()); // space not T
    assert!(parse_rfc3339("2026-13-01T00:00:00Z").is_none()); // month 13
}

// ── Further cases ────────────────────────────────────────────────────────────

#[test]
fn now_is_later_than_this_was_written() {
    assert!(parse_rfc3339(&now_rfc3339()).unwrap() > 1_750_000_000);
}

#[test]
fn days_and_dates_agree() {
    assert_eq!(days_from_civil(1970, 1, 1), 0);
    assert_eq!(days_from_civil(2000, 3, 1), 11_017);
    assert_eq!(days_from_civil(1969, 12, 31), -1);
    for day in [-800_000_i64, -1, 0, 59, 60, 11_016, 20_000, 3_000_000] {
        let (y, m, d) = civil_from_days(day);
        assert_eq!(days_from_civil(y, m, d), day);
    }
    assert_eq!(civil_from_days(11_016), (2000, 2, 29));
}

#[test]
fn stamps_before_the_epoch() {
    assert_eq!(format_epoch_secs(-1), "1969-12-31T23:59:59Z");
    assert_eq!(parse_rfc3339("1969-12-31T23:59:59Z"), Some(-1));
}

#[test]
fn stamps_sort_as_their_times_do() {
    let times = [0_i64, 59, 86_399, 86_400, 1_582_977_600, 1_582_977_601, 250_000_000_000];
    for pair in times.windows(2) {
        assert!(format_epoch_secs(pair[0]) < format_epoch_secs(pair[1]));
    }
}

#[test]
fn fields_are_digits() {
    assert_eq!(parse_rfc3339("2026-07-+1T00:00:00Z"), None);
    assert_eq!(parse_rfc3339("2026-07--1T00:00:00Z"), None);
    assert_eq!(parse_rfc3339("+026-07-01T00:00:00Z"), None);
    assert_eq!(parse_rfc3339("2026-07-01T00:00:+5Z"), None);
    assert_eq!(parse_rfc3339("2026-07-01T00:00:05Z"), Some(1_782_864_005));
}
