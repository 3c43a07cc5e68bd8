use smart_calendar::civil::{epoch_secs_utc, get_last_day_of_month};
use smart_calendar::datetime::parse_datetime;

const JAN1_MIDNIGHT: i64 = 1704067200; // 2024-01-01T00:00:00Z

#[test]
fn all_day_normalization() {
    let r = parse_datetime(b"DTSTART;VALUE=DATE:20240615");
    assert_eq!(r, Some(1718409600)); // 2024-06-15T00:00:00Z
}

#[test]
fn named_timezone_normalization() {
    let r = parse_datetime(b"DTSTART;TZID=Asia/Taipei:20240101T090000");
    assert_eq!(r, Some(JAN1_MIDNIGHT + 3600)); // 2024-01-01T01:00:00Z
}

#[test]
fn named_timezone_with_dst_offset() {
    // New York is UTC-5 in winter
    let r = parse_datetime(b"DTSTART;TZID=America/New_York:20240115T070000");
    assert_eq!(r, Some(1705320000)); // 2024-01-15T12:00:00Z
}

#[test]
fn nonexistent_local_time_fails() {
    // 02:30 does not exist on the US spring-forward date
    let r = parse_datetime(b"DTSTART;TZID=America/New_York:20240310T023000");
    assert_eq!(r, None);
}

#[test]
fn unknown_timezone_fails() {
    assert_eq!(parse_datetime(b"DTSTART;TZID=Nowhere/Atlantis:20240101T090000"), None);
}

#[test]
fn basic_z_form_uses_permissive_fallback() {
    let r = parse_datetime(b"DTSTART:20240101T090000Z");
    assert_eq!(r, Some(JAN1_MIDNIGHT + 9 * 3600));
}

#[test]
fn extended_z_form_uses_strict_grammar() {
    let r = parse_datetime(b"DTSTART:2024-01-01T09:00:00Z");
    assert_eq!(r, Some(JAN1_MIDNIGHT + 9 * 3600));
}

#[test]
fn floating_time_is_read_as_utc() {
    let r = parse_datetime(b"DTEND:20240101T100000");
    assert_eq!(r, Some(JAN1_MIDNIGHT + 10 * 3600));
}

#[test]
fn malformed_values_fail() {
    assert_eq!(parse_datetime(b"DTSTART:20241301T000000"), None); // month 13
    assert_eq!(parse_datetime(b"DTSTART:20240230T000000"), None); // Feb 30
    assert_eq!(parse_datetime(b"DTSTART:20240101T250000"), None); // hour 25
    assert_eq!(parse_datetime(b"DTSTART:2024010"), None); // too short
    assert_eq!(parse_datetime(b"DTSTART;VALUE=DATE:2024061"), None);
    assert_eq!(parse_datetime(b"DTSTART;VALUE=DATE:20241315"), None);
    assert_eq!(parse_datetime(b"DTSTART;VALUE=OTHER:20240615"), None);
    assert_eq!(parse_datetime(b"DTSTART"), None); // no colon, no value
}

#[test]
fn leap_day_resolves() {
    let r = parse_datetime(b"DTSTART;VALUE=DATE:20240229");
    assert_eq!(r, Some(1709164800)); // 2024-02-29T00:00:00Z
    assert_eq!(parse_datetime(b"DTSTART;VALUE=DATE:20230229"), None);
}

#[test]
fn epoch_conversion_known_instants() {
    assert_eq!(epoch_secs_utc(1970, 1, 1, 0, 0, 0), 0);
    assert_eq!(epoch_secs_utc(2024, 1, 1, 0, 0, 0), JAN1_MIDNIGHT);
    assert_eq!(epoch_secs_utc(1969, 12, 31, 23, 59, 59), -1);
    assert_eq!(epoch_secs_utc(2000, 3, 1, 0, 0, 0), 951868800);
}

#[test]
fn last_day_of_month() {
    assert_eq!(get_last_day_of_month(2024, 2), (2024, 2, 29));
    assert_eq!(get_last_day_of_month(2023, 2), (2023, 2, 28));
    assert_eq!(get_last_day_of_month(2024, 12), (2024, 12, 31));
    assert_eq!(get_last_day_of_month(2024, 4), (2024, 4, 30));
    assert_eq!(get_last_day_of_month(1900, 2), (1900, 2, 28));
    assert_eq!(get_last_day_of_month(2000, 2), (2000, 2, 29));
}
