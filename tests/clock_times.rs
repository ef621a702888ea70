use timebox::calendar::{build_jira_timestamp, parse_date, Date};
use timebox::clock::{clock_text, format_clock_time, normalize_timezone_offset, parse_start_time, raw_clock_time};
use timebox::clock::extract_time;
use timebox::config::{base_url, is_configured, ClockFormat};

#[test]
fn start_time_morning() {
    assert_eq!(parse_start_time("9am"), Some("09:00:00".to_string()));
}

#[test]
fn start_time_afternoon_with_minutes() {
    assert_eq!(parse_start_time("2:30pm"), Some("14:30:00".to_string()));
}

#[test]
fn start_time_hour_out_of_range() {
    assert_eq!(parse_start_time("25:00"), None);
}

#[test]
fn start_time_other_forms() {
    assert_eq!(parse_start_time("14:30"), Some("14:30:00".to_string()));
    assert_eq!(parse_start_time("12am"), Some("00:00:00".to_string()));
    assert_eq!(parse_start_time("12pm"), Some("12:00:00".to_string()));
    assert_eq!(parse_start_time(" 9:05 AM "), Some("09:05:00".to_string()));
    assert_eq!(parse_start_time("3p"), Some("15:00:00".to_string()));
    assert_eq!(parse_start_time("10:60"), None);
    assert_eq!(parse_start_time(""), None);
    assert_eq!(parse_start_time("noon"), None);
}

#[test]
fn timezone_offset_gets_a_colon() {
    assert_eq!(
        normalize_timezone_offset("2025-12-02T09:00:00.000+0800"),
        "2025-12-02T09:00:00.000+08:00"
    );
    assert_eq!(normalize_timezone_offset("2025-12-02T09:00:00.000+08:00"), "2025-12-02T09:00:00.000+08:00");
}

#[test]
fn raw_clock_fallback() {
    assert_eq!(raw_clock_time("2025-12-02T09:15:00.000+0000"), "09:15");
    assert_eq!(raw_clock_time("garbage"), "99:99");
    assert_eq!(raw_clock_time("2025-12-02T0915"), "99:99");
}

#[test]
fn clock_text_uses_local_time_when_given() {
    assert_eq!(clock_text(Some((7, 5)), "2025-12-02T09:15:00.000+0000"), "07:05");
    assert_eq!(clock_text(None, "2025-12-02T09:15:00.000+0000"), "09:15");
}

#[test]
fn twelve_hour_display() {
    assert_eq!(format_clock_time("14:30", ClockFormat::Hour12), "2:30pm");
    assert_eq!(format_clock_time("00:05", ClockFormat::Hour12), "12:05am");
    assert_eq!(format_clock_time("12:00", ClockFormat::Hour12), "12:00pm");
    assert_eq!(format_clock_time("14:30", ClockFormat::Hour24), "14:30");
    assert_eq!(format_clock_time("bad", ClockFormat::Hour12), "bad");
}

#[test]
fn timestamp_with_offset() {
    let d = Date::from_ymd(2025, 12, 2).unwrap();
    assert_eq!(build_jira_timestamp(d, None, -8 * 3600), "2025-12-02T09:00:00.000-0800");
    assert_eq!(build_jira_timestamp(d, Some("2:30pm"), 5 * 3600 + 1800), "2025-12-02T14:30:00.000+0530");
    assert_eq!(build_jira_timestamp(d, Some("nonsense"), 0), "2025-12-02T09:00:00.000+0000");
}

#[test]
fn date_of_wire_timestamp() {
    let today = Date::from_ymd(2020, 1, 1).unwrap();
    let d = parse_date("2025-12-02T09:00:00.000+0000", today);
    assert_eq!(d, Date::from_ymd(2025, 12, 2).unwrap());
    assert_eq!(parse_date("not a date", today), today);
}

#[test]
fn extract_time_reads_wire_timestamps() {
    let t = extract_time("2025-12-02T09:00:00.000+0000");
    assert_eq!(t.len(), 5);
    assert_eq!(&t[2..3], ":");
    assert!(t[0..2].parse::<u32>().unwrap() < 24);
    assert_eq!(extract_time("no time here"), "99:99");
    assert_eq!(extract_time("2025-12-02Tbad:30"), "bad:30");
}

#[test]
fn api_root_of_typed_domains() {
    assert_eq!(base_url("acme.atlassian.net"), "https://acme.atlassian.net/rest/api/3");
    assert_eq!(base_url("  https://acme.atlassian.net/ "), "https://acme.atlassian.net/rest/api/3");
    assert_eq!(base_url("http://acme.atlassian.net/jira/software//"), "https://acme.atlassian.net/rest/api/3");
    assert!(is_configured("acme.atlassian.net", "me@example.com", Some("token")));
    assert!(!is_configured("acme.atlassian.net", "", Some("token")));
    assert!(!is_configured("acme.atlassian.net", "me@example.com", None));
}
