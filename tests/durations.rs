use timebox::config::TimeFormat;
use timebox::duration::{format_duration, format_duration_with_format, parse_duration};

#[test]
fn parse_duration_hours_and_minutes() {
    assert_eq!(parse_duration("1h 30m"), Some(5400));
}

#[test]
fn parse_duration_bare_minutes() {
    assert_eq!(parse_duration("90"), Some(5400));
}

#[test]
fn parse_duration_decimal_hours() {
    assert_eq!(parse_duration("1.5h"), Some(5400));
}

#[test]
fn parse_duration_empty_is_none() {
    assert_eq!(parse_duration(""), None);
    assert_eq!(parse_duration("   "), None);
}

#[test]
fn parse_duration_letters_are_none() {
    assert_eq!(parse_duration("abc"), None);
}

#[test]
fn parse_duration_bare_small_integers_are_hours() {
    for n in 1..=8i64 {
        assert_eq!(parse_duration(&n.to_string()), Some(n * 3600));
    }
}

#[test]
fn parse_duration_bare_large_integers_are_minutes() {
    for n in [9i64, 10, 45, 90, 120, 1000] {
        assert_eq!(parse_duration(&n.to_string()), Some(n * 60));
    }
}

#[test]
fn parse_duration_zero_is_none() {
    assert_eq!(parse_duration("0"), None);
    assert_eq!(parse_duration("0h 0m"), None);
}

#[test]
fn parse_duration_units_and_case() {
    assert_eq!(parse_duration("2H"), Some(7200));
    assert_eq!(parse_duration("45m"), Some(2700));
    assert_eq!(parse_duration("30s"), Some(30));
    assert_eq!(parse_duration("1h 1m 1s"), Some(3661));
    assert_eq!(parse_duration("1.5"), Some(5400));
    assert_eq!(parse_duration("0.25h"), Some(900));
    assert_eq!(parse_duration("1.5m"), Some(90));
}

#[test]
fn parse_duration_trailing_number_after_unit_is_none() {
    assert_eq!(parse_duration("1h 30"), None);
}

#[test]
fn parse_duration_seconds_need_whole_numbers() {
    assert_eq!(parse_duration("1.5s"), None);
    assert_eq!(parse_duration("1h 1.5s"), Some(3600));
}

#[test]
fn parse_duration_too_large_is_none() {
    assert_eq!(parse_duration("99999999999999999999h"), None);
}

#[test]
fn format_hours_minutes() {
    assert_eq!(format_duration_with_format(5400, TimeFormat::HoursMinutes), "1h 30m");
    assert_eq!(format_duration(7200), "2h");
    assert_eq!(format_duration(2700), "45m");
    assert_eq!(format_duration(59), "0m");
    assert_eq!(format_duration(-100), "0m");
}

#[test]
fn format_decimal_hours() {
    assert_eq!(format_duration_with_format(5400, TimeFormat::Decimal), "1.5h");
    assert_eq!(format_duration_with_format(7200, TimeFormat::Decimal), "2h");
    assert_eq!(format_duration_with_format(900, TimeFormat::Decimal), "0.25h");
    assert_eq!(format_duration_with_format(3599, TimeFormat::Decimal), "1h");
    assert_eq!(format_duration_with_format(0, TimeFormat::Decimal), "0h");
    assert_eq!(format_duration_with_format(1200, TimeFormat::Decimal), "0.33h");
}

#[test]
fn format_zero_hours_minutes() {
    assert_eq!(format_duration_with_format(0, TimeFormat::HoursMinutes), "0m");
}
