use timebox::calendar::{week_start, weekday_of, Date};
use timebox::week::{check_time_overlap, parse_time_to_minutes, should_show_weekends, TimeEntry, WeekData};

fn entry(date: Date, seconds: i64, start: &str) -> TimeEntry {
    TimeEntry {
        worklog_id: "1".to_string(),
        issue_key: "ABC-1".to_string(),
        issue_summary: "Work".to_string(),
        issue_type: "Task".to_string(),
        seconds,
        description: String::new(),
        date,
        start_time: start.to_string(),
    }
}

#[test]
fn week_start_is_monday() {
    // 2025-12-04 is a Thursday; its week starts on Monday 2025-12-01.
    let thu = Date::from_ymd(2025, 12, 4).unwrap();
    let mon = Date::from_ymd(2025, 12, 1).unwrap();
    assert_eq!(week_start(thu), mon);
    assert_eq!(weekday_of(mon), 0);
    let sun = Date::from_ymd(2025, 12, 7).unwrap();
    assert_eq!(week_start(sun), mon);
    assert_eq!(week_start(mon), mon);
}

#[test]
fn all_days_are_seven_consecutive() {
    let w = WeekData::new(Date::from_ymd(2025, 12, 4).unwrap());
    let days = w.all_days();
    assert_eq!(days.len(), 7);
    assert_eq!(days[0], Date::from_ymd(2025, 12, 1).unwrap());
    assert_eq!(days[6], Date::from_ymd(2025, 12, 7).unwrap());
    for i in 1..7 {
        assert_eq!(days[i].day, days[i - 1].day + 1);
    }
}

#[test]
fn seconds_for_day_sums_matching_entries() {
    let mon = Date::from_ymd(2025, 12, 1).unwrap();
    let tue = Date::from_ymd(2025, 12, 2).unwrap();
    let wed = Date::from_ymd(2025, 12, 3).unwrap();
    let mut w = WeekData::new(mon);
    w.entries.push(entry(mon, 3600, "09:00"));
    w.entries.push(entry(tue, 1800, "09:00"));
    w.entries.push(entry(mon, 900, "11:00"));
    assert_eq!(w.seconds_for_day(mon), 4500);
    assert_eq!(w.seconds_for_day(tue), 1800);
    assert_eq!(w.seconds_for_day(wed), 0);
    assert_eq!(w.entries_for_day(mon).len(), 2);
    assert_eq!(w.entries_for_day(wed).len(), 0);
}

#[test]
fn weekends_shown_for_weekend_entries() {
    let mon = Date::from_ymd(2025, 12, 1).unwrap();
    let sat = Date::from_ymd(2025, 12, 6).unwrap();
    let mut w = WeekData::new(mon);
    assert!(!should_show_weekends(&w, mon));
    assert!(should_show_weekends(&w, sat));
    w.entries.push(entry(sat, 60, "10:00"));
    assert!(should_show_weekends(&w, mon));
}

#[test]
fn minutes_and_overlap() {
    assert_eq!(parse_time_to_minutes("09:30"), 570);
    assert_eq!(parse_time_to_minutes("bad"), 0);
    let mon = Date::from_ymd(2025, 12, 1).unwrap();
    let entries = vec![entry(mon, 3600, "09:00")];
    assert!(check_time_overlap(&entries, "09:30", 30));
    assert!(!check_time_overlap(&entries, "10:00", 30));
    assert!(!check_time_overlap(&entries, "08:00", 60));
    assert!(check_time_overlap(&entries, "08:00", 61));
}
