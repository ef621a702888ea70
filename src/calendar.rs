//! Calendar dates as day numbers, and the wire timestamps built from them.

use crate::clock::{before, index_of_exec, parse_start_time, pad2, start_time_of};
use crate::text::{chars_of, extend, push_decimal, slice, string_of};
use chrono::Datelike;
use vstd::arithmetic::div_mod::lemma_mod_multiples_vanish;
use vstd::prelude::*;

verus! {

/// The first day a `Date` may hold: a Monday, day 1 being 0001-01-01.
pub const MIN_DAY: i32 = -95_000_002;

/// The last day a `Date` may hold: a Sunday.
pub const MAX_DAY: i32 = 94_999_996;

/// A day of the proleptic Gregorian calendar, numbered as chrono's
/// `num_days_from_ce` numbers it: 0001-01-01 is day 1.
#[derive(Clone, Copy, Debug, PartialEq, Eq, Structural)]
pub struct Date {
    pub day: i32,
}

impl Date {
    /// The day lies in the range a `Date` may hold.
    pub open spec fn wf(&self) -> bool {
        MIN_DAY <= self.day <= MAX_DAY
    }
}

/// The day of the week, 0 for Monday to 6 for Sunday (0001-01-01 was a
/// Monday).
pub open spec fn weekday(day: int) -> int {
    (day - 1) % 7
}

/// The Monday of the week that holds `day`.
pub open spec fn monday_of(day: int) -> int {
    day - weekday(day)
}

pub open spec fn is_weekend(day: int) -> bool {
    weekday(day) >= 5
}

/// The day of the week of a date, 0 for Monday to 6 for Sunday.
pub fn weekday_of(date: Date) -> (r: i32)
    ensures
        r == weekday(date.day as int),
        0 <= r < 7,
{
    let x = (date.day as i64 + 2_147_483_652) as u64;
    let r = x % 7;
    proof {
        lemma_mod_multiples_vanish(306_783_379, date.day - 1, 7);
    }
    r as i32
}

/// Normalizes a date to the Monday of its week.
pub fn week_start(date: Date) -> (r: Date)
    requires
        date.wf(),
    ensures
        r.day == monday_of(date.day as int),
        r.wf(),
        weekday(r.day as int) == 0,
{
    let w = weekday_of(date);
    let r = Date { day: date.day - w };
    assert(weekday(r.day as int) == 0) by {
        assert((date.day - 1 - weekday(date.day as int)) % 7 == 0) by (nonlinear_arith)
            requires
                weekday(date.day as int) == (date.day - 1) % 7,
        ;
    }
    assert(weekday(MIN_DAY as int) == 0);
    r
}

/// The ISO text ("2025-12-02") of a day.
pub uninterp spec fn iso_date_of(day: int) -> Seq<char>;

/// Relies on chrono's `NaiveDate::from_num_days_from_ce_opt`, which gives a
/// date for every day number in the range a `Date` holds, and its
/// `format("%Y-%m-%d")`.
#[verifier::external_body]
fn iso_date(day: i32) -> (r: String)
    requires
        MIN_DAY <= day <= MAX_DAY,
    ensures
        r@ == iso_date_of(day as int),
{
    chrono::NaiveDate::from_num_days_from_ce_opt(day).unwrap().format("%Y-%m-%d").to_string()
}

/// The ISO text of a date (see `iso_date_of`).
pub fn iso_text(date: Date) -> (r: String)
    requires
        date.wf(),
    ensures
        r@ == iso_date_of(date.day as int),
{
    iso_date(date.day)
}

/// The day number of a year, month and day, where they name a date.
pub uninterp spec fn ymd_day_of(year: int, month: int, day: int) -> Option<int>;

/// Relies on chrono's `NaiveDate::from_ymd_opt` and `num_days_from_ce`:
/// the day number of a calendar date, none where it is no date.
#[verifier::external_body]
fn ymd_day(year: i32, month: u32, day: u32) -> (r: Option<i32>)
    ensures
        r matches Some(d) ==> ymd_day_of(year as int, month as int, day as int) == Some(d as int),
        r is None ==> ymd_day_of(year as int, month as int, day as int) is None,
{
    match chrono::NaiveDate::from_ymd_opt(year, month, day) {
        Some(d) => Some(d.num_days_from_ce()),
        None => None,
    }
}

/// The ISO day number of a text such as "2025-12-02", where it reads as one.
pub uninterp spec fn iso_day_of(s: Seq<char>) -> Option<int>;

/// Relies on chrono's `NaiveDate::parse_from_str(s, "%Y-%m-%d")` and
/// `num_days_from_ce`.
#[verifier::external_body]
fn parse_iso_day(s: &str) -> (r: Option<i32>)
    ensures
        r matches Some(d) ==> iso_day_of(s@) == Some(d as int),
        r is None ==> iso_day_of(s@) is None,
{
    match chrono::NaiveDate::parse_from_str(s, "%Y-%m-%d") {
        Ok(d) => Some(d.num_days_from_ce()),
        Err(_) => None,
    }
}

impl Date {
    /// The date of a year, month and day; none where they name no date or
    /// one outside the range a `Date` holds.
    pub fn from_ymd(year: i32, month: u32, day: u32) -> (r: Option<Date>)
        ensures
            r matches Some(d) ==> d.wf() && ymd_day_of(year as int, month as int, day as int)
                == Some(d.day as int),
            r is None ==> match ymd_day_of(year as int, month as int, day as int) {
                Some(n) => !(MIN_DAY <= n <= MAX_DAY),
                None => true,
            },
    {
        match ymd_day(year, month, day) {
            Some(n) => if MIN_DAY <= n && n <= MAX_DAY {
                Some(Date { day: n })
            } else {
                None
            },
            None => None,
        }
    }
}

/// The date of a wire timestamp: the part before the `T` read as an ISO
/// date, or `today` where it does not read as one in range.
pub open spec fn date_of_stamp(started: Seq<char>, today: Date) -> Date {
    match iso_day_of(before(started, 'T')) {
        Some(d) => if MIN_DAY <= d <= MAX_DAY {
            Date { day: d as i32 }
        } else {
            today
        },
        None => today,
    }
}

/// Parses the date of a wire timestamp such as "2025-12-02T09:00:00.000+0000"
/// (see `date_of_stamp`); `today` is what the caller falls back on.
pub fn parse_date(started: &str, today: Date) -> (r: Date)
    ensures
        r == date_of_stamp(started@, today),
{
    let s = chars_of(started);
    let k = index_of_exec(&s, 'T');
    let part = string_of(&slice(&s, 0, k));
    match parse_iso_day(part.as_str()) {
        Some(d) => if MIN_DAY <= d && d <= MAX_DAY {
            Date { day: d }
        } else {
            today
        },
        None => today,
    }
}

/// The UTC offset "+HHMM" or "-HHMM" of an offset in seconds.
pub open spec fn offset_text(offset: int) -> Seq<char> {
    let a = if offset < 0 {
        -offset
    } else {
        offset
    };
    (if offset >= 0 {
        seq!['+']
    } else {
        seq!['-']
    }) + pad2((a / 3600) as nat) + pad2(((a % 3600) / 60) as nat)
}

/// The wire timestamp of a date, a start time and a UTC offset: the start
/// time as `start_time_of` reads it, 09:00:00 where it is absent or does not
/// read.
pub open spec fn timestamp_of(date: Date, start: Option<Seq<char>>, offset: int) -> Seq<char> {
    let time = match start {
        Some(s) => match start_time_of(s) {
            Some(t) => t,
            None => seq!['0', '9', ':', '0', '0', ':', '0', '0'],
        },
        None => seq!['0', '9', ':', '0', '0', ':', '0', '0'],
    };
    iso_date_of(date.day as int) + seq!['T'] + time + seq!['.', '0', '0', '0'] + offset_text(offset)
}

fn push_pad2_exec(out: &mut Vec<char>, n: u64)
    ensures
        final(out)@ == old(out)@ + pad2(n as nat),
{
    if n < 10 {
        out.push('0');
    }
    push_decimal(out, n);
    assert(out@ =~= old(out)@ + pad2(n as nat));
}

/// Builds the wire timestamp "2025-12-02T09:00:00.000-0800" of a date, an
/// optional typed start time and the local UTC offset in seconds (see
/// `timestamp_of`).
pub fn build_jira_timestamp(date: Date, start_time: Option<&str>, utc_offset: i32) -> (r: String)
    requires
        date.wf(),
    ensures
        r@ == timestamp_of(
            date,
            match start_time {
                Some(s) => Some(s@),
                None => None,
            },
            utc_offset as int,
        ),
{
    let parsed = match start_time {
        Some(s) => parse_start_time(s),
        None => None,
    };
    let time: Vec<char> = match parsed {
        Some(t) => chars_of(t.as_str()),
        None => vec!['0', '9', ':', '0', '0', ':', '0', '0'],
    };
    let d = iso_date(date.day);
    let mut out = chars_of(d.as_str());
    out.push('T');
    extend(&mut out, &time);
    out.push('.');
    out.push('0');
    out.push('0');
    out.push('0');
    let a: u64 = if utc_offset < 0 {
        (0i64 - utc_offset as i64) as u64
    } else {
        utc_offset as u64
    };
    if utc_offset >= 0 {
        out.push('+');
    } else {
        out.push('-');
    }
    push_pad2_exec(&mut out, a / 3600);
    push_pad2_exec(&mut out, (a % 3600) / 60);
    assert(out@ =~= timestamp_of(
        date,
        match start_time {
            Some(s) => Some(s@),
            None => None,
        },
        utc_offset as int,
    ));
    string_of(&out)
}

} // verus!

