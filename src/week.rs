//! Time entries and the weekly index over them: per-day queries and
//! totals, and overlap checks for the schedule.

use crate::calendar::{Date, is_weekend, monday_of, week_start, weekday, weekday_of};
use crate::clock::{after, before, index_of_exec};
use crate::numbers::{all_digits, digits_value, digits_value_exec};
use crate::text::{chars_of, is_digit, slice};
use vstd::prelude::*;

verus! {

/// One worklog as the week views show it.
#[derive(Debug)]
pub struct TimeEntry {
    pub worklog_id: String,
    pub issue_key: String,
    pub issue_summary: String,
    /// "Task", "Bug", "Story", "Epic", ...
    pub issue_type: String,
    pub seconds: i64,
    pub description: String,
    pub date: Date,
    /// "HH:MM", by which entries are ordered.
    pub start_time: String,
}

/// The entries of one week, Monday to Sunday.
#[derive(Debug)]
pub struct WeekData {
    pub week_start: Date,
    pub entries: Vec<TimeEntry>,
}

/// The entries dated `d`, in order.
pub open spec fn day_entries(es: Seq<TimeEntry>, d: Date) -> Seq<TimeEntry>
    decreases es.len(),
{
    if es.len() == 0 {
        seq![]
    } else {
        day_entries(es.drop_last(), d) + if es.last().date == d {
            seq![es.last()]
        } else {
            seq![]
        }
    }
}

/// The sum of the seconds of the entries dated `d`.
pub open spec fn day_seconds(es: Seq<TimeEntry>, d: Date) -> int
    decreases es.len(),
{
    if es.len() == 0 {
        0
    } else {
        day_seconds(es.drop_last(), d) + if es.last().date == d {
            es.last().seconds as int
        } else {
            0
        }
    }
}

/// `x` held to the range of `i64`.
pub open spec fn clamp_i64(x: int) -> int {
    if x > i64::MAX {
        i64::MAX as int
    } else if x < i64::MIN {
        i64::MIN as int
    } else {
        x
    }
}

/// The seven days of a well-formed week run Monday to Sunday: day `i` of
/// them falls on weekday `i`.
pub proof fn lemma_week_days(week: WeekData, days: Seq<Date>)
    requires
        week.wf(),
        days.len() == 7,
        forall|i: int| 0 <= i < 7 ==> #[trigger] days[i].day == week.week_start.day + i,
    ensures
        forall|i: int| 0 <= i < 7 ==> #[trigger] weekday(days[i].day as int) == i,
{
    let q = (week.week_start.day - 1) / 7;
    assert(week.week_start.day - 1 == 7 * q) by {
        vstd::arithmetic::div_mod::lemma_fundamental_div_mod(week.week_start.day - 1, 7);
    }
    assert forall|i: int| 0 <= i < 7 implies #[trigger] weekday(days[i].day as int) == i by {
        vstd::arithmetic::div_mod::lemma_mod_multiples_vanish(q, i, 7);
        assert(days[i].day - 1 == 7 * q + i);
    }
}

/// A day on which no entry falls has no seconds logged.
pub proof fn lemma_day_without_entries(es: Seq<TimeEntry>, d: Date)
    requires
        forall|i: int| 0 <= i < es.len() ==> #[trigger] es[i].date != d,
    ensures
        day_seconds(es, d) == 0,
        day_entries(es, d) == Seq::<TimeEntry>::empty(),
    decreases es.len(),
{
    if es.len() > 0 {
        assert(es[es.len() - 1].date != d);
        lemma_day_without_entries(es.drop_last(), d);
        assert(day_entries(es, d) =~= Seq::<TimeEntry>::empty());
    }
}

/// The seconds of a day are the seconds of its entries, summed.
pub proof fn lemma_day_seconds_of_entries(es: Seq<TimeEntry>, d: Date)
    ensures
        day_seconds(es, d) == entry_seconds(day_entries(es, d)),
    decreases es.len(),
{
    if es.len() > 0 {
        lemma_day_seconds_of_entries(es.drop_last(), d);
        let a = day_entries(es.drop_last(), d);
        if es.last().date == d {
            assert((a + seq![es.last()]).drop_last() =~= a);
        } else {
            assert(a + Seq::<TimeEntry>::empty() =~= a);
        }
    }
}

/// The sum of the seconds of some entries.
pub open spec fn entry_seconds(es: Seq<TimeEntry>) -> int
    decreases es.len(),
{
    if es.len() == 0 {
        0
    } else {
        entry_seconds(es.drop_last()) + es.last().seconds as int
    }
}

impl WeekData {
    /// The week is well formed: it starts on a Monday that a `Date` holds.
    pub open spec fn wf(&self) -> bool {
        self.week_start.wf() && weekday(self.week_start.day as int) == 0
    }

    /// An empty week: the one that holds `date`.
    pub fn new(date: Date) -> (r: WeekData)
        requires
            date.wf(),
        ensures
            r.wf(),
            r.week_start.day == monday_of(date.day as int),
            r.entries@.len() == 0,
    {
        WeekData { week_start: week_start(date), entries: Vec::new() }
    }

    /// The entries dated `date`, in order.
    pub fn entries_for_day(&self, date: Date) -> (r: Vec<&TimeEntry>)
        ensures
            r@.map_values(|e: &TimeEntry| *e) == day_entries(self.entries@, date),
    {
        let mut r: Vec<&TimeEntry> = Vec::new();
        let mut i: usize = 0;
        while i < self.entries.len()
            invariant
                i <= self.entries@.len(),
                r@.map_values(|e: &TimeEntry| *e) == day_entries(
                    self.entries@.subrange(0, i as int),
                    date,
                ),
            decreases self.entries@.len() - i,
        {
            let e = &self.entries[i];
            let ghost before = r@.map_values(|e: &TimeEntry| *e);
            assert(self.entries@.subrange(0, i + 1).drop_last() =~= self.entries@.subrange(
                0,
                i as int,
            ));
            if e.date == date {
                r.push(e);
                assert(r@.map_values(|e: &TimeEntry| *e) =~= before + seq![*e]);
            } else {
                assert(before =~= before + Seq::<TimeEntry>::empty());
            }
            i = i + 1;
        }
        assert(self.entries@.subrange(0, i as int) =~= self.entries@);
        r
    }

    /// The seconds logged on `date`: their sum, held to the range of `i64`.
    pub fn seconds_for_day(&self, date: Date) -> (r: i64)
        ensures
            r == clamp_i64(day_seconds(self.entries@, date)),
    {
        let mut sum: i128 = 0;
        let mut i: usize = 0;
        while i < self.entries.len()
            invariant
                i <= self.entries@.len(),
                sum == day_seconds(self.entries@.subrange(0, i as int), date),
                -(i as int) * 0x8000_0000_0000_0000 <= sum <= (i as int) * 0x8000_0000_0000_0000,
            decreases self.entries@.len() - i,
        {
            let e = &self.entries[i];
            assert(self.entries@.subrange(0, i + 1).drop_last() =~= self.entries@.subrange(
                0,
                i as int,
            ));
            assert(((i as int) + 1) * 0x8000_0000_0000_0000 <= 0x8000_0000_0000_0000_0000_0000_0000_0000)
                by (nonlinear_arith)
                requires
                    i < 0x1_0000_0000_0000_0000,
            ;
            assert(((i as int) + 1) * 0x8000_0000_0000_0000 == (i as int) * 0x8000_0000_0000_0000
                + 0x8000_0000_0000_0000) by (nonlinear_arith);
            if e.date == date {
                sum = sum + e.seconds as i128;
            }
            i = i + 1;
        }
        assert(self.entries@.subrange(0, i as int) =~= self.entries@);
        if sum > i64::MAX as i128 {
            i64::MAX
        } else if sum < i64::MIN as i128 {
            i64::MIN
        } else {
            sum as i64
        }
    }

    /// The seven days of the week, Monday to Sunday.
    pub fn all_days(&self) -> (r: Vec<Date>)
        requires
            self.week_start.day + 6 <= i32::MAX,
        ensures
            r@.len() == 7,
            forall|i: int| 0 <= i < 7 ==> #[trigger] r@[i].day == self.week_start.day + i,
    {
        let mut r: Vec<Date> = Vec::new();
        let mut i: i32 = 0;
        while i < 7
            invariant
                0 <= i <= 7,
                self.week_start.day + 6 <= i32::MAX,
                r@.len() == i,
                forall|k: int| 0 <= k < i ==> #[trigger] r@[k].day == self.week_start.day + k,
            decreases 7 - i,
        {
            r.push(Date { day: self.week_start.day + i });
            i = i + 1;
        }
        r
    }
}

/// Whether weekend days are shown: today is a Saturday or Sunday, or some
/// entry of the week falls on one.
pub open spec fn weekends_shown(week: WeekData, today: Date) -> bool {
    is_weekend(today.day as int) || exists|i: int|
        0 <= i < week.entries@.len() && is_weekend(#[trigger] week.entries@[i].date.day as int)
}

/// Whether the week view shows Saturday and Sunday (see `weekends_shown`);
/// `today` is the caller's current date.
pub fn should_show_weekends(week_data: &WeekData, today: Date) -> (r: bool)
    ensures
        r == weekends_shown(*week_data, today),
{
    if weekday_of(today) >= 5 {
        return true;
    }
    let mut i: usize = 0;
    while i < week_data.entries.len()
        invariant
            i <= week_data.entries@.len(),
            forall|k: int| 0 <= k < i ==> !is_weekend(#[trigger] week_data.entries@[k].date.day as int),
        decreases week_data.entries@.len() - i,
    {
        if weekday_of(week_data.entries[i].date) >= 5 {
            return true;
        }
        i = i + 1;
    }
    false
}

/// A number as `i32::from_str` reads it: an optional sign, then one or
/// more digits, within the range of `i32`.
pub open spec fn parse_i32(s: Seq<char>) -> Option<int> {
    let neg = s.len() > 0 && s[0] == '-';
    let d = if s.len() > 0 && (s[0] == '+' || s[0] == '-') {
        s.subrange(1, s.len() as int)
    } else {
        s
    };
    if d.len() > 0 && all_digits(d) {
        let v = if neg {
            -digits_value(d)
        } else {
            digits_value(d) as int
        };
        if i32::MIN <= v <= i32::MAX {
            Some(v)
        } else {
            None
        }
    } else {
        None
    }
}

/// Minutes since midnight of an "HH:MM" time; 0 where it does not read as
/// one or the minutes do not fit in `i32`.
pub open spec fn minutes_of(t: Seq<char>) -> int {
    match after(t, ':') {
        Some(rest) => match (parse_i32(before(t, ':')), parse_i32(before(rest, ':'))) {
            (Some(h), Some(m)) => if i32::MIN <= h * 60 + m <= i32::MAX {
                h * 60 + m
            } else {
                0
            },
            _ => 0,
        },
        None => 0,
    }
}

fn parse_i32_exec(s: &Vec<char>) -> (r: Option<i32>)
    ensures
        r matches Some(v) ==> parse_i32(s@) == Some(v as int),
        r is None ==> parse_i32(s@) is None,
{
    let neg = s.len() > 0 && s[0] == '-';
    let lo: usize = if s.len() > 0 && (s[0] == '+' || s[0] == '-') {
        1
    } else {
        0
    };
    let ghost d = s@.subrange(lo as int, s@.len() as int);
    assert(lo == 0 ==> d =~= s@);
    let ghost sd = if s@.len() > 0 && (s@[0] == '+' || s@[0] == '-') {
        s@.subrange(1, s@.len() as int)
    } else {
        s@
    };
    assert(d == sd);
    if lo == s.len() {
        assert(d.len() == 0);
        return None;
    }
    let mut k = lo;
    while k < s.len()
        invariant
            lo <= k <= s@.len(),
            d == s@.subrange(lo as int, s@.len() as int),
            d == sd,
            sd == (if s@.len() > 0 && (s@[0] == '+' || s@[0] == '-') {
                s@.subrange(1, s@.len() as int)
            } else {
                s@
            }),
            forall|j: int| lo <= j < k ==> is_digit(#[trigger] s@[j]),
        decreases s@.len() - k,
    {
        if !('0' <= s[k] && s[k] <= '9') {
            assert(!is_digit(d[k - lo]));
            assert(!all_digits(d));
            return None;
        }
        k = k + 1;
    }
    assert(all_digits(d)) by {
        assert forall|j: int| 0 <= j < d.len() implies #[trigger] is_digit(d[j]) by {
            assert(d[j] == s@[lo + j]);
        }
    }
    match digits_value_exec(s, lo, s.len()) {
        Some(v) => {
            if neg {
                if v <= 0x8000_0000 {
                    Some((0i64 - v as i64) as i32)
                } else {
                    None
                }
            } else if v <= 0x7fff_ffff {
                Some(v as i32)
            } else {
                None
            }
        },
        None => None,
    }
}

/// Parses "HH:MM" to minutes since midnight (see `minutes_of`).
pub fn parse_time_to_minutes(time: &str) -> (r: i32)
    ensures
        r as int == minutes_of(time@),
{
    let t = chars_of(time);
    let c = index_of_exec(&t, ':');
    if c < t.len() {
        let hour_text = slice(&t, 0, c);
        let rest = slice(&t, c + 1, t.len());
        let c2 = index_of_exec(&rest, ':');
        let minute_text = slice(&rest, 0, c2);
        match (parse_i32_exec(&hour_text), parse_i32_exec(&minute_text)) {
            (Some(h), Some(m)) => {
                let v = h as i64 * 60 + m as i64;
                if i32::MIN as i64 <= v && v <= i32::MAX as i64 {
                    v as i32
                } else {
                    0
                }
            },
            _ => 0,
        }
    } else {
        0
    }
}

/// Whole minutes of a number of seconds, truncated toward zero.
pub open spec fn whole_minutes(seconds: int) -> int {
    if seconds >= 0 {
        seconds / 60
    } else {
        -((-seconds) / 60)
    }
}

/// A slot of `duration` minutes from `start` overlaps an entry.
pub open spec fn overlaps(e: TimeEntry, start: int, duration: int) -> bool {
    let es = minutes_of(e.start_time@);
    start < es + whole_minutes(e.seconds as int) && start + duration > es
}

/// Whether a slot of `duration_mins` minutes from `start_time` overlaps any
/// of the entries.
pub fn check_time_overlap(entries: &Vec<TimeEntry>, start_time: &str, duration_mins: i32) -> (r:
    bool)
    ensures
        r == exists|i: int|
            0 <= i < entries@.len() && overlaps(
                #[trigger] entries@[i],
                minutes_of(start_time@),
                duration_mins as int,
            ),
{
    let new_start = parse_time_to_minutes(start_time) as i64;
    let new_end = new_start + duration_mins as i64;
    let mut i: usize = 0;
    while i < entries.len()
        invariant
            i <= entries@.len(),
            new_start == minutes_of(start_time@),
            new_end == new_start + duration_mins,
            forall|k: int|
                0 <= k < i ==> !overlaps(
                    #[trigger] entries@[k],
                    minutes_of(start_time@),
                    duration_mins as int,
                ),
        decreases entries@.len() - i,
    {
        let e = &entries[i];
        let es = parse_time_to_minutes(e.start_time.as_str()) as i64;
        let mins: i64 = if e.seconds >= 0 {
            e.seconds / 60
        } else {
            0 - ((0 - (e.seconds as i128)) / 60) as i64
        };
        if new_start < es + mins && new_end > es {
            assert(overlaps(entries@[i as int], minutes_of(start_time@), duration_mins as int));
            return true;
        }
        i = i + 1;
    }
    false
}

} // verus!
