//! Durations typed by people ("1h 30m", "1.5h", "90", "4") and their
//! display forms.

use crate::config::TimeFormat;
use crate::numbers::{
    I64_MAX, all_digits, digits_value, digits_value_exec, dot_pos, int_digits, is_number, is_number_exec,
    number_seconds, number_seconds_exec,
};
use crate::text::{
    chars_of, decimal, digit_char, digit_of, is_digit, is_space, is_space_char, push_decimal,
    string_of,
};
use vstd::prelude::*;

verus! {

/// The state of a left-to-right reading of a duration.
pub struct Scan {
    /// Seconds of the units read so far.
    pub total: int,
    /// Digits and dots since the last unit.
    pub buf: Seq<char>,
    /// Whether some unit was applied to a number.
    pub has_unit: bool,
    /// Whether a character that has no place in a duration was met.
    pub failed: bool,
}

/// A count of seconds: digits only, at most `i64::MAX`.
pub open spec fn is_count(s: Seq<char>) -> bool {
    s.len() > 0 && all_digits(s) && digits_value(s) <= I64_MAX
}

pub open spec fn is_hour_unit(c: char) -> bool {
    c == 'h' || c == 'H'
}

pub open spec fn is_minute_unit(c: char) -> bool {
    c == 'm' || c == 'M'
}

pub open spec fn is_second_unit(c: char) -> bool {
    c == 's' || c == 'S'
}

/// Reading one more character. A unit letter takes the number before it
/// (a number that is not well formed is dropped); white space is passed
/// over; any other character fails the whole duration.
pub open spec fn scan_step(st: Scan, c: char) -> Scan {
    if st.failed {
        st
    } else if is_digit(c) || c == '.' {
        Scan { total: st.total, buf: st.buf.push(c), has_unit: st.has_unit, failed: false }
    } else if is_hour_unit(c) || is_minute_unit(c) {
        let unit: nat = if is_hour_unit(c) {
            3600
        } else {
            60
        };
        if is_number(st.buf) {
            Scan {
                total: st.total + number_seconds(st.buf, unit),
                buf: seq![],
                has_unit: true,
                failed: false,
            }
        } else {
            Scan { total: st.total, buf: seq![], has_unit: st.has_unit, failed: false }
        }
    } else if is_second_unit(c) {
        if is_count(st.buf) {
            Scan {
                total: st.total + digits_value(st.buf),
                buf: seq![],
                has_unit: true,
                failed: false,
            }
        } else {
            Scan { total: st.total, buf: seq![], has_unit: st.has_unit, failed: false }
        }
    } else if is_space(c) {
        st
    } else {
        Scan { total: st.total, buf: st.buf, has_unit: st.has_unit, failed: true }
    }
}

pub open spec fn scan(s: Seq<char>) -> Scan
    decreases s.len(),
{
    if s.len() == 0 {
        Scan { total: 0, buf: seq![], has_unit: false, failed: false }
    } else {
        scan_step(scan(s.drop_last()), s.last())
    }
}

/// The seconds a trailing number without a unit stands for: hours when it
/// has a `.`, hours for a whole number from 1 to 8, minutes otherwise.
pub open spec fn bare_seconds(buf: Seq<char>) -> int {
    if dot_pos(buf) < buf.len() {
        number_seconds(buf, 3600)
    } else {
        let v = digits_value(buf);
        if 1 <= v && v <= 8 {
            (v * 3600) as int
        } else {
            (v * 60) as int
        }
    }
}

/// The duration in seconds that a text gives, if it gives one: a total
/// that is positive and fits in `i64`. A trailing number without a unit
/// counts only where no unit came before it.
pub open spec fn duration_of(s: Seq<char>) -> Option<int> {
    let st = scan(s);
    if st.failed {
        None
    } else if is_number(st.buf) && st.has_unit {
        None
    } else {
        let t = if is_number(st.buf) {
            bare_seconds(st.buf)
        } else {
            st.total
        };
        if 0 < t && t <= I64_MAX {
            Some(t)
        } else {
            None
        }
    }
}

proof fn lemma_scan_total_nonneg(s: Seq<char>)
    ensures
        scan(s).total >= 0,
    decreases s.len(),
{
    if s.len() > 0 {
        lemma_scan_total_nonneg(s.drop_last());
        crate::numbers::lemma_number_seconds_nonneg(scan(s.drop_last()).buf, 3600);
        crate::numbers::lemma_number_seconds_nonneg(scan(s.drop_last()).buf, 60);
    }
}

proof fn lemma_failed_stays(s: Seq<char>, i: int)
    requires
        0 <= i <= s.len(),
        scan(s.subrange(0, i)).failed,
    ensures
        scan(s).failed,
    decreases s.len() - i,
{
    if i < s.len() {
        assert(s.subrange(0, i + 1).drop_last() =~= s.subrange(0, i));
        lemma_failed_stays(s, i + 1);
    } else {
        assert(s.subrange(0, i) =~= s);
    }
}

/// Adds `x` seconds to a running total that is exact unless `over`.
fn add_seconds(total: &mut u64, over: &mut bool, x: u64)
    requires
        *old(total) <= I64_MAX,
        x <= I64_MAX,
    ensures
        !*final(over) ==> !*old(over) && *final(total) == *old(total) + x,
        *final(over) ==> *old(over) || *old(total) + x > I64_MAX,
        *final(total) <= I64_MAX,
{
    if !*over {
        if *total + x > I64_MAX {
            *over = true;
        } else {
            *total = *total + x;
        }
    }
}

/// Parses a duration such as "1h 30m", "2h", "45m", "1.5h", "90" or "4"
/// into seconds (see `duration_of`). Letters are read without regard to
/// case.
pub fn parse_duration(input: &str) -> (r: Option<i64>)
    ensures
        r matches Some(v) ==> duration_of(input@) == Some(v as int),
        r is None ==> duration_of(input@) is None,
{
    let cs = chars_of(input);
    let ghost s = cs@;
    let mut buf: Vec<char> = Vec::new();
    let mut total: u64 = 0;
    let mut over = false;
    let mut has_unit = false;
    let mut i: usize = 0;
    assert(s.subrange(0, 0) =~= Seq::<char>::empty());
    while i < cs.len()
        invariant
            i <= s.len(),
            s == cs@,
            s == input@,
            !scan(s.subrange(0, i as int)).failed,
            buf@ == scan(s.subrange(0, i as int)).buf,
            has_unit == scan(s.subrange(0, i as int)).has_unit,
            total <= I64_MAX,
            over ==> scan(s.subrange(0, i as int)).total > I64_MAX,
            !over ==> total == scan(s.subrange(0, i as int)).total,
        decreases s.len() - i,
    {
        let c = cs[i];
        let ghost st = scan(s.subrange(0, i as int));
        assert(s.subrange(0, i + 1).drop_last() =~= s.subrange(0, i as int));
        assert(s.subrange(0, i + 1).last() == c);
        proof {
            lemma_scan_total_nonneg(s.subrange(0, i as int));
        }
        if ('0' <= c && c <= '9') || c == '.' {
            buf.push(c);
        } else if c == 'h' || c == 'H' || c == 'm' || c == 'M' {
            let unit: u64 = if c == 'h' || c == 'H' {
                3600
            } else {
                60
            };
            if is_number_exec(&buf) {
                match number_seconds_exec(&buf, unit) {
                    Some(x) => add_seconds(&mut total, &mut over, x),
                    None => {
                        over = true;
                    },
                }
                has_unit = true;
            }
            buf = Vec::new();
        } else if c == 's' || c == 'S' {
            let digits_only = buf.len() > 0 && is_number_exec(&buf) && dot_free(&buf);
            if digits_only {
                match digits_value_exec(&buf, 0, buf.len()) {
                    Some(x) => {
                        assert(buf@.subrange(0, buf@.len() as int) =~= buf@);
                        add_seconds(&mut total, &mut over, x);
                        has_unit = true;
                    },
                    None => {
                        assert(buf@.subrange(0, buf@.len() as int) =~= buf@);
                    },
                }
            } else {
                proof {
                    if is_count(buf@) {
                        lemma_count_is_number(buf@);
                    }
                }
            }
            buf = Vec::new();
        } else if is_space_char(c) {
        } else {
            proof {
                lemma_failed_stays(s, i + 1);
            }
            return None;
        }
        i = i + 1;
    }
    assert(s.subrange(0, i as int) =~= s);
    let number = is_number_exec(&buf);
    if number && has_unit {
        return None;
    }
    let t: u64 = if number {
        let p = crate::numbers::dot_pos_exec(&buf);
        if p < buf.len() {
            match number_seconds_exec(&buf, 3600) {
                Some(x) => x,
                None => {
                    return None;
                },
            }
        } else {
            proof {
                lemma_dot_free_digits(buf@);
            }
            match digits_value_exec(&buf, 0, buf.len()) {
                Some(v) => {
                    assert(buf@.subrange(0, buf@.len() as int) =~= buf@);
                    if 1 <= v && v <= 8 {
                        v * 3600
                    } else if v > I64_MAX / 60 {
                        return None;
                    } else {
                        v * 60
                    }
                },
                None => {
                    assert(buf@.subrange(0, buf@.len() as int) =~= buf@);
                    return None;
                },
            }
        }
    } else {
        if over {
            return None;
        }
        total
    };
    if t > 0 {
        Some(t as i64)
    } else {
        None
    }
}

/// A number without a `.` is its digits.
proof fn lemma_dot_free_digits(buf: Seq<char>)
    requires
        is_number(buf),
        dot_pos(buf) >= buf.len(),
    ensures
        all_digits(buf.subrange(0, buf.len() as int)),
{
    crate::numbers::lemma_find_bounds(buf);
    assert(buf.subrange(0, dot_pos(buf) as int) =~= buf.subrange(0, buf.len() as int));
}

/// A count of seconds is a number without a `.`.
proof fn lemma_count_is_number(buf: Seq<char>)
    requires
        is_count(buf),
    ensures
        is_number(buf),
        dot_pos(buf) == buf.len(),
{
    lemma_no_dot(buf, 0);
    assert(buf.subrange(0, buf.len() as int) =~= buf);
}

proof fn lemma_no_dot(buf: Seq<char>, i: nat)
    requires
        all_digits(buf),
        i <= buf.len(),
    ensures
        crate::spans::find_from(buf, seq!['.'], i) is None,
    decreases buf.len() - i,
{
    if i < buf.len() {
        assert(is_digit(buf[i as int]));
        assert(buf.subrange(i as int, (i + 1) as int)[0] == buf[i as int]);
        lemma_no_dot(buf, i + 1);
    }
}

/// Whether the number `buf` has no `.`.
fn dot_free(buf: &Vec<char>) -> (r: bool)
    requires
        is_number(buf@),
    ensures
        r == (dot_pos(buf@) >= buf@.len()),
        r ==> all_digits(buf@.subrange(0, buf@.len() as int)),
{
    let p = crate::numbers::dot_pos_exec(buf);
    if p >= buf.len() {
        proof {
            lemma_dot_free_digits(buf@);
        }
        true
    } else {
        false
    }
}


/// `seconds` as hours and minutes ("1h 30m", "2h", "45m"); "0m" when both
/// are zero, negative durations included.
pub open spec fn hm_text(seconds: int) -> Seq<char> {
    let h = if seconds > 0 {
        seconds / 3600
    } else {
        0
    };
    let m = if seconds > 0 {
        (seconds % 3600) / 60
    } else {
        0
    };
    if h > 0 && m > 0 {
        decimal(h as nat) + seq!['h', ' '] + decimal(m as nat) + seq!['m']
    } else if h > 0 {
        decimal(h as nat) + seq!['h']
    } else if m > 0 {
        decimal(m as nat) + seq!['m']
    } else {
        seq!['0', 'm']
    }
}

/// `seconds` as decimal hours: whole hours as they are ("2h"), else
/// rounded to the nearest hundredth, halves away from zero, without
/// trailing zeros ("1.5h", "0.25h"); "0h" for zero.
pub open spec fn decimal_hours_text(seconds: int) -> Seq<char> {
    let a = if seconds < 0 {
        -seconds
    } else {
        seconds
    };
    let sign = if seconds < 0 {
        seq!['-']
    } else {
        seq![]
    };
    if seconds == 0 {
        seq!['0', 'h']
    } else if a % 3600 == 0 {
        sign + decimal((a / 3600) as nat) + seq!['h']
    } else {
        let q = (a + 18) / 36;
        let w = q / 100;
        let f = q % 100;
        sign + decimal(w as nat) + (if f == 0 {
            seq![]
        } else if f % 10 == 0 {
            seq!['.', digit_char(f / 10)]
        } else {
            seq!['.', digit_char(f / 10), digit_char(f % 10)]
        }) + seq!['h']
    }
}

/// Formats seconds as "Xh Ym" (see `hm_text`).
pub fn format_duration(seconds: i64) -> (r: String)
    ensures
        r@ == hm_text(seconds as int),
{
    let mut out: Vec<char> = Vec::new();
    let (h, m): (u64, u64) = if seconds > 0 {
        let s = seconds as u64;
        (s / 3600, (s % 3600) / 60)
    } else {
        (0, 0)
    };
    if h > 0 {
        push_decimal(&mut out, h);
        out.push('h');
        if m > 0 {
            out.push(' ');
            push_decimal(&mut out, m);
            out.push('m');
        }
    } else if m > 0 {
        push_decimal(&mut out, m);
        out.push('m');
    } else {
        out.push('0');
        out.push('m');
    }
    assert(out@ =~= hm_text(seconds as int));
    string_of(&out)
}

/// Formats seconds in the given display form (see `hm_text` and
/// `decimal_hours_text`).
pub fn format_duration_with_format(seconds: i64, time_format: TimeFormat) -> (r: String)
    ensures
        time_format == TimeFormat::HoursMinutes ==> r@ == hm_text(seconds as int),
        time_format == TimeFormat::Decimal ==> r@ == decimal_hours_text(seconds as int),
{
    match time_format {
        TimeFormat::HoursMinutes => format_duration(seconds),
        TimeFormat::Decimal => {
            let mut out: Vec<char> = Vec::new();
            if seconds == 0 {
                out.push('0');
                out.push('h');
                assert(out@ =~= decimal_hours_text(seconds as int));
                return string_of(&out);
            }
            let a: u64 = if seconds < 0 {
                (0i128 - seconds as i128) as u64
            } else {
                seconds as u64
            };
            if seconds < 0 {
                out.push('-');
            }
            if a % 3600 == 0 {
                push_decimal(&mut out, a / 3600);
            } else {
                let q = (a / 36) + if a % 36 >= 18 {
                    1
                } else {
                    0
                };
                assert(q == (a + 18) / 36);
                let w = q / 100;
                let f = q % 100;
                push_decimal(&mut out, w);
                if f != 0 {
                    out.push('.');
                    out.push(digit_of(f / 10));
                    if f % 10 != 0 {
                        out.push(digit_of(f % 10));
                    }
                }
            }
            out.push('h');
            assert(out@ =~= decimal_hours_text(seconds as int));
            string_of(&out)
        },
    }
}


/// The decimal digits of a number read back as that number.
proof fn lemma_decimal_value(n: nat)
    ensures
        decimal(n).len() > 0,
        all_digits(decimal(n)),
        digits_value(decimal(n)) == n,
    decreases n,
{
    crate::text::lemma_digit_char((n % 10) as int);
    if n >= 10 {
        lemma_decimal_value(n / 10);
        let s = decimal(n / 10);
        let c = digit_char((n % 10) as int);
        assert(s.push(c).drop_last() =~= s);
        assert(forall|k: int| 0 <= k < s.len() ==> s.push(c)[k] == s[k]);
    } else {
        assert(decimal(n).drop_last() =~= Seq::<char>::empty());
        assert(digits_value(Seq::<char>::empty()) == 0);
    }
}

/// Reading digits alone only collects them.
proof fn lemma_scan_digits(s: Seq<char>)
    requires
        all_digits(s),
    ensures
        scan(s) == (Scan { total: 0, buf: s, has_unit: false, failed: false }),
    decreases s.len(),
{
    if s.len() > 0 {
        assert(all_digits(s.drop_last())) by {
            assert forall|k: int| 0 <= k < s.drop_last().len() implies #[trigger] is_digit(
                s.drop_last()[k],
            ) by {
                assert(s.drop_last()[k] == s[k]);
            }
        }
        lemma_scan_digits(s.drop_last());
        assert(is_digit(s[s.len() - 1]));
        assert(s.drop_last().push(s.last()) =~= s);
    } else {
        assert(s =~= Seq::<char>::empty());
    }
}

/// A whole number written alone is hours from 1 to 8 and minutes from 9
/// on: "4" is 4 × 3600 seconds, "90" is 90 × 60 seconds.
pub proof fn lemma_bare_whole_number(n: nat)
    requires
        n >= 1,
        n * 60 <= I64_MAX,
    ensures
        n <= 8 ==> duration_of(decimal(n)) == Some((n * 3600) as int),
        n >= 9 ==> duration_of(decimal(n)) == Some((n * 60) as int),
{
    let s = decimal(n);
    lemma_decimal_value(n);
    lemma_scan_digits(s);
    lemma_no_dot(s, 0);
    assert(s.subrange(0, s.len() as int) =~= s);
    assert(int_digits(s) == s);
    assert(is_number(s));
}

} // verus!
