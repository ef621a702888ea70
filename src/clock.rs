//! Clock times: start times typed by people ("9am", "2:30pm", "14:30"),
//! the tracker's wire timestamps, and their display.

use crate::config::ClockFormat;
use crate::numbers::{all_digits, digits_value, digits_value_exec};
use crate::spans::{find_from, find_from_exec, lemma_find_from_bounds};
use crate::text::{
    chars_of, decimal, extend, is_digit, push_decimal, push_two_digits, slice,
    string_of, trim, trimmed, two_digits,
};
use chrono::Timelike;
use vstd::prelude::*;

verus! {

pub open spec fn lower(c: char) -> char {
    if 'A' <= c && c <= 'Z' {
        ((c as u8) + 32) as char
    } else {
        c
    }
}

/// `s` with ASCII capitals made small.
pub open spec fn lower_all(s: Seq<char>) -> Seq<char> {
    Seq::new(s.len(), |i: int| lower(s[i]))
}

pub open spec fn ends_with(s: Seq<char>, p: Seq<char>) -> bool {
    p.len() <= s.len() && s.subrange(s.len() - p.len(), s.len() as int) == p
}

/// The index of the first `c` in `s`, or its length.
pub open spec fn index_of(s: Seq<char>, c: char) -> nat {
    match find_from(s, seq![c], 0) {
        Some(p) => p,
        None => s.len(),
    }
}

/// The text before the first `c`.
pub open spec fn before(s: Seq<char>, c: char) -> Seq<char> {
    s.subrange(0, index_of(s, c) as int)
}

/// The text after the first `c`, if `s` holds one.
pub open spec fn after(s: Seq<char>, c: char) -> Option<Seq<char>> {
    if index_of(s, c) < s.len() {
        Some(s.subrange((index_of(s, c) + 1) as int, s.len() as int))
    } else {
        None
    }
}

/// A number as `u32::from_str` reads it: an optional `+`, then one or more
/// digits, at most `u32::MAX`.
pub open spec fn parse_u32(s: Seq<char>) -> Option<nat> {
    let d = if s.len() > 0 && s[0] == '+' {
        s.subrange(1, s.len() as int)
    } else {
        s
    };
    if d.len() > 0 && all_digits(d) && digits_value(d) <= u32::MAX {
        Some(digits_value(d))
    } else {
        None
    }
}

/// The text without a trailing am/pm marker ("pm", "am", "p", "a"), and
/// whether it was an afternoon marker.
pub open spec fn split_meridiem(l: Seq<char>) -> (Seq<char>, bool) {
    let n = l.len() as int;
    if ends_with(l, seq!['p', 'm']) {
        (l.subrange(0, n - 2), true)
    } else if ends_with(l, seq!['a', 'm']) {
        (l.subrange(0, n - 2), false)
    } else if ends_with(l, seq!['p']) {
        (l.subrange(0, n - 1), true)
    } else if ends_with(l, seq!['a']) {
        (l.subrange(0, n - 1), false)
    } else {
        (l, false)
    }
}

/// The hour and minute of `H` or `H:MM`; a minute that does not read as a
/// number counts as 0.
pub open spec fn hour_minute(t: Seq<char>) -> Option<(nat, nat)> {
    match after(t, ':') {
        Some(rest) => match parse_u32(before(t, ':')) {
            Some(h) => Some(
                (
                    h,
                    match parse_u32(before(rest, ':')) {
                        Some(m) => m,
                        None => 0,
                    },
                ),
            ),
            None => None,
        },
        None => match parse_u32(t) {
            Some(h) => Some((h, 0)),
            None => None,
        },
    }
}

/// The "HH:MM:00" time that a typed start time stands for, if any.
pub open spec fn start_time_of(s: Seq<char>) -> Option<Seq<char>> {
    let l = lower_all(trim(s));
    if l.len() == 0 {
        None
    } else {
        let (part, pm) = split_meridiem(l);
        match hour_minute(trim(part)) {
            None => None,
            Some((h, m)) => {
                let h24 = if pm && h < 12 {
                    h + 12
                } else if !pm && h == 12 && l.contains('a') {
                    0
                } else {
                    h
                };
                if h24 > 23 || m > 59 {
                    None
                } else {
                    Some(two_digits(h24) + seq![':'] + two_digits(m) + seq![':', '0', '0'])
                }
            },
        }
    }
}

fn lower_all_exec(s: &Vec<char>) -> (r: Vec<char>)
    ensures
        r@ == lower_all(s@),
{
    let mut r: Vec<char> = Vec::new();
    let mut i: usize = 0;
    while i < s.len()
        invariant
            i <= s@.len(),
            r@ == lower_all(s@).subrange(0, i as int),
        decreases s@.len() - i,
    {
        let c = s[i];
        let l = if 'A' <= c && c <= 'Z' {
            ((c as u8) + 32) as char
        } else {
            c
        };
        r.push(l);
        i = i + 1;
        assert(r@ =~= lower_all(s@).subrange(0, i as int));
    }
    assert(lower_all(s@).subrange(0, i as int) =~= lower_all(s@));
    r
}

fn ends_with_exec(s: &Vec<char>, p: &Vec<char>) -> (r: bool)
    ensures
        r == ends_with(s@, p@),
{
    if p.len() > s.len() {
        return false;
    }
    let n = s.len();
    let off = n - p.len();
    let mut k: usize = 0;
    while k < p.len()
        invariant
            n == s@.len(),
            off + p@.len() == s@.len(),
            k <= p@.len(),
            forall|j: int| 0 <= j < k ==> s@[off + j] == p@[j],
        decreases p@.len() - k,
    {
        if s[off + k] != p[k] {
            assert(s@.subrange(off as int, s@.len() as int)[k as int] != p@[k as int]);
            return false;
        }
        k = k + 1;
    }
    assert(s@.subrange(off as int, s@.len() as int) =~= p@);
    true
}

/// The index of the first `c` in `s`, or its length.
pub fn index_of_exec(s: &Vec<char>, c: char) -> (r: usize)
    ensures
        r as nat == index_of(s@, c),
        r <= s@.len(),
{
    let d: Vec<char> = vec![c];
    assert(d@ =~= seq![c]);
    proof {
        lemma_find_from_bounds(s@, seq![c], 0);
    }
    match find_from_exec(s, &d, 0) {
        Some(p) => p,
        None => s.len(),
    }
}

/// Reads a number as `u32::from_str` does (see `parse_u32`).
pub fn parse_u32_exec(s: &Vec<char>) -> (r: Option<u32>)
    ensures
        r matches Some(v) ==> parse_u32(s@) == Some(v as nat),
        r is None ==> parse_u32(s@) is None,
{
    let lo: usize = if s.len() > 0 && s[0] == '+' {
        1
    } else {
        0
    };
    let ghost d = s@.subrange(lo as int, s@.len() as int);
    assert(lo == 0 ==> d =~= s@);
    assert(d == (if s@.len() > 0 && s@[0] == '+' {
        s@.subrange(1, s@.len() as int)
    } else {
        s@
    }));
    if lo == s.len() {
        assert(d.len() == 0);
        assert(parse_u32(s@) is None);
        return None;
    }
    let mut k = lo;
    while k < s.len()
        invariant
            lo <= k <= s@.len(),
            d == s@.subrange(lo as int, s@.len() as int),
            d == (if s@.len() > 0 && s@[0] == '+' {
                s@.subrange(1, s@.len() as int)
            } else {
                s@
            }),
            forall|j: int| lo <= j < k ==> is_digit(#[trigger] s@[j]),
        decreases s@.len() - k,
    {
        if !('0' <= s[k] && s[k] <= '9') {
            assert(!is_digit(d[k - lo]));
            assert(!all_digits(d));
            return None;
        }
        k = k + 1;
    }
    assert(all_digits(d)) by {
        assert forall|j: int| 0 <= j < d.len() implies #[trigger] is_digit(d[j]) by {
            assert(d[j] == s@[lo + j]);
        }
    }
    match digits_value_exec(s, lo, s.len()) {
        Some(v) => if v <= 0xffff_ffff {
            Some(v as u32)
        } else {
            None
        },
        None => None,
    }
}

/// Parses a typed start time ("9am", "2:30pm", "14:30", "9:00 AM") into
/// "HH:MM:00" (see `start_time_of`).
pub fn parse_start_time(input: &str) -> (r: Option<String>)
    ensures
        r matches Some(t) ==> start_time_of(input@) == Some(t@),
        r is None ==> start_time_of(input@) is None,
{
    let cs = chars_of(input);
    let t = trimmed(&cs);
    let l = lower_all_exec(&t);
    if l.len() == 0 {
        return None;
    }
    let n = l.len();
    let pm_s: Vec<char> = vec!['p', 'm'];
    let am_s: Vec<char> = vec!['a', 'm'];
    let p_s: Vec<char> = vec!['p'];
    let a_s: Vec<char> = vec!['a'];
    assert(pm_s@ =~= seq!['p', 'm']);
    assert(am_s@ =~= seq!['a', 'm']);
    assert(p_s@ =~= seq!['p']);
    assert(a_s@ =~= seq!['a']);
    let (part, pm) = if ends_with_exec(&l, &pm_s) {
        (slice(&l, 0, n - 2), true)
    } else if ends_with_exec(&l, &am_s) {
        (slice(&l, 0, n - 2), false)
    } else if ends_with_exec(&l, &p_s) {
        (slice(&l, 0, n - 1), true)
    } else if ends_with_exec(&l, &a_s) {
        (slice(&l, 0, n - 1), false)
    } else {
        (slice(&l, 0, n), false)
    };
    assert(l@.subrange(0, n as int) =~= l@);
    assert((part@, pm) == split_meridiem(l@));
    let tp = trimmed(&part);
    let colon = index_of_exec(&tp, ':');
    let (hour, minute): (u32, u32) = if colon < tp.len() {
        let hour_text = slice(&tp, 0, colon);
        let rest = slice(&tp, colon + 1, tp.len());
        let c2 = index_of_exec(&rest, ':');
        let minute_text = slice(&rest, 0, c2);
        match parse_u32_exec(&hour_text) {
            None => {
                return None;
            },
            Some(h) => (
                h,
                match parse_u32_exec(&minute_text) {
                    Some(m) => m,
                    None => 0,
                },
            ),
        }
    } else {
        match parse_u32_exec(&tp) {
            None => {
                return None;
            },
            Some(h) => (h, 0),
        }
    };
    let has_a = index_of_exec(&l, 'a') < l.len();
    proof {
        lemma_find_contains(l@, 'a');
    }
    let h24: u32 = if pm && hour < 12 {
        hour + 12
    } else if !pm && hour == 12 && has_a {
        0
    } else {
        hour
    };
    if h24 > 23 || minute > 59 {
        return None;
    }
    let mut out: Vec<char> = Vec::new();
    push_two_digits(&mut out, h24 as u64);
    out.push(':');
    push_two_digits(&mut out, minute as u64);
    out.push(':');
    out.push('0');
    out.push('0');
    assert(out@ =~= two_digits(h24 as nat) + seq![':'] + two_digits(minute as nat) + seq![
        ':',
        '0',
        '0',
    ]);
    Some(string_of(&out))
}

/// The first occurrence found is an occurrence, and none means none.
pub proof fn lemma_find_contains(s: Seq<char>, c: char)
    ensures
        (index_of(s, c) < s.len()) == s.contains(c),
{
    lemma_find_from_bounds(s, seq![c], 0);
    if index_of(s, c) < s.len() {
        let p = index_of(s, c);
        lemma_find_occurs(s, seq![c], 0);
        assert(s.subrange(p as int, (p + 1) as int)[0] == s[p as int]);
    } else if s.contains(c) {
        let j = choose|j: int| 0 <= j < s.len() && s[j] == c;
        lemma_find_misses(s, c, 0, j);
    }
}

pub proof fn lemma_find_occurs(s: Seq<char>, d: Seq<char>, i: nat)
    ensures
        find_from(s, d, i) matches Some(p) ==> s.subrange(p as int, (p + d.len()) as int) == d,
    decreases s.len() - i,
{
    if !(i >= s.len() || i + d.len() > s.len()) && !crate::spans::occurs_at(s, d, i as int) {
        lemma_find_occurs(s, d, i + 1);
    }
}

proof fn lemma_find_misses(s: Seq<char>, c: char, i: nat, j: int)
    requires
        i <= j < s.len(),
        s[j] == c,
    ensures
        find_from(s, seq![c], i) is Some,
    decreases j - i,
{
    if !crate::spans::occurs_at(s, seq![c], i as int) {
        if i as int == j {
            assert(s.subrange(j, j + 1) =~= seq![c]);
        } else {
            lemma_find_misses(s, c, i + 1, j);
        }
    }
}

/// Inserts a colon into a trailing four-digit offset: "+0800" becomes "+08:00".
pub open spec fn normalized_offset(s: Seq<char>) -> Seq<char> {
    let n = s.len() as int;
    if n > 5 && (s[n - 5] == '+' || s[n - 5] == '-') && is_digit(s[n - 4]) && is_digit(s[n - 3])
        && is_digit(s[n - 2]) && is_digit(s[n - 1]) {
        s.subrange(0, n - 2) + seq![':'] + s.subrange(n - 2, n)
    } else {
        s
    }
}

/// Writes a trailing "+HHMM" offset as "+HH:MM" (see `normalized_offset`).
pub fn normalize_timezone_offset(started: &str) -> (r: String)
    ensures
        r@ == normalized_offset(started@),
{
    let s = chars_of(started);
    let n = s.len();
    if n > 5 && (s[n - 5] == '+' || s[n - 5] == '-') && ('0' <= s[n - 4] && s[n - 4] <= '9') && (
    '0' <= s[n - 3] && s[n - 3] <= '9') && ('0' <= s[n - 2] && s[n - 2] <= '9') && ('0' <= s[n
        - 1] && s[n - 1] <= '9') {
        let mut out = slice(&s, 0, n - 2);
        out.push(':');
        let tail = slice(&s, n - 2, n);
        extend(&mut out, &tail);
        string_of(&out)
    } else {
        string_of(&s)
    }
}

/// The clock time of a wire timestamp read without time zones: the hour
/// and minute fields after the `T`, or "99:99" where there are none.
pub open spec fn raw_clock(s: Seq<char>) -> Seq<char> {
    match after(s, 'T') {
        None => seq!['9', '9', ':', '9', '9'],
        Some(rest) => {
            let time = before(before(rest, 'T'), '.');
            match after(time, ':') {
                None => seq!['9', '9', ':', '9', '9'],
                Some(tail) => before(time, ':') + seq![':'] + before(tail, ':'),
            }
        },
    }
}

fn before_exec(s: &Vec<char>, c: char) -> (r: Vec<char>)
    ensures
        r@ == before(s@, c),
{
    let k = index_of_exec(s, c);
    slice(s, 0, k)
}

fn after_exec(s: &Vec<char>, c: char) -> (r: Option<Vec<char>>)
    ensures
        r matches Some(v) ==> after(s@, c) == Some(v@),
        r is None ==> after(s@, c) is None,
{
    let k = index_of_exec(s, c);
    if k < s.len() {
        Some(slice(s, k + 1, s.len()))
    } else {
        None
    }
}

/// The clock time of a wire timestamp without time-zone conversion (see
/// `raw_clock`).
pub fn raw_clock_time(started: &str) -> (r: String)
    ensures
        r@ == raw_clock(started@),
{
    let s = chars_of(started);
    let mut out: Vec<char> = Vec::new();
    match after_exec(&s, 'T') {
        None => {
            out = vec!['9', '9', ':', '9', '9'];
        },
        Some(rest) => {
            let seg = before_exec(&rest, 'T');
            let time = before_exec(&seg, '.');
            match after_exec(&time, ':') {
                None => {
                    out = vec!['9', '9', ':', '9', '9'];
                },
                Some(tail) => {
                    out = before_exec(&time, ':');
                    out.push(':');
                    let m = before_exec(&tail, ':');
                    extend(&mut out, &m);
                },
            }
        },
    }
    assert(out@ =~= raw_clock(started@));
    string_of(&out)
}

/// "HH:MM" of an hour and minute.
pub open spec fn hm_clock(h: nat, m: nat) -> Seq<char> {
    two_digits(h) + seq![':'] + two_digits(m)
}

/// The local clock time of a wire timestamp: the given local hour and
/// minute where the timestamp could be read, else the raw fields.
pub open spec fn clock_text_of(local: Option<(u32, u32)>, started: Seq<char>) -> Seq<char> {
    match local {
        Some((h, m)) => hm_clock(h as nat, m as nat),
        None => raw_clock(started),
    }
}

/// Formats the local clock time of a wire timestamp (see `clock_text_of`).
pub fn clock_text(local: Option<(u32, u32)>, started: &str) -> (r: String)
    requires
        local matches Some((h, m)) ==> h < 24 && m < 60,
    ensures
        r@ == clock_text_of(local, started@),
{
    match local {
        Some((h, m)) => {
            let mut out: Vec<char> = Vec::new();
            push_two_digits(&mut out, h as u64);
            out.push(':');
            push_two_digits(&mut out, m as u64);
            assert(out@ =~= hm_clock(h as nat, m as nat));
            string_of(&out)
        },
        None => raw_clock_time(started),
    }
}

/// Whether chrono's `DateTime::parse_from_str` reads the text in the format.
pub uninterp spec fn stamp_reads(s: Seq<char>, fmt: Seq<char>) -> bool;

/// The wire format with milliseconds.
pub open spec fn millis_format() -> Seq<char> {
    "%Y-%m-%dT%H:%M:%S%.3f%:z"@
}

/// The wire format without milliseconds.
pub open spec fn seconds_format() -> Seq<char> {
    "%Y-%m-%dT%H:%M:%S%:z"@
}

/// Relies on chrono's `DateTime::parse_from_str` with the given format,
/// then `with_timezone(&Local)`, which cannot fail, and
/// `Timelike::{hour, minute}`: the local hour and minute of the timestamp,
/// exactly where it reads in that format. Which values come back depends
/// on the machine's time zone.
#[verifier::external_body]
fn local_hour_minute(s: &str, fmt: &str) -> (r: Option<(u32, u32)>)
    ensures
        r is Some <==> stamp_reads(s@, fmt@),
        r matches Some((h, m)) ==> h < 24 && m < 60,
{
    match chrono::DateTime::parse_from_str(s, fmt) {
        Ok(dt) => {
            let local = dt.with_timezone(&chrono::Local);
            Some((local.hour(), local.minute()))
        },
        Err(_) => None,
    }
}

/// Extracts the local "HH:MM" of a wire timestamp such as
/// "2025-12-02T09:00:00.000+0000": read with and then without
/// milliseconds and converted to the local time zone; where neither reads,
/// the hour and minute fields as they stand (see `raw_clock`).
pub fn extract_time(started: &str) -> (r: String)
    ensures
        !stamp_reads(normalized_offset(started@), millis_format()) && !stamp_reads(
            normalized_offset(started@),
            seconds_format(),
        ) ==> r@ == raw_clock(started@),
        stamp_reads(normalized_offset(started@), millis_format()) || stamp_reads(
            normalized_offset(started@),
            seconds_format(),
        ) ==> exists|h: u32, m: u32| h < 24 && m < 60 && r@ == hm_clock(h as nat, m as nat),
{
    let normalized = normalize_timezone_offset(started);
    let mut local = local_hour_minute(normalized.as_str(), "%Y-%m-%dT%H:%M:%S%.3f%:z");
    if local.is_none() {
        local = local_hour_minute(normalized.as_str(), "%Y-%m-%dT%H:%M:%S%:z");
    }
    clock_text(local, started)
}

/// Zero-padded to at least two digits, as `{:02}` writes it.
pub open spec fn pad2(n: nat) -> Seq<char> {
    if n < 10 {
        seq!['0'] + decimal(n)
    } else {
        decimal(n)
    }
}

/// "H:MMam" or "H:MMpm" of an hour and minute.
pub open spec fn twelve_hour(h: nat, m: nat) -> Seq<char> {
    let (h12, pm) = if h == 0 {
        (12nat, false)
    } else if h < 12 {
        (h, false)
    } else if h == 12 {
        (12nat, true)
    } else {
        ((h - 12) as nat, true)
    };
    decimal(h12) + seq![':'] + pad2(m) + if pm {
        seq!['p', 'm']
    } else {
        seq!['a', 'm']
    }
}

/// A "HH:MM" time shown in a clock format; text that does not read as
/// hour and minute is shown as it is.
pub open spec fn clock_display(t: Seq<char>, format: ClockFormat) -> Seq<char> {
    match format {
        ClockFormat::Hour24 => t,
        ClockFormat::Hour12 => match after(t, ':') {
            Some(rest) => match (parse_u32(before(t, ':')), parse_u32(before(rest, ':'))) {
                (Some(h), Some(m)) => twelve_hour(h, m),
                _ => t,
            },
            None => t,
        },
    }
}

fn push_pad2(out: &mut Vec<char>, n: u64)
    ensures
        final(out)@ == old(out)@ + pad2(n as nat),
{
    if n < 10 {
        out.push('0');
    }
    push_decimal(out, n);
    assert(out@ =~= old(out)@ + pad2(n as nat));
}

/// Shows a "HH:MM" time in the given clock format (see `clock_display`).
pub fn format_clock_time(time_24: &str, clock_format: ClockFormat) -> (r: String)
    ensures
        r@ == clock_display(time_24@, clock_format),
{
    let t = chars_of(time_24);
    match clock_format {
        ClockFormat::Hour24 => string_of(&t),
        ClockFormat::Hour12 => {
            if let Some(rest) = after_exec(&t, ':') {
                let hour_text = before_exec(&t, ':');
                let minute_text = before_exec(&rest, ':');
                if let (Some(hour), Some(min)) = (parse_u32_exec(&hour_text), parse_u32_exec(&minute_text)) {
                    let (h12, pm): (u32, bool) = if hour == 0 {
                        (12, false)
                    } else if hour < 12 {
                        (hour, false)
                    } else if hour == 12 {
                        (12, true)
                    } else {
                        (hour - 12, true)
                    };
                    let mut out: Vec<char> = Vec::new();
                    push_decimal(&mut out, h12 as u64);
                    out.push(':');
                    push_pad2(&mut out, min as u64);
                    if pm {
                        out.push('p');
                    } else {
                        out.push('a');
                    }
                    out.push('m');
                    assert(out@ =~= twelve_hour(hour as nat, min as nat));
                    return string_of(&out);
                }
            }
            string_of(&t)
        },
    }
}

} // verus!
