//! Decimal numbers written with digits and at most one `.`, as a duration
//! field holds them, and their exact value in a whole number of seconds.

use crate::spans::{find_from, find_from_exec};
use crate::text::{digit_value, is_digit};
use vstd::arithmetic::div_mod::{lemma_div_denominator, lemma_hoist_over_denominator};
use vstd::prelude::*;

verus! {

pub open spec fn pow10(n: nat) -> nat
    decreases n,
{
    if n == 0 {
        1
    } else {
        10 * pow10((n - 1) as nat)
    }
}

/// The value of a sequence of decimal digits.
pub open spec fn digits_value(s: Seq<char>) -> nat
    decreases s.len(),
{
    if s.len() == 0 {
        0
    } else {
        digits_value(s.drop_last()) * 10 + digit_value(s.last()) as nat
    }
}

pub open spec fn all_digits(s: Seq<char>) -> bool {
    forall|k: int| 0 <= k < s.len() ==> #[trigger] is_digit(s[k])
}

/// Each character is a digit or a `.`.
pub open spec fn digits_and_dots(s: Seq<char>) -> bool {
    forall|k: int| 0 <= k < s.len() ==> is_digit(#[trigger] s[k]) || s[k] == '.'
}

/// The index of the first `.`, or the length.
pub open spec fn dot_pos(s: Seq<char>) -> nat {
    match find_from(s, seq!['.'], 0) {
        Some(p) => p,
        None => s.len(),
    }
}

pub open spec fn int_digits(s: Seq<char>) -> Seq<char> {
    s.subrange(0, dot_pos(s) as int)
}

pub open spec fn frac_digits(s: Seq<char>) -> Seq<char> {
    if dot_pos(s) < s.len() {
        s.subrange((dot_pos(s) + 1) as int, s.len() as int)
    } else {
        seq![]
    }
}

/// A number: digits with at most one `.` among them, and at least one digit.
pub open spec fn is_number(s: Seq<char>) -> bool {
    all_digits(int_digits(s)) && all_digits(frac_digits(s)) && int_digits(s).len() + frac_digits(
        s,
    ).len() > 0
}

/// The whole number of seconds in `s` units of `unit` seconds, the
/// fraction truncated: `floor(unit * s)`.
pub open spec fn number_seconds(s: Seq<char>, unit: nat) -> int {
    digits_value(int_digits(s)) * unit + frac_seconds(frac_digits(s), unit)
}

/// `floor(unit * 0.s)` for the digits `s`.
pub open spec fn frac_seconds(s: Seq<char>, unit: nat) -> int {
    (unit * digits_value(s)) as int / pow10(s.len()) as int
}

pub const I64_MAX: u64 = 0x7fff_ffff_ffff_ffff;

pub proof fn lemma_number_seconds_nonneg(s: Seq<char>, unit: nat)
    ensures
        number_seconds(s, unit) >= 0,
{
    let f = frac_digits(s);
    lemma_pow10_positive(f.len());
    assert(unit * digits_value(f) >= 0) by (nonlinear_arith);
    assert(digits_value(int_digits(s)) * unit >= 0) by (nonlinear_arith);
}

proof fn lemma_pow10_positive(n: nat)
    ensures
        pow10(n) > 0,
    decreases n,
{
    if n > 0 {
        lemma_pow10_positive((n - 1) as nat);
    }
}

/// Prepending a digit adds it at the highest place.
proof fn lemma_digits_value_prepend(c: char, t: Seq<char>)
    requires
        is_digit(c),
        all_digits(t),
    ensures
        digits_value(seq![c] + t) == digit_value(c) * pow10(t.len()) + digits_value(t),
    decreases t.len(),
{
    let s = seq![c] + t;
    if t.len() == 0 {
        assert(s.drop_last() =~= Seq::<char>::empty());
        assert(s.last() == c);
        assert(digits_value(s.drop_last()) == 0);
        assert(digit_value(c) >= 0);
        assert(digits_value(s) == digit_value(c));
        assert(pow10(t.len()) == 1);
        assert(digits_value(t) == 0);
    } else {
        assert(s.drop_last() =~= seq![c] + t.drop_last());
        assert(s.last() == t.last());
        assert(is_digit(t[t.len() - 1]));
        lemma_digits_value_prepend(c, t.drop_last());
        assert(digits_value(s) == digits_value(seq![c] + t.drop_last()) * 10 + digit_value(t.last()));
        assert(digits_value(t) == digits_value(t.drop_last()) * 10 + digit_value(t.last()));
        let a = digit_value(c);
        let p = pow10((t.len() - 1) as nat) as int;
        let w = digits_value(t.drop_last()) as int;
        assert((a * p + w) * 10 == a * (10 * p) + w * 10) by (nonlinear_arith);
        assert(pow10(t.len()) == 10 * p);
    }
}

/// `floor(unit * 0.d1 d2 ... dk)`, one digit at a time from the right.
proof fn lemma_frac_step(unit: int, d: int, v: int, m: int)
    requires
        m > 0,
        unit >= 0,
        d >= 0,
        v >= 0,
    ensures
        (unit * (d * m + v)) / (m * 10) == (unit * d + (unit * v) / m) / 10,
{
    let x = unit * v;
    assert(unit * (d * m + v) == (unit * d) * m + unit * v) by (nonlinear_arith);
    assert(x >= 0) by (nonlinear_arith)
        requires
            unit >= 0,
            v >= 0,
            x == unit * v,
    ;
    assert(unit * d >= 0) by (nonlinear_arith)
        requires
            unit >= 0,
            d >= 0,
    ;
    assert((unit * d) * m + x >= 0) by (nonlinear_arith)
        requires
            unit * d >= 0,
            m > 0,
            x >= 0,
    ;
    lemma_div_denominator((unit * d) * m + x, m, 10);
    lemma_hoist_over_denominator(x, unit * d, m as nat);
}

/// The value of the digits `s[lo..hi]`, or none when it exceeds `i64::MAX`.
pub fn digits_value_exec(s: &Vec<char>, lo: usize, hi: usize) -> (r: Option<u64>)
    requires
        lo <= hi <= s@.len(),
        all_digits(s@.subrange(lo as int, hi as int)),
    ensures
        r matches Some(v) ==> v == digits_value(s@.subrange(lo as int, hi as int)) && v <= I64_MAX,
        r is None ==> digits_value(s@.subrange(lo as int, hi as int)) > I64_MAX,
{
    let mut acc: u64 = 0;
    let mut big = false;
    let mut i = lo;
    assert(s@.subrange(lo as int, lo as int) =~= Seq::<char>::empty());
    while i < hi
        invariant
            lo <= i <= hi <= s@.len(),
            all_digits(s@.subrange(lo as int, hi as int)),
            !big ==> acc == digits_value(s@.subrange(lo as int, i as int)) && acc <= I64_MAX,
            big ==> digits_value(s@.subrange(lo as int, i as int)) > I64_MAX,
        decreases hi - i,
    {
        let ghost pre = s@.subrange(lo as int, i as int);
        let ghost post = s@.subrange(lo as int, i + 1);
        assert(post.drop_last() =~= pre);
        assert(post.last() == s@.subrange(lo as int, hi as int)[i - lo]);
        let c = s[i];
        assert(is_digit(s@.subrange(lo as int, hi as int)[i - lo]));
        let d = (c as u32 - '0' as u32) as u64;
        if !big {
            if acc > (I64_MAX - d) / 10 {
                big = true;
            } else {
                acc = acc * 10 + d;
            }
        }
        i = i + 1;
    }
    if big {
        None
    } else {
        Some(acc)
    }
}

/// `floor(unit * 0.s[lo..hi])`.
pub fn frac_seconds_exec(s: &Vec<char>, lo: usize, hi: usize, unit: u64) -> (r: u64)
    requires
        lo <= hi <= s@.len(),
        all_digits(s@.subrange(lo as int, hi as int)),
        unit <= 3600,
    ensures
        r as int == frac_seconds(s@.subrange(lo as int, hi as int), unit as nat),
        r <= unit,
{
    let mut carry: u64 = 0;
    let mut j = hi;
    proof {
        assert(s@.subrange(hi as int, hi as int) =~= Seq::<char>::empty());
        assert(unit * 0 == 0);
    }
    while j > lo
        invariant
            lo <= j <= hi <= s@.len(),
            all_digits(s@.subrange(lo as int, hi as int)),
            unit <= 3600,
            carry <= unit,
            pow10((hi - j) as nat) > 0,
            carry as int == frac_seconds(s@.subrange(j as int, hi as int), unit as nat),
        decreases j - lo,
    {
        let c = s[j - 1];
        assert(is_digit(s@.subrange(lo as int, hi as int)[j - 1 - lo]));
        let d = (c as u32 - '0' as u32) as u64;
        assert(unit * d <= 3600 * 9) by (nonlinear_arith)
            requires
                unit <= 3600,
                d <= 9,
        ;
        assert((unit * d + carry) / 10 <= unit) by (nonlinear_arith)
            requires
                d <= 9,
                carry <= unit,
        ;
        let ghost t = s@.subrange(j as int, hi as int);
        let ghost k = (hi - j) as nat;
        proof {
            assert(s@.subrange(j - 1, hi as int) =~= seq![c] + t);
            assert(all_digits(t)) by {
                assert forall|k: int| 0 <= k < t.len() implies #[trigger] is_digit(t[k]) by {
                    assert(t[k] == s@.subrange(lo as int, hi as int)[j - lo + k]);
                }
            }
            lemma_digits_value_prepend(c, t);
            lemma_frac_step(unit as int, d as int, digits_value(t) as int, pow10(k) as int);
            assert(pow10(k + 1) == pow10(k) * 10);
        }
        carry = (unit * d + carry) / 10;
        j = j - 1;
    }
    carry
}


fn all_digits_exec(s: &Vec<char>, lo: usize, hi: usize) -> (r: bool)
    requires
        lo <= hi <= s@.len(),
    ensures
        r == all_digits(s@.subrange(lo as int, hi as int)),
{
    let mut i = lo;
    while i < hi
        invariant
            lo <= i <= hi <= s@.len(),
            forall|k: int| lo <= k < i ==> is_digit(#[trigger] s@[k]),
        decreases hi - i,
    {
        if !('0' <= s[i] && s[i] <= '9') {
            assert(!is_digit(s@.subrange(lo as int, hi as int)[i - lo]));
            return false;
        }
        i = i + 1;
    }
    assert forall|k: int| 0 <= k < hi - lo implies #[trigger] is_digit(
        s@.subrange(lo as int, hi as int)[k],
    ) by {
        assert(s@.subrange(lo as int, hi as int)[k] == s@[lo + k]);
    }
    true
}

pub fn dot_pos_exec(s: &Vec<char>) -> (r: usize)
    ensures
        r as nat == dot_pos(s@),
        r <= s@.len(),
{
    let dot: Vec<char> = vec!['.'];
    assert(dot@ =~= seq!['.']);
    proof {
        lemma_find_bounds(s@);
    }
    match find_from_exec(s, &dot, 0) {
        Some(p) => p,
        None => s.len(),
    }
}

pub proof fn lemma_find_bounds(s: Seq<char>)
    ensures
        dot_pos(s) <= s.len(),
{
    crate::spans::lemma_find_from_bounds(s, seq!['.'], 0);
}

/// Whether `s` is a number (see `is_number`).
pub fn is_number_exec(s: &Vec<char>) -> (r: bool)
    ensures
        r == is_number(s@),
{
    let p = dot_pos_exec(s);
    if !all_digits_exec(s, 0, p) {
        return false;
    }
    if p < s.len() {
        assert(frac_digits(s@) == s@.subrange(p + 1, s@.len() as int));
        all_digits_exec(s, p + 1, s.len()) && (p > 0 || s.len() - p > 1)
    } else {
        assert(frac_digits(s@) =~= Seq::<char>::empty());
        p > 0
    }
}

/// The seconds in the number `s` of units of `unit` seconds (see
/// `number_seconds`), or none when they exceed `i64::MAX`.
pub fn number_seconds_exec(s: &Vec<char>, unit: u64) -> (r: Option<u64>)
    requires
        is_number(s@),
        1 <= unit <= 3600,
    ensures
        r matches Some(v) ==> v as int == number_seconds(s@, unit as nat) && v <= I64_MAX,
        r is None ==> number_seconds(s@, unit as nat) > I64_MAX,
{
    let p = dot_pos_exec(s);
    let frac: u64 = if p < s.len() {
        assert(frac_digits(s@) == s@.subrange(p + 1, s@.len() as int));
        frac_seconds_exec(s, p + 1, s.len(), unit)
    } else {
        assert(frac_digits(s@) =~= Seq::<char>::empty());
        assert(unit * 0 == 0);
        0
    };
    proof {
        let f = frac_digits(s@);
        assert(frac_seconds(f, unit as nat) >= 0) by {
            lemma_pow10_positive(f.len());
            assert(unit * digits_value(f) >= 0) by (nonlinear_arith)
                requires
                    unit >= 1,
            ;
        }
    }
    match digits_value_exec(s, 0, p) {
        None => {
            assert(digits_value(int_digits(s@)) * unit >= digits_value(int_digits(s@)))
                by (nonlinear_arith)
                requires
                    unit >= 1,
            ;
            None
        },
        Some(v) => {
            assert(v as u128 * unit as u128 <= 0x7fff_ffff_ffff_ffff * 3600) by (nonlinear_arith)
                requires
                    v <= 0x7fff_ffff_ffff_ffffu64,
                    unit <= 3600,
            ;
            assert(int_digits(s@) == s@.subrange(0, p as int));
            let total: u128 = v as u128 * unit as u128 + frac as u128;
            if total > I64_MAX as u128 {
                None
            } else {
                Some(total as u64)
            }
        },
    }
}

} // verus!
