//! Character-sequence helpers shared by the parsers and renderers.
//!
//! Everything here works on `Vec<char>` in executable code and on
//! `Seq<char>` in specifications; `String` and `&str` are converted at the
//! public edges of the library.

use vstd::prelude::*;

verus! {

/// The Unicode `White_Space` property, which `char::is_whitespace` and
/// `str::trim` use.
pub open spec fn is_space(c: char) -> bool {
    let u = c as u32;
    (0x9 <= u && u <= 0xd) || u == 0x20 || u == 0x85 || u == 0xa0 || u == 0x1680 || (0x2000 <= u
        && u <= 0x200a) || u == 0x2028 || u == 0x2029 || u == 0x202f || u == 0x205f || u == 0x3000
}

pub fn is_space_char(c: char) -> (r: bool)
    ensures
        r == is_space(c),
{
    let u = c as u32;
    (0x9 <= u && u <= 0xd) || u == 0x20 || u == 0x85 || u == 0xa0 || u == 0x1680 || (0x2000 <= u
        && u <= 0x200a) || u == 0x2028 || u == 0x2029 || u == 0x202f || u == 0x205f || u == 0x3000
}

/// `s` without its leading white space.
pub open spec fn trim_start(s: Seq<char>) -> Seq<char>
    decreases s.len(),
{
    if s.len() > 0 && is_space(s[0]) {
        trim_start(s.subrange(1, s.len() as int))
    } else {
        s
    }
}

pub proof fn lemma_trim_start_len(s: Seq<char>)
    ensures
        trim_start(s).len() <= s.len(),
    decreases s.len(),
{
    if s.len() > 0 && is_space(s[0]) {
        lemma_trim_start_len(s.subrange(1, s.len() as int));
    }
}

/// What `trim_start` leaves is a suffix that starts with no white space.
pub proof fn lemma_trim_start_suffix(s: Seq<char>)
    ensures
        trim_start(s) == s.subrange(s.len() - trim_start(s).len(), s.len() as int),
        trim_start(s).len() > 0 ==> !is_space(trim_start(s)[0]),
    decreases s.len(),
{
    if s.len() > 0 && is_space(s[0]) {
        let r = s.subrange(1, s.len() as int);
        lemma_trim_start_suffix(r);
        lemma_trim_start_len(r);
        assert(r.subrange(r.len() - trim_start(r).len(), r.len() as int) =~= s.subrange(
            s.len() - trim_start(r).len(),
            s.len() as int,
        ));
    } else {
        assert(s.subrange(0, s.len() as int) =~= s);
    }
}

/// What `trim_end` leaves is a prefix that ends with no white space.
pub proof fn lemma_trim_end_prefix(s: Seq<char>)
    ensures
        trim_end(s).len() <= s.len(),
        trim_end(s) == s.subrange(0, trim_end(s).len() as int),
        trim_end(s).len() > 0 ==> !is_space(trim_end(s).last()),
    decreases s.len(),
{
    if s.len() > 0 && is_space(s.last()) {
        lemma_trim_end_prefix(s.drop_last());
        assert(s.drop_last().subrange(0, trim_end(s).len() as int) =~= s.subrange(
            0,
            trim_end(s).len() as int,
        ));
    } else {
        assert(s.subrange(0, s.len() as int) =~= s);
    }
}

/// A trimmed text is a piece of the text it came from, has no white space at its
/// ends, and trims to itself.
pub proof fn lemma_trim(s: Seq<char>)
    ensures
        trim(s).len() <= s.len(),
        exists|a: int|
            0 <= a && a + trim(s).len() <= s.len() && #[trigger] s.subrange(a, a + trim(s).len())
                == trim(s),
        trim(s).len() > 0 ==> trim(s)[0] == trim_start(s)[0],
        trim(s) == trim(trim(s)),
{
    let t = trim_start(s);
    let p = trim_end(t);
    lemma_trim_start_suffix(s);
    lemma_trim_start_len(s);
    lemma_trim_end_prefix(t);
    let a = s.len() - t.len();
    assert forall|i: int| 0 <= i < p.len() implies s.subrange(a, a + p.len())[i] == p[i] by {
        assert(p[i] == t.subrange(0, p.len() as int)[i]);
        assert(t[i] == s.subrange(a, s.len() as int)[i]);
    }
    assert(s.subrange(a, a + p.len()) =~= p);
    if p.len() > 0 {
        assert(p[0] == t[0]);
        assert(trim_start(p) == p);
        assert(trim_end(p) == p);
    } else {
        assert(trim_start(p) == p);
        assert(trim_end(p) == p);
    }
}

/// `s` without its trailing white space.
pub open spec fn trim_end(s: Seq<char>) -> Seq<char>
    decreases s.len(),
{
    if s.len() > 0 && is_space(s.last()) {
        trim_end(s.drop_last())
    } else {
        s
    }
}

/// `s` without white space at either end.
pub open spec fn trim(s: Seq<char>) -> Seq<char> {
    trim_end(trim_start(s))
}

/// Relies on `str::chars`: collects the characters of a string in order.
#[verifier::external_body]
pub(crate) fn chars_of(s: &str) -> (r: Vec<char>)
    ensures
        r@ == s@,
{
    s.chars().collect()
}

/// Relies on `FromIterator<char>` for `String`: a string of the given characters.
#[verifier::external_body]
pub(crate) fn string_of(v: &Vec<char>) -> (r: String)
    ensures
        r@ == v@,
{
    v.iter().collect()
}

/// Appends `src` to `dst`.
pub fn extend(dst: &mut Vec<char>, src: &Vec<char>)
    ensures
        final(dst)@ == old(dst)@ + src@,
{
    let mut i: usize = 0;
    while i < src.len()
        invariant
            i <= src@.len(),
            dst@ == old(dst)@ + src@.subrange(0, i as int),
        decreases src@.len() - i,
    {
        dst.push(src[i]);
        i = i + 1;
        assert(src@.subrange(0, i as int) =~= src@.subrange(0, i - 1).push(src@[i - 1]));
    }
    assert(src@.subrange(0, i as int) =~= src@);
}

/// The characters `s[lo..hi]` as a new vector.
pub fn slice(s: &Vec<char>, lo: usize, hi: usize) -> (r: Vec<char>)
    requires
        lo <= hi <= s@.len(),
    ensures
        r@ == s@.subrange(lo as int, hi as int),
{
    let mut r: Vec<char> = Vec::new();
    let mut i: usize = lo;
    while i < hi
        invariant
            lo <= i <= hi <= s@.len(),
            r@ == s@.subrange(lo as int, i as int),
        decreases hi - i,
    {
        r.push(s[i]);
        i = i + 1;
        assert(s@.subrange(lo as int, i as int) =~= s@.subrange(lo as int, i - 1).push(s@[i - 1]));
    }
    r
}

/// Index of the first character that is not white space, or `s.len()`.
pub fn trim_start_index(s: &Vec<char>, from: usize) -> (r: usize)
    requires
        from <= s@.len(),
    ensures
        from <= r <= s@.len(),
        s@.subrange(r as int, s@.len() as int) == trim_start(s@.subrange(from as int, s@.len() as int)),
{
    let mut i = from;
    while i < s.len() && is_space_char(s[i])
        invariant
            from <= i <= s@.len(),
            trim_start(s@.subrange(i as int, s@.len() as int)) == trim_start(
                s@.subrange(from as int, s@.len() as int),
            ),
        decreases s@.len() - i,
    {
        assert(s@.subrange(i as int, s@.len() as int).subrange(1, s@.len() - i) =~= s@.subrange(
            i + 1,
            s@.len() as int,
        ));
        i = i + 1;
    }
    i
}

/// `s` without its leading white space.
pub fn trimmed_start(s: &Vec<char>) -> (r: Vec<char>)
    ensures
        r@ == trim_start(s@),
{
    assert(s@.subrange(0, s@.len() as int) =~= s@);
    let i = trim_start_index(s, 0);
    slice(s, i, s.len())
}

/// `s` without white space at either end.
pub fn trimmed(s: &Vec<char>) -> (r: Vec<char>)
    ensures
        r@ == trim(s@),
{
    let t = trimmed_start(s);
    let mut j = t.len();
    assert(t@.subrange(0, j as int) =~= t@);
    while j > 0 && is_space_char(t[j - 1])
        invariant
            j <= t@.len(),
            trim_end(t@.subrange(0, j as int)) == trim_end(t@),
        decreases j,
    {
        assert(t@.subrange(0, j as int).drop_last() =~= t@.subrange(0, j - 1));
        j = j - 1;
    }
    assert(t@.subrange(0, j as int) =~= trim_end(t@.subrange(0, j as int)));
    slice(&t, 0, j)
}


/// The views of a vector of lines.
pub open spec fn lines_view(v: Seq<Vec<char>>) -> Seq<Seq<char>> {
    v.map_values(|l: Vec<char>| l@)
}

/// A line without the carriage return that ends it, if any.
pub open spec fn strip_cr(l: Seq<char>) -> Seq<char> {
    if l.len() > 0 && l.last() == '\r' {
        l.drop_last()
    } else {
        l
    }
}

/// The finished lines and the line in progress after reading `s`.
pub open spec fn line_scan(s: Seq<char>) -> (Seq<Seq<char>>, Seq<char>)
    decreases s.len(),
{
    if s.len() == 0 {
        (seq![], seq![])
    } else {
        let (done, cur) = line_scan(s.drop_last());
        if s.last() == '\n' {
            (done.push(strip_cr(cur)), seq![])
        } else {
            (done, cur.push(s.last()))
        }
    }
}

/// The lines of `s` as `str::lines` gives them: split at `\n`, a `\r` right
/// before the `\n` dropped, and no empty line after a final line ending.
pub open spec fn split_lines(s: Seq<char>) -> Seq<Seq<char>> {
    let (done, cur) = line_scan(s);
    if cur.len() > 0 {
        done.push(cur)
    } else {
        done
    }
}

/// The lines joined with `\n` between each two.
pub open spec fn join_lines(ls: Seq<Seq<char>>) -> Seq<char>
    decreases ls.len(),
{
    if ls.len() == 0 {
        seq![]
    } else if ls.len() == 1 {
        ls[0]
    } else {
        join_lines(ls.drop_last()) + seq!['\n'] + ls.last()
    }
}

pub fn split_lines_of(s: &Vec<char>) -> (r: Vec<Vec<char>>)
    ensures
        lines_view(r@) == split_lines(s@),
{
    let mut done: Vec<Vec<char>> = Vec::new();
    let mut cur: Vec<char> = Vec::new();
    let mut i: usize = 0;
    assert(s@.subrange(0, 0) =~= Seq::<char>::empty());
    assert(lines_view(done@) =~= seq![]);
    while i < s.len()
        invariant
            i <= s@.len(),
            (lines_view(done@), cur@) == line_scan(s@.subrange(0, i as int)),
        decreases s@.len() - i,
    {
        let c = s[i];
        assert(s@.subrange(0, i + 1).drop_last() =~= s@.subrange(0, i as int));
        if c == '\n' {
            let n = cur.len();
            if n > 0 && cur[n - 1] == '\r' {
                cur.pop();
            }
            let old_done = Ghost(done@);
            done.push(cur);
            assert(lines_view(done@) =~= lines_view(old_done@).push(
                strip_cr(line_scan(s@.subrange(0, i as int)).1),
            ));
            cur = Vec::new();
            assert(cur@ =~= seq![]);
        } else {
            cur.push(c);
        }
        i = i + 1;
    }
    assert(s@.subrange(0, i as int) =~= s@);
    if cur.len() > 0 {
        let old_done = Ghost(done@);
        let ghost last = cur@;
        done.push(cur);
        assert(lines_view(done@) =~= lines_view(old_done@).push(last));
    }
    done
}

pub fn join_lines_of(ls: &Vec<Vec<char>>) -> (r: Vec<char>)
    ensures
        r@ == join_lines(lines_view(ls@)),
{
    let mut r: Vec<char> = Vec::new();
    let mut i: usize = 0;
    while i < ls.len()
        invariant
            i <= ls@.len(),
            r@ == join_lines(lines_view(ls@.subrange(0, i as int))),
        decreases ls@.len() - i,
    {
        let ghost before = lines_view(ls@.subrange(0, i as int));
        if i > 0 {
            r.push('\n');
        }
        extend(&mut r, &ls[i]);
        i = i + 1;
        let ghost after = lines_view(ls@.subrange(0, i as int));
        assert(after.drop_last() =~= before);
        if i == 1 {
            assert(r@ =~= after[0]);
        } else {
            assert(r@ =~= join_lines(before) + seq!['\n'] + after.last());
        }
    }
    assert(ls@.subrange(0, i as int) =~= ls@);
    r
}

pub open spec fn is_digit(c: char) -> bool {
    '0' <= c && c <= '9'
}

pub open spec fn digit_value(c: char) -> int {
    c as int - '0' as int
}

pub open spec fn digit_char(d: int) -> char {
    seq!['0', '1', '2', '3', '4', '5', '6', '7', '8', '9'][d]
}

/// The decimal digits of `n`, without leading zeros.
pub open spec fn decimal(n: nat) -> Seq<char>
    decreases n,
{
    if n < 10 {
        seq![digit_char(n as int)]
    } else {
        decimal(n / 10).push(digit_char((n % 10) as int))
    }
}

pub proof fn lemma_digit_char(d: int)
    requires
        0 <= d < 10,
    ensures
        is_digit(digit_char(d)),
        digit_value(digit_char(d)) == d,
{
    let ds = seq!['0', '1', '2', '3', '4', '5', '6', '7', '8', '9'];
    assert(ds[0] == '0' && ds[1] == '1' && ds[2] == '2' && ds[3] == '3' && ds[4] == '4');
    assert(ds[5] == '5' && ds[6] == '6' && ds[7] == '7' && ds[8] == '8' && ds[9] == '9');
}

/// `n` in two digits, with a leading zero where it has one.
pub open spec fn two_digits(n: nat) -> Seq<char> {
    seq![digit_char((n / 10) as int), digit_char((n % 10) as int)]
}

pub fn digit_of(d: u64) -> (r: char)
    requires
        d < 10,
    ensures
        r == digit_char(d as int),
{
    if d == 0 {
        '0'
    } else if d == 1 {
        '1'
    } else if d == 2 {
        '2'
    } else if d == 3 {
        '3'
    } else if d == 4 {
        '4'
    } else if d == 5 {
        '5'
    } else if d == 6 {
        '6'
    } else if d == 7 {
        '7'
    } else if d == 8 {
        '8'
    } else {
        '9'
    }
}

/// Appends the decimal digits of `n`.
pub fn push_decimal(out: &mut Vec<char>, n: u64)
    ensures
        final(out)@ == old(out)@ + decimal(n as nat),
    decreases n,
{
    if n >= 10 {
        push_decimal(out, n / 10);
    }
    out.push(digit_of(n % 10));
    if n >= 10 {
        assert(out@ =~= old(out)@ + decimal(n as nat));
    } else {
        assert(out@ =~= old(out)@ + decimal(n as nat));
    }
}

/// Appends `n` as two digits.
pub fn push_two_digits(out: &mut Vec<char>, n: u64)
    requires
        n < 100,
    ensures
        final(out)@ == old(out)@ + two_digits(n as nat),
{
    out.push(digit_of(n / 10));
    out.push(digit_of(n % 10));
    assert(out@ =~= old(out)@ + two_digits(n as nat));
}

} // verus!
