//! User preferences that the core logic reads.

use crate::clock::{before, index_of_exec};
use crate::text::{chars_of, extend, slice, string_of, trim, trimmed};
use vstd::prelude::*;

verus! {

/// How durations are shown.
#[derive(Clone, Copy, Debug, PartialEq, Eq, Structural)]
pub enum TimeFormat {
    /// "3h 15m"
    HoursMinutes,
    /// "3.25h"
    Decimal,
}

/// How clock times are shown.
#[derive(Clone, Copy, Debug, PartialEq, Eq, Structural)]
pub enum ClockFormat {
    /// "14:30"
    Hour24,
    /// "2:30pm"
    Hour12,
}

/// How entries are laid out in the list view.
#[derive(Clone, Copy, Debug, PartialEq, Eq, Structural)]
pub enum ListViewMode {
    /// Compact cards with the description cut short.
    Contracted,
    /// Cards that grow to hold the whole description.
    Expanded,
}

/// Which view of the week is shown.
#[derive(Clone, Copy, Debug, PartialEq, Eq, Structural)]
pub enum ViewMode {
    List,
    Schedule,
}

impl Default for TimeFormat {
    fn default() -> (r: Self)
        ensures
            r == TimeFormat::HoursMinutes,
    {
        TimeFormat::HoursMinutes
    }
}

impl Default for ClockFormat {
    fn default() -> (r: Self)
        ensures
            r == ClockFormat::Hour24,
    {
        ClockFormat::Hour24
    }
}

impl Default for ListViewMode {
    fn default() -> (r: Self)
        ensures
            r == ListViewMode::Contracted,
    {
        ListViewMode::Contracted
    }
}

impl Default for ViewMode {
    fn default() -> (r: Self)
        ensures
            r == ViewMode::List,
    {
        ViewMode::List
    }
}

/// The first hour shown in the schedule view by default.
pub fn default_schedule_start_hour() -> (r: u8)
    ensures
        r == 5,
{
    5
}

/// The last hour shown in the schedule view by default.
pub fn default_schedule_end_hour() -> (r: u8)
    ensures
        r == 20,
{
    20
}

pub fn default_true() -> (r: bool)
    ensures
        r,
{
    true
}

/// The category tags offered by default.
pub open spec fn default_tag_names() -> Seq<Seq<char>> {
    seq![
        seq!['F', 'E'],
        seq!['B', 'E'],
        seq!['B', 'u', 'g', 'f', 'i', 'x'],
        seq!['C', 'R'],
        seq!['S', 'u', 'p', 'p', 'o', 'r', 't'],
        seq!['M', 'e', 'e', 't', 'i', 'n', 'g', 's'],
        seq!['R', 'e', 'f', 'a', 'c', 't', 'o', 'r'],
        seq!['A', 'd', 'm', 'i', 'n'],
    ]
}

fn tag(v: Vec<char>) -> (r: String)
    ensures
        r@ == v@,
{
    crate::text::string_of(&v)
}

pub fn default_tags() -> (r: Vec<String>)
    ensures
        r@.map_values(|t: String| t@) == default_tag_names(),
{
    let mut r: Vec<String> = Vec::new();
    r.push(tag(vec!['F', 'E']));
    r.push(tag(vec!['B', 'E']));
    r.push(tag(vec!['B', 'u', 'g', 'f', 'i', 'x']));
    r.push(tag(vec!['C', 'R']));
    r.push(tag(vec!['S', 'u', 'p', 'p', 'o', 'r', 't']));
    r.push(tag(vec!['M', 'e', 'e', 't', 'i', 'n', 'g', 's']));
    r.push(tag(vec!['R', 'e', 'f', 'a', 'c', 't', 'o', 'r']));
    r.push(tag(vec!['A', 'd', 'm', 'i', 'n']));
    assert(r@.map_values(|t: String| t@) =~= default_tag_names());
    r
}


/// Whether the connection settings are filled in: a domain, an email and
/// a token.
pub fn is_configured(jira_domain: &str, email: &str, api_token: Option<&str>) -> (r: bool)
    ensures
        r == (jira_domain@.len() > 0 && email@.len() > 0 && api_token is Some),
{
    jira_domain.unicode_len() > 0 && email.unicode_len() > 0 && api_token.is_some()
}

/// `s` without every leading copy of `p`.
pub open spec fn strip_prefixes(s: Seq<char>, p: Seq<char>) -> Seq<char>
    decreases s.len(),
{
    if p.len() > 0 && p.len() <= s.len() && s.subrange(0, p.len() as int) == p {
        strip_prefixes(s.subrange(p.len() as int, s.len() as int), p)
    } else {
        s
    }
}

/// `s` without the slashes it ends with.
pub open spec fn strip_slashes(s: Seq<char>) -> Seq<char>
    decreases s.len(),
{
    if s.len() > 0 && s.last() == '/' {
        strip_slashes(s.drop_last())
    } else {
        s
    }
}

pub open spec fn https() -> Seq<char> {
    seq!['h', 't', 't', 'p', 's', ':', '/', '/']
}

pub open spec fn http() -> Seq<char> {
    seq!['h', 't', 't', 'p', ':', '/', '/']
}

/// The REST API root for a tracker domain as a person may type it: the
/// host alone, with any protocol, trailing slashes and path taken off.
pub open spec fn api_root(domain: Seq<char>) -> Seq<char> {
    let host = before(strip_slashes(strip_prefixes(strip_prefixes(trim(domain), https()), http())), '/');
    https() + host + seq!['/', 'r', 'e', 's', 't', '/', 'a', 'p', 'i', '/', '3']
}

fn strip_prefixes_exec(s: &Vec<char>, p: &Vec<char>) -> (r: Vec<char>)
    ensures
        r@ == strip_prefixes(s@, p@),
{
    let mut cur = slice(s, 0, s.len());
    assert(cur@ =~= s@);
    if p.len() == 0 {
        return cur;
    }
    loop
        invariant
            p@.len() > 0,
            strip_prefixes(cur@, p@) == strip_prefixes(s@, p@),
        decreases cur@.len(),
    {
        if p.len() <= cur.len() {
            let head = slice(&cur, 0, p.len());
            let mut same = true;
            let mut k: usize = 0;
            while k < p.len()
                invariant
                    head@.len() == p@.len(),
                    k <= p@.len(),
                    same == (forall|j: int| 0 <= j < k ==> head@[j] == p@[j]),
                decreases p@.len() - k,
            {
                if head[k] != p[k] {
                    same = false;
                }
                k = k + 1;
            }
            if same {
                assert(head@ =~= p@);
                cur = slice(&cur, p.len(), cur.len());
                continue;
            } else {
                assert(head@ != p@) by {
                    let j = choose|j: int| 0 <= j < p@.len() && head@[j] != p@[j];
                }
            }
        }
        return cur;
    }
}

/// The REST API root of a tracker domain (see `api_root`).
pub fn base_url(jira_domain: &str) -> (r: String)
    ensures
        r@ == api_root(jira_domain@),
{
    let d = chars_of(jira_domain);
    let t = trimmed(&d);
    let https_prefix: Vec<char> = vec!['h', 't', 't', 'p', 's', ':', '/', '/'];
    let http_prefix: Vec<char> = vec!['h', 't', 't', 'p', ':', '/', '/'];
    assert(https_prefix@ =~= https());
    assert(http_prefix@ =~= http());
    let a = strip_prefixes_exec(&t, &https_prefix);
    let b = strip_prefixes_exec(&a, &http_prefix);
    let mut j = b.len();
    assert(b@.subrange(0, j as int) =~= b@);
    while j > 0 && b[j - 1] == '/'
        invariant
            j <= b@.len(),
            strip_slashes(b@.subrange(0, j as int)) == strip_slashes(b@),
        decreases j,
    {
        assert(b@.subrange(0, j as int).drop_last() =~= b@.subrange(0, j - 1));
        j = j - 1;
    }
    let c = slice(&b, 0, j);
    assert(c@ == strip_slashes(b@));
    let k = index_of_exec(&c, '/');
    let host = slice(&c, 0, k);
    let mut out: Vec<char> = vec!['h', 't', 't', 'p', 's', ':', '/', '/'];
    extend(&mut out, &host);
    let tail: Vec<char> = vec!['/', 'r', 'e', 's', 't', '/', 'a', 'p', 'i', '/', '3'];
    extend(&mut out, &tail);
    assert(out@ =~= api_root(jira_domain@));
    string_of(&out)
}

} // verus!
