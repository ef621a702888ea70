//! Category tags written at the start of a description: "[FE][BE] Fixed
//! the login bug".

use crate::clock::{index_of, index_of_exec, lower};
use crate::text::{chars_of, extend, slice, string_of, trim, trim_start, trimmed, trimmed_start};
use vstd::prelude::*;

verus! {

/// The texts of the tags.
pub open spec fn tag_texts(tags: Seq<String>) -> Seq<Seq<char>> {
    tags.map_values(|t: String| t@)
}

/// Equal but for the case of ASCII letters.
pub open spec fn same_ignoring_case(a: Seq<char>, b: Seq<char>) -> bool {
    a.len() == b.len() && forall|i: int| 0 <= i < a.len() ==> lower(#[trigger] a[i]) == lower(b[i])
}

/// The index of the first of `tags`, from `k` on, that `tag` names.
pub open spec fn tag_index(tag: Seq<char>, tags: Seq<Seq<char>>, k: nat) -> Option<nat>
    decreases tags.len() - k,
{
    if k >= tags.len() {
        None
    } else if same_ignoring_case(tag, tags[k as int]) {
        Some(k)
    } else {
        tag_index(tag, tags, k + 1)
    }
}

/// `s` without the spaces and dashes it starts with.
pub open spec fn skip_separators(s: Seq<char>) -> Seq<char>
    decreases s.len(),
{
    if s.len() > 0 && (s[0] == ' ' || s[0] == '-') {
        skip_separators(s.subrange(1, s.len() as int))
    } else {
        s
    }
}

/// Reads known tags off the start of `r`, marking each in `cats`; stops at
/// the first text that is not a known tag, and gives what is left.
pub open spec fn strip_tags(r: Seq<char>, tags: Seq<Seq<char>>, cats: Seq<bool>) -> (
    Seq<bool>,
    Seq<char>,
)
    decreases r.len(),
{
    let t = trim_start(r);
    if !(t.len() > 0 && t[0] == '[') {
        (cats, t)
    } else {
        let e = index_of(t, ']');
        if e < t.len() {
            match tag_index(t.subrange(1, e as int), tags, 0) {
                Some(k) => {
                    let rest = skip_separators(t.subrange((e + 1) as int, t.len() as int));
                    if rest.len() < r.len() {
                        strip_tags(rest, tags, cats.update(k as int, true))
                    } else {
                        (cats, r)
                    }
                },
                None => (cats, r),
            }
        } else {
            (cats, r)
        }
    }
}

/// The tags marked at the start of a description, one flag for each tag,
/// and the description without them.
pub open spec fn categories_of(description: Seq<char>, tags: Seq<Seq<char>>) -> (
    Seq<bool>,
    Seq<char>,
) {
    strip_tags(trim(description), tags, Seq::new(tags.len(), |i: int| false))
}

fn same_ignoring_case_exec(a: &Vec<char>, b: &Vec<char>) -> (r: bool)
    ensures
        r == same_ignoring_case(a@, b@),
{
    if a.len() != b.len() {
        return false;
    }
    let mut i: usize = 0;
    while i < a.len()
        invariant
            a@.len() == b@.len(),
            i <= a@.len(),
            forall|k: int| 0 <= k < i ==> lower(#[trigger] a@[k]) == lower(b@[k]),
        decreases a@.len() - i,
    {
        let x = a[i];
        let y = b[i];
        let lx = if 'A' <= x && x <= 'Z' {
            ((x as u8) + 32) as char
        } else {
            x
        };
        let ly = if 'A' <= y && y <= 'Z' {
            ((y as u8) + 32) as char
        } else {
            y
        };
        if lx != ly {
            return false;
        }
        i = i + 1;
    }
    true
}

fn skip_separators_exec(s: &Vec<char>, from: usize) -> (r: usize)
    requires
        from <= s@.len(),
    ensures
        from <= r <= s@.len(),
        s@.subrange(r as int, s@.len() as int) == skip_separators(
            s@.subrange(from as int, s@.len() as int),
        ),
{
    let mut i = from;
    while i < s.len() && (s[i] == ' ' || s[i] == '-')
        invariant
            from <= i <= s@.len(),
            skip_separators(s@.subrange(i as int, s@.len() as int)) == skip_separators(
                s@.subrange(from as int, s@.len() as int),
            ),
        decreases s@.len() - i,
    {
        assert(s@.subrange(i as int, s@.len() as int).subrange(1, s@.len() - i) =~= s@.subrange(
            i + 1,
            s@.len() as int,
        ));
        i = i + 1;
    }
    assert(s@.subrange(i as int, s@.len() as int) == skip_separators(
        s@.subrange(i as int, s@.len() as int),
    ));
    i
}

/// The index of the first tag that `tag` names, ignoring case.
fn find_tag(tag: &Vec<char>, tags: &Vec<String>) -> (r: Option<usize>)
    ensures
        r matches Some(k) ==> k < tags@.len() && tag_index(tag@, tag_texts(tags@), 0) == Some(
            k as nat,
        ),
        r is None ==> tag_index(tag@, tag_texts(tags@), 0) is None,
{
    let ghost ts = tag_texts(tags@);
    let mut k: usize = 0;
    while k < tags.len()
        invariant
            ts == tag_texts(tags@),
            k <= tags@.len(),
            tag_index(tag@, ts, 0) == tag_index(tag@, ts, k as nat),
        decreases tags@.len() - k,
    {
        let name = chars_of(tags[k].as_str());
        if same_ignoring_case_exec(tag, &name) {
            return Some(k);
        }
        k = k + 1;
    }
    None
}

/// Reads category tags like "[FE][BE]" off the start of a description
/// (see `categories_of`).
pub fn parse_categories_from_description(description: &str, tags: &Vec<String>) -> (r: (
    Vec<bool>,
    String,
))
    ensures
        (r.0@, r.1@) == categories_of(description@, tag_texts(tags@)),
{
    let ghost ts = tag_texts(tags@);
    let mut cats: Vec<bool> = Vec::new();
    let mut j: usize = 0;
    while j < tags.len()
        invariant
            j <= tags@.len(),
            cats@ == Seq::new(j as nat, |i: int| false),
        decreases tags@.len() - j,
    {
        cats.push(false);
        j = j + 1;
        assert(cats@ =~= Seq::new(j as nat, |i: int| false));
    }
    let d = chars_of(description);
    let mut rem = trimmed(&d);
    loop
        invariant
            ts == tag_texts(tags@),
            cats@.len() == tags@.len(),
            strip_tags(rem@, ts, cats@) == categories_of(description@, ts),
        decreases rem@.len(),
    {
        let t = trimmed_start(&rem);
        proof {
            crate::text::lemma_trim_start_len(rem@);
        }
        if !(t.len() > 0 && t[0] == '[') {
            return (cats, string_of(&t));
        }
        let e = index_of_exec(&t, ']');
        if e >= t.len() {
            return (cats, string_of(&rem));
        }
        proof {
            crate::clock::lemma_find_occurs(t@, seq![']'], 0);
            assert(t@.subrange(e as int, e + 1)[0] == t@[e as int]);
        }
        let tag = slice(&t, 1, e);
        let k = match find_tag(&tag, tags) {
            Some(k) => k,
            None => {
                return (cats, string_of(&rem));
            },
        };
        let ghost old_cats = cats@;
        cats.set(k, true);
        assert(cats@ == old_cats.update(k as int, true));
        let s = skip_separators_exec(&t, e + 1);
        let ghost prev = rem@;
        rem = slice(&t, s, t.len());
        assert(rem@.len() < prev.len());
    }
}

/// The tag prefix "[FE][BE]" of the marked tags.
pub open spec fn tag_prefix(cats: Seq<bool>, tags: Seq<Seq<char>>) -> Seq<char>
    decreases cats.len(),
{
    if cats.len() == 0 {
        seq![]
    } else {
        let k = cats.len() - 1;
        tag_prefix(cats.drop_last(), tags) + if cats[k] && k < tags.len() {
            seq!['['] + tags[k] + seq![']']
        } else {
            seq![]
        }
    }
}

/// A description with its marked tags in front: the description as it is
/// where no tag is marked, the tags alone where it is blank.
pub open spec fn tagged_description(cats: Seq<bool>, tags: Seq<Seq<char>>, d: Seq<char>) -> Seq<
    char,
> {
    let p = tag_prefix(cats, tags);
    if p.len() == 0 {
        d
    } else if trim(d).len() == 0 {
        p
    } else {
        p + seq![' '] + trim(d)
    }
}

/// Writes the marked tags in front of a description (see
/// `tagged_description`).
pub fn describe_with_categories(categories: &Vec<bool>, tags: &Vec<String>, description: &str) -> (r:
    String)
    ensures
        r@ == tagged_description(categories@, tag_texts(tags@), description@),
{
    let ghost ts = tag_texts(tags@);
    let mut p: Vec<char> = Vec::new();
    let mut i: usize = 0;
    while i < categories.len()
        invariant
            i <= categories@.len(),
            ts == tag_texts(tags@),
            p@ == tag_prefix(categories@.subrange(0, i as int), ts),
        decreases categories@.len() - i,
    {
        assert(categories@.subrange(0, i + 1).drop_last() =~= categories@.subrange(0, i as int));
        if categories[i] && i < tags.len() {
            p.push('[');
            let name = chars_of(tags[i].as_str());
            extend(&mut p, &name);
            p.push(']');
        }
        i = i + 1;
        assert(p@ =~= tag_prefix(categories@.subrange(0, i as int), ts));
    }
    assert(categories@.subrange(0, i as int) =~= categories@);
    let d = chars_of(description);
    if p.len() == 0 {
        return string_of(&d);
    }
    let t = trimmed(&d);
    if t.len() == 0 {
        return string_of(&p);
    }
    p.push(' ');
    extend(&mut p, &t);
    string_of(&p)
}

} // verus!
