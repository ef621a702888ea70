//! Inline formatting: `***both***`, `**bold**`, `~~strike~~`, `` `code` ``,
//! `*italic*` and `_italic_` in a line of text.

use crate::document::{Mark, Node, Tree, lemma_trees_of_push, text_tree, trees_of};
use crate::text::{slice, string_of};
use vstd::prelude::*;

verus! {

/// `d` occurs in `t` at index `i`.
pub open spec fn occurs_at(t: Seq<char>, d: Seq<char>, i: int) -> bool {
    0 <= i && i + d.len() <= t.len() && t.subrange(i, i + d.len()) == d
}

/// The first index at or after `i` where `d` occurs in `t`.
pub open spec fn find_from(t: Seq<char>, d: Seq<char>, i: nat) -> Option<nat>
    decreases t.len() - i,
{
    if i >= t.len() || i + d.len() > t.len() {
        None
    } else if occurs_at(t, d, i as int) {
        Some(i)
    } else {
        find_from(t, d, i + 1)
    }
}

/// The text before a first `d`, between it and the next `d`, and after
/// that; none where there is no such pair or nothing between the two.
pub open spec fn find_pattern(t: Seq<char>, d: Seq<char>) -> Option<
    (Seq<char>, Seq<char>, Seq<char>),
> {
    match find_from(t, d, 0) {
        None => None,
        Some(p) => {
            let rest = t.subrange((p + d.len()) as int, t.len() as int);
            match find_from(rest, d, 0) {
                None => None,
                Some(e) => if e == 0 {
                    None
                } else {
                    Some(
                        (
                            t.subrange(0, p as int),
                            rest.subrange(0, e as int),
                            rest.subrange((e + d.len()) as int, rest.len() as int),
                        ),
                    )
                },
            }
        },
    }
}

/// The first delimiter pair found, tried in a fixed order, with the marks
/// it stands for.
pub open spec fn try_inline(t: Seq<char>) -> Option<(Seq<char>, Seq<char>, Seq<Mark>, Seq<char>)> {
    if let Some((b, c, a)) = find_pattern(t, seq!['*', '*', '*']) {
        Some((b, c, seq![Mark::Strong, Mark::Em], a))
    } else if let Some((b, c, a)) = find_pattern(t, seq!['*', '*']) {
        Some((b, c, seq![Mark::Strong], a))
    } else if let Some((b, c, a)) = find_pattern(t, seq!['~', '~']) {
        Some((b, c, seq![Mark::Strike], a))
    } else if let Some((b, c, a)) = find_pattern(t, seq!['`']) {
        Some((b, c, seq![Mark::Code], a))
    } else if let Some((b, c, a)) = find_pattern(t, seq!['*']) {
        Some((b, c, seq![Mark::Em], a))
    } else if let Some((b, c, a)) = find_pattern(t, seq!['_']) {
        Some((b, c, seq![Mark::Em], a))
    } else {
        None
    }
}

/// The text nodes of a non-empty line: plain text before each delimited
/// span, the span with its marks, and the plain rest.
pub open spec fn inline_nodes(t: Seq<char>) -> Seq<Tree>
    decreases t.len(),
{
    if t.len() == 0 {
        seq![]
    } else {
        match try_inline(t) {
            Some((b, c, m, a)) => if a.len() < t.len() {
                (if b.len() > 0 {
                    seq![text_tree(b, seq![])]
                } else {
                    seq![]
                }) + seq![text_tree(c, m)] + inline_nodes(a)
            } else {
                seq![]
            },
            None => seq![text_tree(t, seq![])],
        }
    }
}

/// The inline content of a line; an empty line gives one empty text node.
pub open spec fn inline_content(t: Seq<char>) -> Seq<Tree> {
    if t.len() == 0 {
        seq![text_tree(seq![], seq![])]
    } else {
        inline_nodes(t)
    }
}

fn occurs_at_exec(t: &Vec<char>, d: &Vec<char>, i: usize) -> (r: bool)
    requires
        i + d@.len() <= t@.len(),
    ensures
        r == occurs_at(t@, d@, i as int),
{
    let n = t.len();
    let mut k: usize = 0;
    while k < d.len()
        invariant
            n == t@.len(),
            k <= d@.len(),
            i + d@.len() <= t@.len(),
            forall|j: int| 0 <= j < k ==> t@[i + j] == d@[j],
        decreases d@.len() - k,
    {
        if t[i + k] != d[k] {
            assert(t@.subrange(i as int, i + d@.len())[k as int] != d@[k as int]);
            return false;
        }
        k = k + 1;
    }
    assert(t@.subrange(i as int, i + d@.len()) =~= d@);
    true
}

pub fn find_from_exec(t: &Vec<char>, d: &Vec<char>, from: usize) -> (r: Option<usize>)
    requires
        d@.len() > 0,
    ensures
        r matches Some(p) ==> find_from(t@, d@, from as nat) == Some(p as nat),
        r is None ==> find_from(t@, d@, from as nat) is None,
{
    let mut i = from;
    while i < t.len() && d.len() <= t.len() - i
        invariant
            from <= i,
            d@.len() > 0,
            find_from(t@, d@, from as nat) == find_from(t@, d@, i as nat),
        decreases t@.len() - i,
    {
        if occurs_at_exec(t, d, i) {
            return Some(i);
        }
        i = i + 1;
    }
    None
}

fn find_pattern_exec(t: &Vec<char>, d: &Vec<char>) -> (r: Option<(Vec<char>, Vec<char>, Vec<char>)>)
    requires
        d@.len() > 0,
    ensures
        r matches Some(x) ==> find_pattern(t@, d@) == Some((x.0@, x.1@, x.2@)),
        r is None ==> find_pattern(t@, d@) is None,
{
    proof {
        lemma_find_from_bounds(t@, d@, 0);
    }
    match find_from_exec(t, d, 0) {
        None => None,
        Some(p) => {
            let n = t.len();
            assert(p + d@.len() <= n);
            let rest = slice(t, p + d.len(), n);
            proof {
                lemma_find_from_bounds(rest@, d@, 0);
            }
            match find_from_exec(&rest, d, 0) {
                None => None,
                Some(e) => {
                    if e == 0 {
                        None
                    } else {
                        let before = slice(t, 0, p);
                        let content = slice(&rest, 0, e);
                        let after = slice(&rest, e + d.len(), rest.len());
                        Some((before, content, after))
                    }
                },
            }
        },
    }
}

pub proof fn lemma_find_from_bounds(t: Seq<char>, d: Seq<char>, i: nat)
    ensures
        find_from(t, d, i) matches Some(p) ==> i <= p && p + d.len() <= t.len(),
    decreases t.len() - i,
{
    if !(i >= t.len() || i + d.len() > t.len()) && !occurs_at(t, d, i as int) {
        lemma_find_from_bounds(t, d, i + 1);
    }
}

proof fn lemma_find_pattern_shorter(t: Seq<char>, d: Seq<char>)
    requires
        d.len() > 0,
    ensures
        find_pattern(t, d) matches Some(x) ==> x.2.len() < t.len(),
{
    lemma_find_from_bounds(t, d, 0);
    if let Some(p) = find_from(t, d, 0) {
        let rest = t.subrange((p + d.len()) as int, t.len() as int);
        lemma_find_from_bounds(rest, d, 0);
    }
}

proof fn lemma_try_inline_shorter(t: Seq<char>)
    ensures
        try_inline(t) matches Some(x) ==> x.3.len() < t.len(),
{
    lemma_find_pattern_shorter(t, seq!['*', '*', '*']);
    lemma_find_pattern_shorter(t, seq!['*', '*']);
    lemma_find_pattern_shorter(t, seq!['~', '~']);
    lemma_find_pattern_shorter(t, seq!['`']);
    lemma_find_pattern_shorter(t, seq!['*']);
    lemma_find_pattern_shorter(t, seq!['_']);
}

fn try_inline_exec(t: &Vec<char>) -> (r: Option<(Vec<char>, Vec<char>, Vec<Mark>, Vec<char>)>)
    ensures
        r matches Some(x) ==> try_inline(t@) == Some((x.0@, x.1@, x.2@, x.3@)),
        r is None ==> try_inline(t@) is None,
{
    let d3: Vec<char> = vec!['*', '*', '*'];
    let d2: Vec<char> = vec!['*', '*'];
    let dt: Vec<char> = vec!['~', '~'];
    let dc: Vec<char> = vec!['`'];
    let d1: Vec<char> = vec!['*'];
    let du: Vec<char> = vec!['_'];
    assert(d3@ =~= seq!['*', '*', '*']);
    assert(d2@ =~= seq!['*', '*']);
    assert(dt@ =~= seq!['~', '~']);
    assert(dc@ =~= seq!['`']);
    assert(d1@ =~= seq!['*']);
    assert(du@ =~= seq!['_']);
    if let Some((b, c, a)) = find_pattern_exec(t, &d3) {
        let m: Vec<Mark> = vec![Mark::Strong, Mark::Em];
        assert(m@ =~= seq![Mark::Strong, Mark::Em]);
        return Some((b, c, m, a));
    }
    if let Some((b, c, a)) = find_pattern_exec(t, &d2) {
        let m: Vec<Mark> = vec![Mark::Strong];
        assert(m@ =~= seq![Mark::Strong]);
        return Some((b, c, m, a));
    }
    if let Some((b, c, a)) = find_pattern_exec(t, &dt) {
        let m: Vec<Mark> = vec![Mark::Strike];
        assert(m@ =~= seq![Mark::Strike]);
        return Some((b, c, m, a));
    }
    if let Some((b, c, a)) = find_pattern_exec(t, &dc) {
        let m: Vec<Mark> = vec![Mark::Code];
        assert(m@ =~= seq![Mark::Code]);
        return Some((b, c, m, a));
    }
    if let Some((b, c, a)) = find_pattern_exec(t, &d1) {
        let m: Vec<Mark> = vec![Mark::Em];
        assert(m@ =~= seq![Mark::Em]);
        return Some((b, c, m, a));
    }
    if let Some((b, c, a)) = find_pattern_exec(t, &du) {
        let m: Vec<Mark> = vec![Mark::Em];
        assert(m@ =~= seq![Mark::Em]);
        return Some((b, c, m, a));
    }
    None
}

/// A text node with the given characters and marks.
pub fn text_node(t: &Vec<char>, marks: Vec<Mark>) -> (r: Node)
    ensures
        r@ == text_tree(t@, marks@),
{
    Node::Text { text: string_of(t), marks }
}

/// Parses the inline formatting of one line into text nodes.
pub fn parse_inline_formatting(t: &Vec<char>) -> (r: Vec<Node>)
    ensures
        trees_of(r@) == inline_content(t@),
{
    let mut out: Vec<Node> = Vec::new();
    if t.len() == 0 {
        let e: Vec<char> = Vec::new();
        out.push(text_node(&e, Vec::new()));
        proof {
            lemma_trees_of_push(seq![], out@[0]);
            assert(seq![].push(out@[0]) =~= out@);
            assert(trees_of(seq![]) =~= seq![]);
            assert(e@ =~= t@);
        }
        return out;
    }
    let mut rem: Vec<char> = slice(t, 0, t.len());
    assert(rem@ =~= t@);
    assert(trees_of(out@) =~= seq![]);
    while rem.len() > 0
        invariant
            trees_of(out@) + inline_nodes(rem@) == inline_nodes(t@),
        decreases rem@.len(),
    {
        proof {
            lemma_try_inline_shorter(rem@);
        }
        match try_inline_exec(&rem) {
            Some((b, c, m, a)) => {
                let ghost o = out@;
                if b.len() > 0 {
                    let tb = text_node(&b, Vec::new());
                    proof {
                        lemma_trees_of_push(out@, tb);
                    }
                    out.push(tb);
                }
                let tc = text_node(&c, m);
                proof {
                    lemma_trees_of_push(out@, tc);
                }
                out.push(tc);
                assert(trees_of(out@) + inline_nodes(a@) =~= trees_of(o) + inline_nodes(rem@));
                rem = a;
            },
            None => {
                let tr = text_node(&rem, Vec::new());
                proof {
                    lemma_trees_of_push(out@, tr);
                }
                out.push(tr);
                assert(trees_of(out@) =~= trees_of(out@) + inline_nodes(seq![]));
                return out;
            },
        }
    }
    assert(trees_of(out@) =~= trees_of(out@) + inline_nodes(rem@));
    out
}

} // verus!
