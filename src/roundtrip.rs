//! What holds when text goes from a document to text and back.

use crate::document::{Kind, Mark, Tree, block, text_tree};
use crate::markdown::{doc_of, paragraph_tree, blocks_from, block_at, digits_end, is_bullet, is_quote, starts_with};
use crate::render::{emit, emit_seq, fence, indent, marked, text_of};
use crate::spans::{find_from, find_pattern, inline_nodes, occurs_at, try_inline};
use crate::text::{is_digit, is_space, join_lines, line_scan, split_lines, trim, trim_end, trim_start};
use vstd::prelude::*;

verus! {

/// A document of one paragraph that holds one bold run of `s`.
pub open spec fn bold_doc(s: Seq<char>) -> Tree {
    block(Kind::Document, seq![block(Kind::Paragraph, seq![text_tree(s, seq![Mark::Strong])])])
}

/// `s` between bold delimiters.
pub open spec fn bold_text(s: Seq<char>) -> Seq<char> {
    seq!['*', '*'] + s + seq!['*', '*']
}

proof fn lemma_strong_only(x: Mark)
    ensures
        seq![Mark::Strong].contains(x) == (x == Mark::Strong),
{
    if x == Mark::Strong {
        assert(seq![Mark::Strong][0] == x);
    }
}

/// The text of a document of one paragraph that holds one text run.
proof fn lemma_one_run_text(text: Seq<char>, marks: Seq<Mark>)
    ensures
        text_of(block(Kind::Document, seq![block(Kind::Paragraph, seq![text_tree(text, marks)])]))
            == trim(marked(text, marks)),
{
    let txt = text_tree(text, marks);
    let para = block(Kind::Paragraph, seq![txt]);
    let doc = block(Kind::Document, seq![para]);
    assert(doc.content.drop_last() =~= Seq::<Tree>::empty());
    assert(para.content.drop_last() =~= Seq::<Tree>::empty());
    assert(indent(0) =~= Seq::<char>::empty());
    let lines0: Seq<Seq<char>> = seq![];
    assert(emit_seq(Seq::<Tree>::empty(), 0, lines0) == lines0);
    assert(emit_seq(Seq::<Tree>::empty(), 0, lines0.push(indent(0))) == lines0.push(indent(0)));
    assert(doc.content.last() == para);
    assert(para.content.last() == txt);
    assert(emit_seq(doc.content, 0, lines0) == emit(para, 0, lines0));
    assert(emit(para, 0, lines0) == emit_seq(para.content, 0, lines0.push(indent(0))));
    assert(emit_seq(para.content, 0, lines0.push(indent(0))) == emit(
        txt,
        0,
        lines0.push(indent(0)),
    ));
    assert(emit(txt, 0, lines0.push(indent(0))) =~= seq![marked(text, marks)]);
    assert(join_lines(seq![marked(text, marks)]) == marked(text, marks));
}

/// The text of a document holding a single bold run is that run wrapped
/// in exactly `**`.
pub proof fn lemma_bold_run_text(s: Seq<char>)
    ensures
        text_of(bold_doc(s)) == bold_text(s),
{
    lemma_strong_only(Mark::Code);
    lemma_strong_only(Mark::Em);
    lemma_strong_only(Mark::Strong);
    lemma_strong_only(Mark::Strike);
    assert(marked(s, seq![Mark::Strong]) =~= bold_text(s));
    lemma_one_run_text(s, seq![Mark::Strong]);
    let x = bold_text(s);
    assert(x[0] == '*');
    assert(trim_start(x) == x);
    assert(x.last() == '*');
    assert(trim_end(x) == x);
}

/// No occurrence from `i` on: the search finds none.
proof fn lemma_find_none(t: Seq<char>, d: Seq<char>, i: nat)
    requires
        forall|j: int| i <= j ==> !#[trigger] occurs_at(t, d, j),
    ensures
        find_from(t, d, i) is None,
    decreases t.len() - i,
{
    if !(i >= t.len() || i + d.len() > t.len()) {
        lemma_find_none(t, d, i + 1);
    }
}

/// The first occurrence from `i` on is the one found.
proof fn lemma_find_first(t: Seq<char>, d: Seq<char>, i: nat, p: nat)
    requires
        i <= p,
        d.len() > 0,
        occurs_at(t, d, p as int),
        forall|j: int| i <= j < p ==> !#[trigger] occurs_at(t, d, j),
    ensures
        find_from(t, d, i) == Some(p),
    decreases p - i,
{
    if i < p {
        assert(!occurs_at(t, d, i as int));
        lemma_find_first(t, d, i + 1, p);
    }
}

/// A text without a line feed is one line in progress.
proof fn lemma_one_line(x: Seq<char>)
    requires
        !x.contains('\n'),
    ensures
        line_scan(x) == (Seq::<Seq<char>>::empty(), x),
    decreases x.len(),
{
    if x.len() > 0 {
        assert(!x.drop_last().contains('\n')) by {
            if x.drop_last().contains('\n') {
                let j = choose|j: int| 0 <= j < x.drop_last().len() && x.drop_last()[j] == '\n';
                assert(x[j] == '\n');
            }
        }
        lemma_one_line(x.drop_last());
        assert(x[x.len() - 1] != '\n');
        assert(x.drop_last().push(x.last()) =~= x);
    } else {
        assert(x =~= Seq::<char>::empty());
    }
}

/// The text of a single bold run reads back as the same document, so
/// rendering it again gives the same text: a fixed point. This holds for
/// runs with some text, no `*` and no line feed.
pub proof fn lemma_bold_run_fixed_point(s: Seq<char>)
    requires
        s.len() > 0,
        !s.contains('*'),
        !s.contains('\n'),
    ensures
        doc_of(text_of(bold_doc(s))) == bold_doc(s),
        text_of(doc_of(text_of(bold_doc(s)))) == text_of(bold_doc(s)),
{
    lemma_bold_run_text(s);
    let x = bold_text(s);
    let n = x.len() as int;
    assert(forall|k: int| 2 <= k < n - 2 ==> x[k] == s[k - 2]);
    assert(forall|k: int| 0 <= k < s.len() ==> s[k] != '*' && s[k] != '\n');
    assert(x[0] == '*' && x[1] == '*' && x[n - 2] == '*' && x[n - 1] == '*');
    // One line.
    assert(!x.contains('\n')) by {
        if x.contains('\n') {
            let j = choose|j: int| 0 <= j < x.len() && x[j] == '\n';
            assert(2 <= j < n - 2);
        }
    }
    lemma_one_line(x);
    let ls = split_lines(x);
    assert(ls == seq![x]);
    // The line is a paragraph.
    assert(!is_space(x[0]));
    assert(trim_start(x) == x);
    assert(!is_space(x.last()));
    assert(trim_end(x) == x);
    assert(!starts_with(x, fence())) by {
        if starts_with(x, fence()) {
            assert(x.subrange(0, 3)[0] == x[0]);
        }
    }
    assert(!is_quote(x)) by {
        if starts_with(x, seq!['>', ' ']) {
            assert(x.subrange(0, 2)[0] == x[0]);
        }
        if x == seq!['>'] {
            assert(x[0] == '>');
        }
    }
    assert(!starts_with(x, seq!['#'])) by {
        if starts_with(x, seq!['#']) {
            assert(x.subrange(0, 1)[0] == x[0]);
        }
    }
    assert(!is_bullet(x)) by {
        if starts_with(x, seq!['-', ' ']) {
            assert(x.subrange(0, 2)[0] == x[0]);
        }
        if starts_with(x, seq!['*', ' ']) {
            assert(x.subrange(0, 2)[1] == x[1]);
        }
    }
    assert(!is_digit(x[0]));
    assert(digits_end(x, 0) == 0);
    assert(block_at(ls, 0) == (Some(paragraph_tree(x)), 1nat));
    assert(blocks_from(ls, 0) =~= seq![paragraph_tree(x)]);
    // Its inline content is the bold run.
    let d3 = seq!['*', '*', '*'];
    let d2 = seq!['*', '*'];
    assert forall|j: int| 0 <= j implies !#[trigger] occurs_at(x, d3, j) by {
        if occurs_at(x, d3, j) {
            let w = x.subrange(j, j + 3);
            assert(w[0] == x[j] && w[1] == x[j + 1] && w[2] == x[j + 2]);
        }
    }
    lemma_find_none(x, d3, 0);
    assert(x.subrange(0, 2) =~= d2);
    lemma_find_first(x, d2, 0, 0);
    let rest = x.subrange(2, n);
    assert(rest =~= s + d2);
    assert(rest.subrange(s.len() as int, (s.len() + 2) as int) =~= d2);
    assert forall|j: int| 0 <= j < s.len() implies !#[trigger] occurs_at(rest, d2, j) by {
        if occurs_at(rest, d2, j) {
            assert(rest.subrange(j, j + 2)[0] == rest[j]);
        }
    }
    lemma_find_first(rest, d2, 0, s.len());
    assert(rest.subrange(0, s.len() as int) =~= s);
    assert(rest.subrange((s.len() + 2) as int, rest.len() as int) =~= Seq::<char>::empty());
    assert(x.subrange(0, 0) =~= Seq::<char>::empty());
    assert(find_pattern(x, d2) == Some((Seq::<char>::empty(), s, Seq::<char>::empty())));
    assert(try_inline(x) == Some(
        (Seq::<char>::empty(), s, seq![Mark::Strong], Seq::<char>::empty()),
    ));
    assert(inline_nodes(Seq::<char>::empty()) == Seq::<Tree>::empty());
    assert(inline_nodes(x) =~= seq![text_tree(s, seq![Mark::Strong])]);
    assert(doc_of(x) =~= bold_doc(s));
}


/// A character that delimits an inline span.
pub open spec fn is_delimiter(c: char) -> bool {
    c == '*' || c == '_' || c == '~' || c == '`'
}

/// A line of plain text: no line feed and no span delimiter, and, trimmed,
/// some text that does not start as a heading, a quote, a list item or a
/// number.
pub open spec fn is_plain_line(s: Seq<char>) -> bool {
    let p = trim(s);
    &&& forall|i: int| 0 <= i < s.len() ==> #[trigger] s[i] != '\n' && !is_delimiter(s[i])
    &&& p.len() > 0
    &&& p[0] != '#' && p[0] != '>' && p[0] != '-' && !is_digit(p[0])
}

/// A document of one paragraph of plain text.
pub open spec fn plain_doc(p: Seq<char>) -> Tree {
    block(Kind::Document, seq![block(Kind::Paragraph, seq![text_tree(p, seq![])])])
}

/// Plain text holds no delimiter pair.
proof fn lemma_no_span(p: Seq<char>, d: Seq<char>)
    requires
        d.len() > 0,
        is_delimiter(d[0]),
        forall|i: int| 0 <= i < p.len() ==> !is_delimiter(#[trigger] p[i]),
    ensures
        find_pattern(p, d) is None,
{
    assert forall|j: int| 0 <= j implies !#[trigger] occurs_at(p, d, j) by {
        if occurs_at(p, d, j) {
            assert(p.subrange(j, j + d.len())[0] == p[j]);
        }
    }
    lemma_find_none(p, d, 0);
}

/// A line of plain text reads as one paragraph of its trimmed text and
/// renders back as that text; reading that text again gives the same
/// document. The round trip keeps the line but for white space at its ends.
pub proof fn lemma_plain_line_round_trip(s: Seq<char>)
    requires
        is_plain_line(s),
    ensures
        doc_of(s) == plain_doc(trim(s)),
        text_of(doc_of(s)) == trim(s),
        doc_of(text_of(doc_of(s))) == doc_of(s),
{
    lemma_plain_line_reads(s);
    let p = trim(s);
    crate::text::lemma_trim(s);
    let a = choose|a: int| 0 <= a && a + p.len() <= s.len() && #[trigger] s.subrange(a, a + p.len()) == p;
    assert forall|i: int| 0 <= i < p.len() implies #[trigger] p[i] != '\n' && !is_delimiter(p[i]) by {
        assert(p[i] == s.subrange(a, a + p.len())[i]);
        assert(s[a + i] != '\n' && !is_delimiter(s[a + i]));
    }
    assert(trim(p) == p);
    assert(is_plain_line(p));
    lemma_plain_line_reads(p);
    assert(marked(p, seq![]) =~= p);
    lemma_one_run_text(p, seq![]);
}

/// A paragraph of one plain text run.
pub open spec fn plain_paragraph(p: Seq<char>) -> Tree {
    block(Kind::Paragraph, seq![text_tree(p, seq![])])
}

/// A plain line among others reads as one paragraph of its trimmed text.
proof fn lemma_plain_block(ls: Seq<Seq<char>>, i: nat)
    requires
        i < ls.len(),
        is_plain_line(ls[i as int]),
    ensures
        block_at(ls, i) == (Some(plain_paragraph(trim(ls[i as int]))), i + 1),
{
    let s = ls[i as int];
    let p = trim(s);
    crate::text::lemma_trim(s);
    crate::text::lemma_trim_start_suffix(s);
    let a = choose|a: int| 0 <= a && a + p.len() <= s.len() && #[trigger] s.subrange(a, a + p.len()) == p;
    assert forall|j: int| 0 <= j < p.len() implies !is_delimiter(#[trigger] p[j]) by {
        assert(p[j] == s.subrange(a, a + p.len())[j]);
        assert(!is_delimiter(s[a + j]));
    }
    let t = trim_start(s);
    assert(t[0] == p[0]);
    crate::text::lemma_trim_start_len(s);
    crate::text::lemma_trim_end_prefix(t);
    assert(t.len() > 0);
    let k = s.len() - t.len();
    assert(t[0] == s.subrange(k, s.len() as int)[0]);
    assert(t[0] == s[k]);
    assert(!is_delimiter(t[0]));
    assert(!starts_with(t, fence())) by {
        if starts_with(t, fence()) {
            assert(t.subrange(0, 3)[0] == t[0]);
        }
    }
    assert(!is_quote(t)) by {
        if starts_with(t, seq!['>', ' ']) {
            assert(t.subrange(0, 2)[0] == t[0]);
        }
        if t == seq!['>'] {
            assert(t[0] == '>');
        }
    }
    assert(!starts_with(t, seq!['#'])) by {
        if starts_with(t, seq!['#']) {
            assert(t.subrange(0, 1)[0] == t[0]);
        }
    }
    assert(!is_bullet(t)) by {
        if starts_with(t, seq!['-', ' ']) {
            assert(t.subrange(0, 2)[0] == t[0]);
        }
        if starts_with(t, seq!['*', ' ']) {
            assert(t.subrange(0, 2)[0] == t[0]);
        }
    }
    assert(digits_end(t, 0) == 0);
    lemma_no_span(p, seq!['*', '*', '*']);
    lemma_no_span(p, seq!['*', '*']);
    lemma_no_span(p, seq!['~', '~']);
    lemma_no_span(p, seq!['`']);
    lemma_no_span(p, seq!['*']);
    lemma_no_span(p, seq!['_']);
    assert(try_inline(p) is None);
    assert(inline_nodes(p) =~= seq![text_tree(p, seq![])]);
    assert(paragraph_tree(p) == plain_paragraph(p));
}

proof fn lemma_plain_line_reads(s: Seq<char>)
    requires
        is_plain_line(s),
    ensures
        doc_of(s) == plain_doc(trim(s)),
{
    assert(!s.contains('\n')) by {
        if s.contains('\n') {
            let j = choose|j: int| 0 <= j < s.len() && s[j] == '\n';
        }
    }
    crate::text::lemma_trim(s);
    lemma_one_line(s);
    let ls = split_lines(s);
    assert(ls == seq![s]);
    lemma_plain_block(ls, 0);
    assert(blocks_from(ls, 0) =~= seq![plain_paragraph(trim(s))]);
    assert(doc_of(s) =~= plain_doc(trim(s)));
}

/// The trimmed lines of a text.
pub open spec fn trimmed_lines(ls: Seq<Seq<char>>) -> Seq<Seq<char>> {
    Seq::new(ls.len(), |k: int| trim(ls[k]))
}

proof fn lemma_plain_blocks(ls: Seq<Seq<char>>, i: nat)
    requires
        i <= ls.len(),
        forall|k: int| 0 <= k < ls.len() ==> is_plain_line(#[trigger] ls[k]),
    ensures
        blocks_from(ls, i) == Seq::new(
            (ls.len() - i) as nat,
            |k: int| plain_paragraph(trim(ls[i + k])),
        ),
    decreases ls.len() - i,
{
    if i < ls.len() {
        lemma_plain_block(ls, i);
        lemma_plain_blocks(ls, i + 1);
        assert(blocks_from(ls, i) =~= Seq::new(
            (ls.len() - i) as nat,
            |k: int| plain_paragraph(trim(ls[i + k])),
        ));
    } else {
        assert(blocks_from(ls, i) =~= Seq::new(0, |k: int| plain_paragraph(trim(ls[i + k]))));
    }
}

/// Paragraphs of plain runs render one line each.
proof fn lemma_emit_paragraphs(ps: Seq<Seq<char>>)
    ensures
        emit_seq(Seq::new(ps.len(), |k: int| plain_paragraph(ps[k])), 0, seq![]) == ps,
    decreases ps.len(),
{
    let blocks = Seq::new(ps.len(), |k: int| plain_paragraph(ps[k]));
    if ps.len() > 0 {
        let before = ps.drop_last();
        lemma_emit_paragraphs(before);
        assert(blocks.drop_last() =~= Seq::new(before.len(), |k: int| plain_paragraph(before[k])));
        let para = blocks.last();
        let txt = text_tree(ps.last(), seq![]);
        assert(para.content.drop_last() =~= Seq::<Tree>::empty());
        assert(para.content.last() == txt);
        assert(indent(0) =~= Seq::<char>::empty());
        assert(emit_seq(Seq::<Tree>::empty(), 0, before.push(indent(0))) == before.push(indent(0)));
        assert(marked(ps.last(), seq![]) =~= ps.last());
        assert(emit(txt, 0, before.push(indent(0))) =~= ps);
        assert(emit_seq(para.content, 0, before.push(indent(0))) == emit(
            txt,
            0,
            before.push(indent(0)),
        ));
        assert(emit(para, 0, before) == emit_seq(para.content, 0, before.push(indent(0))));
        assert(emit_seq(blocks, 0, seq![]) == emit(para, 0, emit_seq(blocks.drop_last(), 0, seq![])));
    } else {
        assert(blocks =~= Seq::<Tree>::empty());
        assert(ps =~= Seq::<Seq<char>>::empty());
    }
}

/// Joined lines start with the first line and end with the last, where
/// those are not empty.
proof fn lemma_join_ends(qs: Seq<Seq<char>>)
    requires
        qs.len() > 0,
        qs[0].len() > 0,
        qs.last().len() > 0,
    ensures
        join_lines(qs).len() > 0,
        join_lines(qs)[0] == qs[0][0],
        join_lines(qs).last() == qs.last().last(),
    decreases qs.len(),
{
    if qs.len() > 1 {
        let a = qs.drop_last();
        lemma_join_first(a);
        let x = join_lines(a) + seq!['\n'] + qs.last();
        assert(x[0] == join_lines(a)[0]);
        assert(x.last() == qs.last().last());
    }
}

proof fn lemma_join_first(qs: Seq<Seq<char>>)
    requires
        qs.len() > 0,
        qs[0].len() > 0,
    ensures
        join_lines(qs).len() > 0,
        join_lines(qs)[0] == qs[0][0],
    decreases qs.len(),
{
    if qs.len() > 1 {
        let a = qs.drop_last();
        lemma_join_first(a);
        let x = join_lines(a) + seq!['\n'] + qs.last();
        assert(x[0] == join_lines(a)[0]);
    }
}

/// Lines of plain text read as one paragraph each, in order, and render
/// back as the same lines trimmed: the round trip keeps the blocks and
/// their order, and each line's text but for white space at its ends.
pub proof fn lemma_plain_lines_round_trip(s: Seq<char>)
    requires
        split_lines(s).len() > 0,
        forall|k: int| 0 <= k < split_lines(s).len() ==> is_plain_line(#[trigger] split_lines(s)[k]),
    ensures
        doc_of(s) == block(
            Kind::Document,
            Seq::new(split_lines(s).len(), |k: int| plain_paragraph(trim(split_lines(s)[k]))),
        ),
        text_of(doc_of(s)) == join_lines(trimmed_lines(split_lines(s))),
{
    let ls = split_lines(s);
    let n = ls.len();
    lemma_plain_blocks(ls, 0);
    assert(blocks_from(ls, 0) =~= Seq::new(n, |k: int| plain_paragraph(trim(ls[k]))));
    let qs = trimmed_lines(ls);
    assert(Seq::new(n, |k: int| plain_paragraph(trim(ls[k]))) =~= Seq::new(
        qs.len(),
        |k: int| plain_paragraph(qs[k]),
    ));
    lemma_emit_paragraphs(qs);
    let first = ls[0];
    let last = ls[n - 1];
    crate::text::lemma_trim(first);
    crate::text::lemma_trim_start_suffix(first);
    crate::text::lemma_trim(last);
    crate::text::lemma_trim_end_prefix(trim_start(last));
    lemma_join_ends(qs);
    let x = join_lines(qs);
    assert(!is_space(x[0]));
    assert(trim_start(x) == x);
    assert(!is_space(x.last()));
    assert(trim_end(x) == x);
}

} // verus!
