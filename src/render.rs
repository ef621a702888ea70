//! Rendering a structured document as markdown-like text.

use crate::document::{Kind, Mark, Node, Tree, lemma_trees_of, trees_of};
use crate::text::{
    chars_of, decimal, extend, join_lines, join_lines_of, lines_view, push_decimal, split_lines,
    split_lines_of, string_of, trim, trimmed,
};
use vstd::prelude::*;

verus! {

/// `n` spaces.
pub open spec fn spaces(n: nat) -> Seq<char> {
    Seq::new(n, |i: int| ' ')
}

/// The indentation of a block nested `depth` levels deep.
pub open spec fn indent(depth: nat) -> Seq<char> {
    spaces(2 * depth)
}

/// One level deeper; the depth stops growing at the largest `usize`.
pub open spec fn deeper(depth: nat) -> nat {
    if depth < usize::MAX {
        depth + 1
    } else {
        depth
    }
}

/// `text` inside the delimiters of its marks: code innermost, then
/// italic, bold and strikethrough.
pub open spec fn marked(text: Seq<char>, marks: Seq<Mark>) -> Seq<char> {
    let c = if marks.contains(Mark::Code) {
        seq!['`'] + text + seq!['`']
    } else {
        text
    };
    let e = if marks.contains(Mark::Em) {
        seq!['*'] + c + seq!['*']
    } else {
        c
    };
    let b = if marks.contains(Mark::Strong) {
        seq!['*', '*'] + e + seq!['*', '*']
    } else {
        e
    };
    if marks.contains(Mark::Strike) {
        seq!['~', '~'] + b + seq!['~', '~']
    } else {
        b
    }
}

/// `t` appended to the last line; a first line is started if there is none.
pub open spec fn append_last(lines: Seq<Seq<char>>, t: Seq<char>) -> Seq<Seq<char>> {
    if lines.len() == 0 {
        seq![t]
    } else {
        lines.update(lines.len() - 1, lines.last() + t)
    }
}

/// The heading level that is rendered: 1 when absent, else clamped to 1..=6.
pub open spec fn heading_level(level: Option<u64>) -> nat {
    match level {
        Some(l) => if l < 1 {
            1
        } else if l > 6 {
            6
        } else {
            l as nat
        },
        None => 1,
    }
}

pub open spec fn fence() -> Seq<char> {
    seq!['`', '`', '`']
}

/// The concatenated text of the text nodes among `cs`.
pub open spec fn code_text(cs: Seq<Tree>) -> Seq<char>
    decreases cs.len(),
{
    if cs.len() == 0 {
        seq![]
    } else {
        code_text(cs.drop_last()) + if cs.last().kind == Kind::Text {
            cs.last().text
        } else {
            seq![]
        }
    }
}

/// Lines from index `start` on get the quote prefix: `> ` before a
/// non-empty line, a bare `>` for an empty one.
pub open spec fn quoted(lines: Seq<Seq<char>>, start: nat) -> Seq<Seq<char>> {
    Seq::new(
        lines.len(),
        |i: int|
            if i < start {
                lines[i]
            } else if lines[i].len() > 0 {
                seq!['>', ' '] + lines[i]
            } else {
                seq!['>']
            },
    )
}

/// The marker of the item at index `k` of a list.
pub open spec fn list_marker(ordered: bool, k: nat) -> Seq<char> {
    if ordered {
        decimal(k + 1) + seq!['.', ' ']
    } else {
        seq!['-', ' ']
    }
}

pub open spec fn has_paragraph(cs: Seq<Tree>) -> bool
    decreases cs.len(),
{
    cs.len() > 0 && (has_paragraph(cs.drop_last()) || cs.last().kind == Kind::Paragraph)
}

/// The lines after rendering `n` at `depth` below `lines`.
pub open spec fn emit(n: Tree, depth: nat, lines: Seq<Seq<char>>) -> Seq<Seq<char>>
    decreases n,
{
    match n.kind {
        Kind::Text => append_last(lines, marked(n.text, n.marks)),
        Kind::Paragraph => emit_seq(n.content, depth, lines.push(indent(depth))),
        Kind::Heading => emit_seq(
            n.content,
            0,
            lines.push(Seq::new(heading_level(n.level), |i: int| '#').push(' ')),
        ),
        Kind::BulletList => emit_items(n.content, depth, false, lines),
        Kind::OrderedList => emit_items(n.content, depth, true, lines),
        Kind::CodeBlock => (lines.push(
            fence() + match n.language {
                Some(l) => l,
                None => seq![],
            },
        ) + split_lines(code_text(n.content))).push(fence()),
        Kind::Blockquote => quoted(emit_seq(n.content, depth, lines), lines.len()),
        Kind::HardBreak => lines.push(seq![]),
        _ => emit_seq(n.content, depth, lines),
    }
}

/// The lines after rendering each of `ns` in turn.
pub open spec fn emit_seq(ns: Seq<Tree>, depth: nat, lines: Seq<Seq<char>>) -> Seq<Seq<char>>
    decreases ns,
{
    if ns.len() == 0 {
        lines
    } else {
        emit(ns.last(), depth, emit_seq(ns.drop_last(), depth, lines))
    }
}

/// The lines after rendering the items of a list.
pub open spec fn emit_items(items: Seq<Tree>, depth: nat, ordered: bool, lines: Seq<Seq<char>>) -> Seq<
    Seq<char>,
>
    decreases items,
{
    if items.len() == 0 {
        lines
    } else {
        let k = (items.len() - 1) as nat;
        emit_item(
            items[k as int].content,
            depth,
            list_marker(ordered, k),
            emit_items(items.drop_last(), depth, ordered, lines),
        )
    }
}

/// The lines after rendering the blocks of one list item: its first
/// paragraph after the marker, later ones after padding as wide as the
/// marker, other blocks one level deeper.
pub open spec fn emit_item(cs: Seq<Tree>, depth: nat, marker: Seq<char>, lines: Seq<Seq<char>>) -> Seq<
    Seq<char>,
>
    decreases cs,
{
    if cs.len() == 0 {
        lines
    } else {
        let before = emit_item(cs.drop_last(), depth, marker, lines);
        let c = cs.last();
        if c.kind == Kind::Paragraph {
            let prefix = indent(depth) + if has_paragraph(cs.drop_last()) {
                spaces(marker.len())
            } else {
                marker
            };
            emit_seq(c.content, deeper(depth), before.push(prefix))
        } else {
            emit(c, deeper(depth), before)
        }
    }
}

/// The text of a document: its top-level blocks rendered, the lines joined
/// and white space trimmed from both ends.
pub open spec fn text_of(doc: Tree) -> Seq<char> {
    trim(join_lines(emit_seq(doc.content, 0, seq![])))
}


/// Appends a line.
fn push_line(lines: &mut Vec<Vec<char>>, l: Vec<char>)
    ensures
        lines_view(final(lines)@) == lines_view(old(lines)@).push(l@),
{
    let ghost l0 = l@;
    lines.push(l);
    assert(lines_view(lines@) =~= lines_view(old(lines)@).push(l0));
}

fn push_onto_last(lines: &mut Vec<Vec<char>>, t: &Vec<char>)
    ensures
        lines_view(final(lines)@) == append_last(lines_view(old(lines)@), t@),
{
    if lines.len() == 0 {
        let mut l: Vec<char> = Vec::new();
        extend(&mut l, t);
        push_line(lines, l);
        assert(lines_view(lines@) =~= seq![t@]);
    } else {
        let mut last = lines.pop().unwrap();
        extend(&mut last, t);
        push_line(lines, last);
        assert(lines_view(lines@) =~= append_last(lines_view(old(lines)@), t@));
    }
}

fn spaces_of(n: usize) -> (r: Vec<char>)
    ensures
        r@ == spaces(n as nat),
{
    let mut r: Vec<char> = Vec::new();
    let mut i: usize = 0;
    while i < n
        invariant
            i <= n,
            r@ == spaces(i as nat),
        decreases n - i,
    {
        r.push(' ');
        i = i + 1;
        assert(r@ =~= spaces(i as nat));
    }
    r
}

fn indent_of(depth: usize) -> (r: Vec<char>)
    ensures
        r@ == indent(depth as nat),
{
    let mut r: Vec<char> = Vec::new();
    let mut i: usize = 0;
    while i < depth
        invariant
            i <= depth,
            r@ == spaces(2 * i as nat),
        decreases depth - i,
    {
        r.push(' ');
        r.push(' ');
        i = i + 1;
        assert(r@ =~= spaces(2 * i as nat));
    }
    r
}

fn deeper_of(depth: usize) -> (r: usize)
    ensures
        r == deeper(depth as nat),
{
    if depth < usize::MAX {
        depth + 1
    } else {
        depth
    }
}

fn marked_text(text: &String, marks: &Vec<Mark>) -> (r: Vec<char>)
    ensures
        r@ == marked(text@, marks@),
{
    let mut code = false;
    let mut em = false;
    let mut strong = false;
    let mut strike = false;
    let mut i: usize = 0;
    while i < marks.len()
        invariant
            i <= marks@.len(),
            code == marks@.subrange(0, i as int).contains(Mark::Code),
            em == marks@.subrange(0, i as int).contains(Mark::Em),
            strong == marks@.subrange(0, i as int).contains(Mark::Strong),
            strike == marks@.subrange(0, i as int).contains(Mark::Strike),
        decreases marks@.len() - i,
    {
        let m = marks[i];
        let ghost pre = marks@.subrange(0, i as int);
        let ghost post = marks@.subrange(0, i + 1);
        assert(post =~= pre.push(m));
        assert forall|k: Mark| #[trigger] post.contains(k) == (pre.contains(k) || k == m) by {
            if post.contains(k) {
                let j = choose|j: int| 0 <= j < post.len() && post[j] == k;
                if j < pre.len() {
                    assert(pre[j] == k);
                }
            }
            if pre.contains(k) {
                let j = choose|j: int| 0 <= j < pre.len() && pre[j] == k;
                assert(post[j] == k);
            }
            if k == m {
                assert(post[i as int] == k);
            }
        }
        match m {
            Mark::Code => code = true,
            Mark::Em => em = true,
            Mark::Strong => strong = true,
            Mark::Strike => strike = true,
            Mark::Other => {},
        }
        i = i + 1;
    }
    assert(marks@.subrange(0, i as int) =~= marks@);
    let mut r = chars_of(text.as_str());
    if code {
        let mut w: Vec<char> = vec!['`'];
        extend(&mut w, &r);
        w.push('`');
        r = w;
    }
    if em {
        let mut w: Vec<char> = vec!['*'];
        extend(&mut w, &r);
        w.push('*');
        r = w;
    }
    if strong {
        let mut w: Vec<char> = vec!['*', '*'];
        extend(&mut w, &r);
        w.push('*');
        w.push('*');
        r = w;
    }
    if strike {
        let mut w: Vec<char> = vec!['~', '~'];
        extend(&mut w, &r);
        w.push('~');
        w.push('~');
        r = w;
    }
    assert(r@ =~= marked(text@, marks@));
    r
}

fn heading_prefix(level: Option<u64>) -> (r: Vec<char>)
    ensures
        r@ == Seq::new(heading_level(level), |i: int| '#').push(' '),
{
    let n: u64 = match level {
        Some(l) => if l < 1 {
            1
        } else if l > 6 {
            6
        } else {
            l
        },
        None => 1,
    };
    let mut r: Vec<char> = Vec::new();
    let mut i: u64 = 0;
    while i < n
        invariant
            i <= n <= 6,
            n == heading_level(level),
            r@ == Seq::new(i as nat, |j: int| '#'),
        decreases n - i,
    {
        r.push('#');
        i = i + 1;
        assert(r@ =~= Seq::new(i as nat, |j: int| '#'));
    }
    r.push(' ');
    r
}

fn code_text_of(cs: &Vec<Node>) -> (r: Vec<char>)
    ensures
        r@ == code_text(trees_of(cs@)),
{
    proof {
        lemma_trees_of(cs@);
    }
    let mut r: Vec<char> = Vec::new();
    let mut i: usize = 0;
    while i < cs.len()
        invariant
            i <= cs@.len(),
            trees_of(cs@).len() == cs@.len(),
            forall|k: int| 0 <= k < cs@.len() ==> #[trigger] trees_of(cs@)[k] == cs@[k]@,
            r@ == code_text(trees_of(cs@).subrange(0, i as int)),
        decreases cs@.len() - i,
    {
        assert(trees_of(cs@).subrange(0, i + 1).drop_last() =~= trees_of(cs@).subrange(
            0,
            i as int,
        ));
        match &cs[i] {
            Node::Text { text, marks } => {
                let t = chars_of(text.as_str());
                extend(&mut r, &t);
            },
            _ => {},
        }
        i = i + 1;
    }
    assert(trees_of(cs@).subrange(0, i as int) =~= trees_of(cs@));
    r
}

fn quote_from(lines: &mut Vec<Vec<char>>, start: usize)
    requires
        start <= old(lines)@.len(),
    ensures
        lines_view(final(lines)@) == quoted(lines_view(old(lines)@), start as nat),
{
    let ghost orig = lines_view(lines@);
    let mut i = start;
    while i < lines.len()
        invariant
            start <= i <= lines@.len(),
            lines@.len() == orig.len(),
            forall|k: int|
                0 <= k < lines@.len() ==> #[trigger] lines@[k]@ == if k < i {
                    quoted(orig, start as nat)[k]
                } else {
                    orig[k]
                },
        decreases lines@.len() - i,
    {
        let mut l: Vec<char> = Vec::new();
        if lines[i].len() > 0 {
            l.push('>');
            l.push(' ');
            extend(&mut l, &lines[i]);
        } else {
            l.push('>');
        }
        lines.set(i, l);
        i = i + 1;
    }
    assert(lines_view(lines@) =~= quoted(orig, start as nat));
}

fn list_marker_of(ordered: bool, k: usize) -> (r: Vec<char>)
    requires
        k < usize::MAX,
    ensures
        r@ == list_marker(ordered, k as nat),
{
    if ordered {
        let mut r: Vec<char> = Vec::new();
        push_decimal(&mut r, (k + 1) as u64);
        r.push('.');
        r.push(' ');
        r
    } else {
        vec!['-', ' ']
    }
}

fn emit_node(n: &Node, depth: usize, lines: &mut Vec<Vec<char>>)
    ensures
        lines_view(final(lines)@) == emit(n@, depth as nat, lines_view(old(lines)@)),
    decreases n,
{
    match n {
        Node::Text { text, marks } => {
            let t = marked_text(text, marks);
            push_onto_last(lines, &t);
        },
        Node::Paragraph(c) => {
            push_line(lines, indent_of(depth));
            emit_all(c, depth, lines);
        },
        Node::Heading { level, content } => {
            push_line(lines, heading_prefix(*level));
            emit_all(content, 0, lines);
        },
        Node::BulletList(c) => emit_list(c, depth, false, lines),
        Node::OrderedList(c) => emit_list(c, depth, true, lines),
        Node::CodeBlock { language, content } => {
            let mut open: Vec<char> = vec!['`', '`', '`'];
            match language {
                Some(l) => {
                    let lc = chars_of(l.as_str());
                    extend(&mut open, &lc);
                },
                None => {},
            }
            push_line(lines, open);
            let code = code_text_of(content);
            let code_lines = split_lines_of(&code);
            let ghost before = lines_view(lines@);
            let mut j: usize = 0;
            while j < code_lines.len()
                invariant
                    j <= code_lines@.len(),
                    lines_view(lines@) == before + lines_view(code_lines@).subrange(0, j as int),
                decreases code_lines@.len() - j,
            {
                let mut l: Vec<char> = Vec::new();
                extend(&mut l, &code_lines[j]);
                push_line(lines, l);
                j = j + 1;
                assert(lines_view(code_lines@).subrange(0, j as int) =~= lines_view(
                    code_lines@,
                ).subrange(0, j - 1).push(code_lines@[j - 1]@));
            }
            assert(lines_view(code_lines@).subrange(0, j as int) =~= lines_view(code_lines@));
            push_line(lines, vec!['`', '`', '`']);
        },
        Node::Blockquote(c) => {
            let start = lines.len();
            emit_all(c, depth, lines);
            proof {
                lemma_emit_seq_grows(trees_of(c@), depth as nat, lines_view(old(lines)@));
            }
            quote_from(lines, start);
        },
        Node::HardBreak => push_line(lines, Vec::new()),
        Node::Document(c) => emit_all(c, depth, lines),
        Node::ListItem(c) => emit_all(c, depth, lines),
        Node::Other(c) => emit_all(c, depth, lines),
    }
}

fn emit_all(ns: &Vec<Node>, depth: usize, lines: &mut Vec<Vec<char>>)
    ensures
        lines_view(final(lines)@) == emit_seq(trees_of(ns@), depth as nat, lines_view(old(lines)@)),
    decreases ns,
{
    proof {
        lemma_trees_of(ns@);
    }
    let ghost ts = trees_of(ns@);
    let mut i: usize = 0;
    assert(ts.subrange(0, 0) =~= seq![]);
    while i < ns.len()
        invariant
            i <= ns@.len(),
            ts == trees_of(ns@),
            ts.len() == ns@.len(),
            forall|k: int| 0 <= k < ns@.len() ==> #[trigger] ts[k] == ns@[k]@,
            lines_view(lines@) == emit_seq(
                ts.subrange(0, i as int),
                depth as nat,
                lines_view(old(lines)@),
            ),
        decreases ns@.len() - i,
    {
        emit_node(&ns[i], depth, lines);
        assert(ts.subrange(0, i + 1).drop_last() =~= ts.subrange(0, i as int));
        i = i + 1;
    }
    assert(ts.subrange(0, i as int) =~= ts);
}

fn emit_list(items: &Vec<Node>, depth: usize, ordered: bool, lines: &mut Vec<Vec<char>>)
    ensures
        lines_view(final(lines)@) == emit_items(
            trees_of(items@),
            depth as nat,
            ordered,
            lines_view(old(lines)@),
        ),
    decreases items,
{
    proof {
        lemma_trees_of(items@);
    }
    let ghost ts = trees_of(items@);
    let mut i: usize = 0;
    assert(ts.subrange(0, 0) =~= seq![]);
    while i < items.len()
        invariant
            i <= items@.len(),
            ts == trees_of(items@),
            ts.len() == items@.len(),
            forall|k: int| 0 <= k < items@.len() ==> #[trigger] ts[k] == items@[k]@,
            lines_view(lines@) == emit_items(
                ts.subrange(0, i as int),
                depth as nat,
                ordered,
                lines_view(old(lines)@),
            ),
        decreases items@.len() - i,
    {
        let marker = list_marker_of(ordered, i);
        emit_list_item(&items[i], depth, &marker, lines);
        assert(ts.subrange(0, i + 1).drop_last() =~= ts.subrange(0, i as int));
        i = i + 1;
    }
    assert(ts.subrange(0, i as int) =~= ts);
}

fn emit_list_item(item: &Node, depth: usize, marker: &Vec<char>, lines: &mut Vec<Vec<char>>)
    ensures
        lines_view(final(lines)@) == emit_item(
            item@.content,
            depth as nat,
            marker@,
            lines_view(old(lines)@),
        ),
    decreases item,
{
    match item {
        Node::Document(c) => emit_item_blocks(c, depth, marker, lines),
        Node::Paragraph(c) => emit_item_blocks(c, depth, marker, lines),
        Node::Heading { level, content } => emit_item_blocks(content, depth, marker, lines),
        Node::BulletList(c) => emit_item_blocks(c, depth, marker, lines),
        Node::OrderedList(c) => emit_item_blocks(c, depth, marker, lines),
        Node::ListItem(c) => emit_item_blocks(c, depth, marker, lines),
        Node::CodeBlock { language, content } => emit_item_blocks(content, depth, marker, lines),
        Node::Blockquote(c) => emit_item_blocks(c, depth, marker, lines),
        Node::Other(c) => emit_item_blocks(c, depth, marker, lines),
        Node::Text { .. } => {},
        Node::HardBreak => {},
    }
}

fn emit_item_blocks(cs: &Vec<Node>, depth: usize, marker: &Vec<char>, lines: &mut Vec<Vec<char>>)
    ensures
        lines_view(final(lines)@) == emit_item(
            trees_of(cs@),
            depth as nat,
            marker@,
            lines_view(old(lines)@),
        ),
    decreases cs,
{
    proof {
        lemma_trees_of(cs@);
    }
    let ghost ts = trees_of(cs@);
    let mut first = true;
    let mut i: usize = 0;
    assert(ts.subrange(0, 0) =~= seq![]);
    while i < cs.len()
        invariant
            i <= cs@.len(),
            ts == trees_of(cs@),
            ts.len() == cs@.len(),
            forall|k: int| 0 <= k < cs@.len() ==> #[trigger] ts[k] == cs@[k]@,
            first == !has_paragraph(ts.subrange(0, i as int)),
            lines_view(lines@) == emit_item(
                ts.subrange(0, i as int),
                depth as nat,
                marker@,
                lines_view(old(lines)@),
            ),
        decreases cs@.len() - i,
    {
        assert(ts.subrange(0, i + 1).drop_last() =~= ts.subrange(0, i as int));
        match &cs[i] {
            Node::Paragraph(pc) => {
                let mut prefix = indent_of(depth);
                if first {
                    extend(&mut prefix, marker);
                } else {
                    let pad = spaces_of(marker.len());
                    extend(&mut prefix, &pad);
                }
                first = false;
                push_line(lines, prefix);
                emit_all(pc, deeper_of(depth), lines);
            },
            _ => {
                emit_node(&cs[i], deeper_of(depth), lines);
            },
        }
        i = i + 1;
    }
    assert(ts.subrange(0, i as int) =~= ts);
}

/// Rendering only adds lines below those already there, and changes at
/// most the last of them.
proof fn lemma_emit_seq_grows(ns: Seq<Tree>, depth: nat, lines: Seq<Seq<char>>)
    ensures
        emit_seq(ns, depth, lines).len() >= lines.len(),
    decreases ns, 1nat,
{
    if ns.len() > 0 {
        lemma_emit_seq_grows(ns.drop_last(), depth, lines);
        lemma_emit_grows(ns.last(), depth, emit_seq(ns.drop_last(), depth, lines));
    }
}

proof fn lemma_emit_grows(n: Tree, depth: nat, lines: Seq<Seq<char>>)
    ensures
        emit(n, depth, lines).len() >= lines.len(),
    decreases n, 0nat,
{
    match n.kind {
        Kind::Text => {},
        Kind::Paragraph => lemma_emit_seq_grows(n.content, depth, lines.push(indent(depth))),
        Kind::Heading => lemma_emit_seq_grows(
            n.content,
            0,
            lines.push(Seq::new(heading_level(n.level), |i: int| '#').push(' ')),
        ),
        Kind::BulletList => lemma_emit_items_grows(n.content, depth, false, lines),
        Kind::OrderedList => lemma_emit_items_grows(n.content, depth, true, lines),
        Kind::CodeBlock => {},
        Kind::Blockquote => lemma_emit_seq_grows(n.content, depth, lines),
        Kind::HardBreak => {},
        _ => lemma_emit_seq_grows(n.content, depth, lines),
    }
}

proof fn lemma_emit_items_grows(items: Seq<Tree>, depth: nat, ordered: bool, lines: Seq<Seq<char>>)
    ensures
        emit_items(items, depth, ordered, lines).len() >= lines.len(),
    decreases items,
{
    if items.len() > 0 {
        let k = (items.len() - 1) as nat;
        lemma_emit_items_grows(items.drop_last(), depth, ordered, lines);
        lemma_emit_item_grows(
            items[k as int].content,
            depth,
            list_marker(ordered, k),
            emit_items(items.drop_last(), depth, ordered, lines),
        );
    }
}

proof fn lemma_emit_item_grows(cs: Seq<Tree>, depth: nat, marker: Seq<char>, lines: Seq<Seq<char>>)
    ensures
        emit_item(cs, depth, marker, lines).len() >= lines.len(),
    decreases cs,
{
    if cs.len() > 0 {
        lemma_emit_item_grows(cs.drop_last(), depth, marker, lines);
        let before = emit_item(cs.drop_last(), depth, marker, lines);
        let c = cs.last();
        if c.kind == Kind::Paragraph {
            let prefix = indent(depth) + if has_paragraph(cs.drop_last()) {
                spaces(marker.len())
            } else {
                marker
            };
            lemma_emit_seq_grows(c.content, deeper(depth), before.push(prefix));
        } else {
            lemma_emit_grows(c, deeper(depth), before);
        }
    }
}

/// Renders top-level blocks as markdown-like text: the text of a
/// document that holds them.
pub fn blocks_to_markdown(blocks: &Vec<Node>) -> (r: String)
    ensures
        r@ == trim(join_lines(emit_seq(trees_of(blocks@), 0, seq![]))),
{
    let mut lines: Vec<Vec<char>> = Vec::new();
    assert(lines_view(lines@) =~= seq![]);
    emit_all(blocks, 0, &mut lines);
    let joined = join_lines_of(&lines);
    let t = trimmed(&joined);
    string_of(&t)
}

/// Renders a document as markdown-like text (see `text_of`).
pub fn adf_to_markdown(doc: &Node) -> (r: String)
    ensures
        r@ == text_of(doc@),
{
    match doc {
        Node::Document(c) => blocks_to_markdown(c),
        Node::Paragraph(c) => blocks_to_markdown(c),
        Node::Heading { level, content } => blocks_to_markdown(content),
        Node::BulletList(c) => blocks_to_markdown(c),
        Node::OrderedList(c) => blocks_to_markdown(c),
        Node::ListItem(c) => blocks_to_markdown(c),
        Node::CodeBlock { language, content } => blocks_to_markdown(content),
        Node::Blockquote(c) => blocks_to_markdown(c),
        Node::Other(c) => blocks_to_markdown(c),
        Node::Text { .. } => {
            let e: Vec<char> = Vec::new();
            assert(trim(join_lines(emit_seq(seq![], 0, seq![]))) =~= seq![]);
            string_of(&e)
        },
        Node::HardBreak => {
            let e: Vec<char> = Vec::new();
            assert(trim(join_lines(emit_seq(seq![], 0, seq![]))) =~= seq![]);
            string_of(&e)
        },
    }
}

} // verus!
