//! Reading markdown-like text into a structured document, line by line.

use crate::document::{
    Kind, Node, Tree, block, code_tree, heading_tree, lemma_trees_of_push, text_tree, trees_of,
};
use crate::spans::{inline_content, parse_inline_formatting, text_node};
use crate::render::fence;
use crate::text::{
    is_digit, join_lines, join_lines_of, lines_view, slice, split_lines, split_lines_of, string_of,
    trim, trim_start, trimmed, trimmed_start, chars_of,
};
use vstd::prelude::*;

verus! {

pub open spec fn starts_with(s: Seq<char>, p: Seq<char>) -> bool {
    p.len() <= s.len() && s.subrange(0, p.len() as int) == p
}

/// The index of the first character at or after `i` that is not `c`.
pub open spec fn run_end(t: Seq<char>, c: char, i: nat) -> nat
    decreases t.len() - i,
{
    if i < t.len() && t[i as int] == c {
        run_end(t, c, i + 1)
    } else {
        i
    }
}

/// The index of the first character at or after `i` that is not a digit.
pub open spec fn digits_end(t: Seq<char>, i: nat) -> nat
    decreases t.len() - i,
{
    if i < t.len() && is_digit(t[i as int]) {
        digits_end(t, i + 1)
    } else {
        i
    }
}

pub open spec fn paragraph_tree(t: Seq<char>) -> Tree {
    block(Kind::Paragraph, inline_content(t))
}

pub open spec fn item_tree(t: Seq<char>) -> Tree {
    block(Kind::ListItem, seq![paragraph_tree(t)])
}

pub open spec fn is_fence_line(l: Seq<char>) -> bool {
    starts_with(trim_start(l), fence())
}

pub open spec fn is_quote(t: Seq<char>) -> bool {
    starts_with(t, seq!['>', ' ']) || t == seq!['>']
}

pub open spec fn is_bullet(t: Seq<char>) -> bool {
    starts_with(t, seq!['-', ' ']) || starts_with(t, seq!['*', ' '])
}

/// One or more digits, then `. `.
pub open spec fn is_ordered(t: Seq<char>) -> bool {
    let k = digits_end(t, 0);
    k > 0 && k + 2 <= t.len() && t[k as int] == '.' && t[(k + 1) as int] == ' '
}

/// An indented line, which continues a list item.
pub open spec fn is_continuation(l: Seq<char>) -> bool {
    starts_with(l, seq![' ', ' '])
}

/// The index of the closing fence at or after `j`, or the number of lines.
pub open spec fn fence_end(ls: Seq<Seq<char>>, j: nat) -> nat
    decreases ls.len() - j,
{
    if j >= ls.len() || is_fence_line(ls[j as int]) {
        j
    } else {
        fence_end(ls, j + 1)
    }
}

/// The index of the first line at or after `j` that is not quoted.
pub open spec fn quote_end(ls: Seq<Seq<char>>, j: nat) -> nat
    decreases ls.len() - j,
{
    if j >= ls.len() || !is_quote(trim_start(ls[j as int])) {
        j
    } else {
        quote_end(ls, j + 1)
    }
}

/// A quoted line without its prefix.
pub open spec fn quote_piece(t: Seq<char>) -> Seq<char> {
    if starts_with(t, seq!['>', ' ']) {
        t.subrange(2, t.len() as int)
    } else {
        seq![]
    }
}

pub open spec fn quote_pieces(ls: Seq<Seq<char>>, i: nat, j: nat) -> Seq<Seq<char>> {
    Seq::new((j - i) as nat, |k: int| quote_piece(trim_start(ls[i + k])))
}

/// One paragraph for each non-empty line.
pub open spec fn nonempty_paragraphs(ls: Seq<Seq<char>>) -> Seq<Tree>
    decreases ls.len(),
{
    if ls.len() == 0 {
        seq![]
    } else {
        nonempty_paragraphs(ls.drop_last()) + if ls.last().len() > 0 {
            seq![paragraph_tree(ls.last())]
        } else {
            seq![]
        }
    }
}

/// A block quote of the given text: a paragraph for each non-empty line.
pub open spec fn quote_tree(s: Seq<char>) -> Tree {
    let ps = nonempty_paragraphs(split_lines(s));
    block(
        Kind::Blockquote,
        if ps.len() == 0 {
            seq![paragraph_tree(seq![])]
        } else {
            ps
        },
    )
}

/// The items of a bullet list from line `j` on, and the index after the
/// list. Continuation lines are passed over.
pub open spec fn bullets(ls: Seq<Seq<char>>, j: nat, started: bool) -> (Seq<Tree>, nat)
    decreases ls.len() - j,
{
    if j >= ls.len() {
        (seq![], j)
    } else {
        let t = trim_start(ls[j as int]);
        if is_bullet(t) {
            let (rest, e) = bullets(ls, j + 1, true);
            (seq![item_tree(t.subrange(2, t.len() as int))] + rest, e)
        } else if started && is_continuation(ls[j as int]) {
            bullets(ls, j + 1, true)
        } else {
            (seq![], j)
        }
    }
}

/// The items of an ordered list from line `j` on, and the index after the
/// list. The numbers are not kept.
pub open spec fn ordered_items(ls: Seq<Seq<char>>, j: nat, started: bool) -> (Seq<Tree>, nat)
    decreases ls.len() - j,
{
    if j >= ls.len() {
        (seq![], j)
    } else {
        let t = trim_start(ls[j as int]);
        if is_ordered(t) {
            let (rest, e) = ordered_items(ls, j + 1, true);
            (seq![item_tree(t.subrange((digits_end(t, 0) + 2) as int, t.len() as int))] + rest, e)
        } else if started && is_continuation(ls[j as int]) {
            ordered_items(ls, j + 1, true)
        } else {
            (seq![], j)
        }
    }
}

/// The block that starts at line `i`, if any, and the index of the line
/// after it.
pub open spec fn block_at(ls: Seq<Seq<char>>, i: nat) -> (Option<Tree>, nat) {
    let t = trim_start(ls[i as int]);
    if starts_with(t, fence()) {
        let lang = trim(t.subrange(run_end(t, '`', 0) as int, t.len() as int));
        let j = fence_end(ls, i + 1);
        (
            Some(
                code_tree(
                    if lang.len() > 0 {
                        Some(lang)
                    } else {
                        None
                    },
                    seq![text_tree(join_lines(ls.subrange((i + 1) as int, j as int)), seq![])],
                ),
            ),
            j + 1,
        )
    } else if is_quote(t) {
        let j = quote_end(ls, i);
        (Some(quote_tree(join_lines(quote_pieces(ls, i, j)))), j)
    } else if starts_with(t, seq!['#']) && run_end(t, '#', 0) <= 6 {
        let k = run_end(t, '#', 0);
        (
            Some(
                heading_tree(Some(k as u64), inline_content(trim_start(t.subrange(k as int, t.len() as int)))),
            ),
            i + 1,
        )
    } else if is_bullet(t) {
        let (items, j) = bullets(ls, i, false);
        (Some(block(Kind::BulletList, items)), j)
    } else if is_ordered(t) {
        let (items, j) = ordered_items(ls, i, false);
        (Some(block(Kind::OrderedList, items)), j)
    } else {
        let p = trim(ls[i as int]);
        (
            if p.len() > 0 {
                Some(paragraph_tree(p))
            } else {
                None
            },
            i + 1,
        )
    }
}

/// The blocks from line `i` on.
pub open spec fn blocks_from(ls: Seq<Seq<char>>, i: nat) -> Seq<Tree>
    decreases ls.len() - i,
{
    if i >= ls.len() {
        seq![]
    } else {
        let (b, j) = block_at(ls, i);
        if j > i {
            (match b {
                Some(t) => seq![t],
                None => seq![],
            }) + if j < ls.len() {
                blocks_from(ls, j)
            } else {
                seq![]
            }
        } else {
            seq![]
        }
    }
}

/// The document read from a text: its blocks, or one empty paragraph when
/// there are none.
pub open spec fn doc_of(s: Seq<char>) -> Tree {
    let bs = blocks_from(split_lines(s), 0);
    block(
        Kind::Document,
        if bs.len() == 0 {
            seq![paragraph_tree(seq![])]
        } else {
            bs
        },
    )
}


fn starts_with_exec(s: &Vec<char>, p: &Vec<char>) -> (r: bool)
    ensures
        r == starts_with(s@, p@),
{
    if p.len() > s.len() {
        return false;
    }
    let mut k: usize = 0;
    while k < p.len()
        invariant
            k <= p@.len() <= s@.len(),
            forall|j: int| 0 <= j < k ==> s@[j] == p@[j],
        decreases p@.len() - k,
    {
        if s[k] != p[k] {
            assert(s@.subrange(0, p@.len() as int)[k as int] != p@[k as int]);
            return false;
        }
        k = k + 1;
    }
    assert(s@.subrange(0, p@.len() as int) =~= p@);
    true
}

fn run_end_exec(t: &Vec<char>, c: char, from: usize) -> (r: usize)
    requires
        from <= t@.len(),
    ensures
        r as nat == run_end(t@, c, from as nat),
        r <= t@.len(),
{
    let mut i = from;
    while i < t.len() && t[i] == c
        invariant
            from <= i <= t@.len(),
            run_end(t@, c, from as nat) == run_end(t@, c, i as nat),
        decreases t@.len() - i,
    {
        i = i + 1;
    }
    i
}

fn digits_end_exec(t: &Vec<char>) -> (r: usize)
    ensures
        r as nat == digits_end(t@, 0),
        r <= t@.len(),
{
    let mut i: usize = 0;
    while i < t.len() && '0' <= t[i] && t[i] <= '9'
        invariant
            i <= t@.len(),
            digits_end(t@, 0) == digits_end(t@, i as nat),
        decreases t@.len() - i,
    {
        i = i + 1;
    }
    i
}

fn is_quote_exec(t: &Vec<char>) -> (r: bool)
    ensures
        r == is_quote(t@),
{
    let p: Vec<char> = vec!['>', ' '];
    assert(p@ =~= seq!['>', ' ']);
    if starts_with_exec(t, &p) {
        return true;
    }
    if t.len() == 1 && t[0] == '>' {
        assert(t@ =~= seq!['>']);
        return true;
    }
    false
}

fn is_bullet_exec(t: &Vec<char>) -> (r: bool)
    ensures
        r == is_bullet(t@),
{
    let dash: Vec<char> = vec!['-', ' '];
    let star: Vec<char> = vec!['*', ' '];
    assert(dash@ =~= seq!['-', ' ']);
    assert(star@ =~= seq!['*', ' ']);
    starts_with_exec(t, &dash) || starts_with_exec(t, &star)
}

fn is_continuation_exec(l: &Vec<char>) -> (r: bool)
    ensures
        r == is_continuation(l@),
{
    let p: Vec<char> = vec![' ', ' '];
    assert(p@ =~= seq![' ', ' ']);
    starts_with_exec(l, &p)
}

/// Whether a line starts an ordered list item: one or more digits, then `. `.
pub fn is_ordered_list_item(t: &Vec<char>) -> (r: bool)
    ensures
        r == is_ordered(t@),
{
    let k = digits_end_exec(t);
    k > 0 && k < t.len() && t.len() - k >= 2 && t[k] == '.' && t[k + 1] == ' '
}

fn is_fence_exec(l: &Vec<char>) -> (r: bool)
    ensures
        r == is_fence_line(l@),
{
    let t = trimmed_start(l);
    let f: Vec<char> = vec!['`', '`', '`'];
    assert(f@ =~= fence());
    starts_with_exec(&t, &f)
}

/// A paragraph with the inline formatting of `t`.
pub fn create_paragraph(t: &Vec<char>) -> (r: Node)
    ensures
        r@ == paragraph_tree(t@),
{
    Node::Paragraph(parse_inline_formatting(t))
}

/// A list item holding one paragraph of `t`.
pub fn create_list_item(t: &Vec<char>) -> (r: Node)
    ensures
        r@ == item_tree(t@),
{
    let mut c: Vec<Node> = Vec::new();
    let p = create_paragraph(t);
    proof {
        lemma_trees_of_push(c@, p);
        assert(c@.push(p).drop_last() =~= c@);
        assert(trees_of(c@) =~= seq![]);
    }
    c.push(p);
    assert(trees_of(c@) =~= seq![paragraph_tree(t@)]);
    Node::ListItem(c)
}

/// A block quote of `text`: a paragraph for each non-empty line.
pub fn create_blockquote(text: &Vec<char>) -> (r: Node)
    ensures
        r@ == quote_tree(text@),
{
    let ls = split_lines_of(text);
    let ghost lv = lines_view(ls@);
    let mut out: Vec<Node> = Vec::new();
    let mut k: usize = 0;
    assert(lv.subrange(0, 0) =~= seq![]);
    assert(trees_of(out@) =~= seq![]);
    while k < ls.len()
        invariant
            k <= ls@.len(),
            lv == lines_view(ls@),
            trees_of(out@) == nonempty_paragraphs(lv.subrange(0, k as int)),
        decreases ls@.len() - k,
    {
        assert(lv.subrange(0, k + 1).drop_last() =~= lv.subrange(0, k as int));
        if ls[k].len() > 0 {
            let p = create_paragraph(&ls[k]);
            proof {
                lemma_trees_of_push(out@, p);
            }
            out.push(p);
        } else {
            assert(trees_of(out@) =~= trees_of(out@) + seq![]);
        }
        k = k + 1;
    }
    assert(lv.subrange(0, k as int) =~= lv);
    if out.len() == 0 {
        let e: Vec<char> = Vec::new();
        let p = create_paragraph(&e);
        proof {
            lemma_trees_of_push(out@, p);
            assert(e@ =~= seq![]);
        }
        out.push(p);
        assert(trees_of(out@) =~= seq![paragraph_tree(seq![])]);
    }
    Node::Blockquote(out)
}

/// The bullet list that starts at line `i`, and the index after it.
fn parse_bullet_list(ls: &Vec<Vec<char>>, i: usize) -> (r: (Node, usize))
    requires
        i < ls@.len(),
        is_bullet(trim_start(ls@[i as int]@)),
    ensures
        r.0@ == block(Kind::BulletList, bullets(lines_view(ls@), i as nat, false).0),
        r.1 as nat == bullets(lines_view(ls@), i as nat, false).1,
        i < r.1 <= ls@.len(),
{
    let ghost lv = lines_view(ls@);
    let mut items: Vec<Node> = Vec::new();
    let mut j = i;
    assert(trees_of(items@) =~= seq![]);
    assert(seq![] + bullets(lv, i as nat, false).0 =~= bullets(lv, i as nat, false).0);
    loop
        invariant
            i <= j <= ls@.len(),
            lv == lines_view(ls@),
            is_bullet(trim_start(ls@[i as int]@)),
            items@.len() == 0 ==> j == i,
            trees_of(items@) + bullets(lv, j as nat, items@.len() > 0).0 == bullets(
                lv,
                i as nat,
                false,
            ).0,
            bullets(lv, j as nat, items@.len() > 0).1 == bullets(lv, i as nat, false).1,
        ensures
            bullets(lv, j as nat, items@.len() > 0) == (Seq::<Tree>::empty(), j as nat),
        decreases ls@.len() - j,
    {
        if j >= ls.len() {
            assert(bullets(lv, j as nat, items@.len() > 0) == (Seq::<Tree>::empty(), j as nat));
            break;
        }
        let t = trimmed_start(&ls[j]);
        assert(lv[j as int] == ls@[j as int]@);
        if is_bullet_exec(&t) {
            let text = slice(&t, 2, t.len());
            let item = create_list_item(&text);
            let ghost before = trees_of(items@);
            proof {
                lemma_trees_of_push(items@, item);
            }
            items.push(item);
            assert(trees_of(items@) + bullets(lv, (j + 1) as nat, true).0 =~= before + bullets(
                lv,
                j as nat,
                (items@.len() - 1) > 0,
            ).0);
            j = j + 1;
        } else if items.len() > 0 && is_continuation_exec(&ls[j]) {
            j = j + 1;
        } else {
            assert(bullets(lv, j as nat, items@.len() > 0) == (Seq::<Tree>::empty(), j as nat));
            break;
        }
    }
    assert(trees_of(items@) =~= trees_of(items@) + bullets(lv, j as nat, items@.len() > 0).0);
    (Node::BulletList(items), j)
}

/// The ordered list that starts at line `i`, and the index after it.
fn parse_ordered_list(ls: &Vec<Vec<char>>, i: usize) -> (r: (Node, usize))
    requires
        i < ls@.len(),
        is_ordered(trim_start(ls@[i as int]@)),
    ensures
        r.0@ == block(Kind::OrderedList, ordered_items(lines_view(ls@), i as nat, false).0),
        r.1 as nat == ordered_items(lines_view(ls@), i as nat, false).1,
        i < r.1 <= ls@.len(),
{
    let ghost lv = lines_view(ls@);
    let mut items: Vec<Node> = Vec::new();
    let mut j = i;
    assert(trees_of(items@) =~= seq![]);
    assert(seq![] + ordered_items(lv, i as nat, false).0 =~= ordered_items(lv, i as nat, false).0);
    loop
        invariant
            i <= j <= ls@.len(),
            lv == lines_view(ls@),
            is_ordered(trim_start(ls@[i as int]@)),
            items@.len() == 0 ==> j == i,
            trees_of(items@) + ordered_items(lv, j as nat, items@.len() > 0).0 == ordered_items(
                lv,
                i as nat,
                false,
            ).0,
            ordered_items(lv, j as nat, items@.len() > 0).1 == ordered_items(lv, i as nat, false).1,
        ensures
            ordered_items(lv, j as nat, items@.len() > 0) == (Seq::<Tree>::empty(), j as nat),
        decreases ls@.len() - j,
    {
        if j >= ls.len() {
            assert(ordered_items(lv, j as nat, items@.len() > 0) == (Seq::<Tree>::empty(), j as nat));
            break;
        }
        let t = trimmed_start(&ls[j]);
        assert(lv[j as int] == ls@[j as int]@);
        if is_ordered_list_item(&t) {
            let k = digits_end_exec(&t);
            let n = t.len();
            assert(k + 2 <= n);
            let text = slice(&t, k + 2, n);
            let item = create_list_item(&text);
            let ghost before = trees_of(items@);
            proof {
                lemma_trees_of_push(items@, item);
            }
            items.push(item);
            assert(trees_of(items@) + ordered_items(lv, (j + 1) as nat, true).0 =~= before
                + ordered_items(lv, j as nat, (items@.len() - 1) > 0).0);
            j = j + 1;
        } else if items.len() > 0 && is_continuation_exec(&ls[j]) {
            j = j + 1;
        } else {
            assert(ordered_items(lv, j as nat, items@.len() > 0) == (Seq::<Tree>::empty(), j as nat));
            break;
        }
    }
    assert(trees_of(items@) =~= trees_of(items@) + ordered_items(lv, j as nat, items@.len() > 0).0);
    (Node::OrderedList(items), j)
}

/// A code block of `code`, with its language where one is given.
pub fn create_code_block(code: &Vec<char>, language: &Vec<char>) -> (r: Node)
    ensures
        r@ == code_tree(
            if language@.len() > 0 {
                Some(language@)
            } else {
                None
            },
            seq![text_tree(code@, seq![])],
        ),
{
    let mut c: Vec<Node> = Vec::new();
    let t = text_node(code, Vec::new());
    proof {
        lemma_trees_of_push(c@, t);
        assert(trees_of(c@) =~= seq![]);
    }
    c.push(t);
    assert(trees_of(c@) =~= seq![text_tree(code@, seq![])]);
    let lang = if language.len() > 0 {
        Some(string_of(language))
    } else {
        None
    };
    Node::CodeBlock { language: lang, content: c }
}

/// The fenced code block that starts at line `i`, and the index of the
/// next line to read (at most the number of lines).
fn code_block_at(ls: &Vec<Vec<char>>, i: usize, t: &Vec<char>) -> (r: (Node, usize))
    requires
        i < ls@.len(),
        t@ == trim_start(ls@[i as int]@),
        starts_with(t@, fence()),
    ensures
        block_at(lines_view(ls@), i as nat).0 == Some(r.0@),
        i < r.1 <= ls@.len(),
        r.1 == ls@.len() ==> block_at(lines_view(ls@), i as nat).1 >= ls@.len(),
        r.1 < ls@.len() ==> block_at(lines_view(ls@), i as nat).1 == r.1,
{
    let ghost lv = lines_view(ls@);
    let n = ls.len();
    assert(lv[i as int] == ls@[i as int]@);
    let k = run_end_exec(t, '`', 0);
    let rest = slice(t, k, t.len());
    let lang = trimmed(&rest);
    let mut code_lines: Vec<Vec<char>> = Vec::new();
    let mut j = i + 1;
    assert(lines_view(code_lines@) =~= lv.subrange((i + 1) as int, j as int));
    while j < n && !is_fence_exec(&ls[j])
        invariant
            i < j <= n,
            n == ls@.len(),
            lv == lines_view(ls@),
            fence_end(lv, (i + 1) as nat) == fence_end(lv, j as nat),
            lines_view(code_lines@) == lv.subrange((i + 1) as int, j as int),
        decreases n - j,
    {
        let l = slice(&ls[j], 0, ls[j].len());
        assert(l@ =~= ls@[j as int]@);
        let ghost before = lines_view(code_lines@);
        code_lines.push(l);
        assert(lines_view(code_lines@) =~= before.push(l@));
        assert(lv.subrange((i + 1) as int, j + 1) =~= lv.subrange((i + 1) as int, j as int).push(
            lv[j as int],
        ));
        j = j + 1;
    }
    let code = join_lines_of(&code_lines);
    let node = create_code_block(&code, &lang);
    let next = if j < n {
        j + 1
    } else {
        n
    };
    (node, next)
}

/// The block quote that starts at line `i`, and the index after it.
fn quote_at(ls: &Vec<Vec<char>>, i: usize, t: &Vec<char>) -> (r: (Node, usize))
    requires
        i < ls@.len(),
        t@ == trim_start(ls@[i as int]@),
        !starts_with(t@, fence()),
        is_quote(t@),
    ensures
        block_at(lines_view(ls@), i as nat) == (Some(r.0@), r.1 as nat),
        i < r.1 <= ls@.len(),
{
    let ghost lv = lines_view(ls@);
    let n = ls.len();
    assert(lv[i as int] == ls@[i as int]@);
    let mut pieces: Vec<Vec<char>> = Vec::new();
    let mut j = i;
    assert(lines_view(pieces@) =~= quote_pieces(lv, i as nat, j as nat));
    loop
        invariant
            i <= j <= n,
            i < n,
            n == ls@.len(),
            lv == lines_view(ls@),
            quote_end(lv, i as nat) == quote_end(lv, j as nat),
            lines_view(pieces@) == quote_pieces(lv, i as nat, j as nat),
            j == i ==> is_quote(trim_start(lv[i as int])),
        ensures
            i < j <= n,
            quote_end(lv, i as nat) == j,
            lines_view(pieces@) == quote_pieces(lv, i as nat, j as nat),
        decreases n - j,
    {
        if j >= n {
            assert(quote_end(lv, j as nat) == j);
            break;
        }
        let l = trimmed_start(&ls[j]);
        assert(lv[j as int] == ls@[j as int]@);
        if !is_quote_exec(&l) {
            assert(quote_end(lv, j as nat) == j);
            break;
        }
        let p: Vec<char> = vec!['>', ' '];
        assert(p@ =~= seq!['>', ' ']);
        let piece = if starts_with_exec(&l, &p) {
            slice(&l, 2, l.len())
        } else {
            Vec::new()
        };
        assert(piece@ =~= quote_piece(trim_start(lv[j as int])));
        let ghost before = lines_view(pieces@);
        pieces.push(piece);
        assert(lines_view(pieces@) =~= before.push(quote_piece(trim_start(lv[j as int]))));
        assert(lines_view(pieces@) =~= quote_pieces(lv, i as nat, (j + 1) as nat));
        j = j + 1;
    }
    let joined = join_lines_of(&pieces);
    let node = create_blockquote(&joined);
    (node, j)
}

/// The block that starts at line `i`, if any, and the index of the next
/// line to read (at most the number of lines).
fn block_at_exec(ls: &Vec<Vec<char>>, i: usize) -> (r: (Option<Node>, usize))
    requires
        i < ls@.len(),
    ensures
        r.0 matches Some(n) ==> block_at(lines_view(ls@), i as nat).0 == Some(n@),
        r.0 is None ==> block_at(lines_view(ls@), i as nat).0 is None,
        i < r.1 <= ls@.len(),
        r.1 == ls@.len() ==> block_at(lines_view(ls@), i as nat).1 >= ls@.len(),
        r.1 < ls@.len() ==> block_at(lines_view(ls@), i as nat).1 == r.1,
{
    let ghost lv = lines_view(ls@);
    let n = ls.len();
    let t = trimmed_start(&ls[i]);
    let f: Vec<char> = vec!['`', '`', '`'];
    assert(f@ =~= fence());
    if starts_with_exec(&t, &f) {
        let (node, next) = code_block_at(ls, i, &t);
        return (Some(node), next);
    }
    if is_quote_exec(&t) {
        let (node, j) = quote_at(ls, i, &t);
        return (Some(node), j);
    }
    let k = run_end_exec(&t, '#', 0);
    if t.len() > 0 && t[0] == '#' && k <= 6 {
        assert(t@.subrange(0, 1) =~= seq!['#']);
        let rest = slice(&t, k, t.len());
        let text = trimmed_start(&rest);
        let node = Node::Heading { level: Some(k as u64), content: parse_inline_formatting(&text) };
        return (Some(node), i + 1);
    }
    assert(!(starts_with(t@, seq!['#']) && run_end(t@, '#', 0) <= 6));
    if is_bullet_exec(&t) {
        let (node, j) = parse_bullet_list(ls, i);
        return (Some(node), j);
    }
    if is_ordered_list_item(&t) {
        let (node, j) = parse_ordered_list(ls, i);
        return (Some(node), j);
    }
    let p = trimmed(&ls[i]);
    if p.len() > 0 {
        (Some(create_paragraph(&p)), i + 1)
    } else {
        (None, i + 1)
    }
}

/// The blocks of the given lines, in order.
fn parse_markdown_blocks(ls: &Vec<Vec<char>>) -> (r: Vec<Node>)
    ensures
        trees_of(r@) == blocks_from(lines_view(ls@), 0),
{
    let ghost lv = lines_view(ls@);
    let n = ls.len();
    let mut out: Vec<Node> = Vec::new();
    let mut i: usize = 0;
    assert(trees_of(out@) =~= seq![]);
    assert(seq![] + blocks_from(lv, 0) =~= blocks_from(lv, 0));
    while i < n
        invariant
            i <= n,
            n == ls@.len(),
            lv == lines_view(ls@),
            trees_of(out@) + blocks_from(lv, i as nat) == blocks_from(lv, 0),
        decreases n - i,
    {
        let (b, j) = block_at_exec(ls, i);
        let ghost o = trees_of(out@);
        let ghost rest = if j < n {
            blocks_from(lv, j as nat)
        } else {
            seq![]
        };
        assert(j == n ==> blocks_from(lv, j as nat) == Seq::<Tree>::empty());
        match b {
            Some(node) => {
                proof {
                    lemma_trees_of_push(out@, node);
                }
                out.push(node);
                assert(trees_of(out@) + blocks_from(lv, j as nat) =~= o + blocks_from(lv, i as nat));
            },
            None => {
                assert(trees_of(out@) + blocks_from(lv, j as nat) =~= o + blocks_from(lv, i as nat));
            },
        }
        i = j;
    }
    assert(blocks_from(lv, i as nat) == Seq::<Tree>::empty());
    assert(trees_of(out@) =~= blocks_from(lv, 0));
    out
}

/// Reads markdown-like text into a document (see `doc_of`).
pub fn markdown_to_adf(markdown: &str) -> (r: Node)
    ensures
        r@ == doc_of(markdown@),
{
    let cs = chars_of(markdown);
    let ls = split_lines_of(&cs);
    let mut blocks = parse_markdown_blocks(&ls);
    if blocks.len() == 0 {
        let e: Vec<char> = Vec::new();
        let p = create_paragraph(&e);
        proof {
            lemma_trees_of_push(blocks@, p);
            assert(e@ =~= seq![]);
        }
        blocks.push(p);
        assert(trees_of(blocks@) =~= seq![paragraph_tree(seq![])]);
    }
    Node::Document(blocks)
}

} // verus!
