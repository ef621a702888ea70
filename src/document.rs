//! The tracker's structured comment documents: a tree of typed block and
//! inline nodes, and its mathematical model.

use vstd::prelude::*;

verus! {

/// An inline mark on a text node.
#[derive(Clone, Copy, Debug, PartialEq, Eq, Structural)]
pub enum Mark {
    Strong,
    Em,
    Code,
    Strike,
    /// A mark of a type that this library does not render.
    Other,
}

/// A node of a structured document.
#[derive(Debug)]
pub enum Node {
    Document(Vec<Node>),
    Paragraph(Vec<Node>),
    /// `level` is the raw attribute, if it was a non-negative integer.
    Heading { level: Option<u64>, content: Vec<Node> },
    BulletList(Vec<Node>),
    OrderedList(Vec<Node>),
    ListItem(Vec<Node>),
    CodeBlock { language: Option<String>, content: Vec<Node> },
    Blockquote(Vec<Node>),
    Text { text: String, marks: Vec<Mark> },
    HardBreak,
    /// A node of a kind this library does not know; its children are kept.
    Other(Vec<Node>),
}

/// The kind of a node.
#[derive(Clone, Copy, Debug, PartialEq, Eq, Structural)]
pub enum Kind {
    Document,
    Paragraph,
    Heading,
    BulletList,
    OrderedList,
    ListItem,
    CodeBlock,
    Blockquote,
    Text,
    HardBreak,
    Other,
}

/// The model of a node: every kind as one record. Fields that a kind does
/// not have are `None` or empty.
pub struct Tree {
    pub kind: Kind,
    pub level: Option<u64>,
    pub language: Option<Seq<char>>,
    pub text: Seq<char>,
    pub marks: Seq<Mark>,
    pub content: Seq<Tree>,
}

pub open spec fn block(kind: Kind, content: Seq<Tree>) -> Tree {
    Tree { kind, level: None, language: None, text: seq![], marks: seq![], content }
}

pub open spec fn text_tree(text: Seq<char>, marks: Seq<Mark>) -> Tree {
    Tree { kind: Kind::Text, level: None, language: None, text, marks, content: seq![] }
}

pub open spec fn heading_tree(level: Option<u64>, content: Seq<Tree>) -> Tree {
    Tree { kind: Kind::Heading, level, language: None, text: seq![], marks: seq![], content }
}

pub open spec fn code_tree(language: Option<Seq<char>>, content: Seq<Tree>) -> Tree {
    Tree { kind: Kind::CodeBlock, level: None, language, text: seq![], marks: seq![], content }
}

pub open spec fn tree_of(n: Node) -> Tree
    decreases n,
{
    match n {
        Node::Document(c) => block(Kind::Document, trees_of(c@)),
        Node::Paragraph(c) => block(Kind::Paragraph, trees_of(c@)),
        Node::Heading { level, content } => heading_tree(level, trees_of(content@)),
        Node::BulletList(c) => block(Kind::BulletList, trees_of(c@)),
        Node::OrderedList(c) => block(Kind::OrderedList, trees_of(c@)),
        Node::ListItem(c) => block(Kind::ListItem, trees_of(c@)),
        Node::CodeBlock { language, content } => code_tree(
            match language {
                Some(l) => Some(l@),
                None => None,
            },
            trees_of(content@),
        ),
        Node::Blockquote(c) => block(Kind::Blockquote, trees_of(c@)),
        Node::Text { text, marks } => text_tree(text@, marks@),
        Node::HardBreak => block(Kind::HardBreak, seq![]),
        Node::Other(c) => block(Kind::Other, trees_of(c@)),
    }
}

pub open spec fn trees_of(s: Seq<Node>) -> Seq<Tree>
    decreases s,
{
    if s.len() == 0 {
        seq![]
    } else {
        trees_of(s.drop_last()).push(tree_of(s.last()))
    }
}


/// `trees_of` keeps length and maps each element.
pub proof fn lemma_trees_of(s: Seq<Node>)
    ensures
        trees_of(s).len() == s.len(),
        forall|i: int| 0 <= i < s.len() ==> #[trigger] trees_of(s)[i] == tree_of(s[i]),
    decreases s.len(),
{
    if s.len() > 0 {
        lemma_trees_of(s.drop_last());
    }
}


pub proof fn lemma_trees_of_push(s: Seq<Node>, n: Node)
    ensures
        trees_of(s.push(n)) == trees_of(s).push(tree_of(n)),
{
    assert(s.push(n).drop_last() =~= s);
}

impl View for Node {
    type V = Tree;

    open spec fn view(&self) -> Tree {
        tree_of(*self)
    }
}

} // verus!
