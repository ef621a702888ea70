use timebox::categories::{describe_with_categories, parse_categories_from_description};
use timebox::config::default_tags;
use timebox::document::{Mark, Node};
use timebox::markdown::markdown_to_adf;
use timebox::render::adf_to_markdown;

fn text(t: &str, marks: Vec<Mark>) -> Node {
    Node::Text { text: t.to_string(), marks }
}

fn blocks(doc: &Node) -> &Vec<Node> {
    match doc {
        Node::Document(c) => c,
        _ => panic!("not a document"),
    }
}

fn texts(content: &Vec<Node>) -> Vec<(String, Vec<Mark>)> {
    content
        .iter()
        .map(|n| match n {
            Node::Text { text, marks } => (text.clone(), marks.clone()),
            _ => panic!("not a text node"),
        })
        .collect()
}

#[test]
fn end_to_end_paragraph_and_bullets() {
    let input = "[FE] Fixed **login** bug\n\n- step one\n- step two";
    let doc = markdown_to_adf(input);
    let bs = blocks(&doc);
    assert_eq!(bs.len(), 2);
    match &bs[0] {
        Node::Paragraph(c) => assert_eq!(
            texts(c),
            vec![
                ("[FE] Fixed ".to_string(), vec![]),
                ("login".to_string(), vec![Mark::Strong]),
                (" bug".to_string(), vec![]),
            ]
        ),
        other => panic!("expected a paragraph, got {:?}", other),
    }
    match &bs[1] {
        Node::BulletList(items) => assert_eq!(items.len(), 2),
        other => panic!("expected a bullet list, got {:?}", other),
    }
    let back = adf_to_markdown(&doc);
    assert_eq!(back, "[FE] Fixed **login** bug\n- step one\n- step two");
    assert_eq!(adf_to_markdown(&markdown_to_adf(&back)), back);
}

#[test]
fn single_bold_run_is_a_fixed_point() {
    let doc = Node::Document(vec![Node::Paragraph(vec![text("important", vec![Mark::Strong])])]);
    let t = adf_to_markdown(&doc);
    assert_eq!(t, "**important**");
    assert_eq!(adf_to_markdown(&markdown_to_adf(&t)), t);
}

#[test]
fn round_trip_keeps_spans_and_blocks() {
    let cases = [
        "# Title\nSome *italic* and `code` and ~~gone~~ text",
        "1. first\n2. second **bold**",
        "> quoted line\n> another",
        "```rust\nlet x = 1;\n```",
        "***both*** here",
    ];
    for s in cases {
        let t = adf_to_markdown(&markdown_to_adf(s));
        assert_eq!(t, s);
    }
}

#[test]
fn marks_nest_in_fixed_order() {
    let doc = Node::Document(vec![Node::Paragraph(vec![text(
        "x",
        vec![Mark::Strike, Mark::Strong, Mark::Em, Mark::Code, Mark::Other],
    )])]);
    assert_eq!(adf_to_markdown(&doc), "~~***`x`***~~");
}

#[test]
fn headings_lists_and_quotes_render() {
    let doc = Node::Document(vec![
        Node::Heading { level: Some(9), content: vec![text("Big", vec![])] },
        Node::Heading { level: None, content: vec![text("One", vec![])] },
        Node::OrderedList(vec![
            Node::ListItem(vec![Node::Paragraph(vec![text("a", vec![])]), Node::Paragraph(vec![text("b", vec![])])]),
            Node::ListItem(vec![
                Node::Paragraph(vec![text("c", vec![])]),
                Node::BulletList(vec![Node::ListItem(vec![Node::Paragraph(vec![text("d", vec![])])])]),
            ]),
        ]),
        Node::Blockquote(vec![Node::Paragraph(vec![text("q", vec![])]), Node::Paragraph(vec![])]),
        Node::Paragraph(vec![text("x", vec![]), Node::HardBreak, text("y", vec![])]),
        Node::Other(vec![Node::Paragraph(vec![text("inner", vec![])])]),
        Node::CodeBlock { language: None, content: vec![text("a\nb", vec![])] },
    ]);
    assert_eq!(
        adf_to_markdown(&doc),
        "###### Big\n# One\n1. a\n   b\n2. c\n  - d\n> q\n>\nx\ny\ninner\n```\na\nb\n```"
    );
}

#[test]
fn empty_text_gives_one_empty_paragraph() {
    let doc = markdown_to_adf("");
    let bs = blocks(&doc);
    assert_eq!(bs.len(), 1);
    match &bs[0] {
        Node::Paragraph(c) => assert_eq!(texts(c), vec![(String::new(), vec![])]),
        other => panic!("expected a paragraph, got {:?}", other),
    }
    assert_eq!(adf_to_markdown(&doc), "");
}

#[test]
fn list_continuation_lines_are_dropped() {
    let doc = markdown_to_adf("- one\n  more\n- two\nafter");
    assert_eq!(adf_to_markdown(&doc), "- one\n- two\nafter");
}

#[test]
fn quote_blank_lines_make_no_paragraphs() {
    let doc = markdown_to_adf("> a\n>\n> b");
    match &blocks(&doc)[0] {
        Node::Blockquote(c) => assert_eq!(c.len(), 2),
        other => panic!("expected a quote, got {:?}", other),
    }
}

#[test]
fn code_block_language_and_unclosed_fence() {
    let doc = markdown_to_adf("```py\nprint(1)");
    match &blocks(&doc)[0] {
        Node::CodeBlock { language, content } => {
            assert_eq!(language.as_deref(), Some("py"));
            assert_eq!(texts(content), vec![("print(1)".to_string(), vec![])]);
        }
        other => panic!("expected code, got {:?}", other),
    }
}

#[test]
fn seven_hashes_are_a_paragraph() {
    let doc = markdown_to_adf("####### x");
    assert!(matches!(&blocks(&doc)[0], Node::Paragraph(_)));
}

#[test]
fn categories_are_read_and_written() {
    let tags = default_tags();
    let (cats, rest) = parse_categories_from_description("  [fe][BE] - Fixed it ", &tags);
    assert_eq!(cats, vec![true, true, false, false, false, false, false, false]);
    assert_eq!(rest, "Fixed it");
    let (cats2, rest2) = parse_categories_from_description("[XX] keep", &tags);
    assert!(cats2.iter().all(|c| !c));
    assert_eq!(rest2, "[XX] keep");
    assert_eq!(describe_with_categories(&cats, &tags, " Fixed it "), "[FE][BE] Fixed it");
    assert_eq!(describe_with_categories(&cats, &tags, "  "), "[FE][BE]");
    let none = vec![false; tags.len()];
    assert_eq!(describe_with_categories(&none, &tags, " as is "), " as is ");
}

#[test]
fn plain_lines_round_trip_trimmed() {
    let s = "  first line  \nsecond line\n   third";
    let doc = markdown_to_adf(s);
    assert_eq!(blocks(&doc).len(), 3);
    assert_eq!(adf_to_markdown(&doc), "first line\nsecond line\nthird");
}
