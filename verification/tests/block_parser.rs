use lib::block::parser::BlockParser;
use lib::parser::blocks::{OpenBlockKind, RawBlock};

fn parse(input: &str) -> BlockParser {
    let mut p = BlockParser::new();
    p.parse_phase_one(input.to_string());
    p
}

fn tree(input: &str) -> String {
    parse(input).to_string()
}

#[test]
fn new_parser_has_open_document() {
    let p = BlockParser::new();
    assert_eq!(p.to_string(), "Document*\n");
    assert_eq!(p.open_stack, vec![0]);
}

#[test]
fn empty_input_closes_document() {
    let mut p = BlockParser::new();
    let doc = p.parse_phase_one(String::new());
    assert!(doc.children.is_empty());
    assert_eq!(p.to_string(), "Document\n");
    assert!(p.open_stack.is_empty());
}

#[test]
fn parse_returns_empty_document() {
    let mut p = BlockParser::new();
    let doc = p.parse_phase_one("# a\ntext".to_string());
    assert_eq!(doc.children.len(), 0);
}

#[test]
fn atx_heading() {
    assert_eq!(tree("# Hello"), "Document\n  Heading (level 1) \"Hello\"\n");
}

#[test]
fn atx_heading_closing_sequence() {
    assert_eq!(tree("## Title ##"), "Document\n  Heading (level 2) \"Title\"\n");
    assert_eq!(tree("# foo#"), "Document\n  Heading (level 1) \"foo#\"\n");
    assert_eq!(tree("### ###"), "Document\n  Heading (level 3) \"\"\n");
    assert_eq!(tree("#"), "Document\n  Heading (level 1) \"\"\n");
    assert_eq!(tree("  ###   spaced   ###  "), "Document\n  Heading (level 3) \"spaced\"\n");
}

#[test]
fn seven_hashes_is_a_paragraph() {
    assert_eq!(tree("####### x"), "Document\n  Paragraph [\"####### x\"]\n");
}

#[test]
fn hashtag_is_a_paragraph() {
    assert_eq!(tree("#hashtag"), "Document\n  Paragraph [\"#hashtag\"]\n");
}

#[test]
fn heading_escapes_quotes() {
    assert_eq!(tree("# say \"hi\""), "Document\n  Heading (level 1) \"say \\\"hi\\\"\"\n");
}

#[test]
fn thematic_breaks() {
    assert_eq!(tree("***"), "Document\n  ThematicBreak\n");
    assert_eq!(tree(" - - -"), "Document\n  ThematicBreak\n");
    assert_eq!(tree("-*_"), "Document\n  ThematicBreak\n");
    assert_eq!(tree("**"), "Document\n  Paragraph [\"**\"]\n");
    assert_eq!(tree("***a"), "Document\n  Paragraph [\"***a\"]\n");
}

#[test]
fn tabs_after_a_space_make_a_thematic_break() {
    assert_eq!(tree(" \t\t\t"), "Document\n  ThematicBreak\n");
}

#[test]
fn paragraph_lines_join() {
    assert_eq!(tree("one\ntwo"), "Document\n  Paragraph [\"one\", \"two\"]\n");
}

#[test]
fn blank_line_separates_paragraphs() {
    assert_eq!(
        tree("one\n\ntwo"),
        "Document\n  Paragraph [\"one\"]\n  Paragraph [\"two\"]\n"
    );
}

#[test]
fn heading_interrupts_paragraph() {
    assert_eq!(
        tree("text\n# h\nmore"),
        "Document\n  Paragraph [\"text\"]\n  Heading (level 1) \"h\"\n  Paragraph [\"more\"]\n"
    );
}

#[test]
fn block_quote_with_paragraph() {
    assert_eq!(
        tree("> quote\n> more"),
        "Document\n  BlockQuote\n    Paragraph [\"quote\", \"more\"]\n"
    );
}

#[test]
fn nested_block_quotes() {
    assert_eq!(
        tree("> > deep"),
        "Document\n  BlockQuote\n    BlockQuote\n      Paragraph [\"deep\"]\n"
    );
}

#[test]
fn block_quote_ends_without_marker() {
    assert_eq!(
        tree("> a\nb"),
        "Document\n  BlockQuote\n    Paragraph [\"a\"]\n  Paragraph [\"b\"]\n"
    );
}

#[test]
fn block_quote_holds_heading() {
    assert_eq!(
        tree(">## In quote"),
        "Document\n  BlockQuote\n    Heading (level 2) \"In quote\"\n"
    );
}

#[test]
fn four_spaces_is_not_a_heading() {
    assert_eq!(tree("    # code"), "Document\n  Paragraph [\"    # code\"]\n");
}

#[test]
fn crlf_line_endings() {
    assert_eq!(tree("a\r\nb\r\n"), "Document\n  Paragraph [\"a\", \"b\"]\n");
}

#[test]
fn nul_is_replaced() {
    let p = parse("a\u{0}b");
    match &p.arena.get(1).unwrap().kind {
        OpenBlockKind::Paragraph(lines) => assert_eq!(lines, &vec!["a\u{FFFD}b".to_string()]),
        _ => panic!("expected a paragraph"),
    }
}

#[test]
fn arena_links_children() {
    let p = parse("> x\n# y");
    let root = p.arena.get(0).unwrap();
    assert_eq!(root.children, vec![1, 3]);
    assert_eq!(p.arena.get(1).unwrap().parent, Some(0));
    assert_eq!(p.arena.get(2).unwrap().parent, Some(1));
    assert_eq!(p.arena.get(3).unwrap().parent, Some(0));
    assert!(p.arena.get(4).is_none());
}

#[test]
fn all_blocks_closed_after_parse() {
    let p = parse("> a\n> b\n\n# c\n---\nd");
    let mut i = 0;
    while let Some(node) = p.arena.get(i) {
        assert!(!node.is_open);
        i += 1;
    }
    assert_eq!(i, 6);
}

#[test]
fn open_stack_report_of_new_parser() {
    let p = BlockParser::new();
    assert_eq!(
        p.open_stack_report("x".to_string()),
        "==== x ====\nOpenBlock {\n   kind: [DOCUMENT]\n\n   is_open: true\n   parent: None\n   children: []\nOpenBlock }\n\n===========\n"
    );
}

#[test]
fn raw_paragraph_text() {
    let b = RawBlock::Paragraph(vec!["a".to_string(), "b".to_string()]);
    assert_eq!(b.to_string(), "a\nb\n");
}

#[test]
fn raw_block_quote_text() {
    let b = RawBlock::BlockQuote(vec![RawBlock::Paragraph(vec!["x".to_string()])]);
    assert_eq!(b.to_string(), "[Block Quote]\n  x\n");
}

#[test]
fn raw_list_item_text() {
    let b = RawBlock::ListItem(vec![
        RawBlock::Paragraph(vec!["x".to_string()]),
        RawBlock::Paragraph(vec!["y".to_string()]),
    ]);
    assert_eq!(b.to_string(), "[List Item]\n  x\n\n  y\n");
}

#[test]
fn blank_line_closes_block_quote() {
    assert_eq!(
        tree("> a\n\n> b"),
        "Document\n  BlockQuote\n    Paragraph [\"a\"]\n  BlockQuote\n    Paragraph [\"b\"]\n"
    );
}

#[test]
fn heading_after_tab_and_unicode_trim() {
    assert_eq!(tree("#\tTab"), "Document\n  Heading (level 1) \"Tab\"\n");
    assert_eq!(tree("###### x\u{3000}"), "Document\n  Heading (level 6) \"x\"\n");
    assert_eq!(tree("#\u{A0}x"), "Document\n  Paragraph [\"#\\u{a0}x\"]\n");
}

#[test]
fn indented_block_quote_marker() {
    assert_eq!(
        tree("   >x"),
        "Document\n  BlockQuote\n    Paragraph [\"x\"]\n"
    );
    assert_eq!(tree("    >x"), "Document\n  Paragraph [\"    >x\"]\n");
}

#[test]
fn parsing_empty_input_again_keeps_the_tree() {
    let mut p = parse("# a\nb");
    let before = p.to_string();
    p.parse_phase_one(String::new());
    assert_eq!(p.to_string(), before);
}

#[test]
fn whitespace_only_line_is_not_text() {
    assert_eq!(tree("a\n   \nb"), "Document\n  Paragraph [\"a\"]\n  Paragraph [\"b\"]\n");
}

#[test]
fn crlf_and_trailing_blank_lines_do_not_change_the_parse() {
    for s in ["a\nb", "> q\n> r\n\n# h\n", "", "x\n\n---\n> y"] {
        let lf = tree(s);
        let crlf = tree(&(s.replace("\n", "\r\n") + "\n\n"));
        assert_eq!(lf, crlf);
    }
}

#[test]
fn parsed_tree_shape() {
    let p = parse("> a\n> # h\nb\n---\n> c");
    let mut i = 0;
    while let Some(node) = p.arena.get(i) {
        if i == 0 {
            assert!(matches!(node.kind, OpenBlockKind::Document));
            assert_eq!(node.parent, None);
        } else {
            let q = node.parent.unwrap();
            assert!(q < i);
            let siblings = &p.arena.get(q).unwrap().children;
            assert_eq!(siblings.iter().filter(|&&c| c == i).count(), 1);
        }
        for w in node.children.windows(2) {
            assert!(w[0] < w[1]);
        }
        match &node.kind {
            OpenBlockKind::Heading { level, .. } => {
                assert!(node.children.is_empty());
                assert!((1..=6).contains(level));
            }
            OpenBlockKind::ThematicBreak => assert!(node.children.is_empty()),
            OpenBlockKind::Paragraph(lines) => {
                assert!(node.children.is_empty());
                assert!(lines.iter().all(|l| !l.trim().is_empty()));
            }
            _ => {}
        }
        i += 1;
    }
    assert_eq!(i, 8);
}
