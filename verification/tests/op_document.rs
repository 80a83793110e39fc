#![allow(unused_imports)]
use yamd::lexer::{Position, Token, TokenKind};
use yamd::op::anchor::anchor;
use yamd::op::bold::bold;
use yamd::op::code::code;
use yamd::op::code_span::code_span;
use yamd::op::collapsible::collapsible;
use yamd::op::destination::destination;
use yamd::op::document::document;
use yamd::op::embed::embed;
use yamd::op::heading::heading;
use yamd::op::highlight::highlight;
use yamd::op::image::image;
use yamd::op::images::images;
use yamd::op::italic::italic;
use yamd::op::list::list;
use yamd::op::metadata::metadata;
use yamd::op::modifier::modifier;
use yamd::op::paragraph::paragraph;
use yamd::op::parser::{eol, ListKind, Parser, StopCondition};
use yamd::op::strikethrough::strikethrough;
use yamd::op::thematic_break::thematic_break;
use yamd::op::title::title;
use yamd::op::{parse, unescape, Content, Node, Op, OpKind};

fn block_fixture(node: &Node) -> Option<&'static str> {
    match node {
        Node::Code => Some("```\ncode\n```"),
        Node::Collapsible => Some("{% Title\ntext\n%}"),
        Node::Embed => Some("{{a|b}}"),
        Node::Highlight => Some("!! Title\ntext\n!!"),
        Node::Anchor
        | Node::Bold
        | Node::CodeSpan
        | Node::Destination
        | Node::Document
        | Node::Emphasis
        | Node::Heading
        | Node::Icon
        | Node::Image
        | Node::Images
        | Node::Italic
        | Node::ListItem
        | Node::Metadata
        | Node::Modifier
        | Node::OrderedList
        | Node::Paragraph
        | Node::Strikethrough
        | Node::ThematicBreak
        | Node::Title
        | Node::UnorderedList => None,
    }
}

#[test]
fn code_block_consumes_trailing_eol() {
    let input = "```\ncode\n```\nparagraph_text";
    let mut p = Parser::new(input);
    document(&mut p);
    assert_eq!(p.ops.len(), 8);
    assert_eq!(p.ops[0].kind, OpKind::Start(Node::Document));
    assert_eq!(p.ops[1].kind, OpKind::Start(Node::Code));
    assert_eq!(p.ops[2].kind, OpKind::Value);
    assert_eq!(p.ops[3].kind, OpKind::End(Node::Code));
    assert_eq!(p.ops[4].kind, OpKind::Start(Node::Paragraph));
    assert_eq!(p.ops[5].kind, OpKind::Value);
    assert_eq!(p.ops[5].content.as_str(input), "paragraph_text");
    assert_eq!(p.ops[6].kind, OpKind::End(Node::Paragraph));
    assert_eq!(p.ops[7].kind, OpKind::End(Node::Document));
}

#[test]
fn collapsible_block_consumes_trailing_eol() {
    let input = "{% Title\ntext\n%}\nparagraph_text";
    let mut p = Parser::new(input);
    document(&mut p);
    assert_eq!(p.ops.len(), 15);
    assert_eq!(p.ops[0].kind, OpKind::Start(Node::Document));
    assert_eq!(p.ops[1].kind, OpKind::Start(Node::Collapsible));
    assert_eq!(p.ops[2].kind, OpKind::Start(Node::Modifier));
    assert_eq!(p.ops[3].kind, OpKind::Value);
    assert_eq!(p.ops[3].content.as_str(input), "Title");
    assert_eq!(p.ops[4].kind, OpKind::End(Node::Modifier));
    assert_eq!(p.ops[5].kind, OpKind::Start(Node::Document));
    assert_eq!(p.ops[6].kind, OpKind::Start(Node::Paragraph));
    assert_eq!(p.ops[7].kind, OpKind::Value);
    assert_eq!(p.ops[8].kind, OpKind::End(Node::Paragraph));
    assert_eq!(p.ops[9].kind, OpKind::End(Node::Document));
    assert_eq!(p.ops[10].kind, OpKind::End(Node::Collapsible));
    assert_eq!(p.ops[11].kind, OpKind::Start(Node::Paragraph));
    assert_eq!(p.ops[12].kind, OpKind::Value);
    assert_eq!(p.ops[12].content.as_str(input), "paragraph_text");
    assert_eq!(p.ops[13].kind, OpKind::End(Node::Paragraph));
    assert_eq!(p.ops[14].kind, OpKind::End(Node::Document));
}

#[test]
fn embed_block_consumes_trailing_eol() {
    let input = "{{a|b}}\nparagraph_text";
    let mut p = Parser::new(input);
    document(&mut p);
    assert_eq!(p.ops.len(), 10);
    assert_eq!(p.ops[0].kind, OpKind::Start(Node::Document));
    assert_eq!(p.ops[1].kind, OpKind::Start(Node::Embed));
    assert_eq!(p.ops[2].kind, OpKind::Value);
    assert_eq!(p.ops[2].content.as_str(input), "a");
    assert_eq!(p.ops[3].kind, OpKind::Value);
    assert_eq!(p.ops[3].content.as_str(input), "|");
    assert_eq!(p.ops[4].kind, OpKind::Value);
    assert_eq!(p.ops[4].content.as_str(input), "b");
    assert_eq!(p.ops[5].kind, OpKind::End(Node::Embed));
    assert_eq!(p.ops[6].kind, OpKind::Start(Node::Paragraph));
    assert_eq!(p.ops[7].kind, OpKind::Value);
    assert_eq!(p.ops[7].content.as_str(input), "paragraph_text");
    assert_eq!(p.ops[8].kind, OpKind::End(Node::Paragraph));
    assert_eq!(p.ops[9].kind, OpKind::End(Node::Document));
}

#[test]
fn highlight_block_consumes_trailing_eol() {
    let input = "!! Title\ntext\n!!\nparagraph_text";
    let mut p = Parser::new(input);
    document(&mut p);
    assert_eq!(p.ops.len(), 13);
    assert_eq!(p.ops[0].kind, OpKind::Start(Node::Document));
    assert_eq!(p.ops[1].kind, OpKind::Start(Node::Highlight));
    assert_eq!(p.ops[2].kind, OpKind::Start(Node::Modifier));
    assert_eq!(p.ops[3].kind, OpKind::Value);
    assert_eq!(p.ops[3].content.as_str(input), "Title");
    assert_eq!(p.ops[4].kind, OpKind::End(Node::Modifier));
    assert_eq!(p.ops[5].kind, OpKind::Start(Node::Paragraph));
    assert_eq!(p.ops[6].kind, OpKind::Value);
    assert_eq!(p.ops[7].kind, OpKind::End(Node::Paragraph));
    assert_eq!(p.ops[8].kind, OpKind::End(Node::Highlight));
    assert_eq!(p.ops[9].kind, OpKind::Start(Node::Paragraph));
    assert_eq!(p.ops[10].kind, OpKind::Value);
    assert_eq!(p.ops[10].content.as_str(input), "paragraph_text");
    assert_eq!(p.ops[11].kind, OpKind::End(Node::Paragraph));
    assert_eq!(p.ops[12].kind, OpKind::End(Node::Document));
}

#[test]
fn block_fixture_is_exhaustive() {
    let _ = block_fixture(&Node::Code);
}
