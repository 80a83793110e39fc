#![allow(unused_imports)]
use yamd::lexer::{Position, Token, TokenKind};
use yamd::op::anchor::anchor;
use yamd::op::bold::bold;
use yamd::op::code::code;
use yamd::op::code_span::code_span;
use yamd::op::collapsible::collapsible;
use yamd::op::destination::destination;
use yamd::op::document::document;
use yamd::op::embed::embed;
use yamd::op::heading::heading;
use yamd::op::highlight::highlight;
use yamd::op::image::image;
use yamd::op::images::images;
use yamd::op::italic::italic;
use yamd::op::list::list;
use yamd::op::metadata::metadata;
use yamd::op::modifier::modifier;
use yamd::op::paragraph::paragraph;
use yamd::op::parser::{eol, ListKind, Parser, StopCondition};
use yamd::op::strikethrough::strikethrough;
use yamd::op::thematic_break::thematic_break;
use yamd::op::title::title;
use yamd::op::{parse, unescape, Content, Node, Op, OpKind};

#[test]
fn heading_happy_path() {
    let mut p = Parser::new("## heading [a](u) text");
    assert!(heading(&mut p));
    assert_eq!(
        p.ops,
        vec![
            Op::new_start(Node::Heading, p.span(0..2)),
            Op::new_value(p.span(2..3)),
            Op::new_start(Node::Anchor, Content::span(0..0)),
            Op::new_start(Node::Title, p.span(3..4)),
            Op::new_value(p.span(4..5)),
            Op::new_end(Node::Title, p.span(5..6)),
            Op::new_start(Node::Destination, p.span(6..7)),
            Op::new_value(p.span(7..8)),
            Op::new_end(Node::Destination, p.span(8..9)),
            Op::new_end(Node::Anchor, Content::span(0..0)),
            Op::new_value(p.span(9..11)),
            Op::new_end(Node::Heading, Content::span(0..0)),
        ]
    );
}

#[test]
fn heading_start_with_anchor() {
    let mut p = Parser::new("## [a](u) heading");
    assert!(heading(&mut p));
    assert_eq!(
        p.ops,
        vec![
            Op::new_start(Node::Heading, p.span(0..2)),
            Op::new_start(Node::Anchor, Content::span(0..0)),
            Op::new_start(Node::Title, p.span(2..3)),
            Op::new_value(p.span(3..4)),
            Op::new_end(Node::Title, p.span(4..5)),
            Op::new_start(Node::Destination, p.span(5..6)),
            Op::new_value(p.span(6..7)),
            Op::new_end(Node::Destination, p.span(7..8)),
            Op::new_end(Node::Anchor, Content::span(0..0)),
            Op::new_value(p.span(8..10)),
            Op::new_end(Node::Heading, Content::span(0..0)),
        ]
    );
}

#[test]
fn heading_broken_anchor() {
    let mut p = Parser::new("## heading [a](u text");
    assert!(heading(&mut p));
    assert_eq!(
        p.ops,
        vec![
            Op::new_start(Node::Heading, p.span(0..2)),
            Op::new_value(p.span(2..8)),
            Op::new_end(Node::Heading, Content::span(0..0)),
        ]
    );
}

#[test]
fn heading_with_terminator() {
    let mut p = Parser::new("## heading\n\ntext");
    p.with_eof(StopCondition::Terminator, |p| {
        assert!(heading(p));
        assert_eq!(
            p.ops,
            vec![
                Op::new_start(Node::Heading, p.span(0..2)),
                Op::new_value(p.span(2..3)),
                Op::new_end(Node::Heading, Content::span(0..0)),
            ]
        );
    });
}

#[test]
fn heading_have_no_space_before_text() {
    let mut p = Parser::new("##heading\n\ntext");
    assert!(!heading(&mut p));
    assert!(p.ops.is_empty());
    assert_eq!(
        p.peek(),
        Some((0, &Token::new(TokenKind::Hash, 0..2, Position::default())))
    );
}

#[test]
fn heading_new_line_check() {
    let mut p = Parser::new("## heading [a](u) text\n ");
    assert!(heading(&mut p));
    assert_eq!(
        p.ops,
        vec![
            Op::new_start(Node::Heading, p.span(0..2)),
            Op::new_value(p.span(2..3)),
            Op::new_start(Node::Anchor, Content::span(0..0)),
            Op::new_start(Node::Title, p.span(3..4)),
            Op::new_value(p.span(4..5)),
            Op::new_end(Node::Title, p.span(5..6)),
            Op::new_start(Node::Destination, p.span(6..7)),
            Op::new_value(p.span(7..8)),
            Op::new_end(Node::Destination, p.span(8..9)),
            Op::new_end(Node::Anchor, Content::span(0..0)),
            Op::new_value(p.span(9..13)),
            Op::new_end(Node::Heading, Content::span(0..0)),
        ]
    );
}

#[test]
fn heading_only_one_token() {
    let mut p = Parser::new("##");
    assert!(!heading(&mut p));
    assert!(p.ops.is_empty());
    assert_eq!(
        p.peek(),
        Some((0, &Token::new(TokenKind::Hash, 0..2, Position::default())))
    );
}
