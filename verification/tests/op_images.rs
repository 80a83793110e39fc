#![allow(unused_imports)]
use yamd::lexer::{Position, Token, TokenKind};
use yamd::op::anchor::anchor;
use yamd::op::bold::bold;
use yamd::op::code::code;
use yamd::op::code_span::code_span;
use yamd::op::collapsible::collapsible;
use yamd::op::destination::destination;
use yamd::op::document::document;
use yamd::op::embed::embed;
use yamd::op::heading::heading;
use yamd::op::highlight::highlight;
use yamd::op::image::image;
use yamd::op::images::images;
use yamd::op::italic::italic;
use yamd::op::list::list;
use yamd::op::metadata::metadata;
use yamd::op::modifier::modifier;
use yamd::op::paragraph::paragraph;
use yamd::op::parser::{eol, ListKind, Parser, StopCondition};
use yamd::op::strikethrough::strikethrough;
use yamd::op::thematic_break::thematic_break;
use yamd::op::title::title;
use yamd::op::{parse, unescape, Content, Node, Op, OpKind};

#[test]
fn images_happy_path() {
    let mut p = Parser::new("![a](u)\n![a](u)");
    assert!(images(&mut p));
    assert_eq!(
        p.ops,
        vec![
            Op::new_start(Node::Images, Content::span(0..0)),
            Op::new_start(Node::Image, p.span(0..1)),
            Op::new_start(Node::Title, p.span(1..2)),
            Op::new_value(p.span(2..3)),
            Op::new_end(Node::Title, p.span(3..4)),
            Op::new_start(Node::Destination, p.span(4..5)),
            Op::new_value(p.span(5..6)),
            Op::new_end(Node::Destination, p.span(6..7)),
            Op::new_end(Node::Image, p.span(7..8)),
            Op::new_start(Node::Image, p.span(8..9)),
            Op::new_start(Node::Title, p.span(9..10)),
            Op::new_value(p.span(10..11)),
            Op::new_end(Node::Title, p.span(11..12)),
            Op::new_start(Node::Destination, p.span(12..13)),
            Op::new_value(p.span(13..14)),
            Op::new_end(Node::Destination, p.span(14..15)),
            Op::new_end(Node::Image, Content::span(0..0)),
            Op::new_end(Node::Images, Content::span(0..0)),
        ]
    );
}

#[test]
fn images_not_an_anchor() {
    let mut p = Parser::new("![a](u)\n!!foo");
    assert!(!images(&mut p));
    assert!(p.ops.is_empty());
    assert_eq!(
        p.peek(),
        Some((0, &Token::new(TokenKind::Bang, 0..1, Position::default())))
    );
}

#[test]
fn images_next_token_can_be_only_terminator() {
    let mut p = Parser::new("![a](u)\n![a](u)fasdf");
    assert!(!images(&mut p));
    assert!(p.ops.is_empty());
    assert_eq!(
        p.peek(),
        Some((0, &Token::new(TokenKind::Bang, 0..1, Position::default())))
    );
}

#[test]
fn images_new_line_check() {
    let mut p = Parser::new("![a](u)\n![a](u)\n");
    assert!(images(&mut p));
    assert_eq!(
        p.ops,
        vec![
            Op::new_start(Node::Images, Content::span(0..0)),
            Op::new_start(Node::Image, p.span(0..1)),
            Op::new_start(Node::Title, p.span(1..2)),
            Op::new_value(p.span(2..3)),
            Op::new_end(Node::Title, p.span(3..4)),
            Op::new_start(Node::Destination, p.span(4..5)),
            Op::new_value(p.span(5..6)),
            Op::new_end(Node::Destination, p.span(6..7)),
            Op::new_end(Node::Image, p.span(7..8)),
            Op::new_start(Node::Image, p.span(8..9)),
            Op::new_start(Node::Title, p.span(9..10)),
            Op::new_value(p.span(10..11)),
            Op::new_end(Node::Title, p.span(11..12)),
            Op::new_start(Node::Destination, p.span(12..13)),
            Op::new_value(p.span(13..14)),
            Op::new_end(Node::Destination, p.span(14..15)),
            Op::new_end(Node::Image, p.span(15..16)),
            Op::new_end(Node::Images, Content::span(0..0)),
        ]
    );
}
