#![allow(unused_imports)]
use yamd::lexer::{Position, Token, TokenKind};
use yamd::op::anchor::anchor;
use yamd::op::bold::bold;
use yamd::op::code::code;
use yamd::op::code_span::code_span;
use yamd::op::collapsible::collapsible;
use yamd::op::destination::destination;
use yamd::op::document::document;
use yamd::op::embed::embed;
use yamd::op::heading::heading;
use yamd::op::highlight::highlight;
use yamd::op::image::image;
use yamd::op::images::images;
use yamd::op::italic::italic;
use yamd::op::list::list;
use yamd::op::metadata::metadata;
use yamd::op::modifier::modifier;
use yamd::op::paragraph::paragraph;
use yamd::op::parser::{eol, ListKind, Parser, StopCondition};
use yamd::op::strikethrough::strikethrough;
use yamd::op::thematic_break::thematic_break;
use yamd::op::title::title;
use yamd::op::{parse, unescape, Content, Node, Op, OpKind};

#[test]
fn anchor_happy_path() {
    let mut p = Parser::new("[a](u)");
    assert!(anchor(&mut p));
    assert_eq!(
        p.ops,
        vec![
            Op::new_start(Node::Anchor, Content::span(0..0)),
            Op::new_start(Node::Title, p.span(0..1)),
            Op::new_value(p.span(1..2)),
            Op::new_end(Node::Title, p.span(2..3)),
            Op::new_start(Node::Destination, p.span(3..4)),
            Op::new_value(p.span(4..5)),
            Op::new_end(Node::Destination, p.span(5..6)),
            Op::new_end(Node::Anchor, Content::span(0..0))
        ]
    );
}

#[test]
fn title_is_not_closed() {
    let mut p = Parser::new("[a");
    assert!(!anchor(&mut p));
    assert!(p.ops.is_empty());
    assert_eq!(
        p.peek(),
        Some((
            0,
            &Token::new(TokenKind::LeftSquareBracket, 0..1, Position::default())
        ))
    )
}

#[test]
fn anchor_url_is_not_closed() {
    let mut p = Parser::new("[a](u");
    assert!(!anchor(&mut p));
    assert!(p.ops.is_empty());
    assert_eq!(
        p.peek(),
        Some((
            0,
            &Token::new(TokenKind::LeftSquareBracket, 0..1, Position::default())
        ))
    )
}

#[test]
fn anchor_has_nested_square_brackets() {
    let mut p = Parser::new("[[a\\]l](u)");
    assert!(anchor(&mut p));
    assert_eq!(
        p.ops,
        vec![
            Op::new_start(Node::Anchor, Content::span(0..0)),
            Op::new_start(Node::Title, p.span(0..1)),
            Op::new_value(p.span(1..4)),
            Op::new_end(Node::Title, p.span(4..5)),
            Op::new_start(Node::Destination, p.span(5..6)),
            Op::new_value(p.span(6..7)),
            Op::new_end(Node::Destination, p.span(7..8)),
            Op::new_end(Node::Anchor, Content::span(0..0))
        ]
    );
}

#[test]
fn anchor_has_nested_paren() {
    let mut p = Parser::new("[a]((u)r)");
    assert!(anchor(&mut p));
    assert_eq!(
        p.ops,
        vec![
            Op::new_start(Node::Anchor, Content::span(0..0)),
            Op::new_start(Node::Title, p.span(0..1)),
            Op::new_value(p.span(1..2)),
            Op::new_end(Node::Title, p.span(2..3)),
            Op::new_start(Node::Destination, p.span(3..4)),
            Op::new_value(p.span(4..8)),
            Op::new_end(Node::Destination, p.span(8..9)),
            Op::new_end(Node::Anchor, Content::span(0..0))
        ]
    );
}

#[test]
fn anchor_has_unclosed_nested_paren() {
    let mut p = Parser::new("[a]((ur)t");
    assert!(anchor(&mut p));
    assert_eq!(
        p.ops,
        vec![
            Op::new_start(Node::Anchor, Content::span(0..0)),
            Op::new_start(Node::Title, p.span(0..1)),
            Op::new_value(p.span(1..2)),
            Op::new_end(Node::Title, p.span(2..3)),
            Op::new_start(Node::Destination, p.span(3..4)),
            Op::new_value(p.span(4..6)),
            Op::new_end(Node::Destination, p.span(6..7)),
            Op::new_end(Node::Anchor, Content::span(0..0))
        ]
    );
}

#[test]
fn anchor_has_terminator() {
    let mut p = Parser::new("[[a]((u\n\n)r)");
    p.with_eof(StopCondition::Terminator, |p| {
        assert!(!anchor(p));
        assert!(p.ops.is_empty());
        assert_eq!(
            p.peek(),
            Some((
                0,
                &Token::new(TokenKind::LeftSquareBracket, 0..1, Position::default())
            ))
        );
    });
}

#[test]
fn anchor_no_paren() {
    let mut p = Parser::new("[a]");
    assert!(!anchor(&mut p));
    assert!(p.ops.is_empty());
    assert_eq!(
        p.peek(),
        Some((
            0,
            &Token::new(TokenKind::LeftSquareBracket, 0..1, Position::default())
        ))
    )
}

#[test]
fn right_paren() {
    let mut p = Parser::new("[a])");
    assert!(!anchor(&mut p));
    assert!(p.ops.is_empty());
    assert_eq!(
        p.peek(),
        Some((
            0,
            &Token::new(TokenKind::LeftSquareBracket, 0..1, Position::default())
        ))
    )
}
