#![allow(unused_imports)]
use yamd::lexer::{Position, Token, TokenKind};
use yamd::op::anchor::anchor;
use yamd::op::bold::bold;
use yamd::op::code::code;
use yamd::op::code_span::code_span;
use yamd::op::collapsible::collapsible;
use yamd::op::destination::destination;
use yamd::op::document::document;
use yamd::op::embed::embed;
use yamd::op::heading::heading;
use yamd::op::highlight::highlight;
use yamd::op::image::image;
use yamd::op::images::images;
use yamd::op::italic::italic;
use yamd::op::list::list;
use yamd::op::metadata::metadata;
use yamd::op::modifier::modifier;
use yamd::op::paragraph::paragraph;
use yamd::op::parser::{eol, ListKind, Parser, StopCondition};
use yamd::op::strikethrough::strikethrough;
use yamd::op::thematic_break::thematic_break;
use yamd::op::title::title;
use yamd::op::{parse, unescape, Content, Node, Op, OpKind};

#[test]
fn bold_happy_path() {
    let mut p = Parser::new("**~~happy~~ _path_**");
    assert!(bold(&mut p));
    assert_eq!(
        p.ops,
        vec![
            Op::new_start(Node::Bold, p.span(0..1)),
            Op::new_start(Node::Strikethrough, p.span(1..2)),
            Op::new_value(p.span(2..3)),
            Op::new_end(Node::Strikethrough, p.span(3..4)),
            Op::new_value(p.span(4..5)),
            Op::new_start(Node::Italic, p.span(5..6)),
            Op::new_value(p.span(6..7)),
            Op::new_end(Node::Italic, p.span(7..8)),
            Op::new_end(Node::Bold, p.span(8..9)),
        ]
    );
}

#[test]
fn bold_terminator() {
    let mut p = Parser::new("**~~happy~~ _path_\n\n**");
    p.with_eof(StopCondition::Terminator, |p| {
        assert!(!bold(p));
        assert!(p.ops.is_empty());
        assert_eq!(
            p.peek(),
            Some((0, &Token::new(TokenKind::Star, 0..2, Position::default())))
        );
    });
}

#[test]
fn bold_end_of_input() {
    let mut p = Parser::new("**~~happy~~ _path_");
    assert!(!bold(&mut p));
    assert!(p.ops.is_empty());
    assert_eq!(
        p.peek(),
        Some((0, &Token::new(TokenKind::Star, 0..2, Position::default())))
    )
}

#[test]
fn bold_end_of_input_in_nested() {
    let mut p = Parser::new("**~~happy _path_");
    assert!(!bold(&mut p));
    assert!(p.ops.is_empty());
    assert_eq!(
        p.peek(),
        Some((0, &Token::new(TokenKind::Star, 0..2, Position::default())))
    );
}

#[test]
fn bold_text_before_strikethrough() {
    let mut p = Parser::new("**text ~~happy~~ _path_**");
    assert!(bold(&mut p));
    assert_eq!(
        p.ops,
        vec![
            Op::new_start(Node::Bold, p.span(0..1)),
            Op::new_value(p.span(1..2)),
            Op::new_start(Node::Strikethrough, p.span(2..3)),
            Op::new_value(p.span(3..4)),
            Op::new_end(Node::Strikethrough, p.span(4..5)),
            Op::new_value(p.span(5..6)),
            Op::new_start(Node::Italic, p.span(6..7)),
            Op::new_value(p.span(7..8)),
            Op::new_end(Node::Italic, p.span(8..9)),
            Op::new_end(Node::Bold, p.span(9..10)),
        ]
    );
}

#[test]
fn bold_unclosed_italic() {
    let mut p = Parser::new("**_path**");
    assert!(bold(&mut p));
    assert_eq!(
        p.ops,
        vec![
            Op::new_start(Node::Bold, p.span(0..1)),
            Op::new_value(p.span(1..3)),
            Op::new_end(Node::Bold, p.span(3..4)),
        ]
    );
}
