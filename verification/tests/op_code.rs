#![allow(unused_imports)]
use yamd::lexer::{Position, Token, TokenKind};
use yamd::op::anchor::anchor;
use yamd::op::bold::bold;
use yamd::op::code::code;
use yamd::op::code_span::code_span;
use yamd::op::collapsible::collapsible;
use yamd::op::destination::destination;
use yamd::op::document::document;
use yamd::op::embed::embed;
use yamd::op::heading::heading;
use yamd::op::highlight::highlight;
use yamd::op::image::image;
use yamd::op::images::images;
use yamd::op::italic::italic;
use yamd::op::list::list;
use yamd::op::metadata::metadata;
use yamd::op::modifier::modifier;
use yamd::op::paragraph::paragraph;
use yamd::op::parser::{eol, ListKind, Parser, StopCondition};
use yamd::op::strikethrough::strikethrough;
use yamd::op::thematic_break::thematic_break;
use yamd::op::title::title;
use yamd::op::{parse, unescape, Content, Node, Op, OpKind};

#[test]
fn code_happy_path() {
    let mut p = Parser::new("```rust\nprintln!(\"hello\");\n```");
    assert!(code(&mut p));
    assert_eq!(
        p.ops,
        vec![
            Op::new_start(Node::Code, p.span(0..1)),
            Op::new_start(Node::Modifier, p.span(0..0)),
            Op::new_value(p.span(1..2)),
            Op::new_end(Node::Modifier, p.span(2..3)),
            Op::new_value(p.span(3..10)),
            Op::new_end(Node::Code, p.span(10..11)),
        ]
    );
}

#[test]
fn code_eol_before_lang() {
    let mut p = Parser::new("```\nprintln!(\"hello\");\n```");
    assert!(code(&mut p));
    assert_eq!(
        p.ops,
        vec![
            Op::new_start(Node::Code, p.span(0..2)),
            Op::new_value(p.span(2..9)),
            Op::new_end(Node::Code, p.span(9..10)),
        ]
    );
}

#[test]
fn code_terminator_before_lang() {
    let mut p = Parser::new("```\n\nprintln!(\"hello\");\n```");
    p.with_eof(StopCondition::Terminator, |p| {
        assert!(!code(p));
        assert!(p.ops.is_empty());
        assert_eq!(
            p.peek(),
            Some((
                0,
                &Token::new(TokenKind::Backtick, 0..3, Position::default()),
            ))
        );
    });
}

#[test]
fn code_do_not_have_closing_token() {
    let mut p = Parser::new("```\nprintln!(\"hello\");\n``");
    assert!(!code(&mut p));
    assert!(p.ops.is_empty());
    assert_eq!(
        p.peek(),
        Some((
            0,
            &Token::new(TokenKind::Backtick, 0..3, Position::default()),
        ))
    );
}

#[test]
fn code_trailing_eol_consumed() {
    let mut p = Parser::new("```\ncode\n```\n");
    assert!(code(&mut p));
    assert_eq!(
        p.ops,
        vec![
            Op::new_start(Node::Code, p.span(0..2)),
            Op::new_value(p.span(2..4)),
            Op::new_end(Node::Code, p.span(4..6)),
        ]
    );
    assert!(p.at_eof());
}

#[test]
fn closing_backticks_not_at_block_boundary() {
    let mut p = Parser::new("```\ncode\n```extra");
    assert!(!code(&mut p));
    assert!(p.ops.is_empty());
    assert_eq!(p.pos, 0);
}

#[test]
fn code_terminator_in_the_middle_and_do_not_have_closing_token() {
    let mut p = Parser::new("```\nprintln!(\"hello\");\n\n\n``");
    assert!(!code(&mut p));
    assert!(p.ops.is_empty());
    assert_eq!(
        p.peek(),
        Some((
            0,
            &Token::new(TokenKind::Backtick, 0..3, Position::default()),
        ))
    );
}
