#![allow(unused_imports)]
use yamd::lexer::{Position, Token, TokenKind};
use yamd::op::anchor::anchor;
use yamd::op::bold::bold;
use yamd::op::code::code;
use yamd::op::code_span::code_span;
use yamd::op::collapsible::collapsible;
use yamd::op::destination::destination;
use yamd::op::document::document;
use yamd::op::embed::embed;
use yamd::op::heading::heading;
use yamd::op::highlight::highlight;
use yamd::op::image::image;
use yamd::op::images::images;
use yamd::op::italic::italic;
use yamd::op::list::list;
use yamd::op::metadata::metadata;
use yamd::op::modifier::modifier;
use yamd::op::paragraph::paragraph;
use yamd::op::parser::{eol, ListKind, Parser, StopCondition};
use yamd::op::strikethrough::strikethrough;
use yamd::op::thematic_break::thematic_break;
use yamd::op::title::title;
use yamd::op::{parse, unescape, Content, Node, Op, OpKind};

#[test]
fn code_span_happy_path() {
    let mut p = Parser::new("`happy path`");
    assert!(code_span(&mut p));
    assert_eq!(
        p.ops,
        vec![
            Op::new_start(Node::CodeSpan, p.span(0..1)),
            Op::new_value(p.span(1..2)),
            Op::new_end(Node::CodeSpan, p.span(2..3)),
        ]
    );
}

#[test]
fn code_span_terminator() {
    let mut p = Parser::new("`happy\n\npath`");
    p.with_eof(StopCondition::Terminator, |p| {
        assert!(!code_span(p));
        assert!(p.ops.is_empty());
        assert_eq!(
            p.peek(),
            Some((
                0,
                &Token::new(TokenKind::Backtick, 0..1, Position::default())
            ))
        );
    });
}

#[test]
fn code_span_no_rhs() {
    let mut p = Parser::new("`happy path");
    assert!(!code_span(&mut p));
    assert!(p.ops.is_empty());
    assert_eq!(
        p.peek(),
        Some((
            0,
            &Token::new(TokenKind::Backtick, 0..1, Position::default())
        ))
    )
}
