#![allow(unused_imports)]
use yamd::lexer::{Position, Token, TokenKind};
use yamd::op::anchor::anchor;
use yamd::op::bold::bold;
use yamd::op::code::code;
use yamd::op::code_span::code_span;
use yamd::op::collapsible::collapsible;
use yamd::op::destination::destination;
use yamd::op::document::document;
use yamd::op::embed::embed;
use yamd::op::heading::heading;
use yamd::op::highlight::highlight;
use yamd::op::image::image;
use yamd::op::images::images;
use yamd::op::italic::italic;
use yamd::op::list::list;
use yamd::op::metadata::metadata;
use yamd::op::modifier::modifier;
use yamd::op::paragraph::paragraph;
use yamd::op::parser::{eol, ListKind, Parser, StopCondition};
use yamd::op::strikethrough::strikethrough;
use yamd::op::thematic_break::thematic_break;
use yamd::op::title::title;
use yamd::op::{parse, unescape, Content, Node, Op, OpKind};

#[test]
fn embed_happy_path() {
    let mut p = Parser::new("{{happy|path}}");
    assert!(embed(&mut p));
    assert_eq!(
        p.ops,
        vec![
            Op::new_start(Node::Embed, p.span(0..1)),
            Op::new_value(p.span(1..2)),
            Op::new_value(p.span(2..3)),
            Op::new_value(p.span(3..4)),
            Op::new_end(Node::Embed, p.span(4..5)),
        ]
    );
}

#[test]
fn embed_terminator() {
    let mut p = Parser::new("{{\n\n|path}}");
    p.with_eof(StopCondition::Terminator, |p| {
        assert!(!embed(p));
        assert!(p.ops.is_empty());
        assert_eq!(
            p.peek(),
            Some((
                0,
                &Token::new(TokenKind::LeftCurlyBrace, 0..2, Position::default()),
            ))
        );
    });
}

#[test]
fn embed_do_not_have_closing_token() {
    let mut p = Parser::new("{{happy|path}");
    assert!(!embed(&mut p));
    assert!(p.ops.is_empty());
    assert_eq!(
        p.peek(),
        Some((
            0,
            &Token::new(TokenKind::LeftCurlyBrace, 0..2, Position::default()),
        ))
    );
}

#[test]
fn closing_braces_not_at_block_boundary() {
    let mut p = Parser::new("{{happy|path}}extra");
    assert!(!embed(&mut p));
    assert!(p.ops.is_empty());
    assert_eq!(p.pos, 0);
}

#[test]
fn embed_trailing_eol_consumed() {
    let mut p = Parser::new("{{happy|path}}\n");
    assert!(embed(&mut p));
    assert_eq!(
        p.ops,
        vec![
            Op::new_start(Node::Embed, p.span(0..1)),
            Op::new_value(p.span(1..2)),
            Op::new_value(p.span(2..3)),
            Op::new_value(p.span(3..4)),
            Op::new_end(Node::Embed, p.span(4..6)),
        ]
    );
    assert!(p.at_eof());
}

#[test]
fn embed_no_pipe() {
    let mut p = Parser::new("{{happy}}");
    assert!(!embed(&mut p));
    assert!(p.ops.is_empty());
    assert_eq!(
        p.peek(),
        Some((
            0,
            &Token::new(TokenKind::LeftCurlyBrace, 0..2, Position::default()),
        ))
    )
}
