#![allow(unused_imports)]
use yamd::lexer::{Position, Token, TokenKind};
use yamd::op::anchor::anchor;
use yamd::op::bold::bold;
use yamd::op::code::code;
use yamd::op::code_span::code_span;
use yamd::op::collapsible::collapsible;
use yamd::op::destination::destination;
use yamd::op::document::document;
use yamd::op::embed::embed;
use yamd::op::heading::heading;
use yamd::op::highlight::highlight;
use yamd::op::image::image;
use yamd::op::images::images;
use yamd::op::italic::italic;
use yamd::op::list::list;
use yamd::op::metadata::metadata;
use yamd::op::modifier::modifier;
use yamd::op::paragraph::paragraph;
use yamd::op::parser::{eol, ListKind, Parser, StopCondition};
use yamd::op::strikethrough::strikethrough;
use yamd::op::thematic_break::thematic_break;
use yamd::op::title::title;
use yamd::op::{parse, unescape, Content, Node, Op, OpKind};

#[test]
fn eat_matches_and_consumes() {
    let mut p = Parser::new("hello world");
    let result = p.eat(|t| t.kind == TokenKind::Literal);
    assert!(result.is_some());
    assert_eq!(result.unwrap(), 0..1);
    assert_eq!(p.pos, 1);
}

#[test]
fn eat_no_match_does_not_advance() {
    let mut p = Parser::new("hello world");
    let result = p.eat(|t| t.kind == TokenKind::Star);
    assert!(result.is_none());
    assert_eq!(p.pos, 0);
}

#[test]
fn eat_at_eof_returns_none() {
    let mut p = Parser::new("");
    let result = p.eat(|t| t.kind == TokenKind::Literal);
    assert!(result.is_none());
}

#[test]
fn at_matches_without_consuming() {
    let p = Parser::new("hello");
    assert!(p.at(|t| t.kind == TokenKind::Literal));
    assert_eq!(p.pos, 0);
}

#[test]
fn at_no_match() {
    let p = Parser::new("hello");
    assert!(!p.at(|t| t.kind == TokenKind::Star));
    assert_eq!(p.pos, 0);
}

#[test]
fn at_eof_returns_false() {
    let p = Parser::new("");
    assert!(!p.at(|t| t.kind == TokenKind::Literal));
}

#[test]
fn eat_seq_matches_sequence() {
    let mut p = Parser::new("# hello");
    let start = p.pos;
    let result = if p.eat(|t: &Token| t.kind == TokenKind::Hash).is_some()
        && p.eat(|t: &Token| t.kind == TokenKind::Space).is_some()
    {
        Some(start..p.pos)
    } else {
        p.pos = start;
        None
    };
    assert!(result.is_some());
    assert_eq!(result.unwrap(), 0..2);
    assert_eq!(p.pos, 2);
}

#[test]
fn eat_seq_backtracks_on_partial_match() {
    let mut p = Parser::new("# hello");
    let start = p.pos;
    let result = if p.eat(|t: &Token| t.kind == TokenKind::Hash).is_some()
        && p.eat(|t: &Token| t.kind == TokenKind::Star).is_some()
    {
        Some(start..p.pos)
    } else {
        p.pos = start;
        None
    };
    assert!(result.is_none());
    assert_eq!(p.pos, 0);
}

#[test]
fn eat_seq_single_predicate() {
    let mut p = Parser::new("hello");
    let start = p.pos;
    let result = if p.eat(|t: &Token| t.kind == TokenKind::Literal).is_some() {
        Some(start..p.pos)
    } else {
        p.pos = start;
        None
    };
    assert!(result.is_some());
    assert_eq!(p.pos, 1);
}

#[test]
fn advance_until_finds_match() {
    let mut p = Parser::new("hello\nworld");
    let result = p.advance_until(|t: &Token| t.kind == TokenKind::Eol);
    assert!(result.is_some());
    let (before, matched) = result.unwrap();
    assert_eq!(before, 0..1);
    assert_eq!(matched, 1..2);
}

#[test]
fn advance_until_eof_hit() {
    let mut p = Parser::new("hello\n\nworld");
    p.with_eof(StopCondition::Terminator, |p| {
        let result = p.advance_until(|t: &Token| t.kind == TokenKind::Star);
        assert!(result.is_none());
        assert_eq!(p.pos, 0);
    });
}

#[test]
fn advance_until_no_match_at_eof() {
    let mut p = Parser::new("hello");
    let result = p.advance_until(|t: &Token| t.kind == TokenKind::Star);
    assert!(result.is_none());
    assert_eq!(p.pos, 0);
}

#[test]
fn at_eof_empty_stack_not_at_end() {
    let p = Parser::new("hello");
    assert!(!p.at_eof());
}

#[test]
fn at_eof_empty_stack_at_end() {
    let p = Parser::new("");
    assert!(p.at_eof());
}

#[test]
fn at_eof_terminator_on_stack() {
    let mut p = Parser::new("hello\n\nworld");
    p.with_eof(StopCondition::Terminator, |p| {
        assert!(!p.at_eof());
        p.next();
        assert!(p.at_eof());
    });
}

#[test]
fn eof_guard_pops_on_drop() {
    let mut p = Parser::new("hello\n\nworld");
    p.with_eof(StopCondition::Terminator, |p| {
        p.next();
        assert!(p.at_eof());
    });
    assert!(!p.at_eof());
}

#[test]
fn nested_guards_pop_in_order() {
    let mut p = Parser::new("hello\n\nworld");
    p.with_eof(StopCondition::Terminator, |p| {
        p.next();
        assert!(p.at_eof());
        p.with_eof(StopCondition::HighlightEnd, |p| {
            assert!(p.at_eof());
        });
        assert!(p.at_eof());
    });
}
