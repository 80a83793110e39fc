#![allow(unused_imports)]
use yamd::lexer::{Position, Token, TokenKind};
use yamd::op::anchor::anchor;
use yamd::op::bold::bold;
use yamd::op::code::code;
use yamd::op::code_span::code_span;
use yamd::op::collapsible::collapsible;
use yamd::op::destination::destination;
use yamd::op::document::document;
use yamd::op::embed::embed;
use yamd::op::heading::heading;
use yamd::op::highlight::highlight;
use yamd::op::image::image;
use yamd::op::images::images;
use yamd::op::italic::italic;
use yamd::op::list::list;
use yamd::op::metadata::metadata;
use yamd::op::modifier::modifier;
use yamd::op::paragraph::paragraph;
use yamd::op::parser::{eol, ListKind, Parser, StopCondition};
use yamd::op::strikethrough::strikethrough;
use yamd::op::thematic_break::thematic_break;
use yamd::op::title::title;
use yamd::op::{parse, unescape, Content, Node, Op, OpKind};

#[test]
fn highlight_happy_path() {
    let mut p = Parser::new("!! Title\n! Icon\n_i_ **b**\n\nt~~s~~t\n!!");
    assert!(highlight(&mut p));
    assert_eq!(
        p.ops,
        vec![
            Op::new_start(Node::Highlight, p.span(0..2)),
            Op::new_start(Node::Modifier, Content::span(0..0)),
            Op::new_value(p.span(2..3)),
            Op::new_end(Node::Modifier, p.span(3..4)),
            Op::new_start(Node::Icon, p.span(4..6)),
            Op::new_value(p.span(6..7)),
            Op::new_end(Node::Icon, p.span(7..8)),
            Op::new_start(Node::Paragraph, Content::span(0..0)),
            Op::new_start(Node::Italic, p.span(8..9)),
            Op::new_value(p.span(9..10)),
            Op::new_end(Node::Italic, p.span(10..11)),
            Op::new_value(p.span(11..12)),
            Op::new_start(Node::Bold, p.span(12..13)),
            Op::new_value(p.span(13..14)),
            Op::new_end(Node::Bold, p.span(14..15)),
            Op::new_end(Node::Paragraph, Content::span(0..0)),
            Op::new_value(p.span(15..16)),
            Op::new_start(Node::Paragraph, Content::span(0..0)),
            Op::new_value(p.span(16..17)),
            Op::new_start(Node::Strikethrough, p.span(17..18)),
            Op::new_value(p.span(18..19)),
            Op::new_end(Node::Strikethrough, p.span(19..20)),
            Op::new_value(p.span(20..22)),
            Op::new_end(Node::Paragraph, Content::span(0..0)),
            Op::new_end(Node::Highlight, p.span(22..23)),
        ]
    );
}

#[test]
fn highlight_no_title() {
    let mut p = Parser::new("!!\n! Icon\n_i_ **b**\n\nt~~s~~t\n!!");
    assert!(highlight(&mut p));
    assert_eq!(
        p.ops,
        vec![
            Op::new_start(Node::Highlight, p.span(0..2)),
            Op::new_start(Node::Icon, p.span(2..4)),
            Op::new_value(p.span(4..5)),
            Op::new_end(Node::Icon, p.span(5..6)),
            Op::new_start(Node::Paragraph, Content::span(0..0)),
            Op::new_start(Node::Italic, p.span(6..7)),
            Op::new_value(p.span(7..8)),
            Op::new_end(Node::Italic, p.span(8..9)),
            Op::new_value(p.span(9..10)),
            Op::new_start(Node::Bold, p.span(10..11)),
            Op::new_value(p.span(11..12)),
            Op::new_end(Node::Bold, p.span(12..13)),
            Op::new_end(Node::Paragraph, Content::span(0..0)),
            Op::new_value(p.span(13..14)),
            Op::new_start(Node::Paragraph, Content::span(0..0)),
            Op::new_value(p.span(14..15)),
            Op::new_start(Node::Strikethrough, p.span(15..16)),
            Op::new_value(p.span(16..17)),
            Op::new_end(Node::Strikethrough, p.span(17..18)),
            Op::new_value(p.span(18..20)),
            Op::new_end(Node::Paragraph, Content::span(0..0)),
            Op::new_end(Node::Highlight, p.span(20..21)),
        ]
    )
}

#[test]
fn highlight_no_icon() {
    let mut p = Parser::new("!! Title\n_i_ **b**\n\nt~~s~~t\n!!");
    assert!(highlight(&mut p));
    assert_eq!(
        p.ops,
        vec![
            Op::new_start(Node::Highlight, p.span(0..2)),
            Op::new_start(Node::Modifier, Content::span(0..0)),
            Op::new_value(p.span(2..3)),
            Op::new_end(Node::Modifier, p.span(3..4)),
            Op::new_start(Node::Paragraph, Content::span(0..0)),
            Op::new_start(Node::Italic, p.span(4..5)),
            Op::new_value(p.span(5..6)),
            Op::new_end(Node::Italic, p.span(6..7)),
            Op::new_value(p.span(7..8)),
            Op::new_start(Node::Bold, p.span(8..9)),
            Op::new_value(p.span(9..10)),
            Op::new_end(Node::Bold, p.span(10..11)),
            Op::new_end(Node::Paragraph, Content::span(0..0)),
            Op::new_value(p.span(11..12)),
            Op::new_start(Node::Paragraph, Content::span(0..0)),
            Op::new_value(p.span(12..13)),
            Op::new_start(Node::Strikethrough, p.span(13..14)),
            Op::new_value(p.span(14..15)),
            Op::new_end(Node::Strikethrough, p.span(15..16)),
            Op::new_value(p.span(16..18)),
            Op::new_end(Node::Paragraph, Content::span(0..0)),
            Op::new_end(Node::Highlight, p.span(18..19)),
        ]
    )
}

#[test]
fn highlight_no_closing_token() {
    let mut p = Parser::new("!! Title\n_i_ **b**\n\nt~~s~~t!!");
    assert!(!highlight(&mut p));
    assert!(p.ops.is_empty());
    assert_eq!(
        p.peek(),
        Some((0, &Token::new(TokenKind::Bang, 0..2, Position::default())))
    );
}

#[test]
fn highlight_no_space_between_start_and_title() {
    let mut p = Parser::new("!!Title\n_i_ **b**\n\nt~~s~~t\n!!");
    assert!(!highlight(&mut p));
    assert!(p.ops.is_empty());
    assert_eq!(
        p.peek(),
        Some((0, &Token::new(TokenKind::Bang, 0..2, Position::default())))
    );
}

#[test]
fn highlight_terminator_in_title() {
    let mut p = Parser::new("!! Title\n\n_i_ **b**\n\nt~~s~~t\n!!");
    p.with_eof(StopCondition::Terminator, |p| {
        assert!(!highlight(p));
        assert!(p.ops.is_empty());
        assert_eq!(
            p.peek(),
            Some((0, &Token::new(TokenKind::Bang, 0..2, Position::default())))
        );
    });
}

#[test]
fn highlight_terminator_in_icon() {
    let mut p = Parser::new("!!\n! icon\n\n_i_ **b**\n\nt~~s~~t\n!!");
    assert!(highlight(&mut p));
    assert_eq!(
        p.ops,
        vec![
            Op::new_start(Node::Highlight, p.span(0..2)),
            Op::new_start(Node::Paragraph, Content::span(0..0)),
            Op::new_value(p.span(2..5)),
            Op::new_end(Node::Paragraph, Content::span(0..0)),
            Op::new_value(p.span(5..6)),
            Op::new_start(Node::Paragraph, Content::span(0..0)),
            Op::new_start(Node::Italic, p.span(6..7)),
            Op::new_value(p.span(7..8)),
            Op::new_end(Node::Italic, p.span(8..9)),
            Op::new_value(p.span(9..10)),
            Op::new_start(Node::Bold, p.span(10..11)),
            Op::new_value(p.span(11..12)),
            Op::new_end(Node::Bold, p.span(12..13)),
            Op::new_end(Node::Paragraph, Content::span(0..0)),
            Op::new_value(p.span(13..14)),
            Op::new_start(Node::Paragraph, Content::span(0..0)),
            Op::new_value(p.span(14..15)),
            Op::new_start(Node::Strikethrough, p.span(15..16)),
            Op::new_value(p.span(16..17)),
            Op::new_end(Node::Strikethrough, p.span(17..18)),
            Op::new_value(p.span(18..20)),
            Op::new_end(Node::Paragraph, Content::span(0..0)),
            Op::new_end(Node::Highlight, p.span(20..21)),
        ]
    );
}

#[test]
fn highlight_no_space_before_icon() {
    let mut p = Parser::new("!! Title\n!Icon\n!!");
    assert!(highlight(&mut p));
    assert_eq!(
        p.ops,
        vec![
            Op::new_start(Node::Highlight, p.span(0..2)),
            Op::new_start(Node::Modifier, Content::span(0..0)),
            Op::new_value(p.span(2..3)),
            Op::new_end(Node::Modifier, p.span(3..4)),
            Op::new_start(Node::Paragraph, Content::span(0..0)),
            Op::new_value(p.span(4..7)),
            Op::new_end(Node::Paragraph, Content::span(0..0)),
            Op::new_end(Node::Highlight, p.span(7..8)),
        ]
    );
}

#[test]
fn highlight_only_one_token() {
    let mut p = Parser::new("!!");
    assert!(!highlight(&mut p));
    assert!(p.ops.is_empty());
    assert_eq!(
        p.peek(),
        Some((0, &Token::new(TokenKind::Bang, 0..2, Position::default())))
    );
}
