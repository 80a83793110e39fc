#![allow(unused_imports)]
use yamd::lexer::{Position, Token, TokenKind};
use yamd::op::anchor::anchor;
use yamd::op::bold::bold;
use yamd::op::code::code;
use yamd::op::code_span::code_span;
use yamd::op::collapsible::collapsible;
use yamd::op::destination::destination;
use yamd::op::document::document;
use yamd::op::embed::embed;
use yamd::op::heading::heading;
use yamd::op::highlight::highlight;
use yamd::op::image::image;
use yamd::op::images::images;
use yamd::op::italic::italic;
use yamd::op::list::list;
use yamd::op::metadata::metadata;
use yamd::op::modifier::modifier;
use yamd::op::paragraph::paragraph;
use yamd::op::parser::{eol, ListKind, Parser, StopCondition};
use yamd::op::strikethrough::strikethrough;
use yamd::op::thematic_break::thematic_break;
use yamd::op::title::title;
use yamd::op::{parse, unescape, Content, Node, Op, OpKind};

#[test]
fn list_parse_unordered() {
    let mut p = Parser::new("- level 0\n- level 0");

    assert!(list(&mut p, 0));
    assert_eq!(
        p.ops,
        vec![
            Op::new_start(Node::UnorderedList, Content::span(0..0)),
            Op::new_start(Node::ListItem, p.span(0..2)),
            Op::new_start(Node::Paragraph, Content::span(0..0)),
            Op::new_value(p.span(2..4)),
            Op::new_end(Node::Paragraph, Content::span(0..0)),
            Op::new_end(Node::ListItem, Content::span(0..0)),
            Op::new_start(Node::ListItem, p.span(4..6)),
            Op::new_start(Node::Paragraph, Content::span(0..0)),
            Op::new_value(p.span(6..7)),
            Op::new_end(Node::Paragraph, Content::span(0..0)),
            Op::new_end(Node::ListItem, Content::span(0..0)),
            Op::new_end(Node::UnorderedList, Content::span(0..0)),
        ]
    );
}

#[test]
fn list_parse_ordered() {
    let mut p = Parser::new("+ level 0\n+ same level");

    assert!(list(&mut p, 0));
    assert_eq!(
        p.ops,
        vec![
            Op::new_start(Node::OrderedList, Content::span(0..0)),
            Op::new_start(Node::ListItem, p.span(0..2)),
            Op::new_start(Node::Paragraph, Content::span(0..0)),
            Op::new_value(p.span(2..4)),
            Op::new_end(Node::Paragraph, Content::span(0..0)),
            Op::new_end(Node::ListItem, Content::span(0..0)),
            Op::new_start(Node::ListItem, p.span(4..6)),
            Op::new_start(Node::Paragraph, Content::span(0..0)),
            Op::new_value(p.span(6..7)),
            Op::new_end(Node::Paragraph, Content::span(0..0)),
            Op::new_end(Node::ListItem, Content::span(0..0)),
            Op::new_end(Node::OrderedList, Content::span(0..0)),
        ]
    );
}

#[test]
fn list_parse_mixed() {
    let mut p = Parser::new("+ level 0\n - level 0");

    assert!(list(&mut p, 0));
    assert_eq!(
        p.ops,
        vec![
            Op::new_start(Node::OrderedList, Content::span(0..0)),
            Op::new_start(Node::ListItem, p.span(0..2)),
            Op::new_start(Node::Paragraph, Content::span(0..0)),
            Op::new_value(p.span(2..4)),
            Op::new_end(Node::Paragraph, Content::span(0..0)),
            Op::new_start(Node::UnorderedList, Content::span(0..0)),
            Op::new_start(Node::ListItem, p.span(4..7)),
            Op::new_start(Node::Paragraph, Content::span(0..0)),
            Op::new_value(p.span(7..8)),
            Op::new_end(Node::Paragraph, Content::span(0..0)),
            Op::new_end(Node::ListItem, Content::span(0..0)),
            Op::new_end(Node::UnorderedList, Content::span(0..0)),
            Op::new_end(Node::ListItem, Content::span(0..0)),
            Op::new_end(Node::OrderedList, Content::span(0..0)),
        ]
    );
}

#[test]
fn list_parse_nested() {
    let mut p = Parser::new("- one\n - two");

    assert!(list(&mut p, 0));
    assert_eq!(
        p.ops,
        vec![
            Op::new_start(Node::UnorderedList, Content::span(0..0)),
            Op::new_start(Node::ListItem, p.span(0..2)),
            Op::new_start(Node::Paragraph, Content::span(0..0)),
            Op::new_value(p.span(2..4)),
            Op::new_end(Node::Paragraph, Content::span(0..0)),
            Op::new_start(Node::UnorderedList, Content::span(0..0)),
            Op::new_start(Node::ListItem, p.span(4..7)),
            Op::new_start(Node::Paragraph, Content::span(0..0)),
            Op::new_value(p.span(7..8)),
            Op::new_end(Node::Paragraph, Content::span(0..0)),
            Op::new_end(Node::ListItem, Content::span(0..0)),
            Op::new_end(Node::UnorderedList, Content::span(0..0)),
            Op::new_end(Node::ListItem, Content::span(0..0)),
            Op::new_end(Node::UnorderedList, Content::span(0..0)),
        ]
    );
}

#[test]
fn list_eol() {
    let mut p = Parser::new("- one\n - two\n something");

    assert!(list(&mut p, 0));
    assert_eq!(
        p.ops,
        vec![
            Op::new_start(Node::UnorderedList, Content::span(0..0)),
            Op::new_start(Node::ListItem, p.span(0..2)),
            Op::new_start(Node::Paragraph, Content::span(0..0)),
            Op::new_value(p.span(2..4)),
            Op::new_end(Node::Paragraph, Content::span(0..0)),
            Op::new_start(Node::UnorderedList, Content::span(0..0)),
            Op::new_start(Node::ListItem, p.span(4..7)),
            Op::new_start(Node::Paragraph, Content::span(0..0)),
            Op::new_value(p.span(7..11)),
            Op::new_end(Node::Paragraph, Content::span(0..0)),
            Op::new_end(Node::ListItem, Content::span(0..0)),
            Op::new_end(Node::UnorderedList, Content::span(0..0)),
            Op::new_end(Node::ListItem, Content::span(0..0)),
            Op::new_end(Node::UnorderedList, Content::span(0..0)),
        ]
    );
}

#[test]
fn list_mixed_same_level_ordered() {
    let mut p = Parser::new("+ level 0\n- same level");

    assert!(list(&mut p, 0));
    assert_eq!(
        p.ops,
        vec![
            Op::new_start(Node::OrderedList, Content::span(0..0)),
            Op::new_start(Node::ListItem, p.span(0..2)),
            Op::new_start(Node::Paragraph, Content::span(0..0)),
            Op::new_value(p.span(2..7)),
            Op::new_end(Node::Paragraph, Content::span(0..0)),
            Op::new_end(Node::ListItem, Content::span(0..0)),
            Op::new_end(Node::OrderedList, Content::span(0..0)),
        ]
    );
}

#[test]
fn list_mixed_same_level_unordered() {
    let mut p = Parser::new("- level 0\n+ same level");

    assert!(list(&mut p, 0));
    assert_eq!(
        p.ops,
        vec![
            Op::new_start(Node::UnorderedList, Content::span(0..0)),
            Op::new_start(Node::ListItem, p.span(0..2)),
            Op::new_start(Node::Paragraph, Content::span(0..0)),
            Op::new_value(p.span(2..7)),
            Op::new_end(Node::Paragraph, Content::span(0..0)),
            Op::new_end(Node::ListItem, Content::span(0..0)),
            Op::new_end(Node::UnorderedList, Content::span(0..0)),
        ]
    );
}

#[test]
fn multiple_levels_unordered() {
    let mut p = Parser::new("- Level 0\n - Level 1\n  - Level 2\n - Level 1\n- Level 0\n - Level 1\n  - Level 2\n- Level 0");

    assert!(list(&mut p, 0));
    assert_eq!(
        p.ops,
        vec![
            Op::new_start(Node::UnorderedList, Content::span(0..0)),
            Op::new_start(Node::ListItem, p.span(0..2)),
            Op::new_start(Node::Paragraph, Content::span(0..0)),
            Op::new_value(p.span(2..4)),
            Op::new_end(Node::Paragraph, Content::span(0..0)),
            Op::new_start(Node::UnorderedList, Content::span(0..0)),
            Op::new_start(Node::ListItem, p.span(4..7)),
            Op::new_start(Node::Paragraph, Content::span(0..0)),
            Op::new_value(p.span(7..9)),
            Op::new_end(Node::Paragraph, Content::span(0..0)),
            Op::new_start(Node::UnorderedList, Content::span(0..0)),
            Op::new_start(Node::ListItem, p.span(9..12)),
            Op::new_start(Node::Paragraph, Content::span(0..0)),
            Op::new_value(p.span(12..14)),
            Op::new_end(Node::Paragraph, Content::span(0..0)),
            Op::new_end(Node::ListItem, Content::span(0..0)),
            Op::new_end(Node::UnorderedList, Content::span(0..0)),
            Op::new_end(Node::ListItem, Content::span(0..0)),
            Op::new_start(Node::ListItem, p.span(14..17)),
            Op::new_start(Node::Paragraph, Content::span(0..0)),
            Op::new_value(p.span(17..19)),
            Op::new_end(Node::Paragraph, Content::span(0..0)),
            Op::new_end(Node::ListItem, Content::span(0..0)),
            Op::new_end(Node::UnorderedList, Content::span(0..0)),
            Op::new_end(Node::ListItem, Content::span(0..0)),
            Op::new_start(Node::ListItem, p.span(19..21)),
            Op::new_start(Node::Paragraph, Content::span(0..0)),
            Op::new_value(p.span(21..23)),
            Op::new_end(Node::Paragraph, Content::span(0..0)),
            Op::new_start(Node::UnorderedList, Content::span(0..0)),
            Op::new_start(Node::ListItem, p.span(23..26)),
            Op::new_start(Node::Paragraph, Content::span(0..0)),
            Op::new_value(p.span(26..28)),
            Op::new_end(Node::Paragraph, Content::span(0..0)),
            Op::new_start(Node::UnorderedList, Content::span(0..0)),
            Op::new_start(Node::ListItem, p.span(28..31)),
            Op::new_start(Node::Paragraph, Content::span(0..0)),
            Op::new_value(p.span(31..33)),
            Op::new_end(Node::Paragraph, Content::span(0..0)),
            Op::new_end(Node::ListItem, Content::span(0..0)),
            Op::new_end(Node::UnorderedList, Content::span(0..0)),
            Op::new_end(Node::ListItem, Content::span(0..0)),
            Op::new_end(Node::UnorderedList, Content::span(0..0)),
            Op::new_end(Node::ListItem, Content::span(0..0)),
            Op::new_start(Node::ListItem, p.span(33..35)),
            Op::new_start(Node::Paragraph, Content::span(0..0)),
            Op::new_value(p.span(35..36)),
            Op::new_end(Node::Paragraph, Content::span(0..0)),
            Op::new_end(Node::ListItem, Content::span(0..0)),
            Op::new_end(Node::UnorderedList, Content::span(0..0)),
        ]
    );
}

#[test]
fn multiple_levels_ordered() {
    let mut p = Parser::new("+ Level 0\n + Level 1\n  + Level 2\n + Level 1\n+ Level 0\n + Level 1\n  + Level 2\n+ Level 0");

    assert!(list(&mut p, 0));
    assert_eq!(
        p.ops,
        vec![
            Op::new_start(Node::OrderedList, Content::span(0..0)),
            Op::new_start(Node::ListItem, p.span(0..2)),
            Op::new_start(Node::Paragraph, Content::span(0..0)),
            Op::new_value(p.span(2..4)),
            Op::new_end(Node::Paragraph, Content::span(0..0)),
            Op::new_start(Node::OrderedList, Content::span(0..0)),
            Op::new_start(Node::ListItem, p.span(4..7)),
            Op::new_start(Node::Paragraph, Content::span(0..0)),
            Op::new_value(p.span(7..9)),
            Op::new_end(Node::Paragraph, Content::span(0..0)),
            Op::new_start(Node::OrderedList, Content::span(0..0)),
            Op::new_start(Node::ListItem, p.span(9..12)),
            Op::new_start(Node::Paragraph, Content::span(0..0)),
            Op::new_value(p.span(12..14)),
            Op::new_end(Node::Paragraph, Content::span(0..0)),
            Op::new_end(Node::ListItem, Content::span(0..0)),
            Op::new_end(Node::OrderedList, Content::span(0..0)),
            Op::new_end(Node::ListItem, Content::span(0..0)),
            Op::new_start(Node::ListItem, p.span(14..17)),
            Op::new_start(Node::Paragraph, Content::span(0..0)),
            Op::new_value(p.span(17..19)),
            Op::new_end(Node::Paragraph, Content::span(0..0)),
            Op::new_end(Node::ListItem, Content::span(0..0)),
            Op::new_end(Node::OrderedList, Content::span(0..0)),
            Op::new_end(Node::ListItem, Content::span(0..0)),
            Op::new_start(Node::ListItem, p.span(19..21)),
            Op::new_start(Node::Paragraph, Content::span(0..0)),
            Op::new_value(p.span(21..23)),
            Op::new_end(Node::Paragraph, Content::span(0..0)),
            Op::new_start(Node::OrderedList, Content::span(0..0)),
            Op::new_start(Node::ListItem, p.span(23..26)),
            Op::new_start(Node::Paragraph, Content::span(0..0)),
            Op::new_value(p.span(26..28)),
            Op::new_end(Node::Paragraph, Content::span(0..0)),
            Op::new_start(Node::OrderedList, Content::span(0..0)),
            Op::new_start(Node::ListItem, p.span(28..31)),
            Op::new_start(Node::Paragraph, Content::span(0..0)),
            Op::new_value(p.span(31..33)),
            Op::new_end(Node::Paragraph, Content::span(0..0)),
            Op::new_end(Node::ListItem, Content::span(0..0)),
            Op::new_end(Node::OrderedList, Content::span(0..0)),
            Op::new_end(Node::ListItem, Content::span(0..0)),
            Op::new_end(Node::OrderedList, Content::span(0..0)),
            Op::new_end(Node::ListItem, Content::span(0..0)),
            Op::new_start(Node::ListItem, p.span(33..35)),
            Op::new_start(Node::Paragraph, Content::span(0..0)),
            Op::new_value(p.span(35..36)),
            Op::new_end(Node::Paragraph, Content::span(0..0)),
            Op::new_end(Node::ListItem, Content::span(0..0)),
            Op::new_end(Node::OrderedList, Content::span(0..0)),
        ]
    );
}

#[test]
fn empty_body() {
    let mut p = Parser::new("- ");

    assert!(list(&mut p, 0));
    assert_eq!(
        p.ops,
        vec![
            Op::new_start(Node::UnorderedList, Content::span(0..0)),
            Op::new_start(Node::ListItem, p.span(0..2)),
            Op::new_start(Node::Paragraph, Content::span(0..0)),
            Op::new_end(Node::Paragraph, Content::span(0..0)),
            Op::new_end(Node::ListItem, Content::span(0..0)),
            Op::new_end(Node::UnorderedList, Content::span(0..0)),
        ]
    );
}

#[test]
fn no_nested_ordered_list() {
    let mut p = Parser::new("+ level 0\n + ");

    assert!(list(&mut p, 0));
    assert_eq!(
        p.ops,
        vec![
            Op::new_start(Node::OrderedList, Content::span(0..0)),
            Op::new_start(Node::ListItem, p.span(0..2)),
            Op::new_start(Node::Paragraph, Content::span(0..0)),
            Op::new_value(p.span(2..4)),
            Op::new_end(Node::Paragraph, Content::span(0..0)),
            Op::new_start(Node::OrderedList, Content::span(0..0)),
            Op::new_start(Node::ListItem, p.span(4..7)),
            Op::new_start(Node::Paragraph, Content::span(0..0)),
            Op::new_end(Node::Paragraph, Content::span(0..0)),
            Op::new_end(Node::ListItem, Content::span(0..0)),
            Op::new_end(Node::OrderedList, Content::span(0..0)),
            Op::new_end(Node::ListItem, Content::span(0..0)),
            Op::new_end(Node::OrderedList, Content::span(0..0)),
        ]
    );
}

#[test]
fn no_nested_unordered_list() {
    let mut p = Parser::new("+ level 0\n - ");

    assert!(list(&mut p, 0));
    assert_eq!(
        p.ops,
        vec![
            Op::new_start(Node::OrderedList, Content::span(0..0)),
            Op::new_start(Node::ListItem, p.span(0..2)),
            Op::new_start(Node::Paragraph, Content::span(0..0)),
            Op::new_value(p.span(2..4)),
            Op::new_end(Node::Paragraph, Content::span(0..0)),
            Op::new_start(Node::UnorderedList, Content::span(0..0)),
            Op::new_start(Node::ListItem, p.span(4..7)),
            Op::new_start(Node::Paragraph, Content::span(0..0)),
            Op::new_end(Node::Paragraph, Content::span(0..0)),
            Op::new_end(Node::ListItem, Content::span(0..0)),
            Op::new_end(Node::UnorderedList, Content::span(0..0)),
            Op::new_end(Node::ListItem, Content::span(0..0)),
            Op::new_end(Node::OrderedList, Content::span(0..0)),
        ]
    );
}

#[test]
fn list_at_nested_level_from_start_of_input() {
    let mut p = Parser::new(" - a");

    assert!(list(&mut p, 1));
    assert_eq!(p.ops[0], Op::new_start(Node::UnorderedList, Content::span(0..0)));
    assert_eq!(p.ops[1], Op::new_start(Node::ListItem, p.span(0..3)));
    assert_eq!(p.ops[p.ops.len() - 1], Op::new_end(Node::UnorderedList, Content::span(0..0)));
}
