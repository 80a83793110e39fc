#![allow(unused_imports)]
use yamd::lexer::{Position, Token, TokenKind};
use yamd::op::anchor::anchor;
use yamd::op::bold::bold;
use yamd::op::code::code;
use yamd::op::code_span::code_span;
use yamd::op::collapsible::collapsible;
use yamd::op::destination::destination;
use yamd::op::document::document;
use yamd::op::embed::embed;
use yamd::op::heading::heading;
use yamd::op::highlight::highlight;
use yamd::op::image::image;
use yamd::op::images::images;
use yamd::op::italic::italic;
use yamd::op::list::list;
use yamd::op::metadata::metadata;
use yamd::op::modifier::modifier;
use yamd::op::paragraph::paragraph;
use yamd::op::parser::{eol, ListKind, Parser, StopCondition};
use yamd::op::strikethrough::strikethrough;
use yamd::op::thematic_break::thematic_break;
use yamd::op::title::title;
use yamd::op::{parse, unescape, Content, Node, Op, OpKind};

#[test]
fn thematic_break_happy_path() {
    let mut p = Parser::new("-----");
    assert!(thematic_break(&mut p));
    assert_eq!(
        p.ops,
        vec![
            Op::new_start(Node::ThematicBreak, Content::span(0..0)),
            Op::new_value(p.span(0..1)),
            Op::new_end(Node::ThematicBreak, Content::span(0..0)),
        ]
    );
}

#[test]
fn not_enough_dashes() {
    let mut p = Parser::new("---");
    assert!(!thematic_break(&mut p));
    assert!(p.ops.is_empty());
    assert_eq!(p.peek(), Some((0, p.get(0).unwrap())));
}
