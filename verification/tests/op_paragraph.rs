#![allow(unused_imports)]
use yamd::lexer::{Position, Token, TokenKind};
use yamd::op::anchor::anchor;
use yamd::op::bold::bold;
use yamd::op::code::code;
use yamd::op::code_span::code_span;
use yamd::op::collapsible::collapsible;
use yamd::op::destination::destination;
use yamd::op::document::document;
use yamd::op::embed::embed;
use yamd::op::heading::heading;
use yamd::op::highlight::highlight;
use yamd::op::image::image;
use yamd::op::images::images;
use yamd::op::italic::italic;
use yamd::op::list::list;
use yamd::op::metadata::metadata;
use yamd::op::modifier::modifier;
use yamd::op::paragraph::paragraph;
use yamd::op::parser::{eol, ListKind, Parser, StopCondition};
use yamd::op::strikethrough::strikethrough;
use yamd::op::thematic_break::thematic_break;
use yamd::op::title::title;
use yamd::op::{parse, unescape, Content, Node, Op, OpKind};

#[test]
fn paragraph_happy_path() {
    let mut p = Parser::new("hello **world** _foo_ ~~bar~~ `code` *em* [a](u)");

    paragraph(&mut p);

    assert_eq!(p.ops.first().unwrap().kind, OpKind::Start(Node::Paragraph));
    assert_eq!(p.ops.last().unwrap().kind, OpKind::End(Node::Paragraph));
    assert!(p.ops.len() > 2);
}

#[test]
fn paragraph_terminator() {
    let mut p = Parser::new("hello\n\nworld");
    p.with_eof(StopCondition::Terminator, |p| {
        paragraph(p);
        assert_eq!(p.ops.first().unwrap().kind, OpKind::Start(Node::Paragraph));
        assert_eq!(p.ops.last().unwrap().kind, OpKind::End(Node::Paragraph));
        let (_, token) = p.peek().unwrap();
        assert_eq!(token.kind, TokenKind::Terminator);
    });
}

#[test]
fn text_only() {
    let mut p = Parser::new("hello world");
    paragraph(&mut p);
    assert_eq!(
        p.ops,
        vec![
            Op::new_start(Node::Paragraph, Content::span(0..0)),
            Op::new_value(p.span(0..p.len())),
            Op::new_end(Node::Paragraph, Content::span(0..0)),
        ]
    );
}
