#![allow(unused_imports)]
use yamd::lexer::{Position, Token, TokenKind};
use yamd::op::anchor::anchor;
use yamd::op::bold::bold;
use yamd::op::code::code;
use yamd::op::code_span::code_span;
use yamd::op::collapsible::collapsible;
use yamd::op::destination::destination;
use yamd::op::document::document;
use yamd::op::embed::embed;
use yamd::op::heading::heading;
use yamd::op::highlight::highlight;
use yamd::op::image::image;
use yamd::op::images::images;
use yamd::op::italic::italic;
use yamd::op::list::list;
use yamd::op::metadata::metadata;
use yamd::op::modifier::modifier;
use yamd::op::paragraph::paragraph;
use yamd::op::parser::{eol, ListKind, Parser, StopCondition};
use yamd::op::strikethrough::strikethrough;
use yamd::op::thematic_break::thematic_break;
use yamd::op::title::title;
use yamd::op::{parse, unescape, Content, Node, Op, OpKind};

#[test]
fn collapsible_happy_path() {
    let mut p = Parser::new("{% Title\n# Heading\n\ntext\n\n{% nested\n![a](u)\n%}\n%}");
    assert!(collapsible(&mut p));
    assert_eq!(
        p.ops,
        vec![
            Op::new_start(Node::Collapsible, p.span(0..2)),
            Op::new_start(Node::Modifier, Content::span(0..0)),
            Op::new_value(p.span(2..3)),
            Op::new_end(Node::Modifier, p.span(3..4)),
            Op::new_start(Node::Document, Content::span(0..0)),
            Op::new_start(Node::Heading, p.span(4..6)),
            Op::new_value(p.span(6..7)),
            Op::new_end(Node::Heading, Content::span(0..0)),
            Op::new_value(p.span(7..8)),
            Op::new_start(Node::Paragraph, Content::span(0..0)),
            Op::new_value(p.span(8..9)),
            Op::new_end(Node::Paragraph, Content::span(0..0)),
            Op::new_value(p.span(9..10)),
            Op::new_start(Node::Collapsible, p.span(10..12)),
            Op::new_start(Node::Modifier, Content::span(0..0)),
            Op::new_value(p.span(12..13)),
            Op::new_end(Node::Modifier, p.span(13..14)),
            Op::new_start(Node::Document, Content::span(0..0)),
            Op::new_start(Node::Image, p.span(14..15)),
            Op::new_start(Node::Title, p.span(15..16)),
            Op::new_value(p.span(16..17)),
            Op::new_end(Node::Title, p.span(17..18)),
            Op::new_start(Node::Destination, p.span(18..19)),
            Op::new_value(p.span(19..20)),
            Op::new_end(Node::Destination, p.span(20..21)),
            Op::new_end(Node::Image, p.span(21..22)),
            Op::new_end(Node::Document, Content::span(0..0)),
            Op::new_end(Node::Collapsible, p.span(22..24)),
            Op::new_end(Node::Document, Content::span(0..0)),
            Op::new_end(Node::Collapsible, p.span(24..25)),
        ]
    );
}

#[test]
fn collapsible_no_title() {
    let mut p = Parser::new("{%\ntext%}");
    assert!(!collapsible(&mut p));
    assert!(p.ops.is_empty());
    assert_eq!(
        p.peek(),
        Some((
            0,
            &Token::new(TokenKind::Literal, 0..2, Position::default()),
        ))
    );
}

#[test]
fn collapsible_no_end_token() {
    let mut p = Parser::new("{% Title\n# Heading\n\ntext\n\n{% nested\n![a](u)\n%}\n");
    assert!(!collapsible(&mut p));
    assert!(p.ops.is_empty());
    assert_eq!(
        p.peek(),
        Some((
            0,
            &Token::new(TokenKind::Literal, 0..2, Position::default()),
        ))
    );
}

#[test]
fn collapsible_just_heading() {
    let mut p = Parser::new("{% Title\n# Heading\n%}");
    assert!(collapsible(&mut p));
    assert_eq!(
        p.ops,
        vec![
            Op::new_start(Node::Collapsible, p.span(0..2)),
            Op::new_start(Node::Modifier, Content::span(0..0)),
            Op::new_value(p.span(2..3)),
            Op::new_end(Node::Modifier, p.span(3..4)),
            Op::new_start(Node::Document, Content::span(0..0)),
            Op::new_start(Node::Heading, p.span(4..6)),
            Op::new_value(p.span(6..8)),
            Op::new_end(Node::Heading, Content::span(0..0)),
            Op::new_end(Node::Document, Content::span(0..0)),
            Op::new_end(Node::Collapsible, p.span(8..9)),
        ]
    );
}

#[test]
fn collapsible_only_two_tokens() {
    let mut p = Parser::new("{% ");
    assert!(!collapsible(&mut p));
    assert!(p.ops.is_empty());
    assert_eq!(
        p.peek(),
        Some((
            0,
            &Token::new(TokenKind::Literal, 0..2, Position::default()),
        ))
    );
}

#[test]
fn has_embed() {
    let mut p = Parser::new("{% Title\n{{foo|bar}}\n%}");
    assert!(collapsible(&mut p));
    assert_eq!(
        p.ops,
        vec![
            Op::new_start(Node::Collapsible, p.span(0..2)), // {%
            Op::new_start(Node::Modifier, Content::span(0..0)), //
            Op::new_value(p.span(2..3)),                    // Title
            Op::new_end(Node::Modifier, p.span(3..4)),      // \n
            Op::new_start(Node::Document, Content::span(0..0)), //
            Op::new_start(Node::Embed, p.span(4..5)),       // {{
            Op::new_value(p.span(5..6)),                    // foo
            Op::new_value(p.span(6..7)),                    // |
            Op::new_value(p.span(7..8)),                    // bar
            Op::new_end(Node::Embed, p.span(8..10)),        // }}\n
            Op::new_end(Node::Document, Content::span(0..0)),
            Op::new_end(Node::Collapsible, p.span(10..11)), // %}
        ]
    );
}
