#![allow(unused_imports)]
use yamd::lexer::{Position, Token, TokenKind};
use yamd::op::anchor::anchor;
use yamd::op::bold::bold;
use yamd::op::code::code;
use yamd::op::code_span::code_span;
use yamd::op::collapsible::collapsible;
use yamd::op::destination::destination;
use yamd::op::document::document;
use yamd::op::embed::embed;
use yamd::op::heading::heading;
use yamd::op::highlight::highlight;
use yamd::op::image::image;
use yamd::op::images::images;
use yamd::op::italic::italic;
use yamd::op::list::list;
use yamd::op::metadata::metadata;
use yamd::op::modifier::modifier;
use yamd::op::paragraph::paragraph;
use yamd::op::parser::{eol, ListKind, Parser, StopCondition};
use yamd::op::strikethrough::strikethrough;
use yamd::op::thematic_break::thematic_break;
use yamd::op::title::title;
use yamd::op::{parse, unescape, Content, Node, Op, OpKind};

const TEST_CASE: &str = r#"---
title: test
date: 2022-01-01T00:00:00+02:00
image: image
preview: preview
tags:
- tag1
- tag2
---

# hello

```rust
let a=1;
```

t**b**

![a](u)

![a](u)
![a2](u2)

!! H
! I
~~s~~

_I_
!!

-----

- one
 - two

+ first
 + second

{{youtube|123}}

{{cloudinary_gallery|cloud_name&tag}}

{% collapsible

%}

{% one more collapsible

%}

+

-

![](

```

end

\*escaped\*"#;

#[test]
fn all_source_bytes_are_covered_exactly_once() {
    let ops = parse(TEST_CASE);
    let mut covered = vec![false; TEST_CASE.len()];

    for op in &ops {
        for i in op.content.span.clone() {
            assert!(
                !covered[i],
                "byte {i} covered by multiple ops (char: {:?})",
                &TEST_CASE[i..i + 1]
            );
            covered[i] = true;
        }
    }
    let uncovered: Vec<usize> = covered
        .iter()
        .enumerate()
        .filter(|&(_, is_covered)| !is_covered)
        .map(|(i, _)| i)
        .collect();
    assert!(
        uncovered.is_empty(),
        "uncovered byte positions: {uncovered:?}"
    );
}

#[test]
fn start_end_balance() {
    let ops = parse(TEST_CASE);
    let mut stack: Vec<&Node> = vec![];
    for op in &ops {
        match &op.kind {
            OpKind::Start(node) => stack.push(node),
            OpKind::End(node) => {
                let top = stack.pop().expect("End without matching Start");
                assert_eq!(top, node, "mismatched Start({top:?}) / End({node:?})");
            }
            OpKind::Value => {}
        }
    }
    assert!(stack.is_empty(), "unmatched Start nodes: {stack:?}");
}

#[test]
fn document_level_block_sequence() {
    let ops = parse(TEST_CASE);
    assert_eq!(ops.len(), 158);
    assert_eq!(ops[5].kind, OpKind::Start(Node::Heading)); // # hello
    assert_eq!(ops[9].kind, OpKind::Start(Node::Code)); // ```rust ... ```
    assert_eq!(ops[16].kind, OpKind::Start(Node::Paragraph)); // t**b**
    assert_eq!(ops[23].kind, OpKind::Start(Node::Image)); // ![a](u)
    assert_eq!(ops[32].kind, OpKind::Start(Node::Images)); // ![a](u)\n![a2](u2)
    assert_eq!(ops[51].kind, OpKind::Start(Node::Highlight)); // !! H ... !!
    assert_eq!(ops[72].kind, OpKind::Start(Node::ThematicBreak)); // -----
    assert_eq!(ops[76].kind, OpKind::Start(Node::UnorderedList)); // - one\n - two
    assert_eq!(ops[91].kind, OpKind::Start(Node::OrderedList)); // + first\n + second
    assert_eq!(ops[106].kind, OpKind::Start(Node::Embed)); // {{youtube|123}}
    assert_eq!(ops[112].kind, OpKind::Start(Node::Embed)); // {{cloudinary_gallery|...}}
    assert_eq!(ops[118].kind, OpKind::Start(Node::Collapsible)); // {% collapsible ... %}
    assert_eq!(ops[126].kind, OpKind::Start(Node::Collapsible)); // {% one more collapsible ... %}
    assert_eq!(ops[134].kind, OpKind::Start(Node::Paragraph)); // + (fallback)
    assert_eq!(ops[138].kind, OpKind::Start(Node::Paragraph)); // - (fallback)
    assert_eq!(ops[142].kind, OpKind::Start(Node::Paragraph)); // ![]( (fallback)
    assert_eq!(ops[146].kind, OpKind::Start(Node::Paragraph)); // ``` (fallback)
    assert_eq!(ops[150].kind, OpKind::Start(Node::Paragraph)); // end (fallback)
}

#[test]
fn metadata_is_parsed() {
    let ops = parse(TEST_CASE);

    assert_eq!(ops[0].kind, OpKind::Start(Node::Metadata));
    let metadata_value = ops[1].content.as_str(TEST_CASE);
    assert!(
        metadata_value.contains("title: test"),
        "metadata should contain 'title: test', got: {metadata_value}"
    );
    assert_eq!(ops[2].kind, OpKind::End(Node::Metadata));
}

#[test]
fn document_wraps_body() {
    let ops = parse(TEST_CASE);

    assert_eq!(ops[3].kind, OpKind::Start(Node::Document));
    assert_eq!(ops.last().unwrap().kind, OpKind::End(Node::Document));
}

#[test]
fn fallback_paragraphs_have_correct_content() {
    let ops = parse(TEST_CASE);

    // fallback paragraph: +
    assert_eq!(ops[134].kind, OpKind::Start(Node::Paragraph));
    assert_eq!(ops[135].kind, OpKind::Value);
    assert_eq!(ops[135].content.as_str(TEST_CASE), "+");
    assert_eq!(ops[136].kind, OpKind::End(Node::Paragraph));

    // fallback paragraph: -
    assert_eq!(ops[138].kind, OpKind::Start(Node::Paragraph));
    assert_eq!(ops[139].kind, OpKind::Value);
    assert_eq!(ops[139].content.as_str(TEST_CASE), "-");
    assert_eq!(ops[140].kind, OpKind::End(Node::Paragraph));

    // fallback paragraph: ![](
    assert_eq!(ops[142].kind, OpKind::Start(Node::Paragraph));
    assert_eq!(ops[143].kind, OpKind::Value);
    assert_eq!(ops[143].content.as_str(TEST_CASE), "![](");
    assert_eq!(ops[144].kind, OpKind::End(Node::Paragraph));

    // fallback paragraph: ```
    assert_eq!(ops[146].kind, OpKind::Start(Node::Paragraph));
    assert_eq!(ops[147].kind, OpKind::Value);
    assert_eq!(ops[147].content.as_str(TEST_CASE), "```");
    assert_eq!(ops[148].kind, OpKind::End(Node::Paragraph));

    // fallback paragraph: end
    assert_eq!(ops[150].kind, OpKind::Start(Node::Paragraph));
    assert_eq!(ops[151].kind, OpKind::Value);
    assert_eq!(ops[151].content.as_str(TEST_CASE), "end");
    assert_eq!(ops[152].kind, OpKind::End(Node::Paragraph));
}

#[test]
fn content_span_as_str() {
    let source = "hello world";
    let content = Content::span(0..5);
    assert_eq!(content.as_str(source), "hello");
}

#[test]
fn content_escaped_as_str() {
    let source = "a\\!b";
    let content = Content::new(0..source.len(), 1);
    assert_eq!(content.as_str(source), "a!b");
}

#[test]
fn content_span_to_string() {
    let source = "hello world";
    let content = Content::span(0..5);
    assert_eq!(content.to_string(source), "hello");
}

#[test]
fn content_from_tokens_sums_escaped_across_slice() {
    let source = "a\\!b c\\!d";
    let tokens = vec![
        Token {
            kind: TokenKind::Literal,
            range: 0..4,
            position: Position::default(),
            escaped: 1,
        },
        Token::new(TokenKind::Space, 4..5, Position::default()),
        Token {
            kind: TokenKind::Literal,
            range: 5..9,
            position: Position::default(),
            escaped: 1,
        },
    ];
    let content = Content::from_tokens(&tokens);
    assert_eq!(content, Content::new(0..9, 2));
    assert_eq!(content.as_str(source), "a!b c!d");
}

#[test]
fn unescape_no_escapes() {
    assert_eq!(unescape("hello", 0), "hello");
}

#[test]
fn unescape_single_escape() {
    assert_eq!(unescape("a\\!b", 1), "a!b");
}

#[test]
fn unescape_double_backslash_is_one() {
    assert_eq!(unescape("\\\\", 1), "\\");
}

#[test]
fn unescape_multibyte_escaped_char() {
    assert_eq!(unescape("\\ツ", 1), "ツ");
}

#[test]
fn unescape_dangling_backslash_after_budget_spent_is_kept() {
    assert_eq!(unescape("a\\!\\", 1), "a!\\");
}

#[test]
fn unescape_count_too_high_with_no_backslash_left_stops_gracefully() {
    assert_eq!(unescape("ab", 2), "ab");
}

#[test]
fn unescape_count_too_high_with_dangling_backslash_stops_gracefully() {
    assert_eq!(unescape("a\\", 2), "a\\");
}

#[test]
fn unescape_count_too_low_leaves_remainder_untouched() {
    assert_eq!(unescape("a\\!b\\!c", 1), "a!b\\!c");
}

#[test]
fn content_empty_span_as_str() {
    let content = Content::empty();
    assert_eq!(content.as_str("anything"), "");
}

#[test]
fn content_is_empty() {
    assert!(Content::empty().is_empty());
    assert!(!Content::span(0..5).is_empty());
}

#[test]
fn content_from_empty_tokens() {
    let content = Content::from_tokens(&[]);
    assert_eq!(content, Content::empty());
}

#[test]
fn escape() {
    let source = "¯\\\\\\_(ツ)\\_/¯";
    let ops = parse(source);
    assert_eq!(ops[2].content.as_str(source), "¯\\_(ツ)_/¯");
    assert_eq!(
        ops,
        vec![
            Op::new_start(Node::Document, Content::empty()),
            Op::new_start(Node::Paragraph, Content::empty()),
            Op::new_value(Content::new(0..16, 3)),
            Op::new_end(Node::Paragraph, Content::empty()),
            Op::new_end(Node::Document, Content::empty())
        ]
    );
}
