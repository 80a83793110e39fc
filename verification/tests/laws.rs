use yamd::lexer::tokenize;
use yamd::op::parser::Parser;
use yamd::op::paragraph::paragraph;
use yamd::op::{parse, Node, Op, OpKind};

const SAMPLES: [&str; 8] = [
    "",
    "plain text",
    "# heading [a](u)\n\n- one\n - two\n+ three",
    "---\ntitle: t\n---\n\n```rust\nlet a = 1;\n```\n",
    "!! Title\n! icon\ntext **bold _it_** ~~s~~\n!!\n\n{{youtube|id}}",
    "{% Title\n\ninner\n%}\n![a](u)\n![b](v)",
    "unclosed **bold and _italic and `code",
    "¯\\\\\\_(ツ)\\_/¯ and \\*escaped\\*",
];

fn assert_covers(input: &str, ops: &[Op]) {
    let mut at = 0;
    for op in ops {
        let span = &op.content.span;
        if span.start < span.end {
            assert_eq!(span.start, at, "gap or overlap before byte {at} in {input:?}");
            at = span.end;
        }
    }
    assert_eq!(at, input.len(), "bytes left uncovered in {input:?}");
}

fn assert_balanced(ops: &[Op]) {
    let mut stack: Vec<Node> = Vec::new();
    for op in ops {
        match op.kind {
            OpKind::Start(n) => stack.push(n),
            OpKind::End(n) => assert_eq!(stack.pop(), Some(n)),
            OpKind::Value => {}
        }
    }
    assert!(stack.is_empty());
}

#[test]
fn parse_covers_every_byte_once_in_order() {
    for input in SAMPLES {
        assert_covers(input, &parse(input));
    }
}

#[test]
fn parse_nests_start_and_end() {
    for input in SAMPLES {
        assert_balanced(&parse(input));
    }
}

#[test]
fn parse_opens_with_metadata_or_document_and_closes_the_document() {
    for input in SAMPLES {
        let ops = parse(input);
        let first = if input.starts_with("---\n") { Node::Metadata } else { Node::Document };
        assert_eq!(ops[0].kind, OpKind::Start(first));
        assert_eq!(ops.last().unwrap().kind, OpKind::End(Node::Document));
    }
}

#[test]
fn tokens_tile_the_input() {
    for input in SAMPLES {
        let tokens = tokenize(input);
        let mut at = 0;
        for t in &tokens {
            assert_eq!(t.range.start, at);
            assert!(t.range.start < t.range.end);
            at = t.range.end;
        }
        assert_eq!(at, input.len());
    }
}

#[test]
fn paragraph_stops_at_the_first_terminator() {
    let mut p = Parser::new("a **b** c\n\nnext");
    p.with_eof(yamd::op::parser::StopCondition::Terminator, |p| paragraph(p));
    assert_eq!(p.get(p.pos).unwrap().kind, yamd::lexer::TokenKind::Terminator);
    assert_eq!(p.get(p.pos - 1).unwrap().kind, yamd::lexer::TokenKind::Literal);
    assert_eq!(p.ops.first().unwrap().kind, OpKind::Start(Node::Paragraph));
    assert_eq!(p.ops.last().unwrap().kind, OpKind::End(Node::Paragraph));
}

#[test]
fn failed_node_leaves_the_parser_as_it_was() {
    let mut p = Parser::new("**never closed");
    assert!(!yamd::op::bold::bold(&mut p));
    assert_eq!(p.pos, 0);
    assert!(p.ops.is_empty());
}

#[test]
fn escaped_character_is_literal_text() {
    let input = "\\**foo**";
    let ops = parse(input);
    assert!(ops.iter().all(|op| op.kind != OpKind::Start(Node::Bold)));
    let toks = tokenize(input);
    assert_eq!(toks[0].kind, yamd::lexer::TokenKind::Literal);
    assert_eq!(toks[0].escaped, 1);
}
