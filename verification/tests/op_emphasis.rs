use yamd::lexer::{Position, Token, TokenKind};
use yamd::op::emphasis::emphasis;
use yamd::op::parser::{Parser, StopCondition};
use yamd::op::{Node, Op};

#[test]
fn emphasis_happy_path() {
    let mut p = Parser::new("*happy*");
    assert_eq!(
        emphasis(&mut p),
        Some(vec![
            Op::new_start(Node::Emphasis, p.span(0..1)),
            Op::new_value(p.span(1..2)),
            Op::new_end(Node::Emphasis, p.span(2..3)),
        ])
    );
    assert!(p.ops.is_empty());
}

#[test]
fn emphasis_no_closing_token() {
    let mut p = Parser::new("*happy");
    assert_eq!(emphasis(&mut p), None);
    assert_eq!(
        p.peek(),
        Some((0, &Token::new(TokenKind::Star, 0..1, Position::default())))
    )
}

#[test]
fn emphasis_terminator() {
    let mut p = Parser::new("*ha\n\nppy*");
    p.with_eof(StopCondition::Terminator, |p| {
        assert_eq!(emphasis(p), None);
        assert_eq!(
            p.peek(),
            Some((0, &Token::new(TokenKind::Star, 0..1, Position::default())))
        );
    });
}
