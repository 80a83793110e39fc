use yamd::lexer::{Position, Token, TokenKind};
use yamd::node_parser::metadata::metadata;
use yamd::node_parser::Parser;

#[test]
fn node_metadata_happy_path() {
    let mut p = Parser::new("---\ncan contain any\n\ntoken\n\n---");
    assert_eq!(metadata(&mut p), Some(String::from("can contain any\n\ntoken")));
}

#[test]
fn node_metadata_no_closing_token() {
    let mut p = Parser::new("---\n");
    assert_eq!(metadata(&mut p), None);
    assert_eq!(p.peek(), Some((&Token::new(TokenKind::Literal, 0..3, Position::default()), 0)));
}

#[test]
fn node_metadata_no_eol() {
    let mut p = Parser::new("--- t\n---");
    assert_eq!(metadata(&mut p), None);
    assert_eq!(p.peek(), Some((&Token::new(TokenKind::Literal, 0..3, Position::default()), 0)));
}

#[test]
fn node_metadata_cursor_after_closing() {
    let mut p = Parser::new("---\nab\n---x");
    assert_eq!(metadata(&mut p), Some(String::from("ab")));
    assert_eq!(p.pos(), 5);
}
