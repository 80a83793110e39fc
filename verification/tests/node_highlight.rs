use yamd::lexer::{Position, Token, TokenKind};
use yamd::node_parser::highlight::highlight;
use yamd::node_parser::Parser;
use yamd::nodes::{Bold, BoldNodes, Highlight, Italic, Paragraph, ParagraphNodes, Strikethrough};

fn text(s: &str) -> ParagraphNodes {
    ParagraphNodes::Text(String::from(s))
}

fn body() -> Vec<Paragraph> {
    vec![
        Paragraph::new(vec![
            ParagraphNodes::Italic(Italic::new("i")),
            text(" "),
            ParagraphNodes::Bold(Bold::new(vec![BoldNodes::Text(String::from("b"))])),
        ]),
        Paragraph::new(vec![
            text("t"),
            ParagraphNodes::Strikethrough(Strikethrough::new("s")),
            text("t"),
        ]),
    ]
}

#[test]
fn node_highlight_happy_path() {
    let mut p = Parser::new("++ Title\n+ Icon\n_i_ **b**\n\nt~~s~~t\n++");
    assert_eq!(highlight(&mut p), Some(Highlight::new(Some("Title"), Some("Icon"), body())));
}

#[test]
fn node_highlight_no_title() {
    let mut p = Parser::new("++\n+ Icon\n_i_ **b**\n\nt~~s~~t\n++");
    assert_eq!(highlight(&mut p), Some(Highlight::new(None, Some("Icon"), body())));
}

#[test]
fn node_highlight_no_icon() {
    let mut p = Parser::new("++ Title\n_i_ **b**\n\nt~~s~~t\n++");
    assert_eq!(highlight(&mut p), Some(Highlight::new(Some("Title"), None, body())));
}

#[test]
fn node_highlight_no_closing_token() {
    let mut p = Parser::new("++ Title\n_i_ **b**\n\nt~~s~~t++");
    assert_eq!(highlight(&mut p), None);
    assert_eq!(p.peek(), Some((&Token::new(TokenKind::Literal, 0..2, Position::default()), 0)));
}

#[test]
fn node_highlight_no_space_between_start_and_title() {
    let mut p = Parser::new("++Title\n_i_ **b**\n\nt~~s~~t\n++");
    assert_eq!(highlight(&mut p), None);
    assert_eq!(p.peek(), Some((&Token::new(TokenKind::Literal, 0..2, Position::default()), 0)));
}

#[test]
fn node_highlight_terminator_in_title() {
    let mut p = Parser::new("++ Title\n\n_i_ **b**\n\nt~~s~~t\n++");
    assert_eq!(highlight(&mut p), None);
    assert_eq!(p.peek(), Some((&Token::new(TokenKind::Literal, 0..2, Position::default()), 0)));
}

#[test]
fn node_highlight_terminator_in_icon() {
    let mut p = Parser::new("++\n+ icon\n\n_i_ **b**\n\nt~~s~~t\n++");
    assert_eq!(highlight(&mut p), None);
    assert_eq!(p.peek(), Some((&Token::new(TokenKind::Literal, 0..2, Position::default()), 0)));
}

#[test]
fn node_highlight_no_space_before_icon() {
    let mut p = Parser::new("++ Title\n+Icon\n++");
    assert_eq!(highlight(&mut p), None);
    assert_eq!(p.peek(), Some((&Token::new(TokenKind::Literal, 0..2, Position::default()), 0)));
}

#[test]
fn node_highlight_cursor_after_closing() {
    let mut p = Parser::new("++ T\nx\n++rest");
    assert!(highlight(&mut p).is_some());
    assert_eq!(p.pos(), 7);
}

#[test]
fn node_highlight_at_end() {
    let mut p = Parser::new("");
    assert_eq!(highlight(&mut p), None);
    assert_eq!(p.pos(), 0);
}
