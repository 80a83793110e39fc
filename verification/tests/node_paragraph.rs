use yamd::lexer::{Position, Token, TokenKind};
use yamd::node_parser::inline::emphasis;
use yamd::node_parser::paragraph::paragraph;
use yamd::node_parser::Parser;
use yamd::nodes::{
    Anchor, Bold, BoldNodes, CodeSpan, Emphasis, Italic, Paragraph, ParagraphNodes, Strikethrough,
};

fn text(s: &str) -> ParagraphNodes {
    ParagraphNodes::Text(String::from(s))
}

#[test]
fn node_emphasis_happy_path() {
    let mut p = Parser::new("*happy*");
    assert_eq!(emphasis(&mut p), Some(Emphasis::new("happy")));
}

#[test]
fn node_emphasis_no_closing_token() {
    let mut p = Parser::new("*happy");
    assert_eq!(emphasis(&mut p), None);
    assert_eq!(
        p.peek(),
        Some((&Token::new(TokenKind::Literal, 0..1, Position::default()), 0))
    )
}

#[test]
fn node_emphasis_terminator() {
    let mut p = Parser::new("*ha\n\nppy*");
    assert_eq!(emphasis(&mut p), None);
    assert_eq!(
        p.peek(),
        Some((&Token::new(TokenKind::Literal, 0..1, Position::default()), 0))
    );
}

#[test]
fn terminated() {
    let mut p = Parser::new("**b** _i_ ~~s~~ [a](u) `c` *e* \n\n");
    assert_eq!(
        paragraph(&mut p, |_: &Token| false),
        Some(Paragraph::new(vec![
            ParagraphNodes::Bold(Bold::new(vec![BoldNodes::Text(String::from("b"))])),
            text(" "),
            ParagraphNodes::Italic(Italic::new("i")),
            text(" "),
            ParagraphNodes::Strikethrough(Strikethrough::new("s")),
            text(" "),
            ParagraphNodes::Anchor(Anchor::new("a", "u")),
            text(" "),
            ParagraphNodes::CodeSpan(CodeSpan::new("c")),
            text(" "),
            ParagraphNodes::Emphasis(Emphasis::new("e")),
            text(" ")
        ]))
    )
}

#[test]
fn unterminated() {
    let mut p = Parser::new("_i_ ~~s~~ **b**[a](u) `c` *e* ");
    assert_eq!(
        paragraph(&mut p, |_: &Token| false),
        Some(Paragraph::new(vec![
            ParagraphNodes::Italic(Italic::new("i")),
            text(" "),
            ParagraphNodes::Strikethrough(Strikethrough::new("s")),
            text(" "),
            ParagraphNodes::Bold(Bold::new(vec![BoldNodes::Text(String::from("b"))])),
            ParagraphNodes::Anchor(Anchor::new("a", "u")),
            text(" "),
            ParagraphNodes::CodeSpan(CodeSpan::new("c")),
            text(" "),
            ParagraphNodes::Emphasis(Emphasis::new("e")),
            text(" ")
        ]))
    )
}

#[test]
fn fallback() {
    let mut p = Parser::new("_i_ ~~s~~ **b[a](u) `c` ");
    assert_eq!(
        paragraph(&mut p, |_: &Token| false),
        Some(Paragraph::new(vec![
            ParagraphNodes::Italic(Italic::new("i")),
            text(" "),
            ParagraphNodes::Strikethrough(Strikethrough::new("s")),
            text(" **b"),
            ParagraphNodes::Anchor(Anchor::new("a", "u")),
            text(" "),
            ParagraphNodes::CodeSpan(CodeSpan::new("c")),
            text(" "),
        ]))
    )
}

#[test]
fn stop_cb() {
    let mut p = Parser::new("_i_ ~~s~~ **b[a](u) \n%} `c` ");
    assert_eq!(
        paragraph(&mut p, |t: &Token| t.kind == TokenKind::CollapsibleEnd),
        Some(Paragraph::new(vec![
            ParagraphNodes::Italic(Italic::new("i")),
            text(" "),
            ParagraphNodes::Strikethrough(Strikethrough::new("s")),
            text(" **b"),
            ParagraphNodes::Anchor(Anchor::new("a", "u")),
            text(" ")
        ]))
    )
}

#[test]
fn stop_cb_empty() {
    let mut p = Parser::new("\n%} `c` ");
    assert_eq!(paragraph(&mut p, |t: &Token| t.kind == TokenKind::CollapsibleEnd), None);
    assert_eq!(
        p.peek(),
        Some((&Token::new(TokenKind::CollapsibleEnd, 1..3, Position { column: 0 }), 1))
    );
}

#[test]
fn eol_at_start() {
    let mut p = Parser::new("\nt");
    assert_eq!(paragraph(&mut p, |_: &Token| false), Some(Paragraph::new(vec![text("\nt")])))
}

#[test]
fn eol_after_node() {
    let mut p = Parser::new("~~s~~\nt");
    assert_eq!(
        paragraph(&mut p, |_: &Token| false),
        Some(Paragraph::new(vec![ParagraphNodes::Strikethrough(Strikethrough::new("s")), text("\nt")]))
    )
}

#[test]
fn not_closed_code_span() {
    let mut p = Parser::new("`");
    assert_eq!(paragraph(&mut p, |_: &Token| false), Some(Paragraph::new(vec![text("`")])))
}

#[test]
fn not_anchor() {
    let mut p = Parser::new("[]");
    assert_eq!(paragraph(&mut p, |_: &Token| false), Some(Paragraph::new(vec![text("[]")])))
}

#[test]
fn not_italic() {
    let mut p = Parser::new("_");
    assert_eq!(paragraph(&mut p, |_: &Token| false), Some(Paragraph::new(vec![text("_")])))
}

#[test]
fn not_strikethrough() {
    let mut p = Parser::new("~~");
    assert_eq!(paragraph(&mut p, |_: &Token| false), Some(Paragraph::new(vec![text("~~")])))
}
