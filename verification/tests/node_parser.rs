use yamd::lexer::{Position, Token, TokenKind};
use yamd::node_parser::anchor::anchor;
use yamd::node_parser::bold::bold;
use yamd::node_parser::code::code;
use yamd::node_parser::embed::embed;
use yamd::node_parser::heading::heading;
use yamd::node_parser::image::images;
use yamd::node_parser::inline::{code_span, italic, strikethrough};
use yamd::node_parser::Parser;
use yamd::nodes::{Anchor, Bold, BoldNodes, Code, CodeSpan, Embed, Heading, HeadingNodes, Image, Images, Italic, Strikethrough};

#[test]
fn first_next_token() {
    let mut p = Parser::new("test");
    assert_eq!(
        p.next_token(),
        Some(&Token::new(TokenKind::Literal, 0..4, Position::default()))
    );
}

#[test]
fn advance_until() {
    let mut p = Parser::new("!test");

    assert_eq!(p.advance_until(|t: &Token| t.kind == TokenKind::Space), None);
    assert_eq!(
        p.peek(),
        Some((&Token::new(TokenKind::Literal, 0..1, Position::default()), 0))
    )
}

#[test]
fn advance_until_stops_past_the_match() {
    let mut p = Parser::new("a*b");
    assert_eq!(p.advance_until(|t: &Token| t.kind == TokenKind::Literal), Some((0, 2)));
    assert_eq!(p.pos(), 3);
}

#[test]
fn advance_until_stops_at_terminator() {
    let mut p = Parser::new("[a\n\n]");
    assert_eq!(p.advance_until(|t: &Token| t.kind == TokenKind::RightSquareBracket), None);
    assert_eq!(p.pos(), 0);
    assert_eq!(p.peek().map(|(t, _)| t.kind), Some(TokenKind::Literal));
}

#[test]
fn advance_until_new_line_finds_next_line() {
    let mut p = Parser::new("a b\nc");
    let r = p.advance_until_new_line();
    assert!(r.is_some());
    let (start, end) = r.unwrap();
    assert_eq!(start, 0);
    assert_eq!(p.pos(), end);
    assert_eq!(p.peek().map(|(t, _)| t.range.clone()), Some(4..5));
}

#[test]
fn advance_until_new_line_without_one_backtracks() {
    let mut p = Parser::new("a b");
    assert_eq!(p.advance_until_new_line(), None);
    assert_eq!(p.pos(), 0);
}

#[test]
fn next_token_behind_the_taken_tokens() {
    let mut p = Parser::new("a*b");
    assert!(p.next_token().is_some());
    assert!(p.next_token().is_some());
    p.move_to(0);
    assert_eq!(p.pos(), 0);
    assert_eq!(p.next_token().map(|t| t.kind), Some(TokenKind::Star));
    assert_eq!(p.pos(), 1);
    assert_eq!(p.next_token(), None);
    assert_eq!(p.pos(), 2);
}

#[test]
fn flip_to_literal_at_only_taken_tokens() {
    let mut p = Parser::new("# a");
    assert!(!p.flip_to_literal_at(0));
    p.next_token();
    assert!(p.flip_to_literal_at(0));
    p.move_to(0);
    assert_eq!(p.peek().map(|(t, _)| t.kind), Some(TokenKind::Literal));
}

#[test]
fn range_to_string_removes_escapes() {
    let mut p = Parser::new("a \\* b");
    while p.next_token().is_some() {}
    assert_eq!(p.range_to_string(0..p.pos()), "a * b");
}

#[test]
fn node_anchor_happy_path() {
    let mut p = Parser::new("[a](u)");
    assert_eq!(anchor(&mut p), Some(Anchor::new("a", "u")));
}

#[test]
fn alt_is_not_closed() {
    let mut p = Parser::new("[a");
    assert_eq!(anchor(&mut p), None);
    assert_eq!(
        p.peek(),
        Some((&Token::new(TokenKind::Literal, 0..1, Position::default()), 0))
    )
}

#[test]
fn node_anchor_url_is_not_closed() {
    let mut p = Parser::new("[a](u");
    assert_eq!(anchor(&mut p), None);
    assert_eq!(
        p.peek(),
        Some((&Token::new(TokenKind::Literal, 0..1, Position::default()), 0))
    )
}

#[test]
fn node_anchor_has_nested_square_brackets() {
    let mut p = Parser::new("[[a\\]l](u)");
    assert_eq!(anchor(&mut p), Some(Anchor::new("[a]l", "u")));
}

#[test]
fn node_anchor_has_nested_paren() {
    let mut p = Parser::new("[a]((u)r)");
    assert_eq!(anchor(&mut p), Some(Anchor::new("a", "(u)r")));
}

#[test]
fn node_anchor_has_unclosed_nested_paren() {
    let mut p = Parser::new("[a]((ur)t");
    assert_eq!(anchor(&mut p), Some(Anchor::new("a", "(ur")));
}

#[test]
fn node_anchor_has_terminator() {
    let mut p = Parser::new("[[a]((u\n\n)r)");
    assert_eq!(anchor(&mut p), None);
    assert_eq!(
        p.peek(),
        Some((&Token::new(TokenKind::Literal, 0..1, Position::default()), 0))
    )
}

#[test]
fn node_anchor_no_paren() {
    let mut p = Parser::new("[a]");
    assert_eq!(anchor(&mut p), None);
    assert_eq!(
        p.peek(),
        Some((&Token::new(TokenKind::Literal, 0..1, Position::default()), 0))
    )
}

#[test]
fn node_anchor_moves_past_the_link() {
    let mut p = Parser::new("[a](u) rest");
    assert_eq!(anchor(&mut p), Some(Anchor::new("a", "u")));
    assert_eq!(p.pos(), 6);
}

#[test]
fn image_happy_path() {
    let mut p = Parser::new("![a](u)\n![a](u)");
    assert_eq!(
        images(&mut p, |_: &Token| false),
        Some(Images::new(vec![Image::new("a", "u"), Image::new("a", "u")]))
    );
}

#[test]
fn image_not_an_anchor() {
    let mut p = Parser::new("![a](u)\n!!foo");
    assert_eq!(images(&mut p, |_: &Token| false), None);
    assert_eq!(p.pos(), 0);
    assert_eq!(
        p.peek(),
        Some((&Token::new(TokenKind::Literal, 0..1, Position::default()), 0))
    );
}

#[test]
fn must_consume_terminator() {
    let mut p = Parser::new("![a](u)\n\n");
    images(&mut p, |_: &Token| false);
    assert_eq!(p.pos(), 8);
}

#[test]
fn image_next_token_can_be_only_terminator() {
    let mut p = Parser::new("![a](u)\n![a](u)fasdf");
    assert_eq!(images(&mut p, |_: &Token| false), None);
    assert_eq!(p.pos(), 0);
    assert_eq!(
        p.peek(),
        Some((&Token::new(TokenKind::Literal, 0..1, Position::default()), 0))
    );
}

#[test]
fn image_new_line_check() {
    let mut p = Parser::new("![a](u)\n![a](u)\n ");
    assert_eq!(
        images(&mut p, |t: &Token| t.kind == TokenKind::Space),
        Some(Images::new(vec![Image::new("a", "u"), Image::new("a", "u")]))
    );
}

#[test]
fn single_image_is_a_gallery_of_one() {
    let mut p = Parser::new("![alt](src)");
    assert_eq!(images(&mut p, |_: &Token| false), Some(Images::new(vec![Image::new("alt", "src")])));
    assert_eq!(p.pos(), 7);
}

#[test]
fn node_heading_happy_path() {
    let mut p = Parser::new("## heading [a](u) text");
    assert_eq!(
        heading(&mut p, |_: &Token| false),
        Some(Heading::new(
            2,
            vec![
                HeadingNodes::Text(String::from("heading ")),
                HeadingNodes::Anchor(Anchor::new("a", "u")),
                HeadingNodes::Text(String::from(" text"))
            ]
        ))
    );
}

#[test]
fn node_heading_start_with_anchor() {
    let mut p = Parser::new("## [a](u) heading");
    assert_eq!(
        heading(&mut p, |_: &Token| false),
        Some(Heading::new(
            2,
            vec![
                HeadingNodes::Anchor(Anchor::new("a", "u")),
                HeadingNodes::Text(String::from(" heading")),
            ]
        ))
    );
}

#[test]
fn node_heading_broken_anchor() {
    let mut p = Parser::new("## heading [a](u text");
    assert_eq!(
        heading(&mut p, |_: &Token| false),
        Some(Heading::new(2, vec![HeadingNodes::Text(String::from("heading [a](u text"))]))
    );
}

#[test]
fn node_heading_with_terminator() {
    let mut p = Parser::new("## heading\n\ntext");
    assert_eq!(
        heading(&mut p, |_: &Token| false),
        Some(Heading::new(2, vec![HeadingNodes::Text(String::from("heading"))]))
    );
}

#[test]
fn node_heading_have_no_space_before_text() {
    let mut p = Parser::new("##heading\n\ntext");
    assert_eq!(heading(&mut p, |_: &Token| false), None);
    assert_eq!(
        p.peek(),
        Some((&Token::new(TokenKind::Literal, 0..2, Position::default()), 0))
    );
}

#[test]
fn node_heading_new_line_check() {
    let mut p = Parser::new("## heading [a](u) text\n ");
    assert_eq!(
        heading(&mut p, |t: &Token| t.kind == TokenKind::Space),
        Some(Heading::new(
            2,
            vec![
                HeadingNodes::Text(String::from("heading ")),
                HeadingNodes::Anchor(Anchor::new("a", "u")),
                HeadingNodes::Text(String::from(" text"))
            ]
        ))
    );
}

#[test]
fn node_heading_only_one_token() {
    let mut p = Parser::new("##");
    assert_eq!(heading(&mut p, |_: &Token| false), None);
    assert_eq!(
        p.peek(),
        Some((&Token::new(TokenKind::Literal, 0..2, Position::default()), 0))
    );
}

#[test]
fn node_italic_happy_path() {
    let mut p = Parser::new("_happy_");
    assert_eq!(italic(&mut p), Some(Italic::new("happy")));
}

#[test]
fn node_italic_no_closing_token() {
    let mut p = Parser::new("_happy");
    assert_eq!(italic(&mut p), None);
    assert_eq!(
        p.peek(),
        Some((&Token::new(TokenKind::Literal, 0..1, Position::default()), 0))
    )
}

#[test]
fn node_italic_terminator() {
    let mut p = Parser::new("_ha\n\nppy_");
    assert_eq!(italic(&mut p), None);
    assert_eq!(
        p.peek(),
        Some((&Token::new(TokenKind::Literal, 0..1, Position::default()), 0))
    );
}

#[test]
fn node_code_span_happy_path() {
    let mut p = Parser::new("`happy path`");
    assert_eq!(code_span(&mut p), Some(CodeSpan::new("happy path")));
}

#[test]
fn node_code_span_terminator() {
    let mut p = Parser::new("`happy\n\npath`");
    assert_eq!(code_span(&mut p), None);
    assert_eq!(
        p.peek(),
        Some((&Token::new(TokenKind::Literal, 0..1, Position::default()), 0))
    )
}

#[test]
fn node_code_span_no_rhs() {
    let mut p = Parser::new("`happy path");
    assert_eq!(code_span(&mut p), None);
    assert_eq!(
        p.peek(),
        Some((&Token::new(TokenKind::Literal, 0..1, Position::default()), 0))
    )
}

#[test]
fn italic_skips_double_underscores() {
    let mut p = Parser::new("_a__b_");
    assert_eq!(italic(&mut p), Some(Italic::new("a__b")));
    assert_eq!(p.pos(), 5);
}

#[test]
fn node_embed_happy_path() {
    let mut p = Parser::new("{{happy|path}}");
    assert_eq!(embed(&mut p), Some(Embed::new("happy", "path")));
}

#[test]
fn node_embed_terminator() {
    let mut p = Parser::new("{{\n\n|path}}");
    assert_eq!(embed(&mut p), None);
    assert_eq!(
        p.peek(),
        Some((&Token::new(TokenKind::Literal, 0..2, Position::default()), 0))
    )
}

#[test]
fn node_embed_do_not_have_closing_token() {
    let mut p = Parser::new("{{happy|path}");
    assert_eq!(embed(&mut p), None);
    assert_eq!(
        p.peek(),
        Some((&Token::new(TokenKind::Literal, 0..2, Position::default()), 0))
    );
}

#[test]
fn node_embed_no_pipe() {
    let mut p = Parser::new("{{happy}}");
    assert_eq!(embed(&mut p), None);
    assert_eq!(
        p.peek(),
        Some((&Token::new(TokenKind::Literal, 0..2, Position::default()), 0))
    )
}

#[test]
fn node_embed_args_may_span_terminators() {
    let mut p = Parser::new("{{a|b\n\nc}}");
    assert_eq!(embed(&mut p), Some(Embed::new("a", "b\n\nc")));
}

#[test]
fn node_code_happy_path() {
    let mut p = Parser::new("```rust\nprintln!(\"hello\");\n```");
    assert_eq!(code(&mut p), Some(Code::new("rust", "println!(\"hello\");")));
}

#[test]
fn node_code_eol_before_lang() {
    let mut p = Parser::new("```\nprintln!(\"hello\");\n```");
    assert_eq!(code(&mut p), Some(Code::new("", "println!(\"hello\");")));
}

#[test]
fn node_code_terminator_before_lang() {
    let mut p = Parser::new("```\n\nprintln!(\"hello\");\n```");
    assert_eq!(code(&mut p), None);
    assert_eq!(
        p.peek(),
        Some((&Token::new(TokenKind::Literal, 0..3, Position::default()), 0))
    )
}

#[test]
fn node_code_do_not_have_closing_token() {
    let mut p = Parser::new("```\nprintln!(\"hello\");\n``");
    assert_eq!(code(&mut p), None);
    assert_eq!(
        p.peek(),
        Some((&Token::new(TokenKind::Literal, 0..3, Position::default()), 0))
    );
}

#[test]
fn node_code_terminator_in_the_middle_and_do_not_have_closing_token() {
    let mut p = Parser::new("```\nprintln!(\"hello\");\n\n\n``");
    assert_eq!(code(&mut p), None);
    assert_eq!(
        p.peek(),
        Some((&Token::new(TokenKind::Literal, 0..3, Position::default()), 0))
    );
}

#[test]
fn node_strikethrough_happy_path() {
    let mut p = Parser::new("~~happy~~");
    assert_eq!(strikethrough(&mut p), Some(Strikethrough::new("happy")));
}

#[test]
fn node_strikethrough_no_closing_token() {
    let mut p = Parser::new("~~happy");
    assert_eq!(strikethrough(&mut p), None);
    assert_eq!(
        p.peek(),
        Some((&Token::new(TokenKind::Literal, 0..2, Position::default()), 0))
    )
}

#[test]
fn node_strikethrough_terminator() {
    let mut p = Parser::new("~~ha\n\nppy~~");
    assert_eq!(strikethrough(&mut p), None);
    assert_eq!(
        p.peek(),
        Some((&Token::new(TokenKind::Literal, 0..2, Position::default()), 0))
    )
}

#[test]
fn node_bold_happy_path() {
    let mut p = Parser::new("**~~happy~~ _path_**");
    assert_eq!(
        bold(&mut p),
        Some(Bold::new(vec![
            BoldNodes::Strikethrough(Strikethrough::new("happy")),
            BoldNodes::Text(String::from(" ")),
            BoldNodes::Italic(Italic::new("path"))
        ]))
    );
}

#[test]
fn node_bold_terminator() {
    let mut p = Parser::new("**~~happy~~ _path_\n\n**");
    assert_eq!(bold(&mut p), None);
    assert_eq!(
        p.peek(),
        Some((&Token::new(TokenKind::Literal, 0..2, Position::default()), 0))
    )
}

#[test]
fn node_bold_end_of_input() {
    let mut p = Parser::new("**~~happy~~ _path_");
    assert_eq!(bold(&mut p), None);
    assert_eq!(
        p.peek(),
        Some((&Token::new(TokenKind::Literal, 0..2, Position::default()), 0))
    )
}

#[test]
fn node_bold_end_of_input_in_nested() {
    let mut p = Parser::new("**~~happy _path_");
    assert_eq!(bold(&mut p), None);
    assert_eq!(
        p.peek(),
        Some((&Token::new(TokenKind::Literal, 0..2, Position::default()), 0))
    );
}

#[test]
fn node_bold_text_before_strikethrough() {
    let mut p = Parser::new("**text ~~happy~~ _path_**");
    assert_eq!(
        bold(&mut p),
        Some(Bold::new(vec![
            BoldNodes::Text(String::from("text ")),
            BoldNodes::Strikethrough(Strikethrough::new("happy")),
            BoldNodes::Text(String::from(" ")),
            BoldNodes::Italic(Italic::new("path"))
        ]))
    );
}

#[test]
fn node_bold_unclosed_italic() {
    let mut p = Parser::new("**_path**");
    assert_eq!(bold(&mut p), Some(Bold::new(vec![BoldNodes::Text(String::from("_path"))])));
}

#[test]
fn node_bold_moves_past_the_closing_stars() {
    let mut p = Parser::new("** **x");
    assert_eq!(bold(&mut p), Some(Bold::new(vec![BoldNodes::Text(String::from(" "))])));
    assert_eq!(p.pos(), 3);
}
