use yamd::lexer::{Position, Token, TokenKind};
use yamd::node_parser::list::list;
use yamd::node_parser::Parser;
use yamd::nodes::{List, ListItem, ListTypes, ParagraphNodes};

fn text(s: &str) -> ParagraphNodes {
    ParagraphNodes::Text(String::from(s))
}

#[test]
fn node_list_parse_unordered() {
    let mut p = Parser::new("- level 0\n- level 0");
    assert_eq!(
        list(&mut p),
        Some(List::new(
            ListTypes::Unordered,
            0,
            vec![
                ListItem::new(vec![text("level 0")], None),
                ListItem::new(vec![text("level 0")], None),
            ],
        ))
    );
}

#[test]
fn node_list_parse_ordered() {
    let mut p = Parser::new("+ level 0\n+ same level");
    assert_eq!(
        list(&mut p),
        Some(List::new(
            ListTypes::Ordered,
            0,
            vec![
                ListItem::new(vec![text("level 0")], None),
                ListItem::new(vec![text("same level")], None),
            ],
        ))
    );
}

#[test]
fn node_list_parse_mixed() {
    let mut p = Parser::new("+ level 0\n - level 0");
    let list_node = List::new(
        ListTypes::Ordered,
        0,
        vec![ListItem::new(
            vec![text("level 0")],
            Some(List::new(
                ListTypes::Unordered,
                1,
                vec![ListItem::new(vec![text("level 0")], None)],
            )),
        )],
    );
    assert_eq!(list(&mut p), Some(list_node));
}

#[test]
fn node_list_parse_nested() {
    let mut p = Parser::new("- one\n - two");
    let list_node = List::new(
        ListTypes::Unordered,
        0,
        vec![ListItem::new(
            vec![text("one")],
            Some(List::new(
                ListTypes::Unordered,
                1,
                vec![ListItem::new(vec![text("two")], None)],
            )),
        )],
    );
    assert_eq!(list(&mut p), Some(list_node));
}

#[test]
fn node_list_eol() {
    let mut p = Parser::new("- one\n - two\nsomething");
    let list_node = List::new(
        ListTypes::Unordered,
        0,
        vec![ListItem::new(
            vec![text("one")],
            Some(List::new(
                ListTypes::Unordered,
                1,
                vec![ListItem::new(vec![text("two\nsomething")], None)],
            )),
        )],
    );
    assert_eq!(list(&mut p), Some(list_node));
}

#[test]
fn node_list_mixed_same_level_ordered() {
    let mut p = Parser::new("+ level 0\n- same level");
    assert_eq!(
        list(&mut p),
        Some(List::new(
            ListTypes::Ordered,
            0,
            vec![ListItem::new(vec![text("level 0"), text("- same level")], None)],
        ))
    );
}

#[test]
fn node_list_mixed_same_level_unordered() {
    let mut p = Parser::new("- level 0\n+ same level");
    assert_eq!(
        list(&mut p),
        Some(List::new(
            ListTypes::Unordered,
            0,
            vec![ListItem::new(vec![text("level 0"), text("+ same level")], None)],
        ))
    );
}

#[test]
fn node_list_own_marker_at_any_indentation() {
    let mut p = Parser::new("- a\n - b\n- c");
    let list_node = List::new(
        ListTypes::Unordered,
        0,
        vec![ListItem::new(
            vec![text("a")],
            Some(List::new(
                ListTypes::Unordered,
                1,
                vec![ListItem::new(vec![text("b")], None), ListItem::new(vec![text("c")], None)],
            )),
        )],
    );
    assert_eq!(list(&mut p), Some(list_node));
}

#[test]
fn node_list_no_space_after_marker() {
    let mut p = Parser::new("-a");
    assert_eq!(list(&mut p), None);
    assert_eq!(p.peek(), Some((&Token::new(TokenKind::Literal, 0..1, Position::default()), 0)));
}

#[test]
fn node_list_stops_at_terminator() {
    let mut p = Parser::new("- a\n\nb");
    assert_eq!(
        list(&mut p),
        Some(List::new(ListTypes::Unordered, 0, vec![ListItem::new(vec![text("a")], None)]))
    );
    assert_eq!(p.pos(), 3);
}
