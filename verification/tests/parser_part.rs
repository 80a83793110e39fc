use yamd::parser::{CharCursor, Matcher, ParserPart};

#[test]
fn parser_parse_part() {
    let mut c = CharCursor::new("test of *italic**one more* statement");
    c.nth(7);
    assert_eq!(c.parse_part(vec!['*'], vec!['*']), Some(15));
    assert_eq!(c.parse_part(vec!['*'], vec!['*']), Some(25));
}

#[test]
fn parser_matcher() {
    let mut m = Matcher::new(vec!['*', '*']);
    assert_eq!(m.is_match(&'*'), true);
    assert_eq!(m.is_done(), false);
    assert_eq!(m.is_match(&'*'), true);
    assert_eq!(m.is_done(), true);
}

#[test]
fn parser_matcher_not_matched() {
    let mut m = Matcher::new(vec!['*', '*']);
    assert_eq!(m.is_match(&'a'), false);
    assert_eq!(m.is_done(), false);
    assert_eq!(m.is_match(&'b'), false);
    assert_eq!(m.is_done(), false);
}

#[test]
fn parse_part_needs_the_start_sequence() {
    let mut c = CharCursor::new("a*b*");
    assert_eq!(c.parse_part(vec!['*'], vec!['*']), None);
    assert_eq!(c.parse_part(vec!['*'], vec!['*']), Some(3));
}

#[test]
fn parse_part_stops_at_an_empty_line() {
    let mut c = CharCursor::new("*a\n\nb*");
    assert_eq!(c.parse_part(vec!['*'], vec!['*']), None);
    let mut d = CharCursor::new("*a\nb*");
    assert_eq!(d.parse_part(vec!['*'], vec!['*']), Some(4));
}

#[test]
fn parse_part_without_an_end() {
    let mut c = CharCursor::new("**abc");
    assert_eq!(c.parse_part(vec!['*', '*'], vec!['*', '*']), None);
}

#[test]
fn cursor_nth_reads_with_index() {
    let mut c = CharCursor::new("abc");
    assert_eq!(c.nth(1), Some((1, 'b')));
    assert_eq!(c.nth(0), Some((2, 'c')));
    assert_eq!(c.nth(0), None);
}
