#![allow(unused_imports)]
use yamd::sd::tokenizer::{Matcher, Pattern::{Exact, ExactRepeat, Repeat}, Tokenizer};

#[test]
fn tokenizer_parse_part() {
    let mut c = Tokenizer::new("*italic**one more* statement");
    assert_eq!(
        c.get_token_body(vec![Exact('*')], vec![Exact('*')]),
        Some("italic")
    );
    assert_eq!(
        c.get_token_body(vec![Exact('*')], vec![Exact('*')]),
        Some("one more")
    );
}

#[test]
fn tokenizer_matcher() {
    let token = &vec![Exact('*'), Exact('*')];
    let mut m = Matcher::new(token);
    assert_eq!(m.is_match(&'*'), true);
    assert_eq!(m.is_done(), false);
    assert_eq!(m.is_match(&'*'), true);
    assert_eq!(m.is_done(), true);
}

#[test]
fn tokenizer_matcher_not_matched() {
    let token = &vec![Exact('*'), Exact('*')];
    let mut m = Matcher::new(token);
    assert_eq!(m.is_match(&'a'), false);
    assert_eq!(m.is_done(), false);
    assert_eq!(m.is_match(&'b'), false);
    assert_eq!(m.is_done(), false);
}

#[test]
fn tokenizer_pattern_repeat() {
    let token = &vec![Repeat(' '), Exact('-')];
    let mut m = Matcher::new(token);
    assert_eq!(m.is_match(&' '), true);
    assert_eq!(m.is_match(&' '), true);
    assert_eq!(m.is_match(&'-'), true);
    assert_eq!(m.is_done(), true);
    assert_eq!(m.length, 3);
    assert_eq!(m.is_match(&'-'), false);
    assert_eq!(m.length, 0);
    assert_eq!(m.is_done(), false);
}

#[test]
fn tokenizer_pattern_repeat_zero() {
    let token = &vec![Repeat(' '), Exact('-')];
    let mut m = Matcher::new(token);
    assert_eq!(m.is_match(&'-'), true);
    assert_eq!(m.is_done(), true);
    assert_eq!(m.is_match(&'-'), false);
}

#[test]
fn tokenizer_pattern_exact_repeat_happy_path() {
    let token = &vec![ExactRepeat(2, ' '), Exact('-')];
    let mut m = Matcher::new(token);
    assert_eq!(m.is_match(&' '), true);
    assert_eq!(m.is_match(&' '), true);
    assert_eq!(m.is_match(&'-'), true);
    assert_eq!(m.is_done(), true);
}

#[test]
fn tokenizer_pattern_starts_with_exact_repeat() {
    let token = &vec![ExactRepeat(2, ' '), Exact('-')];
    let mut m = Matcher::new(token);
    assert_eq!(m.is_match(&' '), true);
    assert_eq!(m.is_match(&' '), true);
    assert_eq!(m.is_match(&' '), false)
}

#[test]
fn tokenizer_pattern_ends_with_exact_repeat() {
    let token = &vec![Exact('-'), ExactRepeat(2, ' ')];
    let mut m = Matcher::new(token);
    assert_eq!(m.is_match(&'-'), true);
    assert_eq!(m.is_match(&' '), true);
    assert_eq!(m.is_match(&' '), true);
    assert_eq!(m.is_match(&' '), false);
}

#[test]
fn tokenizer_new_index() {
    let token = &vec![Repeat(' '), Exact('-')];
    let mut m = Matcher::new(token);
    assert_eq!(m.new_index(&' ', 0), Some(0));
    assert_eq!(m.new_index(&'-', 1), Some(2));
    assert_eq!(m.new_index(&'d', 0), None);
    assert_eq!(m.new_index(&'d', 1), None);
}

#[test]
fn tokenizer_pattern_repeat_is_not_matched() {
    let token = &vec![Repeat(' '), Exact('-')];
    let mut m = Matcher::new(token);
    assert_eq!(m.is_match(&' '), true);
    assert_eq!(m.is_match(&' '), true);
    assert_eq!(m.is_match(&'a'), false);
    assert_eq!(m.is_done(), false);
}
