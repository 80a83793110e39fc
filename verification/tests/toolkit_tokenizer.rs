#![allow(unused_imports)]
use yamd::toolkit::tokenizer::{Match, Matcher, Pattern, Quantifiers::{Once, RepeatTimes, ZeroOrMore}};

#[test]
fn tokenizer_get_match() {
    let mut matcher = Matcher::new("*italic*~~one more~~ statement");
    assert_eq!(
        matcher.get_match(&[Once('*')], &[Once('*')], false),
        Some(Match {
            start_token: "*",
            body: "italic",
            end_token: "*"
        })
    );
    assert_eq!(
        matcher.get_match(&[RepeatTimes(2, '~')], &[RepeatTimes(2, '~')], false),
        Some(Match {
            start_token: "~~",
            body: "one more",
            end_token: "~~",
        })
    );
}

#[test]
fn tokenizer_get_match_with_end_of_input() {
    let mut matcher = Matcher::new("*italic*~~one more");
    assert_eq!(
        matcher.get_match(&[Once('*')], &[Once('*')], false),
        Some(Match {
            start_token: "*",
            body: "italic",
            end_token: "*"
        })
    );
    assert_eq!(
        matcher.get_match(&[RepeatTimes(2, '~')], &[RepeatTimes(2, '~')], true),
        Some(Match {
            start_token: "~~",
            body: "one more",
            end_token: "",
        })
    );
}

#[test]
fn tokenizer_get_match_with_empty_start_token_and_macth_end() {
    let mut matcher = Matcher::new("t");
    assert_eq!(
        matcher.get_match(&[], &[RepeatTimes(2, '\n')], true),
        Some(Match {
            start_token: "",
            body: "t",
            end_token: ""
        })
    )
}

#[test]
fn tokenizer_get_match_with_empty_body() {
    let mut matcher = Matcher::new("--");
    assert_eq!(
        matcher.get_match(&[RepeatTimes(2, '-')], &[RepeatTimes(2, '\n')], true),
        Some(Match {
            start_token: "--",
            body: "",
            end_token: ""
        })
    )
}

#[test]
fn tokenizer_patterns_with_non_equal_length_can_not_be_balanced() {
    let mut matcher = Matcher::new("(()t");
    assert_eq!(
        matcher.get_match(&[Once('(')], &[Once(')'), Once('t')], false),
        Some(Match {
            start_token: "(",
            body: "(",
            end_token: ")t"
        })
    )
}

#[test]
fn tokenizer_get_balanced_match() {
    let mut matcher = Matcher::new("{{}}");
    assert_eq!(
        matcher.get_match(&[Once('{')], &[Once('}')], false),
        Some(Match {
            start_token: "{",
            body: "{}",
            end_token: "}"
        })
    );
}

#[test]
fn toolkit_tokenizer_matcher() {
    let mut m = Pattern::new(&[Once('*'), Once('*')]);
    assert_eq!(m.check_character(&'*'), true);
    assert_eq!(m.is_end_of_sequence(), false);
    assert_eq!(m.check_character(&'*'), true);
    assert_eq!(m.is_end_of_sequence(), true);
}

#[test]
fn toolkit_tokenizer_matcher_not_matched() {
    let mut m = Pattern::new(&[Once('*'), Once('*')]);
    assert_eq!(m.check_character(&'a'), false);
    assert_eq!(m.is_end_of_sequence(), false);
    assert_eq!(m.check_character(&'b'), false);
    assert_eq!(m.is_end_of_sequence(), false);
}

#[test]
fn toolkit_tokenizer_pattern_repeat() {
    let mut m = Pattern::new(&[ZeroOrMore(' '), Once('-')]);
    assert_eq!(m.check_character(&' '), true);
    assert_eq!(m.check_character(&' '), true);
    assert_eq!(m.check_character(&'-'), true);
    assert_eq!(m.is_end_of_sequence(), true);
    assert_eq!(m.length, 3);
    assert_eq!(m.get_quantifier_length(0), Some(&2));
    assert_eq!(m.get_quantifier_length(1), Some(&1));
    assert_eq!(m.check_character(&'-'), false);
    assert_eq!(m.length, 0);
    assert_eq!(m.is_end_of_sequence(), false);
}

#[test]
fn toolkit_tokenizer_pattern_repeat_zero() {
    let mut m = Pattern::new(&[ZeroOrMore(' '), Once('-')]);
    assert_eq!(m.check_character(&'-'), true);
    assert_eq!(m.is_end_of_sequence(), true);
    assert_eq!(m.get_quantifier_length(0), Some(&0));
    assert_eq!(m.get_quantifier_length(1), Some(&1));
    assert_eq!(m.check_character(&'-'), false);
}

#[test]
fn toolkit_tokenizer_pattern_exact_repeat_happy_path() {
    let mut m = Pattern::new(&[RepeatTimes(2, ' '), Once('-')]);
    assert_eq!(m.check_character(&' '), true);
    assert_eq!(m.check_character(&' '), true);
    assert_eq!(m.check_character(&'-'), true);
    assert_eq!(m.is_end_of_sequence(), true);
}

#[test]
fn toolkit_tokenizer_pattern_starts_with_exact_repeat() {
    let mut m = Pattern::new(&[RepeatTimes(2, ' '), Once('-')]);
    assert_eq!(m.check_character(&' '), true);
    assert_eq!(m.check_character(&' '), true);
    assert_eq!(m.check_character(&' '), false)
}

#[test]
fn tokenizer_pattern_starts_with_0_exact_repeat() {
    let mut m = Pattern::new(&[RepeatTimes(0, ' '), Once('-')]);
    assert_eq!(m.check_character(&'-'), true);
    assert_eq!(m.is_end_of_sequence(), true);
}

#[test]
fn toolkit_tokenizer_pattern_ends_with_exact_repeat() {
    let mut m = Pattern::new(&[Once('-'), RepeatTimes(2, ' ')]);
    assert_eq!(m.check_character(&'-'), true);
    assert_eq!(m.check_character(&' '), true);
    assert_eq!(m.check_character(&' '), true);
    assert_eq!(m.is_end_of_sequence(), true);
    assert_eq!(m.check_character(&' '), false);
}

#[test]
fn tokenizer_repeat_times_pattern() {
    let mut m = Pattern::new(&[RepeatTimes(2, ' ')]);
    assert_eq!(m.check_character(&' '), true);
    assert_eq!(m.check_character(&' '), true);
    assert_eq!(m.is_end_of_sequence(), true);
    assert_eq!(m.check_character(&' '), false);
}

#[test]
fn toolkit_tokenizer_new_index() {
    let mut m = Pattern::new(&[ZeroOrMore(' '), Once('-')]);
    assert_eq!(m.next_index(&' ', 0), Some(0));
    assert_eq!(m.next_index(&'-', 1), Some(2));
    assert_eq!(m.next_index(&'d', 0), None);
    assert_eq!(m.next_index(&'d', 1), None);
}

#[test]
fn toolkit_tokenizer_pattern_repeat_is_not_matched() {
    let mut m = Pattern::new(&[ZeroOrMore(' '), Once('-')]);
    assert_eq!(m.check_character(&' '), true);
    assert_eq!(m.check_character(&' '), true);
    assert_eq!(m.check_character(&'a'), false);
    assert_eq!(m.is_end_of_sequence(), false);
}
