#![allow(unused_imports)]
use yamd::toolkit::pattern::{Pattern, PatternState, Quantifiers::{Once, RepeatTimes}};

#[test]
fn pattern_matcher() {
    let mut m = Pattern::new(&[Once('*'), Once('*')]);
    assert_eq!(m.check_character(&'*'), PatternState::new(true));
    assert_eq!(m.check_character(&'*'), PatternState::end([1, 1]));
}

#[test]
fn pattern_matcher_not_matched() {
    let mut m = Pattern::new(&[Once('*'), Once('*')]);
    assert_eq!(m.check_character(&'a'), PatternState::new(false));
    assert_eq!(m.check_character(&'b'), PatternState::new(false));
}

#[test]
fn pattern_pattern_exact_repeat_happy_path() {
    let mut m = Pattern::new(&[RepeatTimes(2, ' '), Once('-')]);
    assert_eq!(m.check_character(&' '), PatternState::new(true));
    assert_eq!(m.check_character(&' '), PatternState::new(true));
    assert_eq!(m.check_character(&'-'), PatternState::end([2, 1]));
}

#[test]
fn pattern_pattern_starts_with_exact_repeat() {
    let mut m = Pattern::new(&[RepeatTimes(2, ' '), Once('-')]);
    assert_eq!(m.check_character(&' '), PatternState::new(true));
    assert_eq!(m.check_character(&' '), PatternState::new(true));
    assert_eq!(m.check_character(&' '), PatternState::new(true));
    assert_eq!(m.check_character(&'-'), PatternState::end([2, 1]));
}

#[test]
fn pattern_pattern_starts_with_0_exact_repeat() {
    let mut m = Pattern::new(&[RepeatTimes(0, ' '), Once('-')]);
    assert_eq!(m.check_character(&'-'), PatternState::end([0, 1]));
}

#[test]
fn pattern_pattern_ends_with_exact_repeat() {
    let mut m = Pattern::new(&[Once('-'), RepeatTimes(2, ' ')]);
    assert_eq!(m.check_character(&'-'), PatternState::new(true));
    assert_eq!(m.check_character(&' '), PatternState::new(true));
    assert_eq!(m.check_character(&' '), PatternState::end([1, 2]));
    assert_eq!(m.check_character(&' '), PatternState::new(false));
}

#[test]
fn pattern_repeat_times_pattern() {
    let mut m = Pattern::new(&[RepeatTimes(2, ' ')]);
    assert_eq!(m.check_character(&' '), PatternState::new(true));
    assert_eq!(m.check_character(&' '), PatternState::end([2]));
    assert_eq!(m.check_character(&' '), PatternState::new(true));
}

#[test]
fn partialy_repeating_pattern() {
    let mut m = Pattern::new(&[Once('a'), RepeatTimes(3, 'b')]);
    assert_eq!(m.check_character(&'a'), PatternState::new(true));
    assert_eq!(m.check_character(&'b'), PatternState::new(true));
    assert_eq!(m.check_character(&'b'), PatternState::new(true));
    assert_eq!(m.check_character(&'a'), PatternState::new(true));
}

#[test]
fn when_reset_repeating_pattern() {
    let mut m = Pattern::new(&[Once('\n'), RepeatTimes(3, '\\')]);
    assert_eq!(m.check_character(&'\n'), PatternState::new(true));
    assert_eq!(m.check_character(&'\\'), PatternState::new(true));
    assert_eq!(m.check_character(&'\\'), PatternState::new(true));
    assert_eq!(m.check_character(&'\n'), PatternState::new(true));
    assert_eq!(m.check_character(&'\\'), PatternState::new(true));
    assert_eq!(m.check_character(&'\\'), PatternState::new(true));
    assert_eq!(m.check_character(&'\\'), PatternState::end([1, 3]));
}
