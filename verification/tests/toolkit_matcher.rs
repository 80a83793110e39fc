#![allow(unused_imports)]
use yamd::toolkit::matcher::{Match, Matcher};

#[test]
fn matcher_get_match() {
    let mut matcher = Matcher::new("*italic*~~one more~~ statement");
    assert_eq!(
        matcher.get_match("*", "*", false),
        Some(Match {
            start_token: "*",
            body: "italic",
            end_token: "*"
        })
    );
    assert_eq!(
        matcher.get_match("~~", "~~", false),
        Some(Match {
            start_token: "~~",
            body: "one more",
            end_token: "~~",
        })
    );
}

#[test]
fn matcher_get_match_with_end_of_input() {
    let mut matcher = Matcher::new("*italic*~~one more");
    assert_eq!(
        matcher.get_match("*", "*", false),
        Some(Match {
            start_token: "*",
            body: "italic",
            end_token: "*"
        })
    );
    assert_eq!(
        matcher.get_match("~~", "~~", true),
        Some(Match {
            start_token: "~~",
            body: "one more",
            end_token: "",
        })
    );
}

#[test]
fn matcher_get_match_with_empty_start_token_and_macth_end() {
    let mut matcher = Matcher::new("t");
    assert_eq!(
        matcher.get_match("", "\n", true),
        Some(Match {
            start_token: "",
            body: "t",
            end_token: ""
        })
    )
}

#[test]
fn matcher_get_match_with_empty_body() {
    let mut matcher = Matcher::new("--");
    assert_eq!(
        matcher.get_match("--", "\n", true),
        Some(Match {
            start_token: "--",
            body: "",
            end_token: ""
        })
    )
}

#[test]
fn matcher_patterns_with_non_equal_length_can_not_be_balanced() {
    let mut matcher = Matcher::new("(()t");
    assert_eq!(
        matcher.get_match("(", ")t", false),
        Some(Match {
            start_token: "(",
            body: "(",
            end_token: ")t"
        })
    )
}

#[test]
fn matcher_get_balanced_match() {
    let mut matcher = Matcher::new("{{}}");
    assert_eq!(
        matcher.get_match("{", "}", false),
        Some(Match {
            start_token: "{",
            body: "{}",
            end_token: "}"
        })
    );
}

#[test]
fn matcher_get_rest_after_match() {
    let mut matcher = Matcher::new("*italic*~~one more~~ statement");
    let before = matcher.get_rest();
    let m = matcher.get_match("*", "*", false).unwrap();
    assert_eq!(matcher.get_rest(), "~~one more~~ statement");
    assert_eq!(
        before,
        [m.start_token, m.body, m.end_token, matcher.get_rest()].concat()
    );
}

#[test]
fn matcher_non_ascii_text_after_the_match() {
    let mut matcher = Matcher::new("*a*é");
    assert_eq!(
        matcher.get_match("*", "*", false),
        Some(Match {
            start_token: "*",
            body: "a",
            end_token: "*"
        })
    );
    assert_eq!(matcher.get_rest(), "é");
}

#[test]
fn matcher_non_ascii_tokens() {
    let mut matcher = Matcher::new("«x»y");
    assert_eq!(
        matcher.get_match("«", "»", false),
        Some(Match {
            start_token: "«",
            body: "x",
            end_token: "»"
        })
    );
    assert_eq!(matcher.get_rest(), "y");
}

#[test]
fn matcher_no_match_keeps_the_cursor() {
    let mut matcher = Matcher::new("abc");
    assert_eq!(matcher.get_match("*", "*", false), None);
    assert_eq!(matcher.get_rest(), "abc");
}
