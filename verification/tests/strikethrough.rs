use yamd::parser::Parser;
use yamd::s::S;

#[test]
fn s_happy_path() {
    let s = S::new("2+2=5");
    assert_eq!(s.text, "2+2=5".to_string());
}

#[test]
fn s_to_string() {
    let s: String = S::new("2+2=5").into();
    assert_eq!(s, "~~2+2=5~~".to_string());
}

#[test]
fn s_parse() {
    assert_eq!(S::parse("~~2+2=5~~", 0), Some((S::new("2+2=5"), 8)));
    assert_eq!(S::parse("not ~~is~~not", 4), Some((S::new("is"), 9)));
    assert_eq!(S::parse("~~not", 0), None);
    assert_eq!(S::parse("~~i\n\ns~~", 0), None);
    assert_eq!(S::parse("~~i\ns~~", 0), Some((S::new("is"), 6)));
}

#[test]
fn s_parse_past_the_end() {
    assert_eq!(S::parse("~~a~~", 9), None);
    assert_eq!(S::parse("x~~a~~", 0), None);
}

#[test]
fn s_to_source() {
    assert_eq!(S::new("a\nb").to_source(), "~~a\nb~~".to_string());
}

#[test]
fn s_source_reads_back() {
    let s = S::new("2+2=5");
    let source = s.to_source();
    assert_eq!(S::parse(&source, 0), Some((S::new("2+2=5"), 8)));
}
