use yamd::text::Text;

#[test]
fn text_happy_path() {
    let text = Text::new("shiny text");
    assert_eq!(text.text, "shiny text".to_string());
}

#[test]
fn text_to_string() {
    let text: String = Text::new("shiny text").serialize();
    assert_eq!(text, "shiny text".to_string());
}

#[test]
fn from_string() {
    assert_eq!(Text::deserialize("t", 0), Some((Text::new("t"), 1)));
}

#[test]
fn text_deserialize_from_the_middle() {
    assert_eq!(Text::deserialize("héllo", 3), Some((Text::new("llo"), 6)));
}
