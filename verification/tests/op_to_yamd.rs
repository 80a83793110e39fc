use yamd::nodes::{
    Anchor, Bold, BoldNodes, Code, CodeSpan, Collapsible, Embed, Emphasis, Heading, HeadingNodes,
    Highlight, Image, Images, Italic, List, ListItem, ListTypes, Paragraph, ParagraphNodes,
    Strikethrough, ThematicBreak, Yamd, YamdNodes,
};
use yamd::op::parse;
use yamd::op::{Content, Node, Op};
use yamd::op::to_yamd::to_yamd;

#[test]
fn single_paragraph() {
    let input = "hello world";
    let ops = parse(input);
    let result = to_yamd(&ops, input);
    assert_eq!(
        result,
        Yamd::new(
            None,
            vec![YamdNodes::Paragraph(Paragraph::new(vec![ParagraphNodes::Text(String::from("hello world"))]))]
        )
    );
}

#[test]
fn heading_with_anchor() {
    let input = "## heading [a](u) text";
    let ops = parse(input);
    let result = to_yamd(&ops, input);
    assert_eq!(
        result,
        Yamd::new(
            None,
            vec![
                YamdNodes::Heading(Heading::new(
                    2,
                    vec![
                        HeadingNodes::Text(String::from("heading ")),
                        HeadingNodes::Anchor(Anchor::new("a", "u")),
                        HeadingNodes::Text(String::from(" text")),
                    ]
                ))
            ]
        )
    );
}

#[test]
fn bold_with_nested() {
    let input = "**~~happy~~ _path_**";
    let ops = parse(input);
    let result = to_yamd(&ops, input);
    assert_eq!(
        result,
        Yamd::new(
            None,
            vec![
                YamdNodes::Paragraph(Paragraph::new(vec![ParagraphNodes::Bold(Bold::new(vec![
                    BoldNodes::Strikethrough(Strikethrough::new("happy")),
                    BoldNodes::Text(String::from(" ")),
                    BoldNodes::Italic(Italic::new("path")),
                ]))]))
            ]
        )
    );
}

#[test]
fn code_block() {
    let input = "```rust\nlet a=1;\n```";
    let ops = parse(input);
    let result = to_yamd(&ops, input);
    assert_eq!(
        result,
        Yamd::new(None, vec![YamdNodes::Code(Code::new("rust", "let a=1;"))])
    );
}

#[test]
fn single_image() {
    let input = "![alt](src)";
    let ops = parse(input);
    let result = to_yamd(&ops, input);
    assert_eq!(
        result,
        Yamd::new(None, vec![YamdNodes::Image(Image::new("alt", "src"))])
    );
}

#[test]
fn multiple_images() {
    let input = "![a](u)\n![a2](u2)";
    let ops = parse(input);
    let result = to_yamd(&ops, input);
    assert_eq!(
        result,
        Yamd::new(
            None,
            vec![YamdNodes::Images(Images::new(vec![Image::new("a", "u"), Image::new("a2", "u2")]))]
        )
    );
}

#[test]
fn highlight_with_icon() {
    let input = "!! Title\n! Icon\ntext\n!!";
    let ops = parse(input);
    let result = to_yamd(&ops, input);
    assert_eq!(
        result,
        Yamd::new(
            None,
            vec![
                YamdNodes::Highlight(Highlight::new(
                    Some("Title"),
                    Some("Icon"),
                    vec![Paragraph::new(vec![ParagraphNodes::Text(String::from("text"))])]
                ))
            ]
        )
    );
}

#[test]
fn unordered_list_nested() {
    let input = "- one\n - two";
    let ops = parse(input);
    let result = to_yamd(&ops, input);
    assert_eq!(
        result,
        Yamd::new(
            None,
            vec![
                YamdNodes::List(List::new(
                    ListTypes::Unordered,
                    0,
                    vec![ListItem::new(
                        vec![ParagraphNodes::Text(String::from("one"))],
                        Some(List::new(
                            ListTypes::Unordered,
                            1,
                            vec![ListItem::new(vec![ParagraphNodes::Text(String::from("two"))], None)]
                        ))
                    )]
                ))
            ]
        )
    );
}

#[test]
fn three_level_nested_list() {
    let input = "- L0\n - L1\n  - L2";
    let ops = parse(input);
    let result = to_yamd(&ops, input);
    assert_eq!(
        result,
        Yamd::new(
            None,
            vec![
                YamdNodes::List(List::new(
                    ListTypes::Unordered,
                    0,
                    vec![ListItem::new(
                        vec![ParagraphNodes::Text(String::from("L0"))],
                        Some(List::new(
                            ListTypes::Unordered,
                            1,
                            vec![ListItem::new(
                                vec![ParagraphNodes::Text(String::from("L1"))],
                                Some(List::new(
                                    ListTypes::Unordered,
                                    2,
                                    vec![ListItem::new(vec![ParagraphNodes::Text(String::from("L2"))], None,)]
                                ))
                            )]
                        ))
                    )]
                ))
            ]
        )
    );
}

#[test]
fn embed_node() {
    let input = "{{youtube|123}}";
    let ops = parse(input);
    let result = to_yamd(&ops, input);
    assert_eq!(
        result,
        Yamd::new(None, vec![YamdNodes::Embed(Embed::new("youtube", "123"))])
    );
}

#[test]
fn collapsible_empty() {
    let input = "{% collapsible\n\n%}";
    let ops = parse(input);
    let result = to_yamd(&ops, input);
    assert_eq!(
        result,
        Yamd::new(None, vec![YamdNodes::Collapsible(Collapsible::new("collapsible", vec![]))])
    );
}

#[test]
fn thematic_break() {
    let input = "-----";
    let ops = parse(input);
    let result = to_yamd(&ops, input);
    assert_eq!(result, Yamd::new(None, vec![YamdNodes::ThematicBreak(ThematicBreak::new())]));
}

#[test]
fn metadata_test() {
    let input = "---\ntitle: test\n---\n\nhello";
    let ops = parse(input);
    let result = to_yamd(&ops, input);
    assert_eq!(
        result,
        Yamd::new(
            Some(String::from("title: test")),
            vec![YamdNodes::Paragraph(Paragraph::new(vec![ParagraphNodes::Text(String::from("hello"))]))]
        )
    );
}

#[test]
fn code_span_and_emphasis() {
    let input = "`code` *em*";
    let ops = parse(input);
    let result = to_yamd(&ops, input);
    assert_eq!(
        result,
        Yamd::new(
            None,
            vec![
                YamdNodes::Paragraph(Paragraph::new(vec![
                    ParagraphNodes::CodeSpan(CodeSpan::new("code")),
                    ParagraphNodes::Text(String::from(" ")),
                    ParagraphNodes::Emphasis(Emphasis::new("em")),
                ]))
            ]
        )
    );
}

#[test]
fn full_document() {
    let input = r#"---
title: test
date: 2022-01-01T00:00:00+02:00
image: image
preview: preview
tags:
- tag1
- tag2
---

# hello

```rust
let a=1;
```

t**b**

![a](u)

![a](u)
![a2](u2)

!! H
! I
~~s~~

_I_
!!

-----

- one
 - two

+ first
 + second

{{youtube|123}}

{{cloudinary_gallery|cloud_name&tag}}

{% collapsible

%}

{% one more collapsible

%}

+

-

![](

```

end"#;
    let ops = parse(input);
    let result = to_yamd(&ops, input);
    assert_eq!(
        result,
        Yamd::new(
            Some(String::from(
                "title: test\ndate: 2022-01-01T00:00:00+02:00\nimage: image\npreview: preview\ntags:\n- tag1\n- tag2"
            )),
            vec![
                YamdNodes::Heading(Heading::new(1, vec![HeadingNodes::Text(String::from("hello"))])),
                YamdNodes::Code(Code::new("rust", "let a=1;")),
                YamdNodes::Paragraph(Paragraph::new(vec![
                    ParagraphNodes::Text(String::from("t")),
                    ParagraphNodes::Bold(Bold::new(vec![BoldNodes::Text(String::from("b"))]))
                ])),
                YamdNodes::Image(Image::new("a", "u")),
                YamdNodes::Images(Images::new(vec![Image::new("a", "u"), Image::new("a2", "u2")])),
                YamdNodes::Highlight(Highlight::new(
                    Some("H"),
                    Some("I"),
                    vec![
                        Paragraph::new(vec![ParagraphNodes::Strikethrough(
                            Strikethrough::new("s")
                        )]),
                        Paragraph::new(vec![ParagraphNodes::Italic(Italic::new("I"))])
                    ]
                )),
                YamdNodes::ThematicBreak(ThematicBreak::new()),
                YamdNodes::List(List::new(
                    ListTypes::Unordered,
                    0,
                    vec![ListItem::new(
                        vec![ParagraphNodes::Text(String::from("one"))],
                        Some(List::new(
                            ListTypes::Unordered,
                            1,
                            vec![ListItem::new(vec![ParagraphNodes::Text(String::from("two"))], None)]
                        ))
                    )]
                )),
                YamdNodes::List(List::new(
                    ListTypes::Ordered,
                    0,
                    vec![ListItem::new(
                        vec![ParagraphNodes::Text(String::from("first"))],
                        Some(List::new(
                            ListTypes::Ordered,
                            1,
                            vec![ListItem::new(vec![ParagraphNodes::Text(String::from("second"))], None)]
                        ))
                    )]
                )),
                YamdNodes::Embed(Embed::new("youtube", "123")),
                YamdNodes::Embed(Embed::new("cloudinary_gallery", "cloud_name&tag")),
                YamdNodes::Collapsible(Collapsible::new("collapsible", vec![])),
                YamdNodes::Collapsible(Collapsible::new("one more collapsible", vec![])),
                YamdNodes::Paragraph(Paragraph::new(vec![ParagraphNodes::Text(String::from("+"))])),
                YamdNodes::Paragraph(Paragraph::new(vec![ParagraphNodes::Text(String::from("-"))])),
                YamdNodes::Paragraph(Paragraph::new(vec![ParagraphNodes::Text(String::from("![]("))])),
                YamdNodes::Paragraph(Paragraph::new(vec![ParagraphNodes::Text(String::from("```"))])),
                YamdNodes::Paragraph(Paragraph::new(vec![ParagraphNodes::Text(String::from("end"))]))
            ]
        ),
    );
}

#[test]
fn to_yamd_multiple_fallbacks_in_a_row() {
    let input = "1\n\n2\n\n3";
    let ops = parse(input);
    let result = to_yamd(&ops, input);
    assert_eq!(
        result,
        Yamd::new(
            None,
            vec![
                YamdNodes::Paragraph(Paragraph::new(vec![ParagraphNodes::Text(String::from("1"))])),
                YamdNodes::Paragraph(Paragraph::new(vec![ParagraphNodes::Text(String::from("2"))])),
                YamdNodes::Paragraph(Paragraph::new(vec![ParagraphNodes::Text(String::from("3"))])),
            ]
        )
    );
}

#[test]
fn multiple_fallbacks_before_non_fallback() {
    let input = "1\n\n2\n\n3\n\n# header";
    let ops = parse(input);
    let result = to_yamd(&ops, input);
    assert_eq!(
        result,
        Yamd::new(
            None,
            vec![
                YamdNodes::Paragraph(Paragraph::new(vec![ParagraphNodes::Text(String::from("1"))])),
                YamdNodes::Paragraph(Paragraph::new(vec![ParagraphNodes::Text(String::from("2"))])),
                YamdNodes::Paragraph(Paragraph::new(vec![ParagraphNodes::Text(String::from("3"))])),
                YamdNodes::Heading(Heading::new(1, vec![HeadingNodes::Text(String::from("header"))])),
            ]
        )
    );
}

#[test]
fn to_yamd_node_should_start_from_delimiter() {
    let input = "text - text";
    let ops = parse(input);
    let result = to_yamd(&ops, input);
    assert_eq!(
        result,
        Yamd::new(
            None,
            vec![YamdNodes::Paragraph(Paragraph::new(vec![ParagraphNodes::Text(String::from("text - text"))]))]
        )
    );
}

#[test]
fn collapsible_with_body() {
    let input = "{% title\n\nparagraph text\n\n%}";
    let ops = parse(input);
    let result = to_yamd(&ops, input);
    assert_eq!(
        result,
        Yamd::new(
            None,
            vec![
                YamdNodes::Collapsible(Collapsible::new(
                    "title",
                    vec![YamdNodes::Paragraph(Paragraph::new(vec![ParagraphNodes::Text(String::from("paragraph text"))]))]
                ))
            ]
        )
    );
}

#[test]
fn ordered_list_nested() {
    let input = "+ one\n + two";
    let ops = parse(input);
    let result = to_yamd(&ops, input);
    assert_eq!(
        result,
        Yamd::new(
            None,
            vec![
                YamdNodes::List(List::new(
                    ListTypes::Ordered,
                    0,
                    vec![ListItem::new(
                        vec![ParagraphNodes::Text(String::from("one"))],
                        Some(List::new(
                            ListTypes::Ordered,
                            1,
                            vec![ListItem::new(vec![ParagraphNodes::Text(String::from("two"))], None)]
                        ))
                    )]
                ))
            ]
        )
    );
}

#[test]
fn strikethrough_in_bold() {
    let input = "**~~text~~**";
    let ops = parse(input);
    let result = to_yamd(&ops, input);
    assert_eq!(
        result,
        Yamd::new(
            None,
            vec![
                YamdNodes::Paragraph(Paragraph::new(vec![ParagraphNodes::Bold(Bold::new(vec![
                    BoldNodes::Strikethrough(Strikethrough::new("text"))
                ]))]))
            ]
        )
    );
}

#[test]
fn italic_in_bold() {
    let input = "**_text_**";
    let ops = parse(input);
    let result = to_yamd(&ops, input);
    assert_eq!(
        result,
        Yamd::new(
            None,
            vec![
                YamdNodes::Paragraph(Paragraph::new(vec![ParagraphNodes::Bold(Bold::new(vec![
                    BoldNodes::Italic(Italic::new("text"))
                ]))]))
            ]
        )
    );
}

#[test]
fn highlight_without_icon() {
    let input = "!! Title\ntext\n!!";
    let ops = parse(input);
    let result = to_yamd(&ops, input);
    assert_eq!(
        result,
        Yamd::new(
            None,
            vec![
                YamdNodes::Highlight(Highlight::new(
                    Some("Title"),
                    None,
                    vec![Paragraph::new(vec![ParagraphNodes::Text(String::from("text"))])]
                ))
            ]
        )
    );
}

#[test]
fn empty_input() {
    let input = "";
    let ops = parse(input);
    let result = to_yamd(&ops, input);
    assert_eq!(result, Yamd::new(None, vec![]));
}

#[test]
fn utf8_content() {
    let input = "## 🤔\n\n[link 😉](url)";
    let ops = parse(input);
    let result = to_yamd(&ops, input);
    assert_eq!(
        result,
        Yamd::new(
            None,
            vec![
                YamdNodes::Heading(Heading::new(2, vec![HeadingNodes::Text(String::from("🤔"))])),
                YamdNodes::Paragraph(Paragraph::new(vec![ParagraphNodes::Anchor(Anchor::new("link 😉", "url"))]))
            ]
        )
    );
}

#[test]
fn deserialize_heading_and_paragraph() {
    let yamd = yamd::op::to_yamd::deserialize("# hello\n\nworld");
    assert_eq!(yamd.body.len(), 2);
    assert_eq!(
        yamd,
        Yamd::new(
            None,
            vec![
                YamdNodes::Heading(Heading::new(1, vec![HeadingNodes::Text(String::from("hello"))])),
                YamdNodes::Paragraph(Paragraph::new(vec![ParagraphNodes::Text(String::from("world"))])),
            ]
        )
    );
}

#[test]
fn deserialize_utf8() {
    let input = "## 🤔\n\n[link 😉](url)";
    assert_eq!(yamd::op::to_yamd::deserialize(input), to_yamd(&parse(input), input));
}

#[test]
fn to_yamd_end_of_another_kind_drops_the_node() {
    let input = "ab";
    let ops = vec![
        Op::new_start(Node::Paragraph, Content::span(0..0)),
        Op::new_value(Content::span(0..2)),
        Op::new_end(Node::Bold, Content::span(2..2)),
    ];
    assert_eq!(to_yamd(&ops, input), Yamd::new(None, vec![]));
}

#[test]
fn to_yamd_matching_end_keeps_the_node() {
    let input = "ab";
    let ops = vec![
        Op::new_start(Node::Paragraph, Content::span(0..0)),
        Op::new_value(Content::span(0..2)),
        Op::new_end(Node::Paragraph, Content::span(2..2)),
    ];
    assert_eq!(
        to_yamd(&ops, input),
        Yamd::new(
            None,
            vec![YamdNodes::Paragraph(Paragraph::new(vec![ParagraphNodes::Text(String::from("ab"))]))]
        )
    );
}
