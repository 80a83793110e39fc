//! The document tree: a YAMD document as nested nodes. Each type has a mathematical value (the
//! type of the same name ending in `V`), with strings as character sequences and vectors as
//! sequences.
use vstd::prelude::*;

verus! {

/// A link: its text and its URL.
#[derive(Debug, PartialEq)]
pub struct Anchor {
    pub text: String,
    pub url: String,
}

/// Italic text.
#[derive(Debug, PartialEq)]
pub struct Italic {
    pub text: String,
}

/// Struck-through text.
#[derive(Debug, PartialEq)]
pub struct Strikethrough {
    pub text: String,
}

/// Inline code.
#[derive(Debug, PartialEq)]
pub struct CodeSpan {
    pub text: String,
}

/// Emphasised text.
#[derive(Debug, PartialEq)]
pub struct Emphasis {
    pub text: String,
}

/// What bold text holds.
#[derive(Debug, PartialEq)]
pub enum BoldNodes {
    Italic(Italic),
    Strikethrough(Strikethrough),
    Text(String),
}

/// Bold text.
#[derive(Debug, PartialEq)]
pub struct Bold {
    pub body: Vec<BoldNodes>,
}

/// What a paragraph holds.
#[derive(Debug, PartialEq)]
pub enum ParagraphNodes {
    Anchor(Anchor),
    Bold(Bold),
    Italic(Italic),
    Strikethrough(Strikethrough),
    Text(String),
    CodeSpan(CodeSpan),
    Emphasis(Emphasis),
}

/// A paragraph.
#[derive(Debug, PartialEq)]
pub struct Paragraph {
    pub body: Vec<ParagraphNodes>,
}

/// What a heading holds.
#[derive(Debug, PartialEq)]
pub enum HeadingNodes {
    Text(String),
    Anchor(Anchor),
}

/// A heading: its level (the number of `#`) and what it holds.
#[derive(Debug, PartialEq)]
pub struct Heading {
    pub level: u8,
    pub body: Vec<HeadingNodes>,
}

/// An image: its alternative text and its source.
#[derive(Debug, PartialEq)]
pub struct Image {
    pub alt: String,
    pub src: String,
}

/// A gallery of images.
#[derive(Debug, PartialEq)]
pub struct Images {
    pub body: Vec<Image>,
}

/// A code block: its language and its code.
#[derive(Debug, PartialEq)]
pub struct Code {
    pub lang: String,
    pub code: String,
}

/// An embedded object: its kind and its arguments.
#[derive(Debug, PartialEq)]
pub struct Embed {
    pub kind: String,
    pub args: String,
}

/// A thematic break.
#[derive(Debug, PartialEq)]
pub struct ThematicBreak {}

/// A highlight block: an optional title and icon, and paragraphs.
#[derive(Debug, PartialEq)]
pub struct Highlight {
    pub title: Option<String>,
    pub icon: Option<String>,
    pub body: Vec<Paragraph>,
}

/// The kind of a list.
#[derive(Debug, PartialEq, Eq, Clone, Copy, Structural)]
pub enum ListTypes {
    Unordered,
    Ordered,
}

/// A list: its kind, its nesting level and its items.
#[derive(Debug, PartialEq)]
pub struct List {
    pub list_type: ListTypes,
    pub level: usize,
    pub body: Vec<ListItem>,
}

/// A list item: its text and the list nested in it, if any.
#[derive(Debug, PartialEq)]
pub struct ListItem {
    pub text: Vec<ParagraphNodes>,
    pub nested_list: Option<List>,
}

/// A collapsible block: its title and the document it holds.
#[derive(Debug, PartialEq)]
pub struct Collapsible {
    pub title: String,
    pub body: Vec<YamdNodes>,
}

/// A block of a document.
#[derive(Debug, PartialEq)]
pub enum YamdNodes {
    Paragraph(Paragraph),
    Heading(Heading),
    Image(Image),
    Images(Images),
    Code(Code),
    List(List),
    ThematicBreak(ThematicBreak),
    Embed(Embed),
    Highlight(Highlight),
    Collapsible(Collapsible),
}

/// A document: its metadata, if any, and its blocks.
#[derive(Debug, PartialEq)]
pub struct Yamd {
    pub metadata: Option<String>,
    pub body: Vec<YamdNodes>,
}

impl Anchor {
    /// A link with text `text` and URL `url`.
    pub fn new(text: &str, url: &str) -> (r: Anchor)
        ensures
            r.text@ == text@,
            r.url@ == url@,
    {
        Anchor { text: String::from_str(text), url: String::from_str(url) }
    }
}

impl Italic {
    /// Italic text `text`.
    pub fn new(text: &str) -> (r: Italic)
        ensures
            r.text@ == text@,
    {
        Italic { text: String::from_str(text) }
    }
}

impl Strikethrough {
    /// Struck-through text `text`.
    pub fn new(text: &str) -> (r: Strikethrough)
        ensures
            r.text@ == text@,
    {
        Strikethrough { text: String::from_str(text) }
    }
}

impl CodeSpan {
    /// Inline code `text`.
    pub fn new(text: &str) -> (r: CodeSpan)
        ensures
            r.text@ == text@,
    {
        CodeSpan { text: String::from_str(text) }
    }
}

impl Emphasis {
    /// Emphasised text `text`.
    pub fn new(text: &str) -> (r: Emphasis)
        ensures
            r.text@ == text@,
    {
        Emphasis { text: String::from_str(text) }
    }
}

impl Bold {
    /// Bold text holding `body`.
    pub fn new(body: Vec<BoldNodes>) -> (r: Bold)
        ensures
            r.body == body,
    {
        Bold { body }
    }
}

impl Paragraph {
    /// A paragraph holding `body`.
    pub fn new(body: Vec<ParagraphNodes>) -> (r: Paragraph)
        ensures
            r.body == body,
    {
        Paragraph { body }
    }
}

impl Heading {
    /// A heading of level `level` holding `body`.
    pub fn new(level: u8, body: Vec<HeadingNodes>) -> (r: Heading)
        ensures
            r.level == level,
            r.body == body,
    {
        Heading { level, body }
    }
}

impl Image {
    /// An image with alternative text `alt` and source `src`.
    pub fn new(alt: &str, src: &str) -> (r: Image)
        ensures
            r.alt@ == alt@,
            r.src@ == src@,
    {
        Image { alt: String::from_str(alt), src: String::from_str(src) }
    }
}

impl Images {
    /// A gallery of the images `body`.
    pub fn new(body: Vec<Image>) -> (r: Images)
        ensures
            r.body == body,
    {
        Images { body }
    }
}

impl Code {
    /// A code block in language `lang` holding `code`.
    pub fn new(lang: &str, code: &str) -> (r: Code)
        ensures
            r.lang@ == lang@,
            r.code@ == code@,
    {
        Code { lang: String::from_str(lang), code: String::from_str(code) }
    }
}

impl Embed {
    /// An embedded object of kind `kind` with arguments `args`.
    pub fn new(kind: &str, args: &str) -> (r: Embed)
        ensures
            r.kind@ == kind@,
            r.args@ == args@,
    {
        Embed { kind: String::from_str(kind), args: String::from_str(args) }
    }
}

impl ThematicBreak {
    /// A thematic break.
    pub fn new() -> (r: ThematicBreak) {
        ThematicBreak {  }
    }
}

impl Highlight {
    /// A highlight block with the title and icon given, holding the paragraphs `body`.
    pub fn new(title: Option<&str>, icon: Option<&str>, body: Vec<Paragraph>) -> (r: Highlight)
        ensures
            opt_str_v(r.title) == (match title {
                Some(t) => Some(t@),
                None => None::<Seq<char>>,
            }),
            opt_str_v(r.icon) == (match icon {
                Some(t) => Some(t@),
                None => None::<Seq<char>>,
            }),
            r.body == body,
    {
        let title = match title {
            Some(t) => Some(String::from_str(t)),
            None => None,
        };
        let icon = match icon {
            Some(t) => Some(String::from_str(t)),
            None => None,
        };
        Highlight { title, icon, body }
    }
}

impl List {
    /// A list of kind `list_type` at nesting level `level` holding the items `body`.
    pub fn new(list_type: ListTypes, level: usize, body: Vec<ListItem>) -> (r: List)
        ensures
            r.list_type == list_type,
            r.level == level,
            r.body == body,
    {
        List { list_type, level, body }
    }
}

impl ListItem {
    /// A list item with text `text` and the nested list `nested_list`.
    pub fn new(text: Vec<ParagraphNodes>, nested_list: Option<List>) -> (r: ListItem)
        ensures
            r.text == text,
            r.nested_list == nested_list,
    {
        ListItem { text, nested_list }
    }
}

impl Collapsible {
    /// A collapsible block titled `title` holding the blocks `body`.
    pub fn new(title: &str, body: Vec<YamdNodes>) -> (r: Collapsible)
        ensures
            r.title@ == title@,
            r.body == body,
    {
        Collapsible { title: String::from_str(title), body }
    }
}

impl Yamd {
    /// A document with metadata `metadata` and the blocks `body`.
    pub fn new(metadata: Option<String>, body: Vec<YamdNodes>) -> (r: Yamd)
        ensures
            r.metadata == metadata,
            r.body == body,
    {
        Yamd { metadata, body }
    }
}

// ---- values ----

/// The value of what bold text holds.
pub enum BoldNodesV {
    Italic(Seq<char>),
    Strikethrough(Seq<char>),
    Text(Seq<char>),
}

/// The value of what a paragraph holds.
pub enum ParagraphNodesV {
    Anchor(Seq<char>, Seq<char>),
    Bold(Seq<BoldNodesV>),
    Italic(Seq<char>),
    Strikethrough(Seq<char>),
    Text(Seq<char>),
    CodeSpan(Seq<char>),
    Emphasis(Seq<char>),
}

/// The value of what a heading holds.
pub enum HeadingNodesV {
    Text(Seq<char>),
    Anchor(Seq<char>, Seq<char>),
}

/// The value of a list: its kind, its level and its items.
pub struct ListV {
    pub list_type: ListTypes,
    pub level: usize,
    pub body: Seq<ListItemV>,
}

/// The value of a list item.
pub struct ListItemV {
    pub text: Seq<ParagraphNodesV>,
    pub nested_list: Option<ListV>,
}

/// The value of a block of a document.
pub enum YamdNodesV {
    Paragraph(Seq<ParagraphNodesV>),
    Heading(u8, Seq<HeadingNodesV>),
    Image(Seq<char>, Seq<char>),
    Images(Seq<(Seq<char>, Seq<char>)>),
    Code(Seq<char>, Seq<char>),
    List(ListV),
    ThematicBreak,
    Embed(Seq<char>, Seq<char>),
    Highlight(Option<Seq<char>>, Option<Seq<char>>, Seq<Seq<ParagraphNodesV>>),
    Collapsible(Seq<char>, Seq<YamdNodesV>),
}

/// The value of a document.
pub struct YamdV {
    pub metadata: Option<Seq<char>>,
    pub body: Seq<YamdNodesV>,
}

pub open spec fn opt_str_v(s: Option<String>) -> Option<Seq<char>> {
    match s {
        Some(t) => Some(t@),
        None => None,
    }
}

pub open spec fn bold_node_v(n: BoldNodes) -> BoldNodesV {
    match n {
        BoldNodes::Italic(i) => BoldNodesV::Italic(i.text@),
        BoldNodes::Strikethrough(s) => BoldNodesV::Strikethrough(s.text@),
        BoldNodes::Text(t) => BoldNodesV::Text(t@),
    }
}

pub open spec fn bold_nodes_v(s: Seq<BoldNodes>) -> Seq<BoldNodesV> {
    s.map_values(|n: BoldNodes| bold_node_v(n))
}

pub open spec fn paragraph_node_v(n: ParagraphNodes) -> ParagraphNodesV {
    match n {
        ParagraphNodes::Anchor(a) => ParagraphNodesV::Anchor(a.text@, a.url@),
        ParagraphNodes::Bold(b) => ParagraphNodesV::Bold(bold_nodes_v(b.body@)),
        ParagraphNodes::Italic(i) => ParagraphNodesV::Italic(i.text@),
        ParagraphNodes::Strikethrough(s) => ParagraphNodesV::Strikethrough(s.text@),
        ParagraphNodes::Text(t) => ParagraphNodesV::Text(t@),
        ParagraphNodes::CodeSpan(c) => ParagraphNodesV::CodeSpan(c.text@),
        ParagraphNodes::Emphasis(e) => ParagraphNodesV::Emphasis(e.text@),
    }
}

pub open spec fn paragraph_nodes_v(s: Seq<ParagraphNodes>) -> Seq<ParagraphNodesV> {
    s.map_values(|n: ParagraphNodes| paragraph_node_v(n))
}

pub open spec fn paragraphs_v(s: Seq<Paragraph>) -> Seq<Seq<ParagraphNodesV>> {
    s.map_values(|p: Paragraph| paragraph_nodes_v(p.body@))
}

pub open spec fn heading_node_v(n: HeadingNodes) -> HeadingNodesV {
    match n {
        HeadingNodes::Text(t) => HeadingNodesV::Text(t@),
        HeadingNodes::Anchor(a) => HeadingNodesV::Anchor(a.text@, a.url@),
    }
}

pub open spec fn heading_nodes_v(s: Seq<HeadingNodes>) -> Seq<HeadingNodesV> {
    s.map_values(|n: HeadingNodes| heading_node_v(n))
}

pub open spec fn images_v(s: Seq<Image>) -> Seq<(Seq<char>, Seq<char>)> {
    s.map_values(|i: Image| (i.alt@, i.src@))
}

pub open spec fn strs_v(s: Seq<String>) -> Seq<Seq<char>> {
    s.map_values(|t: String| t@)
}

pub open spec fn list_v(l: List) -> ListV
    decreases l,
{
    ListV { list_type: l.list_type, level: l.level, body: list_items_v(l.body@) }
}

pub open spec fn list_items_v(s: Seq<ListItem>) -> Seq<ListItemV>
    decreases s,
{
    if s.len() == 0 {
        Seq::empty()
    } else {
        list_items_v(s.drop_last()).push(list_item_v(s.last()))
    }
}

pub open spec fn list_item_v(i: ListItem) -> ListItemV
    decreases i,
{
    ListItemV {
        text: paragraph_nodes_v(i.text@),
        nested_list: match i.nested_list {
            Some(l) => Some(list_v(l)),
            None => None,
        },
    }
}

pub open spec fn yamd_node_v(n: YamdNodes) -> YamdNodesV
    decreases n,
{
    match n {
        YamdNodes::Paragraph(p) => YamdNodesV::Paragraph(paragraph_nodes_v(p.body@)),
        YamdNodes::Heading(h) => YamdNodesV::Heading(h.level, heading_nodes_v(h.body@)),
        YamdNodes::Image(i) => YamdNodesV::Image(i.alt@, i.src@),
        YamdNodes::Images(i) => YamdNodesV::Images(images_v(i.body@)),
        YamdNodes::Code(c) => YamdNodesV::Code(c.lang@, c.code@),
        YamdNodes::List(l) => YamdNodesV::List(list_v(l)),
        YamdNodes::ThematicBreak(_) => YamdNodesV::ThematicBreak,
        YamdNodes::Embed(e) => YamdNodesV::Embed(e.kind@, e.args@),
        YamdNodes::Highlight(h) => YamdNodesV::Highlight(
            opt_str_v(h.title),
            opt_str_v(h.icon),
            paragraphs_v(h.body@),
        ),
        YamdNodes::Collapsible(c) => YamdNodesV::Collapsible(c.title@, yamd_nodes_v(c.body@)),
    }
}

pub open spec fn yamd_nodes_v(s: Seq<YamdNodes>) -> Seq<YamdNodesV>
    decreases s,
{
    if s.len() == 0 {
        Seq::empty()
    } else {
        yamd_nodes_v(s.drop_last()).push(yamd_node_v(s.last()))
    }
}

pub open spec fn yamd_v(y: Yamd) -> YamdV {
    YamdV { metadata: opt_str_v(y.metadata), body: yamd_nodes_v(y.body@) }
}

/// Appending a block appends its value.
pub proof fn lemma_yamd_nodes_push(s: Seq<YamdNodes>, n: YamdNodes)
    ensures
        yamd_nodes_v(s.push(n)) == yamd_nodes_v(s).push(yamd_node_v(n)),
{
    assert(s.push(n).drop_last() =~= s);
}

/// Appending an item appends its value.
pub proof fn lemma_list_items_push(s: Seq<ListItem>, n: ListItem)
    ensures
        list_items_v(s.push(n)) == list_items_v(s).push(list_item_v(n)),
{
    assert(s.push(n).drop_last() =~= s);
}

/// Appending blocks appends their values.
pub proof fn lemma_yamd_nodes_concat(s: Seq<YamdNodes>, t: Seq<YamdNodes>)
    ensures
        yamd_nodes_v(s + t) == yamd_nodes_v(s) + yamd_nodes_v(t),
    decreases t.len(),
{
    if t.len() == 0 {
        assert(s + t =~= s);
    } else {
        lemma_yamd_nodes_concat(s, t.drop_last());
        assert((s + t).drop_last() =~= s + t.drop_last());
        assert((s + t).last() == t.last());
    }
}

} // verus!
