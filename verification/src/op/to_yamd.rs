//! Turning an operation stream into the document tree (see [`crate::nodes`]).
use crate::nodes::{
    Anchor,
    Italic,
    Strikethrough,
    CodeSpan,
    Emphasis,
    BoldNodes,
    Bold,
    ParagraphNodes,
    Paragraph,
    HeadingNodes,
    Heading,
    Image,
    Images,
    Code,
    Embed,
    ThematicBreak,
    Highlight,
    ListTypes,
    List,
    ListItem,
    Collapsible,
    YamdNodes,
    Yamd,
    BoldNodesV,
    ParagraphNodesV,
    HeadingNodesV,
    ListV,
    ListItemV,
    YamdNodesV,
    YamdV,
    opt_str_v,
    bold_node_v,
    bold_nodes_v,
    paragraph_node_v,
    paragraph_nodes_v,
    paragraphs_v,
    heading_node_v,
    heading_nodes_v,
    images_v,
    strs_v,
    list_v,
    list_items_v,
    yamd_node_v,
    yamd_nodes_v,
    yamd_v,
    lemma_yamd_nodes_push,
    lemma_list_items_push,
    lemma_yamd_nodes_concat,
};
use crate::op::laws::{keeps_root, law_balanced_keeps_root};
use crate::op::{span_fits, text_bytes, Content, Node, Op, OpKind};
use vstd::prelude::*;
use vstd::string::StringSliceAdditionalSpecFns;

verus! {

/// A node under construction: what has been gathered of it so far.
enum Frame {
    Yamd { metadata: Option<String>, body: Vec<YamdNodes> },
    Document { children: Vec<YamdNodes> },
    Heading { level: u8, body: Vec<HeadingNodes> },
    Paragraph { body: Vec<ParagraphNodes> },
    Bold { body: Vec<BoldNodes> },
    Italic { text: String },
    Strikethrough { text: String },
    CodeSpan { text: String },
    Emphasis { text: String },
    Anchor { text: String, url: String },
    Title { text: String },
    Destination { text: String },
    Image { alt: String, src: String },
    Images { images: Vec<Image> },
    Code { lang: String, code: String },
    Modifier { text: String },
    Embed { values: Vec<String> },
    ThematicBreak,
    Highlight { title: Option<String>, icon: Option<String>, paragraphs: Vec<Paragraph> },
    Icon { text: String },
    Collapsible { title: String, body: Vec<YamdNodes> },
    UnorderedList { level: usize, items: Vec<ListItem> },
    OrderedList { level: usize, items: Vec<ListItem> },
    ListItem { text: Vec<ParagraphNodes>, nested_list: Option<List> },
    Metadata { text: String },
}

/// The value of a node under construction.
pub enum FrameV {
    Yamd(Option<Seq<char>>, Seq<YamdNodesV>),
    Document(Seq<YamdNodesV>),
    Heading(u8, Seq<HeadingNodesV>),
    Paragraph(Seq<ParagraphNodesV>),
    Bold(Seq<BoldNodesV>),
    Italic(Seq<char>),
    Strikethrough(Seq<char>),
    CodeSpan(Seq<char>),
    Emphasis(Seq<char>),
    Anchor(Seq<char>, Seq<char>),
    Title(Seq<char>),
    Destination(Seq<char>),
    Image(Seq<char>, Seq<char>),
    Images(Seq<(Seq<char>, Seq<char>)>),
    Code(Seq<char>, Seq<char>),
    Modifier(Seq<char>),
    Embed(Seq<Seq<char>>),
    ThematicBreak,
    Highlight(Option<Seq<char>>, Option<Seq<char>>, Seq<Seq<ParagraphNodesV>>),
    Icon(Seq<char>),
    Collapsible(Seq<char>, Seq<YamdNodesV>),
    UnorderedList(usize, Seq<ListItemV>),
    OrderedList(usize, Seq<ListItemV>),
    ListItem(Seq<ParagraphNodesV>, Option<ListV>),
    Metadata(Seq<char>),
}

spec fn frame_v(f: Frame) -> FrameV {
    match f {
        Frame::Yamd { metadata, body } => FrameV::Yamd(opt_str_v(metadata), yamd_nodes_v(body@)),
        Frame::Document { children } => FrameV::Document(yamd_nodes_v(children@)),
        Frame::Heading { level, body } => FrameV::Heading(level, heading_nodes_v(body@)),
        Frame::Paragraph { body } => FrameV::Paragraph(paragraph_nodes_v(body@)),
        Frame::Bold { body } => FrameV::Bold(bold_nodes_v(body@)),
        Frame::Italic { text } => FrameV::Italic(text@),
        Frame::Strikethrough { text } => FrameV::Strikethrough(text@),
        Frame::CodeSpan { text } => FrameV::CodeSpan(text@),
        Frame::Emphasis { text } => FrameV::Emphasis(text@),
        Frame::Anchor { text, url } => FrameV::Anchor(text@, url@),
        Frame::Title { text } => FrameV::Title(text@),
        Frame::Destination { text } => FrameV::Destination(text@),
        Frame::Image { alt, src } => FrameV::Image(alt@, src@),
        Frame::Images { images } => FrameV::Images(images_v(images@)),
        Frame::Code { lang, code } => FrameV::Code(lang@, code@),
        Frame::Modifier { text } => FrameV::Modifier(text@),
        Frame::Embed { values } => FrameV::Embed(strs_v(values@)),
        Frame::ThematicBreak => FrameV::ThematicBreak,
        Frame::Highlight { title, icon, paragraphs } => FrameV::Highlight(
            opt_str_v(title),
            opt_str_v(icon),
            paragraphs_v(paragraphs@),
        ),
        Frame::Icon { text } => FrameV::Icon(text@),
        Frame::Collapsible { title, body } => FrameV::Collapsible(title@, yamd_nodes_v(body@)),
        Frame::UnorderedList { level, items } => FrameV::UnorderedList(level, list_items_v(items@)),
        Frame::OrderedList { level, items } => FrameV::OrderedList(level, list_items_v(items@)),
        Frame::ListItem { text, nested_list } => FrameV::ListItem(
            paragraph_nodes_v(text@),
            match nested_list {
                Some(l) => Some(list_v(l)),
                None => None,
            },
        ),
        Frame::Metadata { text } => FrameV::Metadata(text@),
    }
}

spec fn frames_v(s: Seq<Frame>) -> Seq<FrameV> {
    s.map_values(|f: Frame| frame_v(f))
}

proof fn lemma_frames_push(s: Seq<Frame>, f: Frame)
    ensures
        frames_v(s.push(f)) == frames_v(s).push(frame_v(f)),
{
    assert(frames_v(s.push(f)) =~= frames_v(s).push(frame_v(f)));
}

proof fn lemma_frames_pop(s: Seq<Frame>)
    requires
        s.len() > 0,
    ensures
        frames_v(s.drop_last()) == frames_v(s).drop_last(),
        frame_v(s.last()) == frames_v(s).last(),
{
    assert(frames_v(s.drop_last()) =~= frames_v(s).drop_last());
}

/// The text that an operation's content stands for in `source`.
pub open spec fn op_text(c: Content, source: Seq<u8>) -> Seq<char> {
    vstd::utf8::decode_utf8(text_bytes(c, source))
}

/// `s` with the ends of line at its end taken off.
pub open spec fn trim_end_nl(s: Seq<char>) -> Seq<char>
    decreases s.len(),
{
    if s.len() > 0 && s.last() == '\n' {
        trim_end_nl(s.drop_last())
    } else {
        s
    }
}

/// `s` with the ends of line at its start taken off.
pub open spec fn trim_start_nl(s: Seq<char>) -> Seq<char>
    decreases s.len(),
{
    if s.len() > 0 && s[0] == '\n' {
        trim_start_nl(s.drop_first())
    } else {
        s
    }
}

/// `s` with the ends of line at both ends taken off.
pub open spec fn trim_nl(s: Seq<char>) -> Seq<char> {
    trim_end_nl(trim_start_nl(s))
}

/// The number of `#` that `s` starts with.
pub open spec fn lead_hashes(s: Seq<char>) -> nat
    decreases s.len(),
{
    if s.len() > 0 && s[0] == '#' {
        1 + lead_hashes(s.drop_first())
    } else {
        0
    }
}

/// The number of lists under construction in `st`.
pub open spec fn count_lists(st: Seq<FrameV>) -> nat
    decreases st.len(),
{
    if st.len() == 0 {
        0
    } else {
        count_lists(st.drop_last()) + if st.last() is UnorderedList || st.last() is OrderedList {
            1nat
        } else {
            0nat
        }
    }
}

/// `st` with its top replaced by `f`.
pub open spec fn with_top(st: Seq<FrameV>, f: FrameV) -> Seq<FrameV> {
    st.drop_last().push(f)
}

/// Adds the block `n` to the document, collapsible block or document body on top of `st`.
pub open spec fn push_block(st: Seq<FrameV>, n: YamdNodesV) -> Seq<FrameV> {
    if st.len() == 0 {
        st
    } else {
        match st.last() {
            FrameV::Yamd(m, b) => with_top(st, FrameV::Yamd(m, b.push(n))),
            FrameV::Document(c) => with_top(st, FrameV::Document(c.push(n))),
            FrameV::Collapsible(t, b) => with_top(st, FrameV::Collapsible(t, b.push(n))),
            _ => st,
        }
    }
}

/// Adds `n` to the paragraph on top of `st`.
pub open spec fn push_inline(st: Seq<FrameV>, n: ParagraphNodesV) -> Seq<FrameV> {
    if st.len() > 0 && st.last() is Paragraph {
        with_top(st, FrameV::Paragraph(st.last()->Paragraph_0.push(n)))
    } else {
        st
    }
}

/// Hangs the list `l` into the list item on top of `st`, or adds it as a block.
pub open spec fn finish_list(st: Seq<FrameV>, l: ListV) -> Seq<FrameV> {
    if st.len() > 0 && st.last() is ListItem {
        with_top(st, FrameV::ListItem(st.last()->ListItem_0, Some(l)))
    } else {
        push_block(st, YamdNodesV::List(l))
    }
}

/// A paragraph's nodes with the ends of line at the end of its last text taken off, and that
/// text dropped where nothing else is left of it.
pub open spec fn trim_last_text(b: Seq<ParagraphNodesV>) -> Seq<ParagraphNodesV> {
    if b.len() > 0 && b.last() is Text {
        let t = trim_end_nl(b.last()->Text_0);
        if t.len() == 0 {
            b.drop_last()
        } else {
            b.drop_last().push(ParagraphNodesV::Text(t))
        }
    } else {
        b
    }
}

/// The node under construction that a Start of `node` opens; `text` is the Start's content.
pub open spec fn start_frame(st: Seq<FrameV>, node: Node, text: Seq<char>) -> FrameV {
    match node {
        Node::Heading => FrameV::Heading(lead_hashes(text) as u8, Seq::empty()),
        Node::UnorderedList => FrameV::UnorderedList(count_lists(st) as usize, Seq::empty()),
        Node::OrderedList => FrameV::OrderedList(count_lists(st) as usize, Seq::empty()),
        Node::Document => FrameV::Document(Seq::empty()),
        Node::Paragraph => FrameV::Paragraph(Seq::empty()),
        Node::Bold => FrameV::Bold(Seq::empty()),
        Node::Italic => FrameV::Italic(Seq::empty()),
        Node::Strikethrough => FrameV::Strikethrough(Seq::empty()),
        Node::CodeSpan => FrameV::CodeSpan(Seq::empty()),
        Node::Emphasis => FrameV::Emphasis(Seq::empty()),
        Node::Anchor => FrameV::Anchor(Seq::empty(), Seq::empty()),
        Node::Title => FrameV::Title(Seq::empty()),
        Node::Destination => FrameV::Destination(Seq::empty()),
        Node::Image => FrameV::Image(Seq::empty(), Seq::empty()),
        Node::Images => FrameV::Images(Seq::empty()),
        Node::Code => FrameV::Code(Seq::empty(), Seq::empty()),
        Node::Modifier => FrameV::Modifier(Seq::empty()),
        Node::Embed => FrameV::Embed(Seq::empty()),
        Node::ThematicBreak => FrameV::ThematicBreak,
        Node::Highlight => FrameV::Highlight(None, None, Seq::empty()),
        Node::Icon => FrameV::Icon(Seq::empty()),
        Node::Collapsible => FrameV::Collapsible(Seq::empty(), Seq::empty()),
        Node::ListItem => FrameV::ListItem(Seq::empty(), None),
        Node::Metadata => FrameV::Metadata(Seq::empty()),
    }
}

/// A Value with text `text`: it goes into the node under construction on top of `st`.
pub open spec fn value_step(st: Seq<FrameV>, text: Seq<char>) -> Seq<FrameV> {
    if st.len() == 0 {
        st
    } else {
        match st.last() {
            FrameV::Heading(l, b) => with_top(st, FrameV::Heading(l, b.push(HeadingNodesV::Text(text)))),
            FrameV::Paragraph(b) => with_top(st, FrameV::Paragraph(b.push(ParagraphNodesV::Text(text)))),
            FrameV::Bold(b) => with_top(st, FrameV::Bold(b.push(BoldNodesV::Text(text)))),
            FrameV::Italic(t) => with_top(st, FrameV::Italic(t + text)),
            FrameV::Strikethrough(t) => with_top(st, FrameV::Strikethrough(t + text)),
            FrameV::CodeSpan(t) => with_top(st, FrameV::CodeSpan(t + text)),
            FrameV::Emphasis(t) => with_top(st, FrameV::Emphasis(t + text)),
            FrameV::Title(t) => with_top(st, FrameV::Title(t + text)),
            FrameV::Destination(t) => with_top(st, FrameV::Destination(t + text)),
            FrameV::Modifier(t) => with_top(st, FrameV::Modifier(t + text)),
            FrameV::Icon(t) => with_top(st, FrameV::Icon(t + text)),
            FrameV::Code(l, c) => with_top(st, FrameV::Code(l, c + text)),
            FrameV::Embed(v) => with_top(st, FrameV::Embed(v.push(text))),
            FrameV::Metadata(t) => with_top(st, FrameV::Metadata(t + text)),
            _ => st,
        }
    }
}

/// An End of `node`: the node under construction on top of `st` is finished, and what it
/// makes goes into the one below it.
pub open spec fn end_step(st: Seq<FrameV>, node: Node) -> Seq<FrameV> {
    if st.len() == 0 {
        st
    } else {
        let r = st.drop_last();
        let top = r.last();
        let has = r.len() > 0;
        match (node, st.last()) {
            (Node::Document, FrameV::Document(c)) => if has && top is Collapsible {
                with_top(r, FrameV::Collapsible(top->Collapsible_0, c))
            } else if has && top is Yamd {
                with_top(r, FrameV::Yamd(top->Yamd_0, top->Yamd_1 + c))
            } else {
                r
            },
            (Node::Metadata, FrameV::Metadata(t)) => if has && top is Yamd {
                with_top(r, FrameV::Yamd(Some(trim_nl(t)), top->Yamd_1))
            } else {
                r
            },
            (Node::Heading, FrameV::Heading(l, b)) => push_block(r, YamdNodesV::Heading(l, b)),
            (Node::Paragraph, FrameV::Paragraph(b)) => if has && top is Highlight {
                with_top(r, FrameV::Highlight(top->Highlight_0, top->Highlight_1, top->Highlight_2.push(trim_last_text(b))))
            } else if has && top is ListItem {
                with_top(r, FrameV::ListItem(trim_last_text(b), top->ListItem_1))
            } else {
                push_block(r, YamdNodesV::Paragraph(b))
            },
            (Node::Bold, FrameV::Bold(b)) => push_inline(r, ParagraphNodesV::Bold(b)),
            (Node::Italic, FrameV::Italic(t)) => if has && top is Paragraph {
                with_top(r, FrameV::Paragraph(top->Paragraph_0.push(ParagraphNodesV::Italic(t))))
            } else if has && top is Bold {
                with_top(r, FrameV::Bold(top->Bold_0.push(BoldNodesV::Italic(t))))
            } else {
                r
            },
            (Node::Strikethrough, FrameV::Strikethrough(t)) => if has && top is Paragraph {
                with_top(r, FrameV::Paragraph(top->Paragraph_0.push(ParagraphNodesV::Strikethrough(t))))
            } else if has && top is Bold {
                with_top(r, FrameV::Bold(top->Bold_0.push(BoldNodesV::Strikethrough(t))))
            } else {
                r
            },
            (Node::CodeSpan, FrameV::CodeSpan(t)) => push_inline(r, ParagraphNodesV::CodeSpan(t)),
            (Node::Emphasis, FrameV::Emphasis(t)) => push_inline(r, ParagraphNodesV::Emphasis(t)),
            (Node::Title, FrameV::Title(t)) => if has && top is Anchor {
                with_top(r, FrameV::Anchor(t, top->Anchor_1))
            } else if has && top is Image {
                with_top(r, FrameV::Image(t, top->Image_1))
            } else {
                r
            },
            (Node::Destination, FrameV::Destination(t)) => if has && top is Anchor {
                with_top(r, FrameV::Anchor(top->Anchor_0, t))
            } else if has && top is Image {
                with_top(r, FrameV::Image(top->Image_0, t))
            } else {
                r
            },
            (Node::Anchor, FrameV::Anchor(t, u)) => if has && top is Paragraph {
                with_top(r, FrameV::Paragraph(top->Paragraph_0.push(ParagraphNodesV::Anchor(t, u))))
            } else if has && top is Heading {
                with_top(r, FrameV::Heading(top->Heading_0, top->Heading_1.push(HeadingNodesV::Anchor(t, u))))
            } else {
                r
            },
            (Node::Image, FrameV::Image(a, s)) => if has && top is Images {
                with_top(r, FrameV::Images(top->Images_0.push((a, s))))
            } else {
                push_block(r, YamdNodesV::Image(a, s))
            },
            (Node::Images, FrameV::Images(is)) => if is.len() == 1 {
                push_block(r, YamdNodesV::Image(is[0].0, is[0].1))
            } else {
                push_block(r, YamdNodesV::Images(is))
            },
            (Node::Code, FrameV::Code(l, c)) => push_block(r, YamdNodesV::Code(l, trim_end_nl(c))),
            (Node::Modifier, FrameV::Modifier(t)) => if has && top is Code {
                with_top(r, FrameV::Code(t, top->Code_1))
            } else if has && top is Highlight {
                with_top(r, FrameV::Highlight(Some(t), top->Highlight_1, top->Highlight_2))
            } else if has && top is Collapsible {
                with_top(r, FrameV::Collapsible(t, top->Collapsible_1))
            } else {
                r
            },
            (Node::Icon, FrameV::Icon(t)) => if has && top is Highlight {
                with_top(r, FrameV::Highlight(top->Highlight_0, Some(t), top->Highlight_2))
            } else {
                r
            },
            (Node::Embed, FrameV::Embed(v)) => push_block(
                r,
                YamdNodesV::Embed(
                    if v.len() > 0 {
                        v[0]
                    } else {
                        Seq::empty()
                    },
                    if v.len() > 2 {
                        v[2]
                    } else {
                        Seq::empty()
                    },
                ),
            ),
            (Node::ThematicBreak, FrameV::ThematicBreak) => push_block(r, YamdNodesV::ThematicBreak),
            (Node::Highlight, FrameV::Highlight(t, i, p)) => push_block(r, YamdNodesV::Highlight(t, i, p)),
            (Node::Collapsible, FrameV::Collapsible(t, b)) => push_block(r, YamdNodesV::Collapsible(t, b)),
            (Node::UnorderedList, FrameV::UnorderedList(l, items)) => finish_list(
                r,
                ListV { list_type: ListTypes::Unordered, level: l, body: items },
            ),
            (Node::OrderedList, FrameV::OrderedList(l, items)) => finish_list(
                r,
                ListV { list_type: ListTypes::Ordered, level: l, body: items },
            ),
            (Node::ListItem, FrameV::ListItem(t, nl)) => if has && top is UnorderedList {
                with_top(r, FrameV::UnorderedList(top->UnorderedList_0, top->UnorderedList_1.push(ListItemV { text: t, nested_list: nl })))
            } else if has && top is OrderedList {
                with_top(r, FrameV::OrderedList(top->OrderedList_0, top->OrderedList_1.push(ListItemV { text: t, nested_list: nl })))
            } else {
                r
            },
            _ => r,
        }
    }
}

/// One operation applied to the nodes under construction.
pub open spec fn op_step(st: Seq<FrameV>, op: Op, source: Seq<u8>) -> Seq<FrameV> {
    match op.kind {
        OpKind::Start(n) => st.push(start_frame(st, n, op_text(op.content, source))),
        OpKind::Value => value_step(st, op_text(op.content, source)),
        OpKind::End(n) => end_step(st, n),
    }
}

/// The nodes under construction after the operations `ops`, from an empty document.
pub open spec fn run_ops(ops: Seq<Op>, source: Seq<u8>) -> Seq<FrameV>
    decreases ops.len(),
{
    if ops.len() == 0 {
        seq![FrameV::Yamd(None, Seq::empty())]
    } else {
        op_step(run_ops(ops.drop_last(), source), ops.last(), source)
    }
}

/// The document that the operations `ops` over `source` make.
pub open spec fn spec_to_yamd(ops: Seq<Op>, source: Seq<u8>) -> YamdV {
    let st = run_ops(ops, source);
    if st.len() > 0 && st.last() is Yamd {
        YamdV { metadata: st.last()->Yamd_0, body: st.last()->Yamd_1 }
    } else {
        YamdV { metadata: None, body: Seq::empty() }
    }
}

/// Adds the block `n` to the document, collapsible block or document body on top.
fn push_block_exec(stack: &mut Vec<Frame>, n: YamdNodes)
    ensures
        frames_v(final(stack)@) == push_block(frames_v(old(stack)@), yamd_node_v(n)),
{
    let ghost s0 = stack@;
    let ghost nv = yamd_node_v(n);
    if stack.len() == 0 {
        return;
    }
    let top = stack.pop().unwrap();
    proof {
        lemma_frames_pop(s0);
    }
    let ghost s1 = stack@;
    match top {
        Frame::Yamd { metadata, mut body } => {
            let ghost b0 = body@;
            body.push(n);
            proof {
                lemma_yamd_nodes_push(b0, n);
            }
            stack.push(Frame::Yamd { metadata, body });
        },
        Frame::Document { mut children } => {
            let ghost b0 = children@;
            children.push(n);
            proof {
                lemma_yamd_nodes_push(b0, n);
            }
            stack.push(Frame::Document { children });
        },
        Frame::Collapsible { title, mut body } => {
            let ghost b0 = body@;
            body.push(n);
            proof {
                lemma_yamd_nodes_push(b0, n);
            }
            stack.push(Frame::Collapsible { title, body });
        },
        other => {
            stack.push(other);
            proof {
                assert(s1.push(s0.last()) =~= s0);
            }
        },
    }
    proof {
        lemma_frames_push(s1, stack@.last());
        assert(stack@ =~= s1.push(stack@.last()));
    }
}

/// Adds `n` to the paragraph on top.
fn push_inline_exec(stack: &mut Vec<Frame>, n: ParagraphNodes)
    ensures
        frames_v(final(stack)@) == push_inline(frames_v(old(stack)@), paragraph_node_v(n)),
{
    let ghost s0 = stack@;
    if stack.len() == 0 {
        return;
    }
    let top = stack.pop().unwrap();
    proof {
        lemma_frames_pop(s0);
    }
    let ghost s1 = stack@;
    match top {
        Frame::Paragraph { mut body } => {
            let ghost b0 = body@;
            body.push(n);
            proof {
                assert(paragraph_nodes_v(body@) =~= paragraph_nodes_v(b0).push(paragraph_node_v(n)));
            }
            stack.push(Frame::Paragraph { body });
        },
        other => {
            stack.push(other);
            proof {
                assert(s1.push(s0.last()) =~= s0);
            }
        },
    }
    proof {
        lemma_frames_push(s1, stack@.last());
        assert(stack@ =~= s1.push(stack@.last()));
    }
}

/// Hangs the list `l` into the list item on top, or adds it as a block.
fn finish_list_exec(stack: &mut Vec<Frame>, l: List)
    ensures
        frames_v(final(stack)@) == finish_list(frames_v(old(stack)@), list_v(l)),
{
    let ghost s0 = stack@;
    if stack.len() > 0 {
        proof {
            lemma_frames_pop(s0);
        }
        if let Frame::ListItem { .. } = &stack[stack.len() - 1] {
            let top = stack.pop().unwrap();
            let ghost s1 = stack@;
            if let Frame::ListItem { text, nested_list: _ } = top {
                stack.push(Frame::ListItem { text, nested_list: Some(l) });
                proof {
                    lemma_frames_push(s1, stack@.last());
                }
            }
            return;
        }
    }
    push_block_exec(stack, YamdNodes::List(l));
}

/// `s` with the ends of line at its end taken off.
fn trim_end_nl_exec(s: &str) -> (r: String)
    ensures
        r@ == trim_end_nl(s@),
{
    let mut end = s.unicode_len();
    proof {
        assert(s@.subrange(0, s@.len() as int) =~= s@);
    }
    while end > 0 && s.get_char(end - 1) == '\n'
        invariant
            end <= s@.len(),
            trim_end_nl(s@) == trim_end_nl(s@.subrange(0, end as int)),
        decreases end,
    {
        proof {
            assert(s@.subrange(0, end as int).drop_last() =~= s@.subrange(0, end - 1));
        }
        end = end - 1;
    }
    String::from_str(s.substring_char(0, end))
}

/// `s` with the ends of line at both ends taken off.
fn trim_nl_exec(s: &str) -> (r: String)
    ensures
        r@ == trim_nl(s@),
{
    let n = s.unicode_len();
    let mut start: usize = 0;
    proof {
        assert(s@.subrange(0, n as int) =~= s@);
    }
    while start < n && s.get_char(start) == '\n'
        invariant
            start <= n,
            n == s@.len(),
            trim_start_nl(s@) == trim_start_nl(s@.subrange(start as int, n as int)),
        decreases n - start,
    {
        proof {
            assert(s@.subrange(start as int, n as int).drop_first() =~= s@.subrange(start + 1, n as int));
        }
        start = start + 1;
    }
    let rest = s.substring_char(start, n);
    trim_end_nl_exec(rest)
}

/// Drops the ends of line at the end of the last text of a paragraph's nodes, and the text
/// itself where nothing else is left of it.
fn trim_last_text_exec(body: &mut Vec<ParagraphNodes>)
    ensures
        paragraph_nodes_v(final(body)@) == trim_last_text(paragraph_nodes_v(old(body)@)),
{
    let ghost b0 = body@;
    if body.len() == 0 {
        return;
    }
    if let ParagraphNodes::Text(_) = &body[body.len() - 1] {
        let last = body.pop().unwrap();
        proof {
            assert(paragraph_nodes_v(body@) =~= paragraph_nodes_v(b0).drop_last());
        }
        if let ParagraphNodes::Text(t) = last {
            let trimmed = trim_end_nl_exec(t.as_str());
            if trimmed.unicode_len() != 0 {
                let ghost b1 = body@;
                body.push(ParagraphNodes::Text(trimmed));
                proof {
                    assert(paragraph_nodes_v(body@) =~= paragraph_nodes_v(b1).push(
                        ParagraphNodesV::Text(trimmed@),
                    ));
                }
            }
        }
    }
}

/// The number of `#` that `s` starts with.
fn lead_hashes_exec(s: &str) -> (r: usize)
    ensures
        r == lead_hashes(s@),
{
    let n = s.unicode_len();
    let mut k: usize = 0;
    proof {
        assert(s@.subrange(0, n as int) =~= s@);
    }
    while k < n && s.get_char(k) == '#'
        invariant
            k <= n,
            n == s@.len(),
            lead_hashes(s@) == k + lead_hashes(s@.subrange(k as int, n as int)),
        decreases n - k,
    {
        proof {
            assert(s@.subrange(k as int, n as int).drop_first() =~= s@.subrange(k + 1, n as int));
        }
        k = k + 1;
    }
    k
}

/// The number of lists under construction.
fn count_lists_exec(stack: &Vec<Frame>) -> (r: usize)
    ensures
        r == count_lists(frames_v(stack@)),
{
    let mut k: usize = 0;
    let mut i: usize = 0;
    while i < stack.len()
        invariant
            i <= stack@.len(),
            k <= i,
            k == count_lists(frames_v(stack@.subrange(0, i as int))),
        decreases stack@.len() - i,
    {
        proof {
            let s = stack@.subrange(0, i + 1);
            assert(s.drop_last() =~= stack@.subrange(0, i as int));
            lemma_frames_pop(s);
        }
        match &stack[i] {
            Frame::UnorderedList { .. } => {
                k = k + 1;
            },
            Frame::OrderedList { .. } => {
                k = k + 1;
            },
            _ => {},
        }
        i = i + 1;
    }
    proof {
        assert(stack@.subrange(0, stack@.len() as int) =~= stack@);
    }
    k
}

/// The text of `content` in `source`, as [`op_text`] gives it.
fn content_text(content: &Content, source: &str) -> (r: String)
    requires
        span_fits(source.spec_bytes(), content.span),
    ensures
        r@ == op_text(*content, source.spec_bytes()),
{
    let r = content.to_string(source);
    proof {
        vstd::utf8::encode_utf8_decode_utf8(r@);
    }
    r
}

/// The node under construction that a Start of `node` opens, with `content` its content.
fn start_frame_exec(stack: &Vec<Frame>, node: Node, content: &Content, source: &str) -> (f: Frame)
    requires
        span_fits(source.spec_bytes(), content.span),
    ensures
        frame_v(f) == start_frame(frames_v(stack@), node, op_text(*content, source.spec_bytes())),
{
    let f = match node {
        Node::Heading => {
            let text = content_text(content, source);
            let level = lead_hashes_exec(text.as_str());
            let level8: u8 = #[verifier::truncate] (level as u8);
            assert(level8 == lead_hashes(op_text(*content, source.spec_bytes())) as u8);
            Frame::Heading { level: level8, body: Vec::new() }
        },
        Node::UnorderedList => Frame::UnorderedList { level: count_lists_exec(stack), items: Vec::new() },
        Node::OrderedList => Frame::OrderedList { level: count_lists_exec(stack), items: Vec::new() },
        Node::Document => Frame::Document { children: Vec::new() },
        Node::Paragraph => Frame::Paragraph { body: Vec::new() },
        Node::Bold => Frame::Bold { body: Vec::new() },
        Node::Italic => Frame::Italic { text: String::new() },
        Node::Strikethrough => Frame::Strikethrough { text: String::new() },
        Node::CodeSpan => Frame::CodeSpan { text: String::new() },
        Node::Emphasis => Frame::Emphasis { text: String::new() },
        Node::Anchor => Frame::Anchor { text: String::new(), url: String::new() },
        Node::Title => Frame::Title { text: String::new() },
        Node::Destination => Frame::Destination { text: String::new() },
        Node::Image => Frame::Image { alt: String::new(), src: String::new() },
        Node::Images => Frame::Images { images: Vec::new() },
        Node::Code => Frame::Code { lang: String::new(), code: String::new() },
        Node::Modifier => Frame::Modifier { text: String::new() },
        Node::Embed => Frame::Embed { values: Vec::new() },
        Node::ThematicBreak => Frame::ThematicBreak,
        Node::Highlight => Frame::Highlight { title: None, icon: None, paragraphs: Vec::new() },
        Node::Icon => Frame::Icon { text: String::new() },
        Node::Collapsible => Frame::Collapsible { title: String::new(), body: Vec::new() },
        Node::ListItem => Frame::ListItem { text: Vec::new(), nested_list: None },
        Node::Metadata => Frame::Metadata { text: String::new() },
    };
    proof {
        assert(heading_nodes_v(Seq::empty()) =~= Seq::empty());
        assert(paragraph_nodes_v(Seq::empty()) =~= Seq::empty());
        assert(bold_nodes_v(Seq::empty()) =~= Seq::empty());
        assert(images_v(Seq::empty()) =~= Seq::empty());
        assert(strs_v(Seq::empty()) =~= Seq::empty());
        assert(paragraphs_v(Seq::empty()) =~= Seq::empty());
        assert(yamd_nodes_v(Seq::empty()) =~= Seq::empty());
        assert(list_items_v(Seq::empty()) =~= Seq::empty());
    }
    f
}

/// A Value with text `text` goes into the node under construction on top.
fn value_exec(stack: &mut Vec<Frame>, text: String)
    ensures
        frames_v(final(stack)@) == value_step(frames_v(old(stack)@), text@),
{
    let ghost s0 = stack@;
    if stack.len() == 0 {
        return;
    }
    let top = stack.pop().unwrap();
    proof {
        lemma_frames_pop(s0);
    }
    let ghost s1 = stack@;
    let ghost tv = text@;
    let f = match top {
        Frame::Heading { level, mut body } => {
            let ghost b0 = body@;
            body.push(HeadingNodes::Text(text));
            proof {
                assert(heading_nodes_v(body@) =~= heading_nodes_v(b0).push(HeadingNodesV::Text(tv)));
            }
            Frame::Heading { level, body }
        },
        Frame::Paragraph { mut body } => {
            let ghost b0 = body@;
            body.push(ParagraphNodes::Text(text));
            proof {
                assert(paragraph_nodes_v(body@) =~= paragraph_nodes_v(b0).push(ParagraphNodesV::Text(tv)));
            }
            Frame::Paragraph { body }
        },
        Frame::Bold { mut body } => {
            let ghost b0 = body@;
            body.push(BoldNodes::Text(text));
            proof {
                assert(bold_nodes_v(body@) =~= bold_nodes_v(b0).push(BoldNodesV::Text(tv)));
            }
            Frame::Bold { body }
        },
        Frame::Italic { text: mut t } => {
            t.append(text.as_str());
            Frame::Italic { text: t }
        },
        Frame::Strikethrough { text: mut t } => {
            t.append(text.as_str());
            Frame::Strikethrough { text: t }
        },
        Frame::CodeSpan { text: mut t } => {
            t.append(text.as_str());
            Frame::CodeSpan { text: t }
        },
        Frame::Emphasis { text: mut t } => {
            t.append(text.as_str());
            Frame::Emphasis { text: t }
        },
        Frame::Title { text: mut t } => {
            t.append(text.as_str());
            Frame::Title { text: t }
        },
        Frame::Destination { text: mut t } => {
            t.append(text.as_str());
            Frame::Destination { text: t }
        },
        Frame::Modifier { text: mut t } => {
            t.append(text.as_str());
            Frame::Modifier { text: t }
        },
        Frame::Icon { text: mut t } => {
            t.append(text.as_str());
            Frame::Icon { text: t }
        },
        Frame::Code { lang, mut code } => {
            code.append(text.as_str());
            Frame::Code { lang, code }
        },
        Frame::Embed { mut values } => {
            let ghost b0 = values@;
            values.push(text);
            proof {
                assert(strs_v(values@) =~= strs_v(b0).push(tv));
            }
            Frame::Embed { values }
        },
        Frame::Metadata { text: mut t } => {
            t.append(text.as_str());
            Frame::Metadata { text: t }
        },
        other => other,
    };
    let ghost fv = frame_v(f);
    stack.push(f);
    proof {
        lemma_frames_push(s1, stack@.last());
        assert(stack@ =~= s1.push(stack@.last()));
    }
}

/// An End of `node`: the node under construction on top is finished, and what it makes goes
/// into the one below it.
#[verifier::rlimit(100)]
#[verifier::spinoff_prover]
fn end_exec(stack: &mut Vec<Frame>, node: Node)
    ensures
        frames_v(final(stack)@) == end_step(frames_v(old(stack)@), node),
{
    let ghost s0 = stack@;
    if stack.len() == 0 {
        return;
    }
    let f = stack.pop().unwrap();
    proof {
        lemma_frames_pop(s0);
    }
    let ghost s1 = stack@;
    match (node, f) {
        (Node::Document, Frame::Document { children }) => {
            if stack.len() > 0 {
                let top = stack.pop().unwrap();
                proof {
                    lemma_frames_pop(s1);
                }
                let ghost s2 = stack@;
                let g = match top {
                    Frame::Collapsible { title, body: _ } => {
                        Frame::Collapsible { title, body: children }
                    },
                    Frame::Yamd { metadata, mut body } => {
                        let ghost b0 = body@;
                        let mut c = children;
                        let ghost c0 = c@;
                        body.append(&mut c);
                        proof {
                            lemma_yamd_nodes_concat(b0, c0);
                        }
                        Frame::Yamd { metadata, body }
                    },
                    other => other,
                };
                stack.push(g);
                proof {
                    lemma_frames_push(s2, stack@.last());
                    assert(stack@ =~= s2.push(stack@.last()));
                    assert(s2.push(s1.last()) =~= s1);
                }
            }
        },
        (Node::Metadata, Frame::Metadata { text }) => {
            if stack.len() > 0 {
                let top = stack.pop().unwrap();
                proof {
                    lemma_frames_pop(s1);
                }
                let ghost s2 = stack@;
                let g = match top {
                    Frame::Yamd { metadata: _, body } => {
                        Frame::Yamd { metadata: Some(trim_nl_exec(text.as_str())), body }
                    },
                    other => other,
                };
                stack.push(g);
                proof {
                    lemma_frames_push(s2, stack@.last());
                    assert(stack@ =~= s2.push(stack@.last()));
                    assert(s2.push(s1.last()) =~= s1);
                }
            }
        },
        (Node::Heading, Frame::Heading { level, body }) => {
            push_block_exec(stack, YamdNodes::Heading(Heading { level, body }));
        },
        (Node::Paragraph, Frame::Paragraph { mut body }) => {
            if stack.len() > 0 {
                let top = stack.pop().unwrap();
                proof {
                    lemma_frames_pop(s1);
                }
                let ghost s2 = stack@;
                let g = match top {
                    Frame::Highlight { title, icon, mut paragraphs } => {
                        trim_last_text_exec(&mut body);
                        let ghost p0 = paragraphs@;
                        let ghost pb = body;
                        paragraphs.push(Paragraph { body });
                        proof {
                            assert(paragraphs_v(paragraphs@) =~= paragraphs_v(p0).push(paragraph_nodes_v(pb@)));
                        }
                        Frame::Highlight { title, icon, paragraphs }
                    },
                    Frame::ListItem { text: _, nested_list } => {
                        trim_last_text_exec(&mut body);
                        Frame::ListItem { text: body, nested_list }
                    },
                    Frame::Yamd { metadata, body: mut yb } => {
                        let ghost b0 = yb@;
                        let ghost n = YamdNodes::Paragraph(Paragraph { body });
                        yb.push(YamdNodes::Paragraph(Paragraph { body }));
                        proof {
                            lemma_yamd_nodes_push(b0, n);
                        }
                        Frame::Yamd { metadata, body: yb }
                    },
                    Frame::Document { mut children } => {
                        let ghost b0 = children@;
                        let ghost n = YamdNodes::Paragraph(Paragraph { body });
                        children.push(YamdNodes::Paragraph(Paragraph { body }));
                        proof {
                            lemma_yamd_nodes_push(b0, n);
                        }
                        Frame::Document { children }
                    },
                    Frame::Collapsible { title, body: mut cb } => {
                        let ghost b0 = cb@;
                        let ghost n = YamdNodes::Paragraph(Paragraph { body });
                        cb.push(YamdNodes::Paragraph(Paragraph { body }));
                        proof {
                            lemma_yamd_nodes_push(b0, n);
                        }
                        Frame::Collapsible { title, body: cb }
                    },
                    other => other,
                };
                stack.push(g);
                proof {
                    lemma_frames_push(s2, stack@.last());
                    assert(stack@ =~= s2.push(stack@.last()));
                    assert(s2.push(s1.last()) =~= s1);
                }
            }
        },
        (Node::Bold, Frame::Bold { body }) => {
            push_inline_exec(stack, ParagraphNodes::Bold(Bold { body }));
        },
        (Node::Italic, Frame::Italic { text }) => {
            if stack.len() > 0 {
                let top = stack.pop().unwrap();
                proof {
                    lemma_frames_pop(s1);
                }
                let ghost s2 = stack@;
                let g = match top {
                    Frame::Paragraph { mut body } => {
                        let ghost b0 = body@;
                        let ghost n = ParagraphNodes::Italic(Italic { text });
                        body.push(ParagraphNodes::Italic(Italic { text }));
                        proof {
                            assert(paragraph_nodes_v(body@) =~= paragraph_nodes_v(b0).push(paragraph_node_v(n)));
                        }
                        Frame::Paragraph { body }
                    },
                    Frame::Bold { mut body } => {
                        let ghost b0 = body@;
                        let ghost n = BoldNodes::Italic(Italic { text });
                        body.push(BoldNodes::Italic(Italic { text }));
                        proof {
                            assert(bold_nodes_v(body@) =~= bold_nodes_v(b0).push(bold_node_v(n)));
                        }
                        Frame::Bold { body }
                    },
                    other => other,
                };
                stack.push(g);
                proof {
                    lemma_frames_push(s2, stack@.last());
                    assert(stack@ =~= s2.push(stack@.last()));
                    assert(s2.push(s1.last()) =~= s1);
                }
            }
        },
        (Node::Strikethrough, Frame::Strikethrough { text }) => {
            if stack.len() > 0 {
                let top = stack.pop().unwrap();
                proof {
                    lemma_frames_pop(s1);
                }
                let ghost s2 = stack@;
                let g = match top {
                    Frame::Paragraph { mut body } => {
                        let ghost b0 = body@;
                        let ghost n = ParagraphNodes::Strikethrough(Strikethrough { text });
                        body.push(ParagraphNodes::Strikethrough(Strikethrough { text }));
                        proof {
                            assert(paragraph_nodes_v(body@) =~= paragraph_nodes_v(b0).push(paragraph_node_v(n)));
                        }
                        Frame::Paragraph { body }
                    },
                    Frame::Bold { mut body } => {
                        let ghost b0 = body@;
                        let ghost n = BoldNodes::Strikethrough(Strikethrough { text });
                        body.push(BoldNodes::Strikethrough(Strikethrough { text }));
                        proof {
                            assert(bold_nodes_v(body@) =~= bold_nodes_v(b0).push(bold_node_v(n)));
                        }
                        Frame::Bold { body }
                    },
                    other => other,
                };
                stack.push(g);
                proof {
                    lemma_frames_push(s2, stack@.last());
                    assert(stack@ =~= s2.push(stack@.last()));
                    assert(s2.push(s1.last()) =~= s1);
                }
            }
        },
        (Node::CodeSpan, Frame::CodeSpan { text }) => {
            push_inline_exec(stack, ParagraphNodes::CodeSpan(CodeSpan { text }));
        },
        (Node::Emphasis, Frame::Emphasis { text }) => {
            push_inline_exec(stack, ParagraphNodes::Emphasis(Emphasis { text }));
        },
        (Node::Title, Frame::Title { text }) => {
            if stack.len() > 0 {
                let top = stack.pop().unwrap();
                proof {
                    lemma_frames_pop(s1);
                }
                let ghost s2 = stack@;
                let g = match top {
                    Frame::Anchor { text: _, url } => {
                        Frame::Anchor { text, url }
                    },
                    Frame::Image { alt: _, src } => {
                        Frame::Image { alt: text, src }
                    },
                    other => other,
                };
                stack.push(g);
                proof {
                    lemma_frames_push(s2, stack@.last());
                    assert(stack@ =~= s2.push(stack@.last()));
                    assert(s2.push(s1.last()) =~= s1);
                }
            }
        },
        (Node::Destination, Frame::Destination { text }) => {
            if stack.len() > 0 {
                let top = stack.pop().unwrap();
                proof {
                    lemma_frames_pop(s1);
                }
                let ghost s2 = stack@;
                let g = match top {
                    Frame::Anchor { text: t, url: _ } => {
                        Frame::Anchor { text: t, url: text }
                    },
                    Frame::Image { alt, src: _ } => {
                        Frame::Image { alt, src: text }
                    },
                    other => other,
                };
                stack.push(g);
                proof {
                    lemma_frames_push(s2, stack@.last());
                    assert(stack@ =~= s2.push(stack@.last()));
                    assert(s2.push(s1.last()) =~= s1);
                }
            }
        },
        (Node::Anchor, Frame::Anchor { text, url }) => {
            if stack.len() > 0 {
                let top = stack.pop().unwrap();
                proof {
                    lemma_frames_pop(s1);
                }
                let ghost s2 = stack@;
                let g = match top {
                    Frame::Paragraph { mut body } => {
                        let ghost b0 = body@;
                        let ghost n = ParagraphNodes::Anchor(Anchor { text, url });
                        body.push(ParagraphNodes::Anchor(Anchor { text, url }));
                        proof {
                            assert(paragraph_nodes_v(body@) =~= paragraph_nodes_v(b0).push(paragraph_node_v(n)));
                        }
                        Frame::Paragraph { body }
                    },
                    Frame::Heading { level, mut body } => {
                        let ghost b0 = body@;
                        let ghost n = HeadingNodes::Anchor(Anchor { text, url });
                        body.push(HeadingNodes::Anchor(Anchor { text, url }));
                        proof {
                            assert(heading_nodes_v(body@) =~= heading_nodes_v(b0).push(heading_node_v(n)));
                        }
                        Frame::Heading { level, body }
                    },
                    other => other,
                };
                stack.push(g);
                proof {
                    lemma_frames_push(s2, stack@.last());
                    assert(stack@ =~= s2.push(stack@.last()));
                    assert(s2.push(s1.last()) =~= s1);
                }
            }
        },
        (Node::Image, Frame::Image { alt, src }) => {
            if stack.len() > 0 && matches!(stack[stack.len() - 1], Frame::Images { .. }) {
                let top = stack.pop().unwrap();
                proof {
                    lemma_frames_pop(s1);
                }
                let ghost s2 = stack@;
                if let Frame::Images { mut images } = top {
                    let ghost b0 = images@;
                    let ghost n = Image { alt, src };
                    images.push(Image { alt, src });
                    proof {
                        assert(images_v(images@) =~= images_v(b0).push((n.alt@, n.src@)));
                    }
                    stack.push(Frame::Images { images });
                    proof {
                        lemma_frames_push(s2, stack@.last());
                    }
                }
            } else {
                push_block_exec(stack, YamdNodes::Image(Image { alt, src }));
            }
        },
        (Node::Images, Frame::Images { mut images }) => {
            if images.len() == 1 {
                let ghost i0 = images@;
                let image = images.pop().unwrap();
                proof {
                    assert(images_v(i0)[0] == (image.alt@, image.src@));
                }
                push_block_exec(stack, YamdNodes::Image(image));
            } else {
                push_block_exec(stack, YamdNodes::Images(Images { body: images }));
            }
        },
        (Node::Code, Frame::Code { lang, code }) => {
            let code = trim_end_nl_exec(code.as_str());
            push_block_exec(stack, YamdNodes::Code(Code { lang, code }));
        },
        (Node::Modifier, Frame::Modifier { text }) => {
            if stack.len() > 0 {
                let top = stack.pop().unwrap();
                proof {
                    lemma_frames_pop(s1);
                }
                let ghost s2 = stack@;
                let g = match top {
                    Frame::Code { lang: _, code } => {
                        Frame::Code { lang: text, code }
                    },
                    Frame::Highlight { title: _, icon, paragraphs } => {
                        Frame::Highlight { title: Some(text), icon, paragraphs }
                    },
                    Frame::Collapsible { title: _, body } => {
                        Frame::Collapsible { title: text, body }
                    },
                    other => other,
                };
                stack.push(g);
                proof {
                    lemma_frames_push(s2, stack@.last());
                    assert(stack@ =~= s2.push(stack@.last()));
                    assert(s2.push(s1.last()) =~= s1);
                }
            }
        },
        (Node::Icon, Frame::Icon { text }) => {
            if stack.len() > 0 {
                let top = stack.pop().unwrap();
                proof {
                    lemma_frames_pop(s1);
                }
                let ghost s2 = stack@;
                let g = match top {
                    Frame::Highlight { title, icon: _, paragraphs } => {
                        Frame::Highlight { title, icon: Some(text), paragraphs }
                    },
                    other => other,
                };
                stack.push(g);
                proof {
                    lemma_frames_push(s2, stack@.last());
                    assert(stack@ =~= s2.push(stack@.last()));
                    assert(s2.push(s1.last()) =~= s1);
                }
            }
        },
        (Node::Embed, Frame::Embed { values }) => {
            let kind = if values.len() > 0 {
                values[0].clone()
            } else {
                String::new()
            };
            let args = if values.len() > 2 {
                values[2].clone()
            } else {
                String::new()
            };
            proof {
                assert(values.len() > 0 ==> strs_v(values@)[0] == values@[0]@);
                assert(values.len() > 2 ==> strs_v(values@)[2] == values@[2]@);
            }
            push_block_exec(stack, YamdNodes::Embed(Embed { kind, args }));
        },
        (Node::ThematicBreak, Frame::ThematicBreak) => {
            push_block_exec(stack, YamdNodes::ThematicBreak(ThematicBreak {}));
        },
        (Node::Highlight, Frame::Highlight { title, icon, paragraphs }) => {
            push_block_exec(stack, YamdNodes::Highlight(Highlight { title, icon, body: paragraphs }));
        },
        (Node::Collapsible, Frame::Collapsible { title, body }) => {
            push_block_exec(stack, YamdNodes::Collapsible(Collapsible { title, body }));
        },
        (Node::UnorderedList, Frame::UnorderedList { level, items }) => {
            finish_list_exec(stack, List { list_type: ListTypes::Unordered, level, body: items });
        },
        (Node::OrderedList, Frame::OrderedList { level, items }) => {
            finish_list_exec(stack, List { list_type: ListTypes::Ordered, level, body: items });
        },
        (Node::ListItem, Frame::ListItem { text, nested_list }) => {
            if stack.len() > 0 {
                let top = stack.pop().unwrap();
                proof {
                    lemma_frames_pop(s1);
                }
                let ghost s2 = stack@;
                let g = match top {
                    Frame::UnorderedList { level, mut items } => {
                        let ghost b0 = items@;
                        let ghost n = ListItem { text, nested_list };
                        items.push(ListItem { text, nested_list });
                        proof {
                            lemma_list_items_push(b0, n);
                        }
                        Frame::UnorderedList { level, items }
                    },
                    Frame::OrderedList { level, mut items } => {
                        let ghost b0 = items@;
                        let ghost n = ListItem { text, nested_list };
                        items.push(ListItem { text, nested_list });
                        proof {
                            lemma_list_items_push(b0, n);
                        }
                        Frame::OrderedList { level, items }
                    },
                    other => other,
                };
                stack.push(g);
                proof {
                    lemma_frames_push(s2, stack@.last());
                    assert(stack@ =~= s2.push(stack@.last()));
                    assert(s2.push(s1.last()) =~= s1);
                }
            }
        },
        _ => {},
    }
}

/// Turns an operation stream into the document tree: each Start opens a node under
/// construction, each Value adds text to the innermost one, and each End finishes it and adds
/// what it makes to the one below; an End finishes the innermost node whatever its kind, and a
/// node that the End does not name is dropped. The stream must never close the document and
/// must leave nothing else open. The result is [`spec_to_yamd`] exactly.
pub fn to_yamd(ops: &[Op], source: &str) -> (r: Yamd)
    requires
        keeps_root(ops@),
        forall|i: int| 0 <= i < ops@.len() ==> span_fits(source.spec_bytes(), #[trigger] ops@[i].content.span),
    ensures
        yamd_v(r) == spec_to_yamd(ops@, source.spec_bytes()),
{
    let ghost src = source.spec_bytes();
    let mut stack: Vec<Frame> = Vec::new();
    stack.push(Frame::Yamd { metadata: None, body: Vec::new() });
    proof {
        assert(frames_v(stack@) =~= seq![FrameV::Yamd(None, Seq::empty())]);
        assert(ops@.subrange(0, 0) =~= Seq::<Op>::empty());
    }
    let mut i: usize = 0;
    while i < ops.len()
        invariant
            i <= ops@.len(),
            forall|j: int| 0 <= j < ops@.len() ==> span_fits(src, #[trigger] ops@[j].content.span),
            src == source.spec_bytes(),
            frames_v(stack@) == run_ops(ops@.subrange(0, i as int), src),
        decreases ops@.len() - i,
    {
        let op = &ops[i];
        let ghost before = stack@;
        match op.kind {
            OpKind::Start(node) => {
                let f = start_frame_exec(&stack, node, &op.content, source);
                stack.push(f);
                proof {
                    lemma_frames_push(before, f);
                }
            },
            OpKind::Value => {
                let text = content_text(&op.content, source);
                value_exec(&mut stack, text);
            },
            OpKind::End(node) => {
                end_exec(&mut stack, node);
            },
        }
        proof {
            assert(ops@.subrange(0, i + 1).drop_last() =~= ops@.subrange(0, i as int));
            assert(ops@.subrange(0, i + 1).last() == ops@[i as int]);
        }
        i = i + 1;
    }
    proof {
        assert(ops@.subrange(0, ops@.len() as int) =~= ops@);
    }
    let ghost fin = stack@;
    if stack.len() > 0 {
        proof {
            lemma_frames_pop(fin);
        }
        if let Frame::Yamd { .. } = &stack[stack.len() - 1] {
            let top = stack.pop().unwrap();
            if let Frame::Yamd { metadata, body } = top {
                return Yamd { metadata, body };
            }
        }
    }
    Yamd { metadata: None, body: Vec::new() }
}

/// Reads markdown text into its document tree: [`parse`](crate::op::parse) turns it into an
/// operation stream, which [`to_yamd`] turns into the tree.
pub fn deserialize(input: &str) -> (r: Yamd)
    ensures
        yamd_v(r) == spec_to_yamd(
            crate::op::parse_ops(crate::lexer::spec_tokens(input.spec_bytes())),
            input.spec_bytes(),
        ),
{
    let ops = crate::op::parse(input);
    proof {
        law_balanced_keeps_root(ops@);
    }
    to_yamd(ops.as_slice(), input)
}


/// `s` starts with exactly `n` `#`.
proof fn lemma_lead_hashes(s: Seq<char>, n: int)
    requires
        0 <= n <= s.len(),
        forall|i: int| 0 <= i < n ==> s[i] == '#',
        n == s.len() || s[n] != '#',
    ensures
        lead_hashes(s) == n,
    decreases n,
{
    if n > 0 {
        let t = s.drop_first();
        assert forall|i: int| 0 <= i < n - 1 implies t[i] == '#' by {
            assert(t[i] == s[i + 1]);
        }
        if n - 1 < t.len() {
            assert(t[n - 1] == s[n]);
        }
        lemma_lead_hashes(t, n - 1);
    }
}

/// A Start of a heading whose content starts with exactly `n` `#` opens a heading of level
/// `n` (as a byte) on top of the nodes under construction, and changes nothing below.
pub proof fn law_heading_level(st: Seq<FrameV>, op: Op, source: Seq<u8>, n: int)
    requires
        op.kind == OpKind::Start(Node::Heading),
        0 <= n <= op_text(op.content, source).len(),
        forall|i: int| 0 <= i < n ==> op_text(op.content, source)[i] == '#',
        n == op_text(op.content, source).len() || op_text(op.content, source)[n] != '#',
    ensures
        op_step(st, op, source) == st.push(FrameV::Heading(n as u8, Seq::empty())),
{
    lemma_lead_hashes(op_text(op.content, source), n);
}

/// A heading alone in a stream, its content starting with exactly `n` `#` and holding one
/// text, makes a document of that one heading, of level `n` (as a byte), with that text.
pub proof fn law_heading_document(open: Content, body: Content, close: Content, source: Seq<u8>, n: int)
    requires
        0 <= n <= op_text(open, source).len(),
        forall|i: int| 0 <= i < n ==> op_text(open, source)[i] == '#',
        n == op_text(open, source).len() || op_text(open, source)[n] != '#',
    ensures
        spec_to_yamd(
            seq![
                Op { kind: OpKind::Start(Node::Heading), content: open },
                Op { kind: OpKind::Value, content: body },
                Op { kind: OpKind::End(Node::Heading), content: close },
            ],
            source,
        ) == (YamdV {
            metadata: None,
            body: seq![YamdNodesV::Heading(n as u8, seq![HeadingNodesV::Text(op_text(body, source))])],
        }),
{
    let o1 = Op { kind: OpKind::Start(Node::Heading), content: open };
    let o2 = Op { kind: OpKind::Value, content: body };
    let o3 = Op { kind: OpKind::End(Node::Heading), content: close };
    let ops = seq![o1, o2, o3];
    let root = seq![FrameV::Yamd(None, Seq::empty())];
    law_heading_level(root, o1, source, n);
    assert(ops.drop_last().drop_last().drop_last() =~= Seq::<Op>::empty());
    assert(ops.drop_last().drop_last() =~= seq![o1]);
    assert(ops.drop_last() =~= seq![o1, o2]);
    let s1 = root.push(FrameV::Heading(n as u8, Seq::empty()));
    assert(seq![o1].drop_last() =~= Seq::<Op>::empty());
    assert(seq![o1].last() == o1);
    assert(run_ops(Seq::<Op>::empty(), source) == root);
    assert(run_ops(seq![o1], source) == s1);
    assert(seq![o1, o2].last() == o2);
    let h = FrameV::Heading(n as u8, seq![HeadingNodesV::Text(op_text(body, source))]);
    let s2 = with_top(s1, h);
    assert(run_ops(seq![o1, o2], source) == s2);
    assert(s2.drop_last() =~= root);
    let fin = with_top(root, FrameV::Yamd(None, seq![YamdNodesV::Heading(n as u8, seq![HeadingNodesV::Text(op_text(body, source))])]));
    assert(ops.last() == o3);
    assert(run_ops(ops, source) == fin);
}


/// Trimming the ends of line off the end of `s` keeps exactly the part before its final run
/// of ends of line: where `s[k..]` is all ends of line and `s[k - 1]` is not one, the result
/// is `s[..k]`.
pub proof fn law_trim_end_nl(s: Seq<char>, k: int)
    requires
        0 <= k <= s.len(),
        forall|i: int| k <= i < s.len() ==> s[i] == '\n',
        k == 0 || s[k - 1] != '\n',
    ensures
        trim_end_nl(s) == s.take(k),
    decreases s.len(),
{
    if s.len() > k {
        let t = s.drop_last();
        assert forall|i: int| k <= i < t.len() implies t[i] == '\n' by {
            assert(t[i] == s[i]);
        }
        if k > 0 {
            assert(t[k - 1] == s[k - 1]);
        }
        law_trim_end_nl(t, k);
        assert(t.take(k) =~= s.take(k));
    } else {
        assert(s.take(k) =~= s);
        if s.len() > 0 {
            assert(s.last() == s[k - 1]);
        }
    }
}

/// Trimming the ends of line off the start of `s` keeps exactly the part after its first run
/// of ends of line: where `s[..k]` is all ends of line and `s[k]` is not one, the result is
/// `s[k..]`.
pub proof fn law_trim_start_nl(s: Seq<char>, k: int)
    requires
        0 <= k <= s.len(),
        forall|i: int| 0 <= i < k ==> s[i] == '\n',
        k == s.len() || s[k] != '\n',
    ensures
        trim_start_nl(s) == s.skip(k),
    decreases k,
{
    if k > 0 {
        let t = s.drop_first();
        assert forall|i: int| 0 <= i < k - 1 implies t[i] == '\n' by {
            assert(t[i] == s[i + 1]);
        }
        if k - 1 < t.len() {
            assert(t[k - 1] == s[k]);
        }
        law_trim_start_nl(t, k - 1);
        assert(t.skip(k - 1) =~= s.skip(k));
    } else {
        assert(s.skip(0) =~= s);
    }
}

/// The number of lists under construction is the number of list frames among them.
pub proof fn law_count_lists(st: Seq<FrameV>)
    ensures
        count_lists(st) == st.filter(|f: FrameV| f is UnorderedList || f is OrderedList).len(),
    decreases st.len(),
{
    reveal_with_fuel(Seq::filter, 1);
    if st.len() > 0 {
        law_count_lists(st.drop_last());
    }
}

/// A Start of a list opens a list whose level is the number of lists already under
/// construction, and changes nothing below.
pub proof fn law_list_level(st: Seq<FrameV>, op: Op, source: Seq<u8>)
    requires
        op.kind == OpKind::Start(Node::UnorderedList) || op.kind == OpKind::Start(Node::OrderedList),
    ensures
        ({
            let m = st.filter(|f: FrameV| f is UnorderedList || f is OrderedList).len();
            op_step(st, op, source) == st.push(
                if op.kind == OpKind::Start(Node::UnorderedList) {
                    FrameV::UnorderedList(m as usize, Seq::empty())
                } else {
                    FrameV::OrderedList(m as usize, Seq::empty())
                },
            )
        }),
{
    law_count_lists(st);
}


/// The value of the stream `Start(n)`, one Value, `End(n)` over the document alone.
proof fn lemma_run_three(o1: Op, o2: Op, o3: Op, source: Seq<u8>)
    ensures
        run_ops(seq![o1, o2, o3], source) == op_step(
            op_step(op_step(seq![FrameV::Yamd(None, Seq::empty())], o1, source), o2, source),
            o3,
            source,
        ),
{
    let ops = seq![o1, o2, o3];
    assert(ops.drop_last() =~= seq![o1, o2]);
    assert(seq![o1, o2].drop_last() =~= seq![o1]);
    assert(seq![o1].drop_last() =~= Seq::<Op>::empty());
    assert(ops.last() == o3);
    assert(seq![o1, o2].last() == o2);
    assert(seq![o1].last() == o1);
    let root = seq![FrameV::Yamd(None, Seq::empty())];
    assert(run_ops(Seq::<Op>::empty(), source) == root);
    assert(run_ops(seq![o1], source) == op_step(root, o1, source));
    assert(run_ops(seq![o1, o2], source) == op_step(op_step(root, o1, source), o2, source));
}

/// Metadata alone in a stream makes a document with no blocks whose metadata is the text of
/// its Value with the ends of line at both ends taken off.
pub proof fn law_metadata_document(open: Content, body: Content, close: Content, source: Seq<u8>)
    ensures
        spec_to_yamd(
            seq![
                Op { kind: OpKind::Start(Node::Metadata), content: open },
                Op { kind: OpKind::Value, content: body },
                Op { kind: OpKind::End(Node::Metadata), content: close },
            ],
            source,
        ) == (YamdV { metadata: Some(trim_nl(op_text(body, source))), body: Seq::empty() }),
{
    let o1 = Op { kind: OpKind::Start(Node::Metadata), content: open };
    let o2 = Op { kind: OpKind::Value, content: body };
    let o3 = Op { kind: OpKind::End(Node::Metadata), content: close };
    lemma_run_three(o1, o2, o3, source);
    let root = seq![FrameV::Yamd(None, Seq::empty())];
    let s1 = root.push(FrameV::Metadata(Seq::empty()));
    assert(op_step(root, o1, source) == s1);
    assert(Seq::<char>::empty() + op_text(body, source) =~= op_text(body, source));
    let s2 = with_top(s1, FrameV::Metadata(op_text(body, source)));
    assert(op_step(s1, o2, source) == s2);
    assert(s2.drop_last() =~= root);
}

/// A paragraph alone in a stream, holding one text, makes a document of that one paragraph
/// with that text, as it is.
pub proof fn law_paragraph_document(open: Content, body: Content, close: Content, source: Seq<u8>)
    ensures
        spec_to_yamd(
            seq![
                Op { kind: OpKind::Start(Node::Paragraph), content: open },
                Op { kind: OpKind::Value, content: body },
                Op { kind: OpKind::End(Node::Paragraph), content: close },
            ],
            source,
        ) == (YamdV {
            metadata: None,
            body: seq![YamdNodesV::Paragraph(seq![ParagraphNodesV::Text(op_text(body, source))])],
        }),
{
    let o1 = Op { kind: OpKind::Start(Node::Paragraph), content: open };
    let o2 = Op { kind: OpKind::Value, content: body };
    let o3 = Op { kind: OpKind::End(Node::Paragraph), content: close };
    lemma_run_three(o1, o2, o3, source);
    let root = seq![FrameV::Yamd(None, Seq::empty())];
    let s1 = root.push(FrameV::Paragraph(Seq::empty()));
    assert(op_step(root, o1, source) == s1);
    let s2 = with_top(s1, FrameV::Paragraph(seq![ParagraphNodesV::Text(op_text(body, source))]));
    assert(op_step(s1, o2, source) == s2);
    assert(s2.drop_last() =~= root);
}


/// The value of a five-operation stream over the document alone.
proof fn lemma_run_five(o1: Op, o2: Op, o3: Op, o4: Op, o5: Op, source: Seq<u8>)
    ensures
        run_ops(seq![o1, o2, o3, o4, o5], source) == op_step(
            op_step(
                op_step(op_step(op_step(seq![FrameV::Yamd(None, Seq::empty())], o1, source), o2, source), o3, source),
                o4,
                source,
            ),
            o5,
            source,
        ),
{
    let root = seq![FrameV::Yamd(None, Seq::empty())];
    let a1 = seq![o1];
    let a2 = seq![o1, o2];
    let a3 = seq![o1, o2, o3];
    let a4 = seq![o1, o2, o3, o4];
    let a5 = seq![o1, o2, o3, o4, o5];
    assert(a1.drop_last() =~= Seq::<Op>::empty());
    assert(a2.drop_last() =~= a1);
    assert(a3.drop_last() =~= a2);
    assert(a4.drop_last() =~= a3);
    assert(a5.drop_last() =~= a4);
    assert(a1.last() == o1 && a2.last() == o2 && a3.last() == o3 && a4.last() == o4 && a5.last() == o5);
    assert(run_ops(Seq::<Op>::empty(), source) == root);
    assert(run_ops(a1, source) == op_step(root, o1, source));
    assert(run_ops(a2, source) == op_step(run_ops(a1, source), o2, source));
    assert(run_ops(a3, source) == op_step(run_ops(a2, source), o3, source));
    assert(run_ops(a4, source) == op_step(run_ops(a3, source), o4, source));
}

/// Italic, struck-through, emphasised text or inline code alone in a paragraph makes a
/// document of that one paragraph holding that one node, with the text of its Value.
pub proof fn law_inline_in_paragraph(node: Node, c1: Content, c2: Content, v: Content, c4: Content, c5: Content, source: Seq<u8>)
    requires
        node == Node::Italic || node == Node::Strikethrough || node == Node::CodeSpan || node == Node::Emphasis,
    ensures
        spec_to_yamd(
            seq![
                Op { kind: OpKind::Start(Node::Paragraph), content: c1 },
                Op { kind: OpKind::Start(node), content: c2 },
                Op { kind: OpKind::Value, content: v },
                Op { kind: OpKind::End(node), content: c4 },
                Op { kind: OpKind::End(Node::Paragraph), content: c5 },
            ],
            source,
        ) == (YamdV {
            metadata: None,
            body: seq![
                YamdNodesV::Paragraph(
                    seq![
                        if node == Node::Italic {
                            ParagraphNodesV::Italic(op_text(v, source))
                        } else if node == Node::Strikethrough {
                            ParagraphNodesV::Strikethrough(op_text(v, source))
                        } else if node == Node::CodeSpan {
                            ParagraphNodesV::CodeSpan(op_text(v, source))
                        } else {
                            ParagraphNodesV::Emphasis(op_text(v, source))
                        },
                    ],
                ),
            ],
        }),
{
    let o1 = Op { kind: OpKind::Start(Node::Paragraph), content: c1 };
    let o2 = Op { kind: OpKind::Start(node), content: c2 };
    let o3 = Op { kind: OpKind::Value, content: v };
    let o4 = Op { kind: OpKind::End(node), content: c4 };
    let o5 = Op { kind: OpKind::End(Node::Paragraph), content: c5 };
    lemma_run_five(o1, o2, o3, o4, o5, source);
    let t = op_text(v, source);
    assert(Seq::<char>::empty() + t =~= t);
    let root = seq![FrameV::Yamd(None, Seq::empty())];
    let s1 = root.push(FrameV::Paragraph(Seq::empty()));
    assert(op_step(root, o1, source) == s1);
    let s2 = op_step(s1, o2, source);
    let s3 = op_step(s2, o3, source);
    let s4 = op_step(s3, o4, source);
    assert(s3.drop_last() =~= s1);
    assert(s4.drop_last() =~= root);
}

/// Bold text alone in a paragraph makes a document of that one paragraph holding bold text
/// with the text of its Value.
pub proof fn law_bold_in_paragraph(c1: Content, c2: Content, v: Content, c4: Content, c5: Content, source: Seq<u8>)
    ensures
        spec_to_yamd(
            seq![
                Op { kind: OpKind::Start(Node::Paragraph), content: c1 },
                Op { kind: OpKind::Start(Node::Bold), content: c2 },
                Op { kind: OpKind::Value, content: v },
                Op { kind: OpKind::End(Node::Bold), content: c4 },
                Op { kind: OpKind::End(Node::Paragraph), content: c5 },
            ],
            source,
        ) == (YamdV {
            metadata: None,
            body: seq![YamdNodesV::Paragraph(seq![ParagraphNodesV::Bold(seq![BoldNodesV::Text(op_text(v, source))])])],
        }),
{
    let o1 = Op { kind: OpKind::Start(Node::Paragraph), content: c1 };
    let o2 = Op { kind: OpKind::Start(Node::Bold), content: c2 };
    let o3 = Op { kind: OpKind::Value, content: v };
    let o4 = Op { kind: OpKind::End(Node::Bold), content: c4 };
    let o5 = Op { kind: OpKind::End(Node::Paragraph), content: c5 };
    lemma_run_five(o1, o2, o3, o4, o5, source);
    let root = seq![FrameV::Yamd(None, Seq::empty())];
    let s1 = root.push(FrameV::Paragraph(Seq::empty()));
    assert(op_step(root, o1, source) == s1);
    let s2 = op_step(s1, o2, source);
    let s3 = op_step(s2, o3, source);
    let s4 = op_step(s3, o4, source);
    assert(s3.drop_last() =~= s1);
    assert(s4.drop_last() =~= root);
}

} // verus!
