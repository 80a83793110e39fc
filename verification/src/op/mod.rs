//! A flat, streaming form of a document: [`parse`] turns source text into a `Vec<`[`Op`]`>` of
//! Start/End/Value events instead of a nested tree.
//!
//! - [`Op`] pairs an [`OpKind`] with its [`Content`].
//! - [`OpKind::Start`]`(`[`Node`]`)` / [`OpKind::End`]`(`[`Node`]`)` bracket a node; everything
//!   between belongs to it. [`OpKind::Value`] is leaf content belonging to the innermost open
//!   node.
//! - [`Content`] is a byte range into the source plus a count of the `\`-escapes it contains.
pub mod anchor;
pub mod bold;
pub mod code;
pub mod code_span;
pub mod collapsible;
pub mod destination;
pub mod document;
pub mod embed;
pub mod emphasis;
pub mod heading;
pub mod highlight;
pub mod image;
pub mod images;
pub mod italic;
pub mod laws;
pub mod list;
pub mod metadata;
pub mod modifier;
pub mod paragraph;
pub mod parser;
pub mod step;
pub mod strikethrough;
pub mod thematic_break;
pub mod title;
pub mod to_yamd;

use crate::lexer::Token;
use crate::op::document::{doc_res, document};
use crate::op::laws::{balanced, covers};
use crate::op::metadata::{metadata, three_dashes};
use crate::op::step::{delimited, delimited_at};
use crate::lexer::spec_tokens;
use crate::op::parser::{bpos, Parser};
use crate::op::step::{added, lemma_advanced_trans};
use std::ops::Range;
use vstd::prelude::*;
use vstd::string::*;
use vstd::utf8::*;

verus! {

/// Text content taken from the source input: a byte range plus how many `\`-escapes it
/// contains.
#[derive(Debug, PartialEq)]
pub struct Content {
    pub span: Range<usize>,
    pub escaped: usize,
}

/// The sum of the escape counts of `toks`.
pub open spec fn escapes_of(toks: Seq<Token>) -> int
    decreases toks.len(),
{
    if toks.len() == 0 {
        0
    } else {
        escapes_of(toks.drop_last()) + toks.last().escaped
    }
}

/// The content that the tokens `toks` make up: from the start of the first to the end of the
/// last, with their escapes; `0..0` for no tokens.
pub open spec fn content_of(toks: Seq<Token>) -> Content {
    if toks.len() == 0 {
        Content { span: Range { start: 0, end: 0 }, escaped: 0 }
    } else {
        Content {
            span: Range { start: toks[0].range.start, end: toks.last().range.end },
            escaped: escapes_of(toks) as usize,
        }
    }
}

/// The bytes of `source` that `span` selects; nothing when the span is empty.
pub open spec fn raw_bytes(source: Seq<u8>, span: Range<usize>) -> Seq<u8> {
    if span.start >= span.end {
        Seq::empty()
    } else {
        source.subrange(span.start as int, span.end as int)
    }
}

/// `span` can be cut out of `source`: empty, or inside it with both ends on character
/// boundaries.
pub open spec fn span_fits(source: Seq<u8>, span: Range<usize>) -> bool {
    span.start < span.end ==> {
        &&& span.end <= source.len()
        &&& is_char_boundary(source, span.start as int)
        &&& is_char_boundary(source, span.end as int)
    }
}

/// The index of the first `\` at or after `k` in `b`, or `b.len()`.
pub open spec fn first_backslash(b: Seq<u8>, k: int) -> int
    decreases b.len() - k,
{
    if k < 0 || k >= b.len() {
        b.len() as int
    } else if b[k] == 92u8 {
        k
    } else {
        first_backslash(b, k + 1)
    }
}

/// The end of the continuation bytes that follow position `k`.
pub open spec fn continuation_end(b: Seq<u8>, k: int) -> int
    decreases b.len() - k,
{
    if k < 0 || k >= b.len() || !is_continuation_byte(b[k]) {
        k
    } else {
        continuation_end(b, k + 1)
    }
}

/// Removes up to `n` escaping backslashes from `b`: each removed `\` keeps the character after
/// it verbatim; a `\` at the very end is kept.
pub open spec fn spec_unescape(b: Seq<u8>, n: nat) -> Seq<u8>
    decreases b.len(),
{
    let idx = first_backslash(b, 0);
    if n == 0 || idx < 0 || idx + 1 >= b.len() {
        b
    } else {
        let c_end = continuation_end(b, idx + 2);
        if c_end <= idx + 1 || c_end > b.len() {
            b
        } else {
            b.subrange(0, idx) + b.subrange(idx + 1, c_end) + spec_unescape(
                b.subrange(c_end, b.len() as int),
                (n - 1) as nat,
            )
        }
    }
}

/// The text that `content` stands for in `source`, as UTF-8 bytes.
pub open spec fn text_bytes(content: Content, source: Seq<u8>) -> Seq<u8> {
    if content.escaped == 0 {
        raw_bytes(source, content.span)
    } else {
        spec_unescape(raw_bytes(source, content.span), content.escaped as nat)
    }
}

/// The UTF-8 encoding of a concatenation is the concatenation of the encodings.
pub proof fn lemma_encode_utf8_concat(a: Seq<char>, b: Seq<char>)
    ensures
        encode_utf8(a + b) == encode_utf8(a) + encode_utf8(b),
    decreases a.len(),
{
    if a.len() == 0 {
        assert(a + b == b);
    } else {
        lemma_encode_utf8_concat(a.drop_first(), b);
        assert((a + b).drop_first() == a.drop_first() + b);
    }
}

proof fn lemma_first_backslash(b: Seq<u8>, k: int)
    requires
        0 <= k <= b.len(),
    ensures
        k <= first_backslash(b, k) <= b.len(),
        first_backslash(b, k) < b.len() ==> b[first_backslash(b, k)] == 92u8,
        forall|j: int| k <= j < first_backslash(b, k) ==> b[j] != 92u8,
    decreases b.len() - k,
{
    if k < b.len() && b[k] != 92u8 {
        lemma_first_backslash(b, k + 1);
    }
}

proof fn lemma_continuation_end(b: Seq<u8>, k: int)
    requires
        0 <= k <= b.len(),
    ensures
        k <= continuation_end(b, k) <= b.len(),
        continuation_end(b, k) < b.len() ==> !is_continuation_byte(b[continuation_end(b, k)]),
    decreases b.len() - k,
{
    if k < b.len() && is_continuation_byte(b[k]) {
        lemma_continuation_end(b, k + 1);
    }
}

/// A valid UTF-8 byte sequence can be cut at any position that does not hold a continuation
/// byte.
proof fn lemma_boundary(b: Seq<u8>, k: int)
    requires
        valid_utf8(b),
        0 <= k <= b.len(),
        k < b.len() ==> !is_continuation_byte(b[k]),
    ensures
        is_char_boundary(b, k),
{
    if k == b.len() {
        is_char_boundary_start_end_of_seq(b);
    } else {
        is_char_boundary_iff_not_is_continuation_byte(b, k);
    }
}

/// In valid UTF-8, the byte after an ASCII byte starts a character.
proof fn lemma_after_ascii(b: Seq<u8>, i: int)
    requires
        valid_utf8(b),
        0 <= i,
        i + 1 < b.len(),
        b[i] < 128u8,
    ensures
        !is_continuation_byte(b[i + 1]),
{
    is_char_boundary_iff_not_is_continuation_byte(b, i);
    valid_utf8_split(b, i);
    let c = b.subrange(i, b.len() as int);
    reveal_with_fuel(valid_utf8, 2);
    assert(c[0] == b[i]);
    assert(pop_first_scalar(c) == c.subrange(1, c.len() as int));
    assert(pop_first_scalar(c)[0] == b[i + 1]);
}

/// Cuts `s` at byte `mid`, which must be on a character boundary.
fn cut(s: &str, mid: usize) -> (r: (&str, &str))
    requires
        mid <= s.spec_bytes().len(),
        is_char_boundary(s.spec_bytes(), mid as int),
    ensures
        r.0.spec_bytes() == s.spec_bytes().subrange(0, mid as int),
        r.1.spec_bytes() == s.spec_bytes().subrange(mid as int, s.spec_bytes().len() as int),
{
    s.split_at(mid)
}

/// Appends `piece` to `out`.
fn append_str(out: &mut String, piece: &str)
    ensures
        encode_utf8(final(out)@) == encode_utf8(old(out)@) + piece.spec_bytes(),
{
    let ghost before = out@;
    out.append(piece);
    proof {
        lemma_encode_utf8_concat(before, piece@);
    }
}

/// Removes up to `escaped_count` escaping backslashes from `raw`: each removed `\` keeps the
/// character after it; a `\` at the very end is kept.
pub fn unescape(raw: &str, escaped_count: usize) -> (r: String)
    ensures
        encode_utf8(r@) == spec_unescape(raw.spec_bytes(), escaped_count as nat),
{
    let mut out = String::new();
    let mut rest: &str = raw;
    let mut n = escaped_count;
    proof {
        encode_utf8_valid_utf8(raw@);
    }
    while n > 0
        invariant
            valid_utf8(rest.spec_bytes()),
            encode_utf8(out@) + spec_unescape(rest.spec_bytes(), n as nat) == spec_unescape(
                raw.spec_bytes(),
                escaped_count as nat,
            ),
        ensures
            encode_utf8(out@) + rest.spec_bytes() == spec_unescape(
                raw.spec_bytes(),
                escaped_count as nat,
            ),
        decreases n,
    {
        let bytes = rest.as_bytes();
        let ghost rb = bytes@;
        let len = bytes.len();
        let mut idx: usize = 0;
        while idx < len && bytes[idx] != 92u8
            invariant
                rb == bytes@,
                len == rb.len(),
                idx <= len,
                first_backslash(rb, idx as int) == first_backslash(rb, 0),
            decreases len - idx,
        {
            idx += 1;
        }
        proof {
            lemma_first_backslash(rb, 0);
        }
        if idx >= len || len - idx <= 1 {
            break;
        }
        // `\` is ASCII, so both sides of it are character boundaries.
        proof {
            lemma_boundary(rb, idx as int);
            lemma_after_ascii(rb, idx as int);
            lemma_boundary(rb, idx + 1);
        }
        let (before, after_bs) = cut(rest, idx);
        let ghost ab = after_bs.spec_bytes();
        proof {
            valid_utf8_split(rb, idx as int);
            assert(ab[0] == 92u8);
            lemma_after_ascii(ab, 0);
            lemma_boundary(ab, 1);
        }
        let (_, esc_and_rest) = cut(after_bs, 1);
        proof {
            assert(esc_and_rest.spec_bytes() == rb.subrange(idx + 1, len as int));
        }
        let eb = esc_and_rest.as_bytes();
        let elen = eb.len();
        let mut k: usize = 1;
        while k < elen && eb[k] >= 128u8 && eb[k] <= 191u8
            invariant
                1 <= k <= elen,
                elen == eb@.len(),
                rb.len() == len,
                idx + 1 < len,
                eb@ == rb.subrange(idx + 1, len as int),
                continuation_end(rb, idx + 1 + k) == continuation_end(rb, idx + 2),
            decreases elen - k,
        {
            k += 1;
        }
        proof {
            lemma_continuation_end(rb, idx + 2);
            valid_utf8_split(ab, 1);
            lemma_boundary(eb@, k as int);
        }
        let (escaped_char, remainder) = cut(esc_and_rest, k);
        proof {
            valid_utf8_split(eb@, k as int);
            assert(rb.subrange(0, idx as int) == before.spec_bytes());
            assert(rb.subrange(idx + 1, idx + 1 + k) == escaped_char.spec_bytes());
            assert(rb.subrange(idx + 1 + k, rb.len() as int) == remainder.spec_bytes());
        }
        append_str(&mut out, before);
        append_str(&mut out, escaped_char);
        rest = remainder;
        n -= 1;
    }
    append_str(&mut out, rest);
    out
}


/// With at most one escape per token, the escapes of `toks` number at most `toks.len()`.
pub proof fn lemma_escapes_bound(toks: Seq<Token>)
    requires
        forall|k: int| 0 <= k < toks.len() ==> #[trigger] toks[k].escaped <= 1,
    ensures
        0 <= escapes_of(toks) <= toks.len(),
    decreases toks.len(),
{
    if toks.len() > 0 {
        let init = toks.drop_last();
        assert forall|k: int| 0 <= k < init.len() implies #[trigger] init[k].escaped <= 1 by {
            assert(init[k] == toks[k]);
        }
        lemma_escapes_bound(init);
    }
}

impl Content {
    /// General constructor.
    pub fn new(span: Range<usize>, escaped: usize) -> (r: Content)
        ensures
            r.span == span,
            r.escaped == escaped,
    {
        Content { span, escaped }
    }

    /// Constructor for an unescaped span (the common case).
    pub fn span(range: Range<usize>) -> (r: Content)
        ensures
            r.span == range,
            r.escaped == 0,
    {
        Content::new(range, 0)
    }

    /// Constructor for the empty case.
    pub fn empty() -> (r: Content)
        ensures
            r.span == (Range { start: 0usize, end: 0usize }),
            r.escaped == 0,
    {
        Content::new(0..0, 0)
    }

    /// Returns the text this content represents: the bytes of `source` in the span, with the
    /// `\`-escapes removed when there are any.
    pub fn as_str(&self, source: &str) -> (r: String)
        requires
            span_fits(source.spec_bytes(), self.span),
        ensures
            encode_utf8(r@) == text_bytes(*self, source.spec_bytes()),
    {
        if self.span.start >= self.span.end {
            let r = String::new();
            proof {
                assert(encode_utf8(r@) == Seq::<u8>::empty());
                assert(raw_bytes(source.spec_bytes(), self.span) == Seq::<u8>::empty());
            }
            return r;
        }
        let ghost sb = source.spec_bytes();
        let start = self.span.start;
        let end = self.span.end;
        proof {
            encode_utf8_valid_utf8(source@);
        }
        let (_, tail) = cut(source, start);
        proof {
            valid_utf8_split(sb, start as int);
            let tb = tail.spec_bytes();
            if end < sb.len() {
                is_char_boundary_iff_not_is_continuation_byte(sb, end as int);
                assert(tb[end - start] == sb[end as int]);
            }
            lemma_boundary(tb, end - start);
        }
        let (raw, _) = cut(tail, end - start);
        proof {
            assert(raw.spec_bytes() == sb.subrange(start as int, end as int));
        }
        if self.escaped == 0 {
            raw.to_owned()
        } else {
            unescape(raw, self.escaped)
        }
    }

    /// Returns an owned copy of the text this content represents.
    pub fn to_string(&self, source: &str) -> (r: String)
        requires
            span_fits(source.spec_bytes(), self.span),
        ensures
            encode_utf8(r@) == text_bytes(*self, source.spec_bytes()),
    {
        self.as_str(source)
    }

    /// Returns `true` if this content represents an empty string.
    pub fn is_empty(&self) -> (r: bool)
        ensures
            r == (self.span.start >= self.span.end),
    {
        self.span.start >= self.span.end
    }

    /// Builds `Content` from a token slice: from the start of the first token to the end of the
    /// last, with the sum of their escapes.
    pub fn from_tokens(tokens: &[Token]) -> (r: Content)
        requires
            escapes_of(tokens@) <= usize::MAX,
        ensures
            r == content_of(tokens@),
    {
        let n = tokens.len();
        if n == 0 {
            return Content::empty();
        }
        let start = tokens[0].range.start;
        let end = tokens[n - 1].range.end;
        let mut escaped: usize = 0;
        let mut i: usize = 0;
        while i < n
            invariant
                n == tokens@.len(),
                i <= n,
                escaped == escapes_of(tokens@.subrange(0, i as int)),
                escapes_of(tokens@) <= usize::MAX,
            decreases n - i,
        {
            proof {
                lemma_escapes_prefix(tokens@, i + 1);
                assert(tokens@.subrange(0, i + 1).drop_last() == tokens@.subrange(0, i as int));
            }
            escaped = escaped + tokens[i].escaped;
            i = i + 1;
        }
        proof {
            assert(tokens@.subrange(0, n as int) == tokens@);
        }
        Content::new(start..end, escaped)
    }
}

/// Escape counts only grow along a prefix.
proof fn lemma_escapes_prefix(toks: Seq<Token>, i: int)
    requires
        0 <= i <= toks.len(),
    ensures
        escapes_of(toks.subrange(0, i)) <= escapes_of(toks),
    decreases toks.len(),
{
    if i < toks.len() {
        lemma_escapes_prefix(toks.drop_last(), i);
        assert(toks.drop_last().subrange(0, i) == toks.subrange(0, i));
    } else {
        assert(toks.subrange(0, i) == toks);
    }
}

/// Identifies which node an [`Op`] refers to.
///
/// Used in [`OpKind::Start`] and [`OpKind::End`] to mark the boundaries of nested structures
/// in the flat operation stream.
#[derive(Debug, Clone, Copy, PartialEq, Eq, Structural)]
pub enum Node {
    Anchor,
    Bold,
    Code,
    CodeSpan,
    Collapsible,
    Destination,
    Document,
    Embed,
    Emphasis,
    Heading,
    Highlight,
    Icon,
    Image,
    Images,
    Italic,
    ListItem,
    Modifier,
    Metadata,
    OrderedList,
    Paragraph,
    Strikethrough,
    ThematicBreak,
    Title,
    UnorderedList,
}

/// Describes the role of an [`Op`] in the operation stream.
///
/// The operation stream represents nested document structure as a flat sequence using
/// Start/End pairs with Value nodes for leaf content:
///
/// ```text
/// Start(Paragraph) -> Value("hello ") -> Start(Bold) -> Value("world") -> End(Bold) -> End(Paragraph)
/// ```
#[derive(Debug, Clone, Copy, PartialEq, Eq, Structural)]
pub enum OpKind {
    /// Opens a new node. Everything until the matching [`End`](OpKind::End) is a child.
    Start(Node),
    /// Closes the most recently opened node of this type.
    End(Node),
    /// Leaf content belonging to the innermost open node.
    Value,
}

/// A single operation: an [`OpKind`] with the [`Content`] it covers.
///
/// The parser produces a `Vec<Op>` where Start/End pairs encode nesting and Value ops carry
/// text content.
#[derive(Debug, PartialEq)]
pub struct Op {
    pub kind: OpKind,
    pub content: Content,
}

impl Op {
    /// Creates a [`Value`](OpKind::Value) operation with the given content.
    pub fn new_value(content: Content) -> (r: Op)
        ensures
            r == (Op { kind: OpKind::Value, content }),
    {
        Op { kind: OpKind::Value, content }
    }

    /// Creates a [`Start`](OpKind::Start) operation for the given node type.
    pub fn new_start(node: Node, content: Content) -> (r: Op)
        ensures
            r == (Op { kind: OpKind::Start(node), content }),
    {
        Op { kind: OpKind::Start(node), content }
    }

    /// Creates an [`End`](OpKind::End) operation for the given node type.
    pub fn new_end(node: Node, content: Content) -> (r: Op)
        ensures
            r == (Op { kind: OpKind::End(node), content }),
    {
        Op { kind: OpKind::End(node), content }
    }
}

/// The operations of a text whose tokens are `toks`: those of the metadata block, if the text
/// opens with one (see [`metadata`](metadata::metadata)), then the document's from where it
/// ends (see [`doc_res`]).
pub open spec fn parse_ops(toks: Seq<Token>) -> Seq<Op> {
    let (k, meta) = match delimited_at(toks, Seq::empty(), 0, Node::Metadata, three_dashes(), three_dashes()) {
        Some((e, ops)) => (e, ops),
        None => (0, Seq::empty()),
    };
    meta + doc_res(toks, Seq::empty(), k).2
}

/// Operations that cover a text from its start by the spans of its tokens all fit it.
proof fn lemma_spans_fit(b: Seq<u8>, ops: Seq<Op>)
    requires
        vstd::utf8::valid_utf8(b),
        b.len() <= usize::MAX,
        covers(spec_tokens(b), ops, 0, b.len() as int),
    ensures
        forall|i: int| 0 <= i < ops.len() ==> span_fits(b, #[trigger] ops[i].content.span),
{
    let t = spec_tokens(b);
    crate::lexer::lemma_tokens_clean(b);
    crate::lexer::lemma_tokens_tile(b, 0);
    assert(crate::op::laws::at_token_bound(t, 0)) by {
        reveal(crate::op::laws::at_token_bound);
        assert(bpos(t, 0) == 0);
    }
    crate::op::laws::lemma_covers_bounds(t, ops, 0, b.len() as int);
    assert forall|i: int| 0 <= i < ops.len() implies span_fits(b, #[trigger] ops[i].content.span) by {
        let c = ops[i].content.span;
        if c.start < c.end {
            lemma_bound_boundary(b, c.start as int);
            lemma_bound_boundary(b, c.end as int);
        }
    }
}

/// A token bound of UTF-8 text within it is a character boundary.
proof fn lemma_bound_boundary(b: Seq<u8>, j: int)
    requires
        vstd::utf8::valid_utf8(b),
        b.len() <= usize::MAX,
        0 <= j <= b.len(),
        crate::op::laws::at_token_bound(spec_tokens(b), j),
    ensures
        vstd::utf8::is_char_boundary(b, j),
{
    let t = spec_tokens(b);
    crate::lexer::lemma_tokens_clean(b);
    crate::lexer::lemma_tokens_tile(b, 0);
    reveal(crate::op::laws::at_token_bound);
    let k = choose|k: int| 0 <= k <= t.len() && #[trigger] bpos(t, k) == j;
    if 0 <= k < t.len() {
        assert(crate::lexer::clean_cut(b, t[k].range.start as int));
    } else if t.len() > 0 {
        assert(crate::lexer::clean_cut(b, t[t.len() - 1].range.end as int));
    }
    crate::lexer::lemma_clean_cut(b, j);
}

/// Parses markdown source text into a flat operation stream: the metadata block, if the text
/// opens with one, then the document.
///
/// The operations nest (every Start is closed by the End of the same node, in order) and their
/// contents cover every byte of `input` exactly once, in order, each starting and ending at a
/// character boundary.
pub fn parse(input: &str) -> (r: Vec<Op>)
    ensures
        balanced(r@),
        covers(spec_tokens(input.spec_bytes()), r@, 0, input.spec_bytes().len() as int),
        forall|i: int| 0 <= i < r@.len() ==> span_fits(input.spec_bytes(), #[trigger] r@[i].content.span),
        r@.len() >= 2,
        r@[0].kind == if delimited(
            spec_tokens(input.spec_bytes()),
            Seq::empty(),
            0,
            three_dashes(),
            three_dashes(),
        ) is Some {
            OpKind::Start(Node::Metadata)
        } else {
            OpKind::Start(Node::Document)
        },
        r@.last() == (Op { kind: OpKind::End(Node::Document), content: Content { span: 0..0, escaped: 0 } }),
        r@ == parse_ops(spec_tokens(input.spec_bytes())),
        ({
            let n = r@.len() as int;
            let m = if r@[0].kind == OpKind::Start(Node::Metadata) {
                3int
            } else {
                0int
            };
            &&& m + 2 <= n
            &&& m == 3 ==> r@[1].kind == OpKind::Value && r@[2].kind == OpKind::End(Node::Metadata)
            &&& r@[m].kind == OpKind::Start(Node::Document)
            &&& balanced(r@.subrange(m + 1, n - 1))
        }),
{
    let len = input.as_bytes().len();
    let mut parser = Parser::new(input);
    let ghost p0 = parser;
    assert(len == input.spec_bytes().len());
    let had_metadata = metadata(&mut parser);
    let ghost p1 = parser;
    document(&mut parser);
    let ghost p2 = parser;
    proof {
        lemma_advanced_trans(p0, p1, p2);
        assert(p2.ops@ =~= added(p0, p2));
        let n = p0.toks().len();
        assert(p2.pos as int == n);
        let len = input.spec_bytes().len() as int;
        assert(bpos(p0.toks(), 0) == 0);
        assert(bpos(p0.toks(), n as int) == len);
        let a = added(p1, p2);
        assert(added(p0, p2).last() == a.last());
        assert(p0.stack() =~= Seq::<crate::op::parser::StopCondition>::empty());
        if had_metadata {
            assert(added(p0, p1) == p1.ops@);
            assert(added(p0, p2)[0] == added(p0, p1)[0]);
        } else {
            assert(added(p0, p2)[0] == a[0]);
        }
        assert(p1.ops@ =~= added(p0, p1));
        assert(p2.ops@ =~= p1.ops@ + a);
        let m = p1.ops@.len() as int;
        assert(p2.ops@.subrange(m + 1, p2.ops@.len() - 1) =~= a.subrange(1, a.len() - 1));
        assert(p2.ops@[m] == a[0]);
        if had_metadata {
            assert(m == 3);
            assert(p2.ops@[1] == p1.ops@[1]);
            assert(p2.ops@[2] == p1.ops@[2]);
        } else {
            assert(m == 0);
        }
        vstd::utf8::encode_utf8_valid_utf8(input@);
        lemma_spans_fit(input.spec_bytes(), p2.ops@);
    }
    parser.into_ops()
}

} // verus!
