//! What a node parser may do to a [`Parser`]: consume tokens, turn some tokens literal, and
//! append operations that nest and cover exactly the bytes it consumed.
use crate::lexer::{chained, Token};
use std::ops::Range;
use crate::op::laws::{
    balanced, covers, lemma_balanced_concat, lemma_balanced_small, lemma_balanced_wrap,
    lemma_covers_concat, lemma_covers_one, lemma_covers_retok,
};
use crate::op::parser::{
    bpos, clear, eof_at, lemma_not_eof, lemma_until, never_stops, span_of, toks_evolve, until, Parser,
    StopCondition,
};
use crate::op::{content_of, escapes_of, Content, Node, Op, OpKind};
use vstd::prelude::*;

verus! {

/// The operations that `new` holds beyond those of `old`.
pub open spec fn added<'a>(old: Parser<'a>, new: Parser<'a>) -> Seq<Op> {
    new.ops@.subrange(old.ops@.len() as int, new.ops@.len() as int)
}

/// `new` follows `old` by a parsing step over the tokens `old.pos..new.pos`: the source and the
/// stop conditions are kept, tokens at most turn literal, the earlier operations stay, and the
/// operations added nest and cover exactly the bytes of the consumed tokens, in order.
pub open spec fn advanced<'a>(old: Parser<'a>, new: Parser<'a>) -> bool {
    &&& new.source == old.source
    &&& new.stack() == old.stack()
    &&& toks_evolve(old.toks(), new.toks())
    &&& new.wf()
    &&& old.pos <= new.pos
    &&& old.ops@.len() <= new.ops@.len()
    &&& new.ops@.subrange(0, old.ops@.len() as int) == old.ops@
    &&& balanced(added(old, new))
    &&& covers(old.toks(), added(old, new), bpos(old.toks(), old.pos as int), bpos(old.toks(), new.pos as int))
}

/// `new` is `old` again, except that some tokens may have turned literal.
pub open spec fn kept<'a>(old: Parser<'a>, new: Parser<'a>) -> bool {
    &&& advanced(old, new)
    &&& new.pos == old.pos
    &&& new.ops@ == old.ops@
}

/// A node of kind `n` whose opening, body and closing contents are the given ones.
pub open spec fn node_ops(n: Node, open: Content, body: Content, close: Content) -> Seq<Op> {
    seq![
        Op { kind: OpKind::Start(n), content: open },
        Op { kind: OpKind::Value, content: body },
        Op { kind: OpKind::End(n), content: close },
    ]
}

/// The content of no tokens is the empty content.
pub proof fn lemma_span_empty(toks: Seq<Token>, a: int)
    requires
        0 <= a <= toks.len(),
    ensures
        span_of(toks, a, a) == (Content { span: 0..0, escaped: 0 }),
{
    assert(toks.subrange(a, a).len() == 0);
}

/// Every sequence of tokens evolves into itself.
pub proof fn lemma_evolve_refl(t: Seq<Token>)
    ensures
        toks_evolve(t, t),
{
}

/// Evolving twice is evolving.
pub proof fn lemma_evolve_trans(a: Seq<Token>, b: Seq<Token>, c: Seq<Token>)
    requires
        toks_evolve(a, b),
        toks_evolve(b, c),
    ensures
        toks_evolve(a, c),
{
    assert forall|k: int| 0 <= k < a.len() implies {
        &&& (#[trigger] c[k]).range == a[k].range
        &&& c[k].position == a[k].position
        &&& c[k].escaped == a[k].escaped
        &&& (c[k].kind == a[k].kind || c[k].kind == crate::lexer::TokenKind::Literal)
    } by {
        assert(b[k].range == a[k].range);
        assert(c[k].range == b[k].range);
    }
}

/// Evolved tokens are still contiguous and have the same byte offsets.
pub proof fn lemma_evolve_keeps(a: Seq<Token>, b: Seq<Token>)
    requires
        toks_evolve(a, b),
    ensures
        chained(a) ==> chained(b),
        forall|k: int| #[trigger] bpos(b, k) == bpos(a, k),
{
    if chained(a) {
        assert forall|k: int| 0 <= k < b.len() implies #[trigger] b[k].range.start < b[k].range.end
            && b[k].escaped <= 1 by {
            assert(b[k].range == a[k].range);
            assert(a[k].range.start < a[k].range.end);
        }
        assert forall|k: int| 0 <= k < b.len() - 1 implies #[trigger] b[k].range.end == b[k
            + 1].range.start by {
            assert(b[k].range == a[k].range);
            assert(b[k + 1].range == a[k + 1].range);
            assert(a[k].range.end == a[k + 1].range.start);
        }
    }
    assert forall|k: int| #[trigger] bpos(b, k) == bpos(a, k) by {
        if 0 <= k < a.len() {
            assert(b[k].range == a[k].range);
        } else if a.len() > 0 {
            assert(b[b.len() - 1].range == a[a.len() - 1].range);
        }
    }
}

proof fn lemma_escapes_evolve(a: Seq<Token>, b: Seq<Token>)
    requires
        a.len() == b.len(),
        forall|k: int| 0 <= k < a.len() ==> (#[trigger] b[k]).escaped == a[k].escaped,
    ensures
        escapes_of(a) == escapes_of(b),
    decreases a.len(),
{
    if a.len() > 0 {
        let (ia, ib) = (a.drop_last(), b.drop_last());
        assert forall|k: int| 0 <= k < ia.len() implies (#[trigger] ib[k]).escaped
            == ia[k].escaped by {
            assert(ia[k] == a[k] && ib[k] == b[k]);
        }
        lemma_escapes_evolve(ia, ib);
        assert(b.last() == b[b.len() - 1]);
    }
}

/// Evolved tokens make up the same contents.
pub proof fn lemma_evolve_span(a: Seq<Token>, b: Seq<Token>, x: int, y: int)
    requires
        toks_evolve(a, b),
        0 <= x <= y <= a.len(),
    ensures
        span_of(b, x, y) == span_of(a, x, y),
{
    let (sa, sb) = (a.subrange(x, y), b.subrange(x, y));
    assert forall|k: int| 0 <= k < sa.len() implies (#[trigger] sb[k]).escaped
        == sa[k].escaped by {
        assert(sa[k] == a[x + k] && sb[k] == b[x + k]);
    }
    lemma_escapes_evolve(sa, sb);
    if y > x {
        assert(sa[0] == a[x] && sb[0] == b[x]);
        assert(b[x].range == a[x].range);
        assert(sa.last() == a[y - 1] && sb.last() == b[y - 1]);
        assert(b[y - 1].range == a[y - 1].range);
    }
}

/// Byte offsets grow with the token index.
pub proof fn lemma_bpos_mono(toks: Seq<Token>, a: int, b: int)
    requires
        chained(toks),
        0 <= a <= b <= toks.len(),
    ensures
        bpos(toks, a) <= bpos(toks, b),
        a < b ==> bpos(toks, a) < bpos(toks, b),
    decreases b - a,
{
    if a < b {
        lemma_bpos_mono(toks, a + 1, b);
        assert(toks[a].range.start < toks[a].range.end);
        if a + 1 < toks.len() {
            assert(toks[a].range.end == toks[a + 1].range.start);
        }
    }
}

/// The content of the tokens `a..b` spans the bytes `bpos(a)..bpos(b)`.
pub proof fn lemma_span_bytes(toks: Seq<Token>, a: int, b: int)
    requires
        chained(toks),
        0 <= a < b <= toks.len(),
    ensures
        span_of(toks, a, b).span.start == bpos(toks, a),
        span_of(toks, a, b).span.end == bpos(toks, b),
        bpos(toks, a) < bpos(toks, b),
{
    let sub = toks.subrange(a, b);
    assert(sub[0] == toks[a]);
    assert(sub.last() == toks[b - 1]);
    if b < toks.len() {
        assert(toks[b - 1].range.end == toks[b].range.start);
    }
    lemma_bpos_mono(toks, a, b);
}

/// One operation holding the content of the tokens `a..b` covers their bytes.
pub proof fn lemma_span_covers(toks: Seq<Token>, a: int, b: int, kind: OpKind)
    requires
        chained(toks),
        0 <= a <= b <= toks.len(),
    ensures
        covers(toks, seq![Op { kind, content: span_of(toks, a, b) }], bpos(toks, a), bpos(toks, b)),
{
    if a < b {
        lemma_span_bytes(toks, a, b);
    } else {
        lemma_span_empty(toks, a);
    }
    assert(crate::op::laws::at_token_bound(toks, bpos(toks, b))) by {
        reveal(crate::op::laws::at_token_bound);
        assert(bpos(toks, b) == bpos(toks, b));
    }
    lemma_covers_one(toks, Op { kind, content: span_of(toks, a, b) }, bpos(toks, a), bpos(toks, b));
}

/// The three operations of a node over the tokens `a..b`, `b..c` and `c..d` nest and cover
/// the bytes of `a..d`.
pub proof fn lemma_node_ops(toks: Seq<Token>, n: Node, a: int, b: int, c: int, d: int)
    requires
        chained(toks),
        0 <= a <= b <= c <= d <= toks.len(),
    ensures
        balanced(node_ops(n, span_of(toks, a, b), span_of(toks, b, c), span_of(toks, c, d))),
        covers(
            toks,
            node_ops(n, span_of(toks, a, b), span_of(toks, b, c), span_of(toks, c, d)),
            bpos(toks, a),
            bpos(toks, d),
        ),
{
    let s = Op { kind: OpKind::Start(n), content: span_of(toks, a, b) };
    let v = Op { kind: OpKind::Value, content: span_of(toks, b, c) };
    let e = Op { kind: OpKind::End(n), content: span_of(toks, c, d) };
    lemma_balanced_small(v);
    lemma_balanced_wrap(s, seq![v], e, n);
    assert(node_ops(n, s.content, v.content, e.content) == seq![s] + seq![v] + seq![e]);
    lemma_span_covers(toks, a, b, s.kind);
    lemma_span_covers(toks, b, c, v.kind);
    lemma_span_covers(toks, c, d, e.kind);
    lemma_covers_concat(toks, seq![s], seq![v], bpos(toks, a), bpos(toks, b), bpos(toks, c));
    lemma_covers_concat(toks, seq![s] + seq![v], seq![e], bpos(toks, a), bpos(toks, c), bpos(toks, d));
}

/// A parser that is unchanged but for its tokens turning literal is kept.
pub proof fn lemma_kept<'a>(p0: Parser<'a>, p1: Parser<'a>)
    requires
        p0.wf(),
        p1.source == p0.source,
        p1.stack() == p0.stack(),
        toks_evolve(p0.toks(), p1.toks()),
        p1.pos == p0.pos,
        p1.ops@ == p0.ops@,
    ensures
        kept(p0, p1),
{
    lemma_evolve_keeps(p0.toks(), p1.toks());
    assert(p1.ops@.subrange(0, p0.ops@.len() as int) =~= p0.ops@);
    assert(added(p0, p1) =~= Seq::<Op>::empty());
    crate::op::laws::lemma_covers_empty(p0.toks(), bpos(p0.toks(), p0.pos as int));
    lemma_balanced_small(Op { kind: OpKind::Value, content: Content { span: 0..0, escaped: 0 } });
}

/// Appending operations that nest and cover the bytes of the consumed tokens is a step.
pub proof fn lemma_appended<'a>(p0: Parser<'a>, p1: Parser<'a>, ops: Seq<Op>)
    requires
        p0.wf(),
        p1.wf(),
        p1.source == p0.source,
        p1.stack() == p0.stack(),
        p1.toks() == p0.toks(),
        p0.pos <= p1.pos,
        p1.ops@ == p0.ops@ + ops,
        balanced(ops),
        covers(p0.toks(), ops, bpos(p0.toks(), p0.pos as int), bpos(p0.toks(), p1.pos as int)),
    ensures
        advanced(p0, p1),
        added(p0, p1) == ops,
{
    assert(added(p0, p1) =~= ops);
    assert(p1.ops@.subrange(0, p0.ops@.len() as int) =~= p0.ops@);
    lemma_evolve_refl(p0.toks());
}

/// A step taken with more stop conditions on the stack, which are taken off again afterwards,
/// is a step.
pub proof fn lemma_restack<'a>(p0: Parser<'a>, p1: Parser<'a>, p2: Parser<'a>, p3: Parser<'a>)
    requires
        p0.wf(),
        advanced(p1, p2),
        p1.source == p0.source,
        p1.toks() == p0.toks(),
        p1.pos == p0.pos,
        p1.ops@ == p0.ops@,
        p3.source == p2.source,
        p3.toks() == p2.toks(),
        p3.pos == p2.pos,
        p3.ops@ == p2.ops@,
        p3.stack() == p0.stack(),
    ensures
        advanced(p0, p3),
        added(p0, p3) == added(p1, p2),
{
}

/// Two parsing steps in a row make one.
pub proof fn lemma_advanced_trans<'a>(p0: Parser<'a>, p1: Parser<'a>, p2: Parser<'a>)
    requires
        advanced(p0, p1),
        advanced(p1, p2),
    ensures
        advanced(p0, p2),
        added(p0, p2) == added(p0, p1) + added(p1, p2),
{
    lemma_evolve_trans(p0.toks(), p1.toks(), p2.toks());
    lemma_evolve_keeps(p0.toks(), p1.toks());
    let (l0, l1, l2) = (p0.ops@.len() as int, p1.ops@.len() as int, p2.ops@.len() as int);
    assert(p2.ops@.subrange(0, l0) == p2.ops@.subrange(0, l1).subrange(0, l0));
    assert(added(p0, p2) =~= added(p0, p1) + added(p1, p2)) by {
        assert(p2.ops@.subrange(0, l1) == p1.ops@);
    }
    lemma_balanced_concat(added(p0, p1), added(p1, p2));
    lemma_covers_retok(p1.toks(), p0.toks(), added(p1, p2), bpos(p1.toks(), p1.pos as int), bpos(p1.toks(), p2.pos as int));
    lemma_covers_concat(
        p0.toks(),
        added(p0, p1),
        added(p1, p2),
        bpos(p0.toks(), p0.pos as int),
        bpos(p0.toks(), p1.pos as int),
        bpos(p0.toks(), p2.pos as int),
    );
}

/// The content of nothing.
pub open spec fn no_content() -> Content {
    Content { span: 0..0, escaped: 0 }
}

/// What a parsing step with a determined outcome does: for `Some((e, ops))` it returns `true`,
/// appends `ops` and moves the cursor to `e`; for `None` it returns `false` and changes nothing.
pub open spec fn outcome<'a>(old: Parser<'a>, new: Parser<'a>, r: bool, res: Option<(int, Seq<Op>)>) -> bool {
    &&& advanced(old, new)
    &&& new.toks() == old.toks()
    &&& match res {
        Some((e, ops)) => {
            &&& r
            &&& new.pos == e
            &&& new.ops@ == old.ops@ + ops
        },
        None => !r && kept(old, new),
    }
}

/// Where the closing token is of a node that opens with a token meeting `open` at `pos` and
/// closes at the first later token meeting `close`, before a logical end of input.
pub open spec fn delimited(
    toks: Seq<Token>,
    stack: Seq<StopCondition>,
    pos: int,
    open: spec_fn(Token) -> bool,
    close: spec_fn(Token) -> bool,
) -> Option<int> {
    if 0 <= pos < toks.len() && open(toks[pos]) {
        until(toks, stack, pos + 1, close)
    } else {
        None
    }
}

/// The node of kind `n` that opens with token `pos` and closes with token `j`.
pub open spec fn delimited_ops(toks: Seq<Token>, n: Node, pos: int, j: int) -> Seq<Op> {
    node_ops(n, span_of(toks, pos, pos + 1), span_of(toks, pos + 1, j), span_of(toks, j, j + 1))
}

/// The delimited node of kind `n` at `pos`, if one stands there: where it ends and its
/// operations.
pub open spec fn delimited_at(
    toks: Seq<Token>,
    stack: Seq<StopCondition>,
    pos: int,
    n: Node,
    open: spec_fn(Token) -> bool,
    close: spec_fn(Token) -> bool,
) -> Option<(int, Seq<Op>)> {
    match delimited(toks, stack, pos, open, close) {
        Some(j) => Some((j + 1, delimited_ops(toks, n, pos, j))),
        None => None,
    }
}

/// What parsing a delimited node of kind `n` does: where [`delimited`] finds the closing token
/// `j`, the node's three operations are appended and the cursor moves past `j`; elsewhere
/// nothing changes.
pub open spec fn delimited_step<'a>(
    old: Parser<'a>,
    new: Parser<'a>,
    r: bool,
    n: Node,
    open: spec_fn(Token) -> bool,
    close: spec_fn(Token) -> bool,
) -> bool {
    &&& advanced(old, new)
    &&& new.toks() == old.toks()
    &&& match delimited(old.toks(), old.stack(), old.pos as int, open, close) {
        Some(j) => {
            &&& r
            &&& new.pos == j + 1
            &&& new.ops@ == old.ops@ + delimited_ops(old.toks(), n, old.pos as int, j)
            &&& clear(old.toks(), old.stack(), old.pos as int, j + 1)
        },
        None => !r && kept(old, new),
    }
}

/// Parses a node of kind `n` that opens with a token meeting `open` at the cursor and closes
/// at the first later token meeting `close`; on success pushes Start (the opening token), a
/// Value (the tokens between) and End (the closing token).
pub(crate) fn delimited_node(
    p: &mut Parser,
    n: Node,
    open: impl Fn(&Token) -> bool,
    Ghost(om): Ghost<spec_fn(Token) -> bool>,
    close: impl Fn(&Token) -> bool,
    Ghost(cm): Ghost<spec_fn(Token) -> bool>,
) -> (r: bool)
    requires
        old(p).wf(),
        forall|t: &Token| #[trigger] open.requires((t,)),
        forall|t: &Token, b: bool| open.ensures((t,), b) ==> b == om(*t),
        forall|t: Token| #[trigger] om(t) ==> never_stops(t),
        forall|t: &Token| #[trigger] close.requires((t,)),
        forall|t: &Token, b: bool| close.ensures((t,), b) ==> b == cm(*t),
    ensures
        delimited_step(*old(p), *final(p), r, n, om, cm),
        r ==> final(p).pos > old(p).pos,
{
    let ghost p0 = *p;
    let start = p.pos;
    let start_range = match p.eat_where(open, Ghost(om)) {
        Some(r) => r,
        None => {
            proof {
                lemma_kept(p0, *p);
            }
            return false;
        },
    };
    let (body_range, end_range) = match p.scan_until(close, Ghost(cm)) {
        Some(found) => found,
        None => {
            p.pos = start;
            proof {
                lemma_kept(p0, *p);
            }
            return false;
        },
    };
    proof {
        lemma_until(p0.toks(), p0.stack(), start + 1, cm);
        lemma_not_eof(p0.toks(), p0.stack(), start as int);
    }
    let start_content = p.span(start_range);
    let body_content = p.span(body_range);
    let end_content = p.span(end_range);
    p.ops.push(Op::new_start(n, start_content));
    p.ops.push(Op::new_value(body_content));
    p.ops.push(Op::new_end(n, end_content));
    proof {
        let j = end_range.start as int;
        lemma_node_ops(p0.toks(), n, start as int, start + 1, j, j + 1);
        assert(p.ops@ =~= p0.ops@ + delimited_ops(p0.toks(), n, start as int, j));
        assert(added(p0, *p) =~= delimited_ops(p0.toks(), n, start as int, j));
        assert(p.ops@.subrange(0, p0.ops@.len() as int) =~= p0.ops@);
        lemma_evolve_refl(p0.toks());
    }
    true
}

/// Where the text that is not yet emitted starts: at `s` if some is pending, else at `q`.
pub open spec fn pending(s: Option<usize>, q: int) -> int {
    match s {
        Some(x) => x as int,
        None => q,
    }
}

/// The Value that holds the pending text from `s` up to `q`, if any is pending.
pub open spec fn text_op(toks: Seq<Token>, s: Option<usize>, q: int) -> Seq<Op> {
    match s {
        Some(x) => seq![Op { kind: OpKind::Value, content: span_of(toks, x as int, q) }],
        None => Seq::empty(),
    }
}

/// Emitting the pending text and then the operations `a` of an inline node over the tokens
/// `q..e` keeps the operations nested and covering.
pub proof fn lemma_inline(t: Seq<Token>, body: Seq<Op>, lo: int, s: Option<usize>, q: int, a: Seq<Op>, e: int)
    requires
        chained(t),
        0 <= q <= e <= t.len(),
        s matches Some(x) ==> 0 <= x <= q,
        balanced(body),
        covers(t, body, lo, bpos(t, pending(s, q))),
        balanced(a),
        covers(t, a, bpos(t, q), bpos(t, e)),
    ensures
        balanced(body + text_op(t, s, q) + a),
        covers(t, body + text_op(t, s, q) + a, lo, bpos(t, e)),
{
    match s {
        Some(x) => {
            let v = Op { kind: OpKind::Value, content: span_of(t, x as int, q) };
            lemma_balanced_small(v);
            lemma_span_covers(t, x as int, q, OpKind::Value);
            lemma_covers_concat(t, body, seq![v], lo, bpos(t, x as int), bpos(t, q));
            lemma_balanced_concat(body, seq![v]);
        },
        None => {
            assert(body + text_op(t, s, q) =~= body);
        },
    }
    lemma_balanced_concat(body + text_op(t, s, q), a);
    lemma_covers_concat(t, body + text_op(t, s, q), a, lo, bpos(t, q), bpos(t, e));
}

/// Wrapping operations that cover `b..c` between a Start covering `a..b` and an End covering
/// `c..d` of the same node gives nested operations covering `a..d`.
pub proof fn lemma_wrap(t: Seq<Token>, s: Op, body: Seq<Op>, z: Op, n: Node, a: int, b: int, c: int, d: int)
    requires
        s.kind == OpKind::Start(n),
        z.kind == OpKind::End(n),
        balanced(body),
        covers(t, seq![s], a, b),
        covers(t, body, b, c),
        covers(t, seq![z], c, d),
    ensures
        balanced(seq![s] + body + seq![z]),
        covers(t, seq![s] + body + seq![z], a, d),
{
    lemma_balanced_wrap(s, body, z, n);
    lemma_covers_concat(t, seq![s], body, a, b, c);
    lemma_covers_concat(t, seq![s] + body, seq![z], a, c, d);
}


#[verifier::opaque]
/// The operations of text with nodes in it, from token `k` on, with the text pending since
/// `ts`: up to the first logical end of input, Values for the text between the nodes that
/// `node` finds (where each ends and its operations), and those nodes' operations, in order.
pub open spec fn text_run(
    toks: Seq<Token>,
    stack: Seq<StopCondition>,
    k: int,
    ts: Option<usize>,
    node: spec_fn(int) -> Option<(int, Seq<Op>)>,
) -> Seq<Op>
    decreases toks.len() - k,
{
    if k < 0 || k >= toks.len() || eof_at(toks, stack, k) {
        text_op(toks, ts, k)
    } else {
        match node(k) {
            Some((e, ops)) => if k < e <= toks.len() {
                text_op(toks, ts, k) + ops + text_run(toks, stack, e, None, node)
            } else {
                Seq::empty()
            },
            None => text_run(
                toks,
                stack,
                k + 1,
                if ts is Some {
                    ts
                } else {
                    Some(k as usize)
                },
                node,
            ),
        }
    }
}

/// What is emitted stays a prefix of the whole when a step emits `t + a` and leaves `r2`.
pub proof fn lemma_emit(whole: Seq<Op>, body: Seq<Op>, r1: Seq<Op>, t: Seq<Op>, a: Seq<Op>, r2: Seq<Op>)
    requires
        whole == body + r1,
        r1 == t + a + r2,
    ensures
        whole == (body + t + a) + r2,
{
    assert((body + t + a) + r2 =~= body + (t + a + r2));
}

/// At a logical end of input, the pending text remains.
pub proof fn lemma_text_run_end(
    toks: Seq<Token>,
    stack: Seq<StopCondition>,
    k: int,
    ts: Option<usize>,
    node: spec_fn(int) -> Option<(int, Seq<Op>)>,
)
    requires
        0 <= k,
        k >= toks.len() || eof_at(toks, stack, k),
    ensures
        text_run(toks, stack, k, ts, node) == text_op(toks, ts, k),
{
    reveal(text_run);
}

/// At a node, the pending text, the node and the rest remain.
pub proof fn lemma_text_run_node(
    toks: Seq<Token>,
    stack: Seq<StopCondition>,
    k: int,
    ts: Option<usize>,
    node: spec_fn(int) -> Option<(int, Seq<Op>)>,
)
    requires
        0 <= k < toks.len(),
        !eof_at(toks, stack, k),
        node(k) matches Some((e, _)) && k < e <= toks.len(),
    ensures
        ({
            let (e, ops) = node(k)->0;
            text_run(toks, stack, k, ts, node) == text_op(toks, ts, k) + ops + text_run(toks, stack, e, None, node)
        }),
{
    reveal(text_run);
}

/// At a token that starts no node, the text pending goes on.
pub proof fn lemma_text_run_text(
    toks: Seq<Token>,
    stack: Seq<StopCondition>,
    k: int,
    ts: Option<usize>,
    node: spec_fn(int) -> Option<(int, Seq<Op>)>,
)
    requires
        0 <= k < toks.len(),
        !eof_at(toks, stack, k),
        node(k) is None,
    ensures
        text_run(toks, stack, k, ts, node) == text_run(
            toks,
            stack,
            k + 1,
            if ts is Some {
                ts
            } else {
                Some(k as usize)
            },
            node,
        ),
{
    reveal(text_run);
}

} // verus!
