//! `# text`: a heading, whose text may hold anchors.
use crate::lexer::{Token, TokenKind};
use crate::op::anchor::{anchor, anchor_at, lemma_anchor_clear};
use crate::op::laws::{balanced, covers, lemma_covers_one};
use crate::op::parser::{
    bpos, clear, eof_at, first_eof, lemma_first_eof_clear, span_of, tok_len, Parser, StopCondition,
};
use crate::op::step::{
    added, advanced, lemma_appended, lemma_inline, lemma_kept, lemma_span_covers,
    lemma_emit, lemma_text_run_end, lemma_text_run_node, outcome, lemma_text_run_text, lemma_wrap, no_content, pending,
    text_op, text_run,
};
use crate::op::{Content, Node, Op, OpKind};
use vstd::prelude::*;

verus! {

/// One to six `#` at the start of a line.
pub open spec fn hashes() -> spec_fn(Token) -> bool {
    |t: Token| t.kind == TokenKind::Hash && t.position.column == 0 && tok_len(t) <= 6
}

/// A single space.
pub open spec fn space1() -> spec_fn(Token) -> bool {
    |t: Token| t.kind == TokenKind::Space && tok_len(t) == 1
}

fn is_hash(t: &Token) -> (r: bool)
    ensures
        r == hashes()(*t),
{
    t.kind == TokenKind::Hash && t.position.column == 0 && (t.range.end < t.range.start
        || t.range.end - t.range.start <= 6)
}

fn is_space(t: &Token) -> (r: bool)
    ensures
        r == space1()(*t),
{
    t.kind == TokenKind::Space && t.range.end >= t.range.start && t.range.end - t.range.start == 1
}

/// A heading starts at `pos`: one to six `#` at the start of a line and a single space.
pub open spec fn heading_start(toks: Seq<Token>, pos: int) -> bool {
    0 <= pos && pos + 1 < toks.len() && hashes()(toks[pos]) && space1()(toks[pos + 1])
}

/// [`anchor_at`] as a function of the position.
pub open spec fn anchor_node_at(toks: Seq<Token>, stack: Seq<StopCondition>) -> spec_fn(int) -> Option<(int, Seq<Op>)> {
    |k: int| anchor_at(toks, stack, k)
}

/// The heading at `pos`, if one starts there (see [`heading_start`]): where it ends, at the
/// first logical end of input, and its operations.
pub open spec fn heading_res(toks: Seq<Token>, stack: Seq<StopCondition>, pos: int) -> Option<(int, Seq<Op>)> {
    if heading_start(toks, pos) {
        Some(
            (
                first_eof(toks, stack, pos + 2),
                seq![Op { kind: OpKind::Start(Node::Heading), content: span_of(toks, pos, pos + 2) }]
                    + text_run(toks, stack, pos + 2, None, anchor_node_at(toks, stack)) + seq![
                    Op { kind: OpKind::End(Node::Heading), content: no_content() },
                ],
            ),
        )
    } else {
        None
    }
}

/// Parses a heading at the cursor (see [`heading_start`]); its text and anchors run up to the
/// first logical end of input. The operations are Start (the `#`s and the space), the text as
/// Values and the anchors' operations in order, and End with no content (see
/// [`heading_res`]).
pub fn heading(p: &mut Parser) -> (r: bool)
    requires
        old(p).wf(),
    ensures
        advanced(*old(p), *final(p)),
        final(p).toks() == old(p).toks(),
        r == heading_start(old(p).toks(), old(p).pos as int),
        r ==> {
            let a = added(*old(p), *final(p));
            &&& final(p).pos == first_eof(old(p).toks(), old(p).stack(), old(p).pos + 2)
            &&& a.len() >= 2
            &&& a[0] == Op {
                kind: OpKind::Start(Node::Heading),
                content: span_of(old(p).toks(), old(p).pos as int, old(p).pos + 2),
            }
            &&& a.last() == Op { kind: OpKind::End(Node::Heading), content: no_content() }
            &&& a == seq![a[0]] + text_run(
                old(p).toks(),
                old(p).stack(),
                old(p).pos + 2,
                None,
                anchor_node_at(old(p).toks(), old(p).stack()),
            ) + seq![a.last()]
        },
        r ==> final(p).pos > old(p).pos,
        !r ==> final(p).pos == old(p).pos && final(p).ops@ == old(p).ops@,
        outcome(*old(p), *final(p), r, heading_res(old(p).toks(), old(p).stack(), old(p).pos as int)),
{
    let ghost p0 = *p;
    let start = p.pos;
    if p.eat_where(is_hash, Ghost(hashes())).is_none() {
        proof {
            lemma_kept(p0, *p);
        }
        return false;
    }
    if p.eat_where(is_space, Ghost(space1())).is_none() {
        p.pos = start;
        proof {
            lemma_kept(p0, *p);
        }
        return false;
    }
    let start_content = p.span(start..start + 2);
    p.ops.push(Op::new_start(Node::Heading, start_content));
    let ghost p1 = *p;
    let ghost t = p0.toks();
    let ghost stack = p0.stack();
    let ghost mut body: Seq<Op> = Seq::empty();
    let mut text_start: Option<usize> = None;
    let n = p.tokens.len();
    proof {
        crate::op::laws::lemma_covers_empty(t, bpos(t, p.pos as int));
    }
    while p.pos < n
        invariant
            p0 == *old(p),
            p0.wf(),
            p.wf(),
            n == t.len(),
            t == p0.toks(),
            stack == p0.stack(),
            p.toks() == t,
            p.stack() == stack,
            p.source == p0.source,
            start == p0.pos,
            heading_start(t, start as int),
            start + 2 <= p.pos <= n,
            p1.ops@ == p0.ops@.push(Op { kind: OpKind::Start(Node::Heading), content: span_of(t, start as int, start + 2) }),
            p.ops@ == p1.ops@ + body,
            balanced(body),
            covers(t, body, bpos(t, start + 2), bpos(t, pending(text_start, p.pos as int))),
            text_start matches Some(x) ==> start + 2 <= x < p.pos,
            clear(t, stack, start + 2, p.pos as int),
            text_run(t, stack, start + 2, None, anchor_node_at(t, stack)) == body + text_run(
                t,
                stack,
                p.pos as int,
                text_start,
                anchor_node_at(t, stack),
            ),
        ensures
            eof_at(t, stack, p.pos as int),
        decreases n - p.pos,
    {
        if p.at_eof() {
            break;
        }
        let pos = p.pos;
        let snap = p.ops.len();
        let ghost q = *p;
        if anchor(p) {
            let ghost a = added(q, *p);
            proof {
                lemma_anchor_clear(t, stack, pos as int);
                lemma_inline(t, body, bpos(t, start + 2), text_start, pos as int, a, p.pos as int);
                assert(p.ops@ =~= q.ops@ + a);
            }
            if let Some(s) = text_start {
                let content = p.span(s..pos);
                p.ops.insert(snap, Op::new_value(content));
            }
            proof {
                assert(p.ops@ =~= q.ops@ + text_op(t, text_start, pos as int) + a);
                assert(p.ops@ =~= p1.ops@ + (body + text_op(t, text_start, pos as int) + a));
                let (_, node_ops) = anchor_at(t, stack, pos as int)->0;
                assert(a =~= node_ops);
                lemma_text_run_node(t, stack, pos as int, text_start, anchor_node_at(t, stack));
                lemma_emit(
                    text_run(t, stack, start + 2, None, anchor_node_at(t, stack)),
                    body,
                    text_run(t, stack, pos as int, text_start, anchor_node_at(t, stack)),
                    text_op(t, text_start, pos as int),
                    a,
                    text_run(t, stack, p.pos as int, None, anchor_node_at(t, stack)),
                );
                body = body + text_op(t, text_start, pos as int) + a;
                assert forall|k: int| start + 2 <= k < p.pos implies !#[trigger] eof_at(t, stack, k) by {
                    if k >= pos {
                        assert(clear(t, stack, pos as int, p.pos as int));
                    }
                }
            }
            text_start = None;
        } else {
            proof {
                lemma_text_run_text(t, stack, pos as int, text_start, anchor_node_at(t, stack));
            }
            if text_start.is_none() {
                text_start = Some(pos);
            }
            p.pos = pos + 1;
        }
    }
    proof {
        lemma_text_run_end(t, stack, p.pos as int, text_start, anchor_node_at(t, stack));
    }
    if let Some(s) = text_start {
        let content = p.span(s..p.pos);
        p.ops.push(Op::new_value(content));
    }
    p.ops.push(Op::new_end(Node::Heading, Content::empty()));
    proof {
        let e = p.pos as int;
        let st = Op { kind: OpKind::Start(Node::Heading), content: span_of(t, start as int, start + 2) };
        let z = Op { kind: OpKind::End(Node::Heading), content: no_content() };
        crate::op::laws::lemma_covers_empty(t, bpos(t, e));
        lemma_inline(t, body, bpos(t, start + 2), text_start, e, Seq::empty(), e);
        let inner = body + text_op(t, text_start, e) + Seq::<Op>::empty();
        assert(inner =~= body + text_op(t, text_start, e));
        lemma_span_covers(t, start as int, start + 2, st.kind);
        lemma_covers_one(t, z, bpos(t, e), bpos(t, e));
        lemma_wrap(t, st, inner, z, Node::Heading, bpos(t, start as int), bpos(t, start + 2), bpos(t, e), bpos(t, e));
        assert(p.ops@ =~= p0.ops@ + (seq![st] + inner + seq![z]));
        lemma_appended(p0, *p, seq![st] + inner + seq![z]);
        let a = seq![st] + inner + seq![z];
        assert(a[0] == st);
        assert(a.last() == z);
        assert(a =~= seq![a[0]] + text_run(t, stack, start + 2, None, anchor_node_at(t, stack)) + seq![a.last()]);
        lemma_first_eof_clear(t, stack, start + 2, e);
    }
    true
}

} // verus!
