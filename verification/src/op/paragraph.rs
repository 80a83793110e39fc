//! A paragraph: text with inline nodes, up to a logical end of input.
use crate::lexer::Token;
use crate::op::anchor::{anchor, anchor_at, lemma_anchor_clear};
use crate::op::bold::{bold, bold_at};
use crate::op::code_span::{backtick1, code_span};
use crate::op::emphasis::{emphasis_node, star1};
use crate::op::italic::{italic, underscore};
use crate::op::laws::{balanced, covers, lemma_covers_one};
use crate::op::parser::{
    bpos, clear, eof_at, first_eof, lemma_first_eof_clear, span_of, Parser, StopCondition,
};
use crate::op::step::{
    added, advanced, delimited_at, lemma_advanced_trans, lemma_appended, lemma_inline, lemma_kept,
    lemma_emit, lemma_text_run_end, lemma_text_run_node, lemma_text_run_text, lemma_wrap, no_content, outcome,
    pending, text_op, text_run,
};
use crate::op::strikethrough::{strikethrough, tilde2};
use crate::op::{Content, Node, Op, OpKind};
use vstd::prelude::*;

verus! {

#[verifier::opaque]
/// The inline node at `k`, if one stands there, trying strikethrough, italic, bold, anchor, code
/// span and emphasis in turn: where it ends and its operations.
pub open spec fn inline_at(toks: Seq<Token>, stack: Seq<StopCondition>, k: int) -> Option<(int, Seq<Op>)> {
    match delimited_at(toks, stack, k, Node::Strikethrough, tilde2(), tilde2()) {
        Some(x) => Some(x),
        None => match delimited_at(toks, stack, k, Node::Italic, underscore(), underscore()) {
            Some(x) => Some(x),
            None => match bold_at(toks, stack, k) {
                Some(x) => Some(x),
                None => match anchor_at(toks, stack, k) {
                    Some(x) => Some(x),
                    None => match delimited_at(toks, stack, k, Node::CodeSpan, backtick1(), backtick1()) {
                        Some(x) => Some(x),
                        None => delimited_at(toks, stack, k, Node::Emphasis, star1(), star1()),
                    },
                },
            },
        },
    }
}

/// [`inline_at`] as a function of the position.
pub open spec fn inline_node_at(toks: Seq<Token>, stack: Seq<StopCondition>) -> spec_fn(int) -> Option<(int, Seq<Op>)> {
    |k: int| inline_at(toks, stack, k)
}

/// The operations of a paragraph starting at `k`: Start, the text as Values and the inline
/// nodes' operations up to the first logical end of input (see [`text_run`]), and End.
pub open spec fn para_ops(toks: Seq<Token>, stack: Seq<StopCondition>, k: int) -> Seq<Op> {
    seq![Op { kind: OpKind::Start(Node::Paragraph), content: no_content() }] + text_run(
        toks,
        stack,
        k,
        None,
        inline_node_at(toks, stack),
    ) + seq![Op { kind: OpKind::End(Node::Paragraph), content: no_content() }]
}

/// Tries the inline nodes in turn at the cursor: strikethrough, italic, bold, anchor, code span
/// and emphasis. The one that matches consumes tokens none of which is a logical end of input.
fn inline_node(p: &mut Parser) -> (r: bool)
    requires
        old(p).wf(),
    ensures
        advanced(*old(p), *final(p)),
        final(p).toks() == old(p).toks(),
        r ==> final(p).pos > old(p).pos && clear(old(p).toks(), old(p).stack(), old(p).pos as int, final(p).pos as int),
        !r ==> final(p).pos == old(p).pos && final(p).ops@ == old(p).ops@,
        outcome(*old(p), *final(p), r, inline_at(old(p).toks(), old(p).stack(), old(p).pos as int)),
{
    proof {
        reveal(inline_at);
    }
    if strikethrough(p) {
        return true;
    }
    if italic(p) {
        return true;
    }
    if bold(p) {
        return true;
    }
    let ghost q = *p;
    if anchor(p) {
        proof {
            lemma_anchor_clear(q.toks(), q.stack(), q.pos as int);
        }
        return true;
    }
    if code_span(p) {
        return true;
    }
    emphasis_node(p)
}

/// Parses a paragraph at the cursor, up to the first logical end of input: Start and End of
/// [`Node::Paragraph`] with no content around the text, as Values, and the inline nodes
/// (strikethrough, italic, bold, anchor, code span, emphasis) in order (see [`para_ops`]).
pub fn paragraph(p: &mut Parser)
    requires
        old(p).wf(),
    ensures
        advanced(*old(p), *final(p)),
        final(p).toks() == old(p).toks(),
        final(p).pos == first_eof(old(p).toks(), old(p).stack(), old(p).pos as int),
        added(*old(p), *final(p)).len() >= 2,
        added(*old(p), *final(p))[0] == (Op { kind: OpKind::Start(Node::Paragraph), content: no_content() }),
        added(*old(p), *final(p)).last() == (Op { kind: OpKind::End(Node::Paragraph), content: no_content() }),
        added(*old(p), *final(p)) == para_ops(old(p).toks(), old(p).stack(), old(p).pos as int),
{
    let ghost p0 = *p;
    let start = p.pos;
    p.ops.push(Op::new_start(Node::Paragraph, Content::empty()));
    let ghost p1 = *p;
    let ghost t = p0.toks();
    let ghost stack = p0.stack();
    let ghost mut body: Seq<Op> = Seq::empty();
    let mut text_start: Option<usize> = None;
    let n = p.tokens.len();
    proof {
        crate::op::laws::lemma_covers_empty(t, bpos(t, p.pos as int));
    }
    while p.pos < n
        invariant
            p0 == *old(p),
            p0.wf(),
            p.wf(),
            n == t.len(),
            t == p0.toks(),
            stack == p0.stack(),
            p.toks() == t,
            p.stack() == stack,
            p.source == p0.source,
            start == p0.pos,
            start <= p.pos <= n,
            p1.ops@ == p0.ops@.push(Op { kind: OpKind::Start(Node::Paragraph), content: no_content() }),
            p.ops@ == p1.ops@ + body,
            balanced(body),
            covers(t, body, bpos(t, start as int), bpos(t, pending(text_start, p.pos as int))),
            text_start matches Some(x) ==> start <= x < p.pos,
            clear(t, stack, start as int, p.pos as int),
            text_run(t, stack, start as int, None, inline_node_at(t, stack)) == body + text_run(t, stack, p.pos as int, text_start, inline_node_at(t, stack)),
        ensures
            eof_at(t, stack, p.pos as int),
        decreases n - p.pos,
    {
        if p.at_eof() {
            break;
        }
        let pos = p.pos;
        let snap = p.ops.len();
        let ghost q = *p;
        if inline_node(p) {
            let ghost a = added(q, *p);
            proof {
                lemma_inline(t, body, bpos(t, start as int), text_start, pos as int, a, p.pos as int);
                assert(p.ops@ =~= q.ops@ + a);
            }
            if let Some(s) = text_start {
                let content = p.span(s..pos);
                p.ops.insert(snap, Op::new_value(content));
            }
            proof {
                assert(p.ops@ =~= q.ops@ + text_op(t, text_start, pos as int) + a);
                assert(p.ops@ =~= p1.ops@ + (body + text_op(t, text_start, pos as int) + a));
                let (_, node_ops) = inline_at(t, stack, pos as int)->0;
                assert(a =~= node_ops);
                lemma_text_run_node(t, stack, pos as int, text_start, inline_node_at(t, stack));
                lemma_emit(
                    text_run(t, stack, start as int, None, inline_node_at(t, stack)),
                    body,
                    text_run(t, stack, pos as int, text_start, inline_node_at(t, stack)),
                    text_op(t, text_start, pos as int),
                    a,
                    text_run(t, stack, p.pos as int, None, inline_node_at(t, stack)),
                );
                body = body + text_op(t, text_start, pos as int) + a;
                assert forall|k: int| start <= k < p.pos implies !#[trigger] eof_at(t, stack, k) by {
                    if k >= pos {
                        assert(clear(t, stack, pos as int, p.pos as int));
                    }
                }
            }
            text_start = None;
        } else {
            proof {
                lemma_text_run_text(t, stack, pos as int, text_start, inline_node_at(t, stack));
            }
            if text_start.is_none() {
                text_start = Some(pos);
            }
            p.pos = pos + 1;
        }
    }
    let ghost q = *p;
    proof {
        lemma_text_run_end(t, stack, p.pos as int, text_start, inline_node_at(t, stack));
    }
    if let Some(s) = text_start {
        let end = p.pos;
        if s < end {
            let content = p.span(s..end);
            p.ops.push(Op::new_value(content));
        }
    }
    p.ops.push(Op::new_end(Node::Paragraph, Content::empty()));
    proof {
        let e = p.pos as int;
        let st = Op { kind: OpKind::Start(Node::Paragraph), content: no_content() };
        let z = Op { kind: OpKind::End(Node::Paragraph), content: no_content() };
        crate::op::laws::lemma_covers_empty(t, bpos(t, e));
        lemma_inline(t, body, bpos(t, start as int), text_start, e, Seq::empty(), e);
        let inner = body + text_op(t, text_start, e) + Seq::<Op>::empty();
        assert(inner =~= body + text_op(t, text_start, e));
        lemma_covers_one(t, st, bpos(t, start as int), bpos(t, start as int));
        lemma_covers_one(t, z, bpos(t, e), bpos(t, e));
        lemma_wrap(t, st, inner, z, Node::Paragraph, bpos(t, start as int), bpos(t, start as int), bpos(t, e), bpos(t, e));
        assert(p.ops@ =~= p0.ops@ + (seq![st] + inner + seq![z]));
        lemma_appended(p0, *p, seq![st] + inner + seq![z]);
        let a = seq![st] + inner + seq![z];
        assert(a[0] == st);
        assert(a.last() == z);
        assert(a =~= para_ops(t, stack, start as int));
        lemma_first_eof_clear(t, stack, start as int, e);
    }
}

} // verus!
