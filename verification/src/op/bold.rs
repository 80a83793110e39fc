//! `**text**`: bold text, which may hold strikethrough and italic text.
use crate::lexer::{Token, TokenKind};
use crate::op::italic::{italic, underscore};
use crate::op::laws::{balanced, covers};
use crate::op::parser::{
    bpos, clear, eof_at, lemma_not_eof, lemma_until, span_of, tok_len, Parser, StopCondition,
};
use crate::op::step::{
    added, advanced, delimited, delimited_ops, lemma_appended, outcome, lemma_inline, lemma_kept, lemma_span_covers,
    lemma_wrap, pending, text_op,
};
use crate::op::strikethrough::{strikethrough, tilde2};
use crate::op::{Node, Op, OpKind};
use vstd::prelude::*;

verus! {

/// Exactly two `*`.
pub open spec fn star2() -> spec_fn(Token) -> bool {
    |t: Token| t.kind == TokenKind::Star && tok_len(t) == 2
}

fn is_star2(t: &Token) -> (r: bool)
    ensures
        r == star2()(*t),
{
    t.kind == TokenKind::Star && t.range.end >= t.range.start && t.range.end - t.range.start == 2
}

/// A strikethrough or italic node starting at `k` ends before `e`.
pub proof fn lemma_inner_progress(toks: Seq<Token>, stack: Seq<StopCondition>, k: int)
    ensures
        delimited(toks, stack, k, tilde2(), tilde2()) matches Some(j) ==> k < j < toks.len(),
        delimited(toks, stack, k, underscore(), underscore()) matches Some(j) ==> k < j < toks.len(),
{
    lemma_until(toks, stack, k + 1, tilde2());
    lemma_until(toks, stack, k + 1, underscore());
}

/// The `**` that closes a bold node whose text starts at `k`: the first `**` before a logical
/// end of input that is not inside a strikethrough or an italic node.
pub open spec fn bold_close(toks: Seq<Token>, stack: Seq<StopCondition>, k: int) -> Option<int>
    decreases toks.len() - k,
{
    if k < 0 || k >= toks.len() || eof_at(toks, stack, k) {
        None
    } else if star2()(toks[k]) {
        Some(k)
    } else {
        proof {
            lemma_inner_progress(toks, stack, k);
        }
        match delimited(toks, stack, k, tilde2(), tilde2()) {
            Some(j) => bold_close(toks, stack, j + 1),
            None => match delimited(toks, stack, k, underscore(), underscore()) {
                Some(j) => bold_close(toks, stack, j + 1),
                None => bold_close(toks, stack, k + 1),
            },
        }
    }
}

#[verifier::opaque]
/// The operations of a bold node from token `k` on, up to and including its End, with the text
/// pending since `ts`: Values for the text between inner nodes, the strikethrough and italic
/// nodes in order, and End holding the closing `**`.
pub open spec fn bold_inner(toks: Seq<Token>, stack: Seq<StopCondition>, k: int, ts: Option<usize>) -> Seq<Op>
    decreases toks.len() - k,
{
    if k < 0 || k >= toks.len() || eof_at(toks, stack, k) {
        Seq::empty()
    } else if star2()(toks[k]) {
        text_op(toks, ts, k) + seq![Op { kind: OpKind::End(Node::Bold), content: span_of(toks, k, k + 1) }]
    } else {
        proof {
            lemma_inner_progress(toks, stack, k);
        }
        match delimited(toks, stack, k, tilde2(), tilde2()) {
            Some(j) => text_op(toks, ts, k) + delimited_ops(toks, Node::Strikethrough, k, j)
                + bold_inner(toks, stack, j + 1, None),
            None => match delimited(toks, stack, k, underscore(), underscore()) {
                Some(j) => text_op(toks, ts, k) + delimited_ops(toks, Node::Italic, k, j)
                    + bold_inner(toks, stack, j + 1, None),
                None => bold_inner(
                    toks,
                    stack,
                    k + 1,
                    if ts is Some {
                        ts
                    } else {
                        Some(k as usize)
                    },
                ),
            },
        }
    }
}

/// At the closing `**`, the pending text and End remain.
proof fn lemma_bold_inner_close(toks: Seq<Token>, stack: Seq<StopCondition>, k: int, ts: Option<usize>)
    requires
        0 <= k < toks.len(),
        !eof_at(toks, stack, k),
        star2()(toks[k]),
    ensures
        bold_inner(toks, stack, k, ts) == text_op(toks, ts, k) + seq![
            Op { kind: OpKind::End(Node::Bold), content: span_of(toks, k, k + 1) },
        ],
{
    reveal(bold_inner);
}

/// At a strikethrough or italic node `a` over the tokens `k..e`, the pending text, the node and
/// the rest remain.
proof fn lemma_bold_inner_nested(
    toks: Seq<Token>,
    stack: Seq<StopCondition>,
    k: int,
    ts: Option<usize>,
    a: Seq<Op>,
    e: int,
)
    requires
        0 <= k < toks.len(),
        !eof_at(toks, stack, k),
        !star2()(toks[k]),
        ({
            ||| (delimited(toks, stack, k, tilde2(), tilde2()) matches Some(j) && e == j + 1 && a
                == delimited_ops(toks, Node::Strikethrough, k, j))
            ||| ((delimited(toks, stack, k, tilde2(), tilde2()) is None) && (delimited(
                toks,
                stack,
                k,
                underscore(),
                underscore(),
            ) matches Some(j) && e == j + 1 && a == delimited_ops(toks, Node::Italic, k, j)))
        }),
    ensures
        bold_inner(toks, stack, k, ts) == text_op(toks, ts, k) + a + bold_inner(toks, stack, e, None),
{
    reveal(bold_inner);
}

/// At a token that is text, the text pending goes on.
proof fn lemma_bold_inner_text(toks: Seq<Token>, stack: Seq<StopCondition>, k: int, ts: Option<usize>)
    requires
        0 <= k < toks.len(),
        !eof_at(toks, stack, k),
        !star2()(toks[k]),
        delimited(toks, stack, k, tilde2(), tilde2()) is None,
        delimited(toks, stack, k, underscore(), underscore()) is None,
    ensures
        bold_inner(toks, stack, k, ts) == bold_inner(
            toks,
            stack,
            k + 1,
            if ts is Some {
                ts
            } else {
                Some(k as usize)
            },
        ),
{
    reveal(bold_inner);
}

/// The bold node at `pos`, if one stands there: where it ends and its operations.
pub open spec fn bold_at(toks: Seq<Token>, stack: Seq<StopCondition>, pos: int) -> Option<(int, Seq<Op>)> {
    if 0 <= pos < toks.len() && star2()(toks[pos]) && bold_close(toks, stack, pos + 1) is Some {
        Some(
            (
                bold_close(toks, stack, pos + 1)->0 + 1,
                seq![Op { kind: OpKind::Start(Node::Bold), content: span_of(toks, pos, pos + 1) }]
                    + bold_inner(toks, stack, pos + 1, None),
            ),
        )
    } else {
        None
    }
}

/// Parses bold text at the cursor: `**`, then text, strikethrough and italic nodes up to the
/// closing `**` (see [`bold_close`]). On success the operations are Start (the opening `**`),
/// those of the text and the inner nodes, and End (the closing `**`) (see [`bold_at`]);
/// otherwise nothing changes.
#[verifier::rlimit(100)]
#[verifier::spinoff_prover]
pub fn bold(p: &mut Parser) -> (r: bool)
    requires
        old(p).wf(),
    ensures
        advanced(*old(p), *final(p)),
        final(p).toks() == old(p).toks(),
        r == (old(p).pos < old(p).toks().len() && star2()(old(p).toks()[old(p).pos as int])
            && bold_close(old(p).toks(), old(p).stack(), old(p).pos + 1) is Some),
        r ==> {
            let e = bold_close(old(p).toks(), old(p).stack(), old(p).pos + 1)->0;
            let a = added(*old(p), *final(p));
            &&& final(p).pos == e + 1
            &&& clear(old(p).toks(), old(p).stack(), old(p).pos as int, e + 1)
            &&& a.len() >= 2
            &&& a[0] == Op {
                kind: OpKind::Start(Node::Bold),
                content: span_of(old(p).toks(), old(p).pos as int, old(p).pos + 1),
            }
            &&& a.last() == Op { kind: OpKind::End(Node::Bold), content: span_of(old(p).toks(), e, e + 1) }
            &&& a == seq![a[0]] + bold_inner(old(p).toks(), old(p).stack(), old(p).pos + 1, None)
        },
        r ==> final(p).pos > old(p).pos,
        !r ==> final(p).pos == old(p).pos && final(p).ops@ == old(p).ops@,
        outcome(*old(p), *final(p), r, bold_at(old(p).toks(), old(p).stack(), old(p).pos as int)),
{
    let ghost p0 = *p;
    let start = p.pos;
    let snap = p.ops.len();
    let start_range = match p.eat_where(is_star2, Ghost(star2())) {
        Some(r) => r,
        None => {
            proof {
                lemma_kept(p0, *p);
            }
            return false;
        },
    };
    let start_content = p.span(start_range);
    p.ops.push(Op::new_start(Node::Bold, start_content));
    let ghost p1 = *p;
    let ghost t = p0.toks();
    let ghost stack = p0.stack();
    let ghost mut body: Seq<Op> = Seq::empty();
    let mut text_start: Option<usize> = None;
    let n = p.tokens.len();
    proof {
        lemma_not_eof(t, stack, start as int);
    }
    proof {
        crate::op::laws::lemma_covers_empty(t, bpos(t, p.pos as int));
    }
    while p.pos < n
        invariant
            p0 == *old(p),
            p0.wf(),
            p.wf(),
            n == t.len(),
            t == p0.toks(),
            stack == p0.stack(),
            p.toks() == t,
            p.stack() == stack,
            p.source == p0.source,
            start == p0.pos,
            snap == p0.ops@.len(),
            start < p.pos <= n,
            star2()(t[start as int]),
            p1.ops@ == p0.ops@.push(Op { kind: OpKind::Start(Node::Bold), content: span_of(t, start as int, start + 1) }),
            p.ops@ == p1.ops@ + body,
            balanced(body),
            covers(t, body, bpos(t, start + 1), bpos(t, pending(text_start, p.pos as int))),
            text_start matches Some(x) ==> start < x < p.pos,
            clear(t, stack, start as int, p.pos as int),
            bold_close(t, stack, start + 1) == bold_close(t, stack, p.pos as int),
            bold_inner(t, stack, start + 1, None) == body + bold_inner(t, stack, p.pos as int, text_start),
        ensures
            bold_close(t, stack, start + 1) is None,
        decreases n - p.pos,
    {
        if p.at_eof() {
            break;
        }
        let pos = p.pos;
        if let Some(end_range) = p.eat_where(is_star2, Ghost(star2())) {
            let ghost q = *p;
            if let Some(s) = text_start {
                let content = p.span(s..pos);
                p.ops.push(Op::new_value(content));
            }
            let end_content = p.span(end_range);
            p.ops.push(Op::new_end(Node::Bold, end_content));
            proof {
                let z = Op { kind: OpKind::End(Node::Bold), content: span_of(t, pos as int, pos + 1) };
                let st = Op { kind: OpKind::Start(Node::Bold), content: span_of(t, start as int, start + 1) };
                crate::op::laws::lemma_covers_empty(t, bpos(t, pos as int));
                lemma_inline(t, body, bpos(t, start + 1), text_start, pos as int, Seq::empty(), pos as int);
                let inner = body + text_op(t, text_start, pos as int) + Seq::<Op>::empty();
                assert(inner =~= body + text_op(t, text_start, pos as int));
                lemma_span_covers(t, start as int, start + 1, st.kind);
                lemma_span_covers(t, pos as int, pos + 1, z.kind);
                lemma_wrap(t, st, inner, z, Node::Bold, bpos(t, start as int), bpos(t, start + 1), bpos(t, pos as int), bpos(t, pos + 1));
                assert(p.ops@ =~= p0.ops@ + (seq![st] + inner + seq![z]));
                lemma_appended(p0, *p, seq![st] + inner + seq![z]);
                let a = seq![st] + inner + seq![z];
                assert(a[0] == st);
                assert(a.last() == z);
                lemma_bold_inner_close(t, stack, pos as int, text_start);
                assert(a =~= seq![a[0]] + bold_inner(t, stack, start + 1, None));
            }
            return true;
        }
        let before_snap = p.ops.len();
        let ghost q = *p;
        let mut matched = strikethrough(p);
        proof {
            if matched {
                let j = delimited(t, stack, pos as int, tilde2(), tilde2())->0;
                assert(added(q, *p) =~= delimited_ops(t, Node::Strikethrough, pos as int, j));
            }
        }
        if !matched {
            let ghost q1 = *p;
            matched = italic(p);
            proof {
                if matched {
                    let j = delimited(t, stack, pos as int, underscore(), underscore())->0;
                    assert(p.ops@ == q.ops@ + delimited_ops(t, Node::Italic, pos as int, j));
                    assert(added(q, *p) =~= delimited_ops(t, Node::Italic, pos as int, j));
                }
            }
        }
        if matched {
            let ghost a = added(q, *p);
            proof {
                lemma_inner_progress(t, stack, pos as int);
                lemma_inline(t, body, bpos(t, start + 1), text_start, pos as int, a, p.pos as int);
                assert(p.ops@ =~= q.ops@ + a);
            }
            if let Some(s) = text_start {
                let content = p.span(s..pos);
                p.ops.insert(before_snap, Op::new_value(content));
            }
            proof {
                assert(p.ops@ =~= q.ops@ + text_op(t, text_start, pos as int) + a);
                assert(p.ops@ =~= p1.ops@ + (body + text_op(t, text_start, pos as int) + a));
                lemma_bold_inner_nested(t, stack, pos as int, text_start, a, p.pos as int);
                body = body + text_op(t, text_start, pos as int) + a;
                assert forall|k: int| start <= k < p.pos implies !#[trigger] eof_at(t, stack, k) by {
                    if k >= pos {
                        assert(clear(t, stack, pos as int, p.pos as int));
                    }
                }
            }
            text_start = None;
        } else {
            proof {
                lemma_bold_inner_text(t, stack, pos as int, text_start);
            }
            if text_start.is_none() {
                text_start = Some(pos);
            }
            p.pos = pos + 1;
        }
    }
    p.pos = start;
    p.ops.truncate(snap);
    proof {
        assert(p.ops@ =~= p0.ops@);
        lemma_kept(p0, *p);
    }
    false
}

} // verus!
