//! `{{kind|argument}}`: an embed.
use crate::lexer::{Token, TokenKind};
use crate::op::laws::{
    balanced, covers, lemma_balanced_concat, lemma_balanced_small, lemma_balanced_wrap,
    lemma_covers_concat,
};
use crate::op::parser::{block_boundary, bpos, lemma_until, span_of, tok_len, until, Parser, StopCondition};
use crate::op::step::{lemma_appended, lemma_kept, lemma_span_covers, outcome};
use crate::op::{Node, Op, OpKind};
use vstd::prelude::*;

verus! {

/// Exactly two `{` at the start of a line.
pub open spec fn left_curly2() -> spec_fn(Token) -> bool {
    |t: Token| t.kind == TokenKind::LeftCurlyBrace && t.position.column == 0 && tok_len(t) == 2
}

/// A single `|`.
pub open spec fn pipe() -> spec_fn(Token) -> bool {
    |t: Token| t.kind == TokenKind::Pipe && tok_len(t) == 1
}

/// Exactly two `}`.
pub open spec fn right_curly2() -> spec_fn(Token) -> bool {
    |t: Token| t.kind == TokenKind::RightCurlyBrace && tok_len(t) == 2
}

fn is_left_curly2(t: &Token) -> (r: bool)
    ensures
        r == left_curly2()(*t),
{
    t.kind == TokenKind::LeftCurlyBrace && t.position.column == 0 && t.range.end
        >= t.range.start && t.range.end - t.range.start == 2
}

fn is_pipe(t: &Token) -> (r: bool)
    ensures
        r == pipe()(*t),
{
    t.kind == TokenKind::Pipe && t.range.end >= t.range.start && t.range.end - t.range.start == 1
}

fn is_right_curly2(t: &Token) -> (r: bool)
    ensures
        r == right_curly2()(*t),
{
    t.kind == TokenKind::RightCurlyBrace && t.range.end >= t.range.start && t.range.end
        - t.range.start == 2
}

/// An end of line.
pub open spec fn eol_tok() -> spec_fn(Token) -> bool {
    |t: Token| t.kind == TokenKind::Eol
}

fn is_eol(t: &Token) -> (r: bool)
    ensures
        r == eol_tok()(*t),
{
    t.kind == TokenKind::Eol
}

/// Where a block that closes with token `j` ends: past an end of line right after it, or just
/// past it at a block boundary; `None` when neither follows.
pub open spec fn block_close_end(toks: Seq<Token>, stack: Seq<StopCondition>, j: int) -> Option<int> {
    if 0 <= j + 1 < toks.len() && eol_tok()(toks[j + 1]) {
        Some(j + 2)
    } else if block_boundary(toks, stack, j + 1) {
        Some(j + 1)
    } else {
        None
    }
}

/// The operations of an embed with `{{` at `pos`, `|` at `j1`, `}}` at `j2` and its closing
/// content ending before `e`: Start (`{{`), three Values (kind, `|`, argument) and End.
pub open spec fn embed_ops(toks: Seq<Token>, pos: int, j1: int, j2: int, e: int) -> Seq<Op> {
    seq![
        Op { kind: OpKind::Start(Node::Embed), content: span_of(toks, pos, pos + 1) },
        Op { kind: OpKind::Value, content: span_of(toks, pos + 1, j1) },
        Op { kind: OpKind::Value, content: span_of(toks, j1, j1 + 1) },
        Op { kind: OpKind::Value, content: span_of(toks, j1 + 1, j2) },
        Op { kind: OpKind::End(Node::Embed), content: span_of(toks, j2, e) },
    ]
}

/// The embed at `pos`, if there is one: `{{` at the start of a line, a `|` and then `}}` before
/// a logical end of input, followed by an end of line (which it takes) or a block boundary.
pub open spec fn embed_at(toks: Seq<Token>, stack: Seq<StopCondition>, pos: int) -> Option<(int, Seq<Op>)> {
    if 0 <= pos < toks.len() && left_curly2()(toks[pos]) {
        match until(toks, stack, pos + 1, pipe()) {
            Some(j1) => match until(toks, stack, j1 + 1, right_curly2()) {
                Some(j2) => match block_close_end(toks, stack, j2) {
                    Some(e) => Some((e, embed_ops(toks, pos, j1, j2, e))),
                    None => None,
                },
                None => None,
            },
            None => None,
        }
    } else {
        None
    }
}

proof fn lemma_embed_ops(t: Seq<Token>, a: int, j1: int, j2: int, e: int)
    requires
        crate::lexer::chained(t),
        0 <= a < j1 < j2 < e <= t.len(),
    ensures
        balanced(embed_ops(t, a, j1, j2, e)),
        covers(t, embed_ops(t, a, j1, j2, e), bpos(t, a), bpos(t, e)),
{
    let ops = embed_ops(t, a, j1, j2, e);
    let (s0, v1, v2, v3, e0) = (ops[0], ops[1], ops[2], ops[3], ops[4]);
    lemma_span_covers(t, a, a + 1, s0.kind);
    lemma_span_covers(t, a + 1, j1, v1.kind);
    lemma_span_covers(t, j1, j1 + 1, v2.kind);
    lemma_span_covers(t, j1 + 1, j2, v3.kind);
    lemma_span_covers(t, j2, e, e0.kind);
    lemma_covers_concat(t, seq![s0], seq![v1], bpos(t, a), bpos(t, a + 1), bpos(t, j1));
    lemma_covers_concat(t, seq![s0] + seq![v1], seq![v2], bpos(t, a), bpos(t, j1), bpos(t, j1 + 1));
    lemma_covers_concat(t, seq![s0] + seq![v1] + seq![v2], seq![v3], bpos(t, a), bpos(t, j1 + 1), bpos(t, j2));
    lemma_covers_concat(t, seq![s0] + seq![v1] + seq![v2] + seq![v3], seq![e0], bpos(t, a), bpos(t, j2), bpos(t, e));
    assert(ops =~= seq![s0] + seq![v1] + seq![v2] + seq![v3] + seq![e0]);
    lemma_balanced_small(v1);
    lemma_balanced_small(v2);
    lemma_balanced_small(v3);
    lemma_balanced_concat(seq![v1], seq![v2]);
    lemma_balanced_concat(seq![v1] + seq![v2], seq![v3]);
    lemma_balanced_wrap(s0, seq![v1] + seq![v2] + seq![v3], e0, Node::Embed);
    assert(ops =~= seq![s0] + (seq![v1] + seq![v2] + seq![v3]) + seq![e0]);
}

/// Parses an embed at the cursor (see [`embed_at`]).
#[verifier::rlimit(50)]
pub fn embed(p: &mut Parser) -> (r: bool)
    requires
        old(p).wf(),
    ensures
        outcome(*old(p), *final(p), r, embed_at(old(p).toks(), old(p).stack(), old(p).pos as int)),
        r ==> final(p).pos > old(p).pos,
{
    let ghost p0 = *p;
    let start = p.pos;
    let start_range = match p.eat_where(is_left_curly2, Ghost(left_curly2())) {
        Some(r) => r,
        None => {
            proof {
                lemma_kept(p0, *p);
            }
            return false;
        },
    };
    let (lhs_range, sep_range) = match p.scan_until(is_pipe, Ghost(pipe())) {
        Some(found) => found,
        None => {
            p.pos = start;
            proof {
                lemma_kept(p0, *p);
            }
            return false;
        },
    };
    proof {
        lemma_until(p0.toks(), p0.stack(), start + 1, pipe());
    }
    let (rhs_range, close_range) = match p.scan_until(is_right_curly2, Ghost(right_curly2())) {
        Some(found) => found,
        None => {
            p.pos = start;
            proof {
                lemma_kept(p0, *p);
            }
            return false;
        },
    };
    proof {
        lemma_until(p0.toks(), p0.stack(), sep_range.end as int, right_curly2());
    }
    let end_range = match p.eat_where(is_eol, Ghost(eol_tok())) {
        Some(eol_range) => close_range.start..eol_range.end,
        None => {
            if p.at_block_boundary() {
                close_range
            } else {
                p.pos = start;
                proof {
                    lemma_kept(p0, *p);
                }
                return false;
            }
        },
    };
    let start_content = p.span(start_range);
    let lhs_content = p.span(lhs_range);
    let sep_content = p.span(sep_range);
    let rhs_content = p.span(rhs_range);
    let end_content = p.span(end_range);
    p.ops.push(Op::new_start(Node::Embed, start_content));
    p.ops.push(Op::new_value(lhs_content));
    p.ops.push(Op::new_value(sep_content));
    p.ops.push(Op::new_value(rhs_content));
    p.ops.push(Op::new_end(Node::Embed, end_content));
    proof {
        let t = p0.toks();
        let (a, j1, j2, e) = (start as int, sep_range.start as int, close_range.start as int, p.pos as int);
        let ops = embed_ops(t, a, j1, j2, e);
        lemma_embed_ops(t, a, j1, j2, e);
        assert(p.ops@ =~= p0.ops@ + ops);
        lemma_appended(p0, *p, ops);
    }
    true
}

} // verus!
