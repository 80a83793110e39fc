//! `(url)`: the destination of an anchor or an image.
use crate::lexer::{Token, TokenKind};
use crate::op::parser::{clear, eof_at, lemma_not_eof, tok_len, Parser, StopCondition};
use crate::op::step::{delimited_ops, lemma_appended, lemma_kept, lemma_node_ops, outcome};
use crate::op::{Node, Op};
use vstd::prelude::*;

verus! {

/// A single `(`.
pub open spec fn left_paren() -> spec_fn(Token) -> bool {
    |t: Token| t.kind == TokenKind::LeftParenthesis && tok_len(t) == 1
}

fn is_left_paren(t: &Token) -> (r: bool)
    ensures
        r == left_paren()(*t),
{
    t.kind == TokenKind::LeftParenthesis && t.range.end >= t.range.start && t.range.end
        - t.range.start == 1
}

/// Scanning from `k` with `depth` parentheses open and the last `)` seen at `last`: the `)` that
/// closes the first one, or else the last `)` seen before a logical end of input.
pub open spec fn paren_close(
    toks: Seq<Token>,
    stack: Seq<StopCondition>,
    k: int,
    depth: int,
    last: int,
) -> int
    decreases toks.len() - k,
{
    if k < 0 || k >= toks.len() || eof_at(toks, stack, k) {
        last
    } else if toks[k].kind == TokenKind::LeftParenthesis {
        paren_close(toks, stack, k + 1, depth + 1, last)
    } else if toks[k].kind == TokenKind::RightParenthesis {
        if depth == 1 {
            k
        } else {
            paren_close(toks, stack, k + 1, depth - 1, k)
        }
    } else {
        paren_close(toks, stack, k + 1, depth, last)
    }
}

proof fn lemma_paren_close(toks: Seq<Token>, stack: Seq<StopCondition>, k: int, depth: int, last: int)
    requires
        0 <= k,
        last < k,
    ensures
        paren_close(toks, stack, k, depth, last) == last || (k <= paren_close(toks, stack, k, depth, last) < toks.len()
            && clear(toks, stack, k, paren_close(toks, stack, k, depth, last) + 1)),
    decreases toks.len() - k,
{
    if !(k < 0 || k >= toks.len() || eof_at(toks, stack, k)) {
        if toks[k].kind == TokenKind::LeftParenthesis {
            lemma_paren_close(toks, stack, k + 1, depth + 1, last);
        } else if toks[k].kind == TokenKind::RightParenthesis {
            if depth != 1 {
                lemma_paren_close(toks, stack, k + 1, depth - 1, k);
            }
        } else {
            lemma_paren_close(toks, stack, k + 1, depth, last);
        }
    }
}

/// The closing `)` of the destination that opens at `pos`, if there is one: a `(` at `pos` and a
/// `)` found by [`paren_close`] after it.
pub open spec fn destination_close(toks: Seq<Token>, stack: Seq<StopCondition>, pos: int) -> Option<int> {
    if 0 <= pos < toks.len() && left_paren()(toks[pos]) {
        let e = paren_close(toks, stack, pos + 1, 1, pos);
        if e == pos {
            None
        } else {
            Some(e)
        }
    } else {
        None
    }
}

/// The destination at `pos`: Start (the `(`), a Value (the text up to the closing `)`) and End
/// (the closing `)`).
pub open spec fn destination_at(toks: Seq<Token>, stack: Seq<StopCondition>, pos: int) -> Option<(int, Seq<Op>)> {
    match destination_close(toks, stack, pos) {
        Some(e) => Some((e + 1, delimited_ops(toks, Node::Destination, pos, e))),
        None => None,
    }
}

/// A destination's closing `)` comes after its `(`.
pub proof fn lemma_destination_close(toks: Seq<Token>, stack: Seq<StopCondition>, pos: int)
    ensures
        destination_close(toks, stack, pos) matches Some(e) ==> pos < e < toks.len() && clear(
            toks,
            stack,
            pos,
            e + 1,
        ),
{
    if 0 <= pos < toks.len() {
        lemma_paren_close(toks, stack, pos + 1, 1, pos);
        if destination_close(toks, stack, pos) is Some {
            lemma_not_eof(toks, stack, pos);
        }
    }
}

/// Parses a destination at the cursor (see [`destination_at`]); parentheses inside it nest.
pub fn destination(p: &mut Parser) -> (r: bool)
    requires
        old(p).wf(),
    ensures
        outcome(*old(p), *final(p), r, destination_at(old(p).toks(), old(p).stack(), old(p).pos as int)),
        r ==> final(p).pos > old(p).pos,
{
    let ghost p0 = *p;
    let start = p.pos;
    let start_range = match p.eat_where(is_left_paren, Ghost(left_paren())) {
        Some(r) => r,
        None => {
            proof {
                lemma_kept(p0, *p);
            }
            return false;
        },
    };
    let n = p.tokens.len();
    let mut depth: usize = 1;
    let mut end_pos: usize = start;
    while p.pos < n
        invariant_except_break
            paren_close(p0.toks(), p0.stack(), start + 1, 1, start as int) == paren_close(
                p0.toks(),
                p0.stack(),
                p.pos as int,
                depth as int,
                end_pos as int,
            ),
        invariant
            n == p.toks().len(),
            p0.wf(),
            start == p0.pos,
            start < p.pos <= n,
            p.toks() == p0.toks(),
            p.stack() == p0.stack(),
            p.source == p0.source,
            p.ops == p0.ops,
            p.wf(),
            1 <= depth <= p.pos - start,
            end_pos < p.pos,
        ensures
            paren_close(p0.toks(), p0.stack(), start + 1, 1, start as int) == end_pos,
            end_pos < p.pos <= n,
        decreases n - p.pos,
    {
        if p.at_eof() {
            break;
        }
        let i = p.pos;
        if p.tokens[i].kind == TokenKind::LeftParenthesis {
            depth = depth + 1;
            p.pos = i + 1;
        } else if p.tokens[i].kind == TokenKind::RightParenthesis {
            if depth == 1 {
                end_pos = i;
                p.pos = i + 1;
                break;
            }
            depth = depth - 1;
            end_pos = i;
            p.pos = i + 1;
        } else {
            p.pos = i + 1;
        }
    }
    if start == end_pos {
        p.pos = start;
        proof {
            lemma_kept(p0, *p);
        }
        return false;
    }
    proof {
        lemma_paren_close(p0.toks(), p0.stack(), start + 1, 1, start as int);
    }
    let start_content = p.span(start_range);
    let body_content = p.span(start + 1..end_pos);
    let end_content = p.span(end_pos..end_pos + 1);
    p.pos = end_pos + 1;
    p.ops.push(Op::new_start(Node::Destination, start_content));
    p.ops.push(Op::new_value(body_content));
    p.ops.push(Op::new_end(Node::Destination, end_content));
    proof {
        let (a, e) = (start as int, end_pos as int);
        lemma_node_ops(p0.toks(), Node::Destination, a, a + 1, e, e + 1);
        let ops = delimited_ops(p0.toks(), Node::Destination, a, e);
        assert(p.ops@ =~= p0.ops@ + ops);
        lemma_appended(p0, *p, ops);
    }
    true
}

} // verus!
