//! `*text*`: emphasised text.
use crate::lexer::{Token, TokenKind};
use crate::op::parser::{tok_len, Parser};
use crate::op::step::{delimited, delimited_node, delimited_ops, delimited_step};
use crate::op::{Node, Op};
use vstd::prelude::*;

verus! {

/// A single `*`.
pub open spec fn star1() -> spec_fn(Token) -> bool {
    |t: Token| t.kind == TokenKind::Star && tok_len(t) == 1
}

fn is_star(t: &Token) -> (r: bool)
    ensures
        r == star1()(*t),
{
    t.kind == TokenKind::Star && t.range.end >= t.range.start && t.range.end - t.range.start == 1
}

/// Parses `*body*` at the cursor: a single `*`, then everything up to the next single `*` before a
/// logical end of input.
/// On success pushes Start (the opening token), a Value (the tokens between) and End (the
/// closing token) and returns `true`; otherwise changes nothing and returns `false`.
pub(crate) fn emphasis_node(p: &mut Parser) -> (r: bool)
    requires
        old(p).wf(),
    ensures
        delimited_step(*old(p), *final(p), r, Node::Emphasis, star1(), star1()),
        r ==> final(p).pos > old(p).pos,
{
    delimited_node(p, Node::Emphasis, is_star, Ghost(star1()), is_star, Ghost(star1()))
}

/// Reads `*body*` at the cursor: a single `*`, then everything up to the next single `*` before
/// a logical end of input. On success the cursor moves past the closing `*` and the result is
/// Start (the opening token), a Value (the tokens between) and End (the closing token);
/// otherwise the cursor stays. The operations of the parser are left as they are.
pub fn emphasis(p: &mut Parser) -> (r: Option<Vec<Op>>)
    requires
        old(p).wf(),
    ensures
        final(p).wf(),
        final(p).source == old(p).source,
        final(p).toks() == old(p).toks(),
        final(p).stack() == old(p).stack(),
        final(p).ops@ == old(p).ops@,
        match delimited(old(p).toks(), old(p).stack(), old(p).pos as int, star1(), star1()) {
            Some(j) => {
                &&& r matches Some(v) && v@ == delimited_ops(old(p).toks(), Node::Emphasis, old(p).pos as int, j)
                &&& final(p).pos == j + 1
            },
            None => r is None && final(p).pos == old(p).pos,
        },
{
    let mut mine: Vec<Op> = Vec::new();
    std::mem::swap(&mut mine, &mut p.ops);
    let ghost q = *p;
    let found = emphasis_node(p);
    std::mem::swap(&mut mine, &mut p.ops);
    proof {
        if found {
            assert(mine@ =~= q.ops@ + mine@);
        }
    }
    if found {
        Some(mine)
    } else {
        None
    }
}

} // verus!
