//! `~~text~~`: struck-through text.
use crate::lexer::{Token, TokenKind};
use crate::op::parser::{tok_len, Parser};
use crate::op::step::{delimited_node, delimited_step};
use crate::op::Node;
use vstd::prelude::*;

verus! {

/// Exactly two `~`.
pub open spec fn tilde2() -> spec_fn(Token) -> bool {
    |t: Token| t.kind == TokenKind::Tilde && tok_len(t) == 2
}

fn is_tilde(t: &Token) -> (r: bool)
    ensures
        r == tilde2()(*t),
{
    t.kind == TokenKind::Tilde && t.range.end >= t.range.start && t.range.end - t.range.start == 2
}

/// Parses `~~body~~` at the cursor: `~~`, then everything up to the next `~~` before a logical end
/// of input.
/// On success pushes Start (the opening token), a Value (the tokens between) and End (the
/// closing token) and returns `true`; otherwise changes nothing and returns `false`.
pub fn strikethrough(p: &mut Parser) -> (r: bool)
    requires
        old(p).wf(),
    ensures
        delimited_step(*old(p), *final(p), r, Node::Strikethrough, tilde2(), tilde2()),
        r ==> final(p).pos > old(p).pos,
{
    delimited_node(p, Node::Strikethrough, is_tilde, Ghost(tilde2()), is_tilde, Ghost(tilde2()))
}

} // verus!
