//! `` `code` ``: inline code.
use crate::lexer::{Token, TokenKind};
use crate::op::parser::{tok_len, Parser};
use crate::op::step::{delimited_node, delimited_step};
use crate::op::Node;
use vstd::prelude::*;

verus! {

/// A single backtick.
pub open spec fn backtick1() -> spec_fn(Token) -> bool {
    |t: Token| t.kind == TokenKind::Backtick && tok_len(t) == 1
}

fn is_backtick(t: &Token) -> (r: bool)
    ensures
        r == backtick1()(*t),
{
    t.kind == TokenKind::Backtick && t.range.end >= t.range.start && t.range.end - t.range.start == 1
}

/// Parses `` `body` `` at the cursor: a single backtick, then everything up to the next single
/// backtick before a logical end of input.
/// On success pushes Start (the opening token), a Value (the tokens between) and End (the
/// closing token) and returns `true`; otherwise changes nothing and returns `false`.
pub fn code_span(p: &mut Parser) -> (r: bool)
    requires
        old(p).wf(),
    ensures
        delimited_step(*old(p), *final(p), r, Node::CodeSpan, backtick1(), backtick1()),
        r ==> final(p).pos > old(p).pos,
{
    delimited_node(p, Node::CodeSpan, is_backtick, Ghost(backtick1()), is_backtick, Ghost(backtick1()))
}

} // verus!
