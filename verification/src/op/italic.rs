//! `_text_`: italic text.
use crate::lexer::{Token, TokenKind};
use crate::op::parser::{tok_len, Parser};
use crate::op::step::{delimited_node, delimited_step};
use crate::op::Node;
use vstd::prelude::*;

verus! {

/// A single `_`.
pub open spec fn underscore() -> spec_fn(Token) -> bool {
    |t: Token| t.kind == TokenKind::Underscore && tok_len(t) == 1
}

fn is_underscore(t: &Token) -> (r: bool)
    ensures
        r == underscore()(*t),
{
    t.kind == TokenKind::Underscore && t.range.end >= t.range.start && t.range.end - t.range.start == 1
}

/// Parses `_body_` at the cursor: a single `_`, then everything up to the next single `_` before a
/// logical end of input.
/// On success pushes Start (the opening token), a Value (the tokens between) and End (the
/// closing token) and returns `true`; otherwise changes nothing and returns `false`.
pub fn italic(p: &mut Parser) -> (r: bool)
    requires
        old(p).wf(),
    ensures
        delimited_step(*old(p), *final(p), r, Node::Italic, underscore(), underscore()),
        r ==> final(p).pos > old(p).pos,
{
    delimited_node(p, Node::Italic, is_underscore, Ghost(underscore()), is_underscore, Ghost(underscore()))
}

} // verus!
