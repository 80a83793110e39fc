//! `[text]`: the title of an anchor or an image.
use crate::lexer::{Token, TokenKind};
use crate::op::parser::{tok_len, Parser};
use crate::op::step::{delimited_node, delimited_step};
use crate::op::Node;
use vstd::prelude::*;

verus! {

/// A `[`.
pub open spec fn left_bracket() -> spec_fn(Token) -> bool {
    |t: Token| t.kind == TokenKind::LeftSquareBracket && tok_len(t) == 1
}

fn is_left_bracket(t: &Token) -> (r: bool)
    ensures
        r == left_bracket()(*t),
{
    t.kind == TokenKind::LeftSquareBracket && t.range.end >= t.range.start && t.range.end - t.range.start == 1
}

/// A `]`.
pub open spec fn right_bracket() -> spec_fn(Token) -> bool {
    |t: Token| t.kind == TokenKind::RightSquareBracket && tok_len(t) == 1
}

fn is_right_bracket(t: &Token) -> (r: bool)
    ensures
        r == right_bracket()(*t),
{
    t.kind == TokenKind::RightSquareBracket && t.range.end >= t.range.start && t.range.end - t.range.start == 1
}

/// Parses `[body]` at the cursor: `[`, then everything up to the next `]` before a logical end of
/// input.
/// On success pushes Start (the opening token), a Value (the tokens between) and End (the
/// closing token) and returns `true`; otherwise changes nothing and returns `false`.
pub fn title(p: &mut Parser) -> (r: bool)
    requires
        old(p).wf(),
    ensures
        delimited_step(*old(p), *final(p), r, Node::Title, left_bracket(), right_bracket()),
        r ==> final(p).pos > old(p).pos,
{
    delimited_node(p, Node::Title, is_left_bracket, Ghost(left_bracket()), is_right_bracket, Ghost(right_bracket()))
}

} // verus!
