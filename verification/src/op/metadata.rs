//! `---` ... `---`: the metadata block at the top of a document.
use crate::lexer::{Token, TokenKind};
use crate::op::parser::{tok_len, Parser};
use crate::op::step::{delimited_node, delimited_step};
use crate::op::Node;
use vstd::prelude::*;

verus! {

/// Exactly three `-` at the start of a line.
pub open spec fn three_dashes() -> spec_fn(Token) -> bool {
    |t: Token| t.kind == TokenKind::Minus && t.position.column == 0 && tok_len(t) == 3
}

fn is_three_dashes(t: &Token) -> (r: bool)
    ensures
        r == three_dashes()(*t),
{
    t.kind == TokenKind::Minus && t.position.column == 0 && t.range.end >= t.range.start && t.range.end - t.range.start == 3
}

/// Parses a metadata block at the cursor: `---` at the start of a line, then everything up to the
/// next `---` at the start of a line before a logical end of input.
/// On success pushes Start (the opening token), a Value (the tokens between) and End (the
/// closing token) and returns `true`; otherwise changes nothing and returns `false`.
pub fn metadata(p: &mut Parser) -> (r: bool)
    requires
        old(p).wf(),
    ensures
        delimited_step(*old(p), *final(p), r, Node::Metadata, three_dashes(), three_dashes()),
        r ==> final(p).pos > old(p).pos,
{
    delimited_node(p, Node::Metadata, is_three_dashes, Ghost(three_dashes()), is_three_dashes, Ghost(three_dashes()))
}

} // verus!
