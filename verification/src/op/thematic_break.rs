//! `-----`: a thematic break.
use crate::lexer::{Token, TokenKind};
use crate::op::parser::{span_of, tok_len, Parser};
use crate::op::step::{lemma_appended, lemma_kept, lemma_node_ops, lemma_span_empty, no_content, node_ops, outcome};
use crate::op::{Content, Node, Op};
use vstd::prelude::*;

verus! {

/// Exactly five `-` at the start of a line.
pub open spec fn five_dashes() -> spec_fn(Token) -> bool {
    |t: Token| t.kind == TokenKind::Minus && t.position.column == 0 && tok_len(t) == 5
}

fn is_dash(t: &Token) -> (r: bool)
    ensures
        r == five_dashes()(*t),
{
    t.kind == TokenKind::Minus && t.position.column == 0 && t.range.end >= t.range.start
        && t.range.end - t.range.start == 5
}

/// The thematic break at `pos`, if the token there is five `-` at the start of a line: Start and
/// End with no content around a Value holding the dashes.
pub open spec fn thematic_break_at(toks: Seq<Token>, pos: int) -> Option<(int, Seq<Op>)> {
    if 0 <= pos < toks.len() && five_dashes()(toks[pos]) {
        Some((pos + 1, node_ops(Node::ThematicBreak, no_content(), span_of(toks, pos, pos + 1), no_content())))
    } else {
        None
    }
}

/// Parses a thematic break at the cursor (see [`thematic_break_at`]).
pub fn thematic_break(p: &mut Parser) -> (r: bool)
    requires
        old(p).wf(),
    ensures
        outcome(*old(p), *final(p), r, thematic_break_at(old(p).toks(), old(p).pos as int)),
        r ==> final(p).pos > old(p).pos,
{
    let ghost p0 = *p;
    let range = match p.eat_where(is_dash, Ghost(five_dashes())) {
        Some(r) => r,
        None => {
            proof {
                lemma_kept(p0, *p);
            }
            return false;
        },
    };
    let content = p.span(range);
    p.ops.push(Op::new_start(Node::ThematicBreak, Content::empty()));
    p.ops.push(Op::new_value(content));
    p.ops.push(Op::new_end(Node::ThematicBreak, Content::empty()));
    proof {
        let a = p0.pos as int;
        lemma_span_empty(p0.toks(), a);
        lemma_span_empty(p0.toks(), a + 1);
        lemma_node_ops(p0.toks(), Node::ThematicBreak, a, a, a + 1, a + 1);
        let ops = node_ops(Node::ThematicBreak, no_content(), span_of(p0.toks(), a, a + 1), no_content());
        assert(p.ops@ =~= p0.ops@ + ops);
        lemma_appended(p0, *p, ops);
    }
    true
}

} // verus!
