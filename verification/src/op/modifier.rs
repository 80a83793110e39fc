//! The rest of an opening line (`{% Title`, `!! Title`, ```` ```rust ````): a modifier.
use crate::lexer::{Token, TokenKind};
use crate::op::laws::{balanced, covers};
use crate::op::parser::{lemma_until, span_of, until, Parser};
use crate::op::step::{
    added, lemma_kept, lemma_node_ops, lemma_span_empty, lemma_evolve_refl, no_content, node_ops,
    outcome,
};
use crate::op::{Content, Node, Op};
use vstd::prelude::*;

verus! {

/// An end of line or a terminator.
pub open spec fn eol_or_terminator() -> spec_fn(Token) -> bool {
    |t: Token| t.kind == TokenKind::Eol || t.kind == TokenKind::Terminator
}

fn is_eol_or_terminator(t: &Token) -> (r: bool)
    ensures
        r == eol_or_terminator()(*t),
{
    t.kind == TokenKind::Eol || t.kind == TokenKind::Terminator
}

/// The modifier at `pos`, if there is one: it does not start a line and runs up to the next end
/// of line or terminator before a logical end of input, which closes it. Its operations are
/// Start (no content), a Value (the text) and End (the closing token).
pub open spec fn modifier_at(toks: Seq<Token>, stack: Seq<crate::op::parser::StopCondition>, pos: int) -> Option<(int, Seq<Op>)> {
    if 0 <= pos < toks.len() && toks[pos].position.column == 0 {
        None
    } else {
        match until(toks, stack, pos, eol_or_terminator()) {
            Some(j) => Some(
                (j + 1, node_ops(Node::Modifier, no_content(), span_of(toks, pos, j), span_of(toks, j, j + 1))),
            ),
            None => None,
        }
    }
}

/// Parses a modifier at the cursor (see [`modifier_at`]).
pub fn modifier(p: &mut Parser) -> (r: bool)
    requires
        old(p).wf(),
    ensures
        outcome(*old(p), *final(p), r, modifier_at(old(p).toks(), old(p).stack(), old(p).pos as int)),
        r ==> final(p).pos > old(p).pos,
{
    let ghost p0 = *p;
    if p.pos < p.tokens.len() && p.tokens[p.pos].position.column == 0 {
        proof {
            lemma_kept(p0, *p);
        }
        return false;
    }
    let (body_range, end_range) = match p.scan_until(is_eol_or_terminator, Ghost(eol_or_terminator())) {
        Some(found) => found,
        None => {
            proof {
                lemma_kept(p0, *p);
            }
            return false;
        },
    };
    proof {
        lemma_until(p0.toks(), p0.stack(), p0.pos as int, eol_or_terminator());
    }
    let body_content = p.span(body_range);
    let end_content = p.span(end_range);
    p.ops.push(Op::new_start(Node::Modifier, Content::empty()));
    p.ops.push(Op::new_value(body_content));
    p.ops.push(Op::new_end(Node::Modifier, end_content));
    proof {
        let (a, j) = (p0.pos as int, end_range.start as int);
        lemma_span_empty(p0.toks(), a);
        lemma_node_ops(p0.toks(), Node::Modifier, a, a, j, j + 1);
        let ops = node_ops(Node::Modifier, no_content(), span_of(p0.toks(), a, j), span_of(p0.toks(), j, j + 1));
        assert(p.ops@ =~= p0.ops@ + ops);
        assert(added(p0, *p) =~= ops);
        assert(p.ops@.subrange(0, p0.ops@.len() as int) =~= p0.ops@);
        lemma_evolve_refl(p0.toks());
    }
    true
}

} // verus!
