//! `![alt](url)`: an image.
use crate::lexer::{Token, TokenKind};
use crate::op::destination::{destination, destination_close};
use crate::op::embed::eol_tok;
use crate::op::laws::{
    balanced, covers, lemma_balanced_concat, lemma_balanced_wrap, lemma_covers_concat,
};
use crate::op::parser::{bpos, eof_at, lemma_until, span_of, tok_len, Parser, StopCondition};
use crate::op::step::{
    delimited, delimited_ops, lemma_appended, lemma_kept, lemma_node_ops, lemma_span_covers,
    outcome,
};
use crate::op::title::{left_bracket, right_bracket, title};
use crate::op::{Content, Node, Op, OpKind};
use vstd::prelude::*;

verus! {

/// A single `!`.
pub open spec fn bang1() -> spec_fn(Token) -> bool {
    |t: Token| t.kind == TokenKind::Bang && tok_len(t) == 1
}

fn is_bang(t: &Token) -> (r: bool)
    ensures
        r == bang1()(*t),
{
    t.kind == TokenKind::Bang && t.range.end >= t.range.start && t.range.end - t.range.start == 1
}

fn is_eol(t: &Token) -> (r: bool)
    ensures
        r == eol_tok()(*t),
{
    t.kind == TokenKind::Eol
}

/// The operations of an image with `!` at `pos`, its title up to `j`, its destination up to
/// `e` and its closing content over the tokens `e + 1..f`.
pub open spec fn image_ops(toks: Seq<Token>, pos: int, j: int, e: int, f: int) -> Seq<Op> {
    seq![Op { kind: OpKind::Start(Node::Image), content: span_of(toks, pos, pos + 1) }]
        + delimited_ops(toks, Node::Title, pos + 1, j) + delimited_ops(toks, Node::Destination, j + 1, e)
        + seq![Op { kind: OpKind::End(Node::Image), content: span_of(toks, e + 1, f) }]
}

/// The image at `pos`, if there is one: `!`, a title and a destination, followed by an end of
/// line (which it takes as its closing content) or a logical end of input.
pub open spec fn image_at(toks: Seq<Token>, stack: Seq<StopCondition>, pos: int) -> Option<(int, Seq<Op>)> {
    if 0 <= pos < toks.len() && bang1()(toks[pos]) {
        match delimited(toks, stack, pos + 1, left_bracket(), right_bracket()) {
            Some(j) => match destination_close(toks, stack, j + 1) {
                Some(e) => if 0 <= e + 1 < toks.len() && eol_tok()(toks[e + 1]) {
                    Some((e + 2, image_ops(toks, pos, j, e, e + 2)))
                } else if eof_at(toks, stack, e + 1) {
                    Some((e + 1, image_ops(toks, pos, j, e, e + 1)))
                } else {
                    None
                },
                None => None,
            },
            None => None,
        }
    } else {
        None
    }
}

proof fn lemma_image_ops(t: Seq<Token>, a: int, j: int, e: int, f: int)
    requires
        crate::lexer::chained(t),
        0 <= a < a + 1 < j < j + 1 < e < e + 1 <= f <= t.len(),
    ensures
        balanced(image_ops(t, a, j, e, f)),
        covers(t, image_ops(t, a, j, e, f), bpos(t, a), bpos(t, f)),
{
    let s = Op { kind: OpKind::Start(Node::Image), content: span_of(t, a, a + 1) };
    let z = Op { kind: OpKind::End(Node::Image), content: span_of(t, e + 1, f) };
    let ti = delimited_ops(t, Node::Title, a + 1, j);
    let de = delimited_ops(t, Node::Destination, j + 1, e);
    lemma_node_ops(t, Node::Title, a + 1, a + 2, j, j + 1);
    lemma_node_ops(t, Node::Destination, j + 1, j + 2, e, e + 1);
    lemma_balanced_concat(ti, de);
    lemma_balanced_wrap(s, ti + de, z, Node::Image);
    assert(image_ops(t, a, j, e, f) =~= seq![s] + (ti + de) + seq![z]);
    lemma_span_covers(t, a, a + 1, s.kind);
    lemma_span_covers(t, e + 1, f, z.kind);
    lemma_covers_concat(t, ti, de, bpos(t, a + 1), bpos(t, j + 1), bpos(t, e + 1));
    lemma_covers_concat(t, seq![s], ti + de, bpos(t, a), bpos(t, a + 1), bpos(t, e + 1));
    lemma_covers_concat(t, seq![s] + (ti + de), seq![z], bpos(t, a), bpos(t, e + 1), bpos(t, f));
}

/// Parses an image at the cursor (see [`image_at`]).
pub fn image(p: &mut Parser) -> (r: bool)
    requires
        old(p).wf(),
    ensures
        outcome(*old(p), *final(p), r, image_at(old(p).toks(), old(p).stack(), old(p).pos as int)),
        r ==> final(p).pos > old(p).pos,
{
    let ghost p0 = *p;
    let start = p.pos;
    let snap = p.ops.len();
    let start_range = match p.eat_where(is_bang, Ghost(bang1())) {
        Some(r) => r,
        None => {
            proof {
                lemma_kept(p0, *p);
            }
            return false;
        },
    };
    let start_content = p.span(start_range);
    p.ops.push(Op::new_start(Node::Image, start_content));
    let ghost p1 = *p;
    if !title(p) {
        p.pos = start;
        p.ops.truncate(snap);
        proof {
            assert(p.ops@ =~= p0.ops@);
            lemma_kept(p0, *p);
        }
        return false;
    }
    let ghost p2 = *p;
    proof {
        lemma_until(p0.toks(), p0.stack(), start + 2, right_bracket());
    }
    if !destination(p) {
        p.pos = start;
        p.ops.truncate(snap);
        proof {
            assert(p2.ops@.subrange(0, p1.ops@.len() as int) == p1.ops@);
            assert(p.ops@ =~= p1.ops@.subrange(0, snap as int));
            assert(p.ops@ =~= p0.ops@);
            lemma_kept(p0, *p);
        }
        return false;
    }
    let ghost p3 = *p;
    let end_content = match p.eat_where(is_eol, Ghost(eol_tok())) {
        Some(eol_range) => p.span(eol_range),
        None => {
            if p.at_eof() {
                Content::empty()
            } else {
                p.pos = start;
                p.ops.truncate(snap);
                proof {
                    assert(p3.ops@.subrange(0, p1.ops@.len() as int) == p1.ops@) by {
                        assert(p3.ops@.subrange(0, p2.ops@.len() as int) == p2.ops@);
                        assert(p2.ops@.subrange(0, p1.ops@.len() as int) == p1.ops@);
                        assert(p3.ops@.subrange(0, p1.ops@.len() as int) =~= p3.ops@.subrange(
                            0,
                            p2.ops@.len() as int,
                        ).subrange(0, p1.ops@.len() as int));
                    }
                    assert(p.ops@ =~= p1.ops@.subrange(0, snap as int));
                    assert(p.ops@ =~= p0.ops@);
                    lemma_kept(p0, *p);
                }
                return false;
            }
        },
    };
    p.ops.push(Op::new_end(Node::Image, end_content));
    proof {
        let (a, j, e, f) = (start as int, p2.pos - 1, p3.pos - 1, p.pos as int);
        crate::op::step::lemma_span_empty(p0.toks(), e + 1);
        lemma_image_ops(p0.toks(), a, j, e, f);
        assert(p.ops@ =~= p0.ops@ + image_ops(p0.toks(), a, j, e, f));
        lemma_appended(p0, *p, image_ops(p0.toks(), a, j, e, f));
    }
    true
}

} // verus!
