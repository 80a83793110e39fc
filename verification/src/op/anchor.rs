//! `[text](url)`: an anchor.
use crate::lexer::Token;
use crate::op::destination::{destination, destination_close};
use crate::op::laws::{balanced, covers, lemma_balanced_wrap, lemma_covers_concat, lemma_covers_one};
use crate::op::parser::{bpos, Parser, StopCondition};
use crate::op::step::{
    added, delimited, delimited_ops, lemma_advanced_trans, lemma_appended, lemma_kept,
    lemma_node_ops, no_content, outcome,
};
use crate::op::title::{left_bracket, right_bracket, title};
use crate::op::{Content, Node, Op, OpKind};
use vstd::prelude::*;

verus! {

/// The operations of an anchor whose title runs from `pos` to `j` and whose destination runs
/// from `j + 1` to `e`: Start and End with no content around the title's and the
/// destination's operations.
pub open spec fn anchor_ops(toks: Seq<Token>, pos: int, j: int, e: int) -> Seq<Op> {
    seq![Op { kind: OpKind::Start(Node::Anchor), content: no_content() }]
        + delimited_ops(toks, Node::Title, pos, j) + delimited_ops(toks, Node::Destination, j + 1, e)
        + seq![Op { kind: OpKind::End(Node::Anchor), content: no_content() }]
}

/// The anchor at `pos`, if there is one: a title `[..]` followed at once by a destination
/// `(..)`.
pub open spec fn anchor_at(toks: Seq<Token>, stack: Seq<StopCondition>, pos: int) -> Option<(int, Seq<Op>)> {
    match delimited(toks, stack, pos, left_bracket(), right_bracket()) {
        Some(j) => match destination_close(toks, stack, j + 1) {
            Some(e) => Some((e + 1, anchor_ops(toks, pos, j, e))),
            None => None,
        },
        None => None,
    }
}

proof fn lemma_anchor_ops(t: Seq<Token>, a: int, j: int, e: int)
    requires
        crate::lexer::chained(t),
        0 <= a < j < j + 1 < e < t.len(),
    ensures
        balanced(anchor_ops(t, a, j, e)),
        covers(t, anchor_ops(t, a, j, e), bpos(t, a), bpos(t, e + 1)),
{
    let s = Op { kind: OpKind::Start(Node::Anchor), content: no_content() };
    let z = Op { kind: OpKind::End(Node::Anchor), content: no_content() };
    let ti = delimited_ops(t, Node::Title, a, j);
    let de = delimited_ops(t, Node::Destination, j + 1, e);
    lemma_node_ops(t, Node::Title, a, a + 1, j, j + 1);
    lemma_node_ops(t, Node::Destination, j + 1, j + 2, e, e + 1);
    crate::op::laws::lemma_balanced_concat(ti, de);
    lemma_balanced_wrap(s, ti + de, z, Node::Anchor);
    assert(anchor_ops(t, a, j, e) =~= seq![s] + (ti + de) + seq![z]);
    lemma_covers_one(t, s, bpos(t, a), bpos(t, a));
    lemma_covers_one(t, z, bpos(t, e + 1), bpos(t, e + 1));
    lemma_covers_concat(t, ti, de, bpos(t, a), bpos(t, j + 1), bpos(t, e + 1));
    lemma_covers_concat(t, seq![s], ti + de, bpos(t, a), bpos(t, a), bpos(t, e + 1));
    lemma_covers_concat(t, seq![s] + (ti + de), seq![z], bpos(t, a), bpos(t, e + 1), bpos(t, e + 1));
}

/// An anchor holds no logical end of input.
pub proof fn lemma_anchor_clear(toks: Seq<Token>, stack: Seq<StopCondition>, pos: int)
    ensures
        anchor_at(toks, stack, pos) matches Some((e, _)) ==> pos < e <= toks.len() && crate::op::parser::clear(toks, stack, pos, e),
{
    if anchor_at(toks, stack, pos) is Some {
        let j = delimited(toks, stack, pos, left_bracket(), right_bracket())->0;
        crate::op::parser::lemma_until(toks, stack, pos + 1, right_bracket());
        crate::op::parser::lemma_not_eof(toks, stack, pos);
        crate::op::destination::lemma_destination_close(toks, stack, j + 1);
        let e = destination_close(toks, stack, j + 1)->0;
        assert forall|k: int| pos <= k < e + 1 implies !#[trigger] crate::op::parser::eof_at(toks, stack, k) by {
            if k <= j {
                assert(crate::op::parser::clear(toks, stack, pos + 1, j + 1));
            }
        }
    }
}

/// Parses an anchor at the cursor (see [`anchor_at`]).
pub fn anchor(p: &mut Parser) -> (r: bool)
    requires
        old(p).wf(),
    ensures
        outcome(*old(p), *final(p), r, anchor_at(old(p).toks(), old(p).stack(), old(p).pos as int)),
        r ==> final(p).pos > old(p).pos,
{
    let ghost p0 = *p;
    let start = p.pos;
    let snap = p.ops.len();
    p.ops.push(Op::new_start(Node::Anchor, Content::empty()));
    let ghost p1 = *p;
    if !title(p) {
        p.pos = start;
        p.ops.truncate(snap);
        proof {
            assert(p.ops@ =~= p0.ops@);
            lemma_kept(p0, *p);
        }
        return false;
    }
    let ghost p2 = *p;
    if !destination(p) {
        p.pos = start;
        p.ops.truncate(snap);
        proof {
            assert(p2.ops@.subrange(0, p1.ops@.len() as int) == p1.ops@);
            assert(p.ops@ =~= p1.ops@.subrange(0, snap as int));
            assert(p.ops@ =~= p0.ops@);
            lemma_kept(p0, *p);
        }
        return false;
    }
    p.ops.push(Op::new_end(Node::Anchor, Content::empty()));
    proof {
        let j = p2.pos - 1;
        let e = p.pos - 1;
        crate::op::parser::lemma_until(p0.toks(), p0.stack(), start + 1, right_bracket());
        lemma_anchor_ops(p0.toks(), start as int, j, e as int);
        assert(p.ops@ =~= p0.ops@ + anchor_ops(p0.toks(), start as int, j, e as int));
        lemma_appended(p0, *p, anchor_ops(p0.toks(), start as int, j, e as int));
    }
    true
}

} // verus!
