//! Several images, one per line: an image gallery.
use crate::lexer::Token;
use crate::op::image::{image, image_at};
use crate::op::laws::{balanced, covers, lemma_balanced_wrap, lemma_covers_concat, lemma_covers_one};
use crate::op::parser::{bpos, eof_at, Parser, StopCondition};
use crate::op::step::{
    added, advanced, lemma_advanced_trans, lemma_evolve_refl, lemma_kept, no_content, outcome,
};
use crate::op::{Content, Node, Op, OpKind};
use vstd::prelude::*;

verus! {

/// An image takes at least one token.
pub proof fn lemma_image_progress(toks: Seq<Token>, stack: Seq<StopCondition>, k: int)
    ensures
        image_at(toks, stack, k) matches Some((e, _)) ==> k < e <= toks.len(),
{
    if image_at(toks, stack, k) is Some {
        crate::op::parser::lemma_until(toks, stack, k + 2, crate::op::title::right_bracket());
        let j = crate::op::parser::until(toks, stack, k + 2, crate::op::title::right_bracket())->0;
        crate::op::destination::lemma_destination_close(toks, stack, j + 1);
    }
}

/// The images in a row from `k` on: how many, where they end and their operations. The row
/// ends at the last token or at a logical end of input where no image starts; `None` when
/// something else stands there.
pub open spec fn image_run(toks: Seq<Token>, stack: Seq<StopCondition>, k: int) -> Option<
    (int, int, Seq<Op>),
>
    decreases toks.len() - k,
{
    if k < 0 || k >= toks.len() {
        Some((0, k, Seq::empty()))
    } else {
        match image_at(toks, stack, k) {
            Some((e, ops)) => {
                proof {
                    lemma_image_progress(toks, stack, k);
                }
                match image_run(toks, stack, e) {
                    Some((c, f, rest)) => Some((c + 1, f, ops + rest)),
                    None => None,
                }
            },
            None => if eof_at(toks, stack, k) {
                Some((0, k, Seq::empty()))
            } else {
                None
            },
        }
    }
}

/// The row of images from `k` on, after `count` images whose operations are `body`.
pub open spec fn run_from(
    toks: Seq<Token>,
    stack: Seq<StopCondition>,
    k: int,
    count: int,
    body: Seq<Op>,
) -> Option<(int, int, Seq<Op>)> {
    match image_run(toks, stack, k) {
        Some((c, f, ops)) => Some((count + c, f, body + ops)),
        None => None,
    }
}

proof fn lemma_run_step(toks: Seq<Token>, stack: Seq<StopCondition>, k: int, count: int, body: Seq<Op>)
    requires
        0 <= k < toks.len(),
        image_at(toks, stack, k) is Some,
    ensures
        run_from(toks, stack, k, count, body) == run_from(
            toks,
            stack,
            image_at(toks, stack, k).unwrap().0,
            count + 1,
            body + image_at(toks, stack, k).unwrap().1,
        ),
{
    let (e, ops) = image_at(toks, stack, k)->0;
    lemma_image_progress(toks, stack, k);
    match image_run(toks, stack, e) {
        Some((c, f, rest)) => {
            assert(body + (ops + rest) =~= body + ops + rest);
        },
        None => {},
    }
}

proof fn lemma_run_end(toks: Seq<Token>, stack: Seq<StopCondition>, k: int, count: int, body: Seq<Op>)
    requires
        0 <= k,
        k < toks.len() ==> image_at(toks, stack, k) is None,
    ensures
        run_from(toks, stack, k, count, body) == if k >= toks.len() || eof_at(toks, stack, k) {
            Some((count, k, body))
        } else {
            None
        },
{
    assert(body + Seq::<Op>::empty() =~= body);
}

/// The image block at `pos`: one image alone, or several wrapped in Start and End of
/// [`Node::Images`] with no content; `None` when the row holds no image or is broken by
/// anything else.
pub open spec fn images_at(toks: Seq<Token>, stack: Seq<StopCondition>, pos: int) -> Option<(int, Seq<Op>)> {
    match image_run(toks, stack, pos) {
        Some((c, f, ops)) => if c == 1 {
            Some((f, ops))
        } else if c > 1 {
            Some(
                (
                    f,
                    seq![Op { kind: OpKind::Start(Node::Images), content: no_content() }] + ops
                        + seq![Op { kind: OpKind::End(Node::Images), content: no_content() }],
                ),
            )
        } else {
            None
        },
        None => None,
    }
}

/// Parses an image block at the cursor (see [`images_at`]).
pub fn images(p: &mut Parser) -> (r: bool)
    requires
        old(p).wf(),
    ensures
        outcome(*old(p), *final(p), r, images_at(old(p).toks(), old(p).stack(), old(p).pos as int)),
        r ==> final(p).pos > old(p).pos,
{
    let ghost p0 = *p;
    let start = p.pos;
    let snap = p.ops.len();
    let mut count: usize = 0;
    proof {
        lemma_kept(p0, *p);
    }
    while p.pos < p.tokens.len()
        invariant
            p0.wf(),
            start == p0.pos,
            snap == p0.ops@.len(),
            advanced(p0, *p),
            p.toks() == p0.toks(),
            count <= p.pos - start,
            count == 0 ==> p.pos == start,
            image_run(p0.toks(), p0.stack(), start as int) == run_from(
                p0.toks(),
                p0.stack(),
                p.pos as int,
                count as int,
                added(p0, *p),
            ),
        ensures
            image_run(p0.toks(), p0.stack(), start as int) == run_from(
                p0.toks(),
                p0.stack(),
                p.pos as int,
                count as int,
                added(p0, *p),
            ),
            p.pos < p.toks().len() ==> image_at(p0.toks(), p0.stack(), p.pos as int) is None,
        decreases p.toks().len() - p.pos,
    {
        let ghost q = *p;
        if image(p) {
            proof {
                lemma_advanced_trans(p0, q, *p);
                lemma_run_step(p0.toks(), p0.stack(), q.pos as int, count as int, added(p0, q));
            }
            count = count + 1;
        } else {
            break;
        }
    }
    proof {
        lemma_run_end(p0.toks(), p0.stack(), p.pos as int, count as int, added(p0, *p));
    }
    if p.pos < p.tokens.len() && !p.at_eof() {
        p.pos = start;
        p.ops.truncate(snap);
        proof {
            assert(p.ops@ =~= p0.ops@);
            lemma_kept(p0, *p);
        }
        return false;
    }
    if count == 1 {
        proof {
            assert(p.ops@ =~= p0.ops@ + added(p0, *p));
        }
        return true;
    } else if count > 1 {
        let ghost q = *p;
        p.ops.insert(snap, Op::new_start(Node::Images, Content::empty()));
        p.ops.push(Op::new_end(Node::Images, Content::empty()));
        proof {
            let s = Op { kind: OpKind::Start(Node::Images), content: no_content() };
            let z = Op { kind: OpKind::End(Node::Images), content: no_content() };
            let body = added(p0, q);
            assert(q.ops@ =~= p0.ops@ + body);
            assert(p.ops@ =~= p0.ops@ + (seq![s] + body + seq![z]));
            lemma_balanced_wrap(s, body, z, Node::Images);
            let (lo, hi) = (bpos(p0.toks(), start as int), bpos(p0.toks(), p.pos as int));
            lemma_covers_one(p0.toks(), s, lo, lo);
            lemma_covers_one(p0.toks(), z, hi, hi);
            lemma_covers_concat(p0.toks(), seq![s], body, lo, lo, hi);
            lemma_covers_concat(p0.toks(), seq![s] + body, seq![z], lo, hi, hi);
            crate::op::step::lemma_appended(p0, *p, seq![s] + body + seq![z]);
        }
        return true;
    }
    p.pos = start;
    p.ops.truncate(snap);
    proof {
        assert(p.ops@ =~= p0.ops@);
        lemma_kept(p0, *p);
    }
    false
}

} // verus!
