//! A document: blocks separated by terminators, up to a logical end of input.
use crate::lexer::{Token, TokenKind};
use crate::op::code::{code, code_at};
use crate::op::collapsible::{collapsible, collapsible_end, collapsible_opens};
use crate::op::embed::{embed, embed_at, eol_tok};
use crate::op::heading::{heading, heading_res};
use crate::op::highlight::{highlight, highlight_res, terminator};
use crate::op::images::{images, images_at};
use crate::op::modifier::modifier_at;
use crate::op::paragraph::para_ops;
use crate::op::thematic_break::thematic_break_at;
use crate::op::laws::{balanced, covers, lemma_balanced_small, lemma_covers_one};
use crate::op::list::{list, list_end, list_ops};
use crate::op::paragraph::paragraph;
use crate::op::parser::{
    bpos, cond_matches, eof_at, first_eof, flipped, lemma_eof_push, lemma_first_eof_ge, lemma_not_eof, span_of,
    Parser, StopCondition,
};
use crate::op::step::{
    added, advanced, lemma_advanced_trans, lemma_appended, lemma_evolve_keeps, lemma_kept,
    lemma_restack, lemma_span_covers, lemma_wrap, no_content,
};
use crate::op::thematic_break::thematic_break;
use crate::op::{Content, Node, Op, OpKind};
use vstd::prelude::*;

verus! {

/// The collapsible block at `k`: whether it parsed, the tokens afterwards (its `{%` turns
/// literal where its opening stands but it fails; the nested document may turn tokens literal
/// too), where it ends and its operations. Its title is a modifier; its body, from the start of
/// a line, a document that a `%}` at the start of a line ends, and that `%}` with the end of line
/// after it closes the block.
#[verifier::opaque]
pub open spec fn collapsible_res(toks: Seq<Token>, stack: Seq<StopCondition>, k: int) -> (bool, Seq<Token>, int, Seq<Op>)
    decreases toks.len() - k, 0int,
{
    if !collapsible_opens(toks, k) {
        (false, toks, k, Seq::empty())
    } else {
        let (m, title) = match modifier_at(toks, stack, k + 2) {
            Some((e, ops)) => (e, ops),
            None => (k + 2, Seq::empty()),
        };
        if !(k < m < toks.len() && toks[m].position.column == 0) {
            (false, flipped(toks, k), k, Seq::empty())
        } else {
            let (t2, d, body) = doc_res(toks, stack.push(StopCondition::CollapsibleEnd), m);
            if t2.len() == toks.len() && m <= d < t2.len() && collapsible_end()(t2[d]) {
                let e = if d + 1 < t2.len() && eol_tok()(t2[d + 1]) {
                    d + 2
                } else {
                    d + 1
                };
                (
                    true,
                    t2,
                    e,
                    seq![Op { kind: OpKind::Start(Node::Collapsible), content: span_of(toks, k, k + 2) }]
                        + title + body + seq![
                        Op { kind: OpKind::End(Node::Collapsible), content: span_of(t2, d, e) },
                    ],
                )
            } else {
                (false, flipped(t2, k), k, Seq::empty())
            }
        }
    }
}

/// The blocks that need no terminator around them at `k`, tried in turn: code, collapsible,
/// embed and highlight. Whether one parsed, the tokens afterwards, where it ends and its
/// operations.
#[verifier::opaque]
pub open spec fn standalone_res(toks: Seq<Token>, stack: Seq<StopCondition>, k: int) -> (bool, Seq<Token>, int, Seq<Op>)
    decreases toks.len() - k, 1int,
{
    match code_at(toks, stack, k) {
        Some((e, ops)) => (true, toks, e, ops),
        None => {
            let (ok, t1, e, ops) = collapsible_res(toks, stack, k);
            if ok {
                (true, t1, e, ops)
            } else {
                match embed_at(t1, stack, k) {
                    Some((e2, ops2)) => (true, t1, e2, ops2),
                    None => match highlight_res(t1, stack, k) {
                        Some((e2, ops2)) => (true, t1, e2, ops2),
                        None => (false, t1, k, Seq::empty()),
                    },
                }
            }
        },
    }
}

/// The blocks that a terminator ends, at `k`, tried in turn within a terminator: a list that
/// runs to a logical end of input, images, a thematic break, a heading, and otherwise a
/// paragraph. Where the block ends and its operations.
pub open spec fn terminated_res(toks: Seq<Token>, stack: Seq<StopCondition>, k: int) -> (int, Seq<Op>) {
    let s2 = stack.push(StopCondition::Terminator);
    if list_end(toks, s2, k, 0) is Some && eof_at(toks, s2, list_end(toks, s2, k, 0)->0) {
        (list_end(toks, s2, k, 0)->0, list_ops(toks, s2, k, 0)->0)
    } else {
        match images_at(toks, s2, k) {
            Some(x) => x,
            None => match thematic_break_at(toks, k) {
                Some(x) => x,
                None => match heading_res(toks, s2, k) {
                    Some(x) => x,
                    None => (first_eof(toks, s2, k), para_ops(toks, s2, k)),
                },
            },
        }
    }
}

/// The block at `k`: a terminator (a Value), a block that needs no terminator around it, or
/// one that a terminator ends. The tokens afterwards, where it ends and its operations.
#[verifier::opaque]
pub open spec fn block_res(toks: Seq<Token>, stack: Seq<StopCondition>, k: int) -> (Seq<Token>, int, Seq<Op>)
    decreases toks.len() - k, 2int,
{
    if 0 <= k < toks.len() && terminator()(toks[k]) {
        (toks, k + 1, seq![Op { kind: OpKind::Value, content: span_of(toks, k, k + 1) }])
    } else {
        let (ok, t1, e, ops) = standalone_res(toks, stack, k);
        if ok {
            (t1, e, ops)
        } else {
            let (e2, ops2) = terminated_res(t1, stack, k);
            (t1, e2, ops2)
        }
    }
}

/// The blocks from `k` on, up to the first logical end of input: the tokens afterwards, where
/// they end and their operations, in order.
#[verifier::opaque]
pub open spec fn doc_body(toks: Seq<Token>, stack: Seq<StopCondition>, k: int) -> (Seq<Token>, int, Seq<Op>)
    decreases toks.len() - k, 3int,
{
    if k < 0 || k >= toks.len() || eof_at(toks, stack, k) {
        (toks, k, Seq::empty())
    } else {
        let (t1, k1, ops1) = block_res(toks, stack, k);
        if t1.len() == toks.len() && k < k1 <= toks.len() {
            let (t2, k2, ops2) = doc_body(t1, stack, k1);
            (t2, k2, ops1 + ops2)
        } else {
            (toks, k, Seq::empty())
        }
    }
}

/// The document at `k`: the tokens afterwards, where it ends, and its operations, Start and End
/// of [`Node::Document`] with no content around its blocks'.
#[verifier::opaque]
pub open spec fn doc_res(toks: Seq<Token>, stack: Seq<StopCondition>, k: int) -> (Seq<Token>, int, Seq<Op>)
    decreases toks.len() - k, 4int,
{
    let (t, e, body) = doc_body(toks, stack, k);
    (
        t,
        e,
        seq![Op { kind: OpKind::Start(Node::Document), content: no_content() }] + body + seq![
            Op { kind: OpKind::End(Node::Document), content: no_content() },
        ],
    )
}

/// Unfolds [`collapsible_res`] once.
pub proof fn lemma_collapsible_res(toks: Seq<Token>, stack: Seq<StopCondition>, k: int)
    ensures
        collapsible_res(toks, stack, k) == if !collapsible_opens(toks, k) {
            (false, toks, k, Seq::<Op>::empty())
        } else {
            let (m, title) = match modifier_at(toks, stack, k + 2) {
                Some((e, ops)) => (e, ops),
                None => (k + 2, Seq::empty()),
            };
            if !(k < m < toks.len() && toks[m].position.column == 0) {
                (false, flipped(toks, k), k, Seq::empty())
            } else {
                let (t2, d, body) = doc_res(toks, stack.push(StopCondition::CollapsibleEnd), m);
                if t2.len() == toks.len() && m <= d < t2.len() && collapsible_end()(t2[d]) {
                    let e = if d + 1 < t2.len() && eol_tok()(t2[d + 1]) {
                        d + 2
                    } else {
                        d + 1
                    };
                    (
                        true,
                        t2,
                        e,
                        seq![Op { kind: OpKind::Start(Node::Collapsible), content: span_of(toks, k, k + 2) }]
                            + title + body + seq![
                            Op { kind: OpKind::End(Node::Collapsible), content: span_of(t2, d, e) },
                        ],
                    )
                } else {
                    (false, flipped(t2, k), k, Seq::empty())
                }
            }
        },
{
    reveal(collapsible_res);
    reveal(standalone_res);
    reveal(block_res);
    reveal(doc_body);
    reveal(doc_res);
}

/// Where no collapsible block opens, nothing parses and nothing changes.
pub proof fn lemma_collapsible_closed(toks: Seq<Token>, stack: Seq<StopCondition>, k: int)
    requires
        !collapsible_opens(toks, k),
    ensures
        collapsible_res(toks, stack, k) == (false, toks, k, Seq::<Op>::empty()),
{
    lemma_collapsible_res(toks, stack, k);
}

/// The title of the collapsible block at `k`: where it ends and its operations.
pub open spec fn collapsible_title(toks: Seq<Token>, stack: Seq<StopCondition>, k: int) -> (int, Seq<Op>) {
    match modifier_at(toks, stack, k + 2) {
        Some((e, ops)) => (e, ops),
        None => (k + 2, Seq::empty()),
    }
}

/// Where the body of an opened collapsible block does not start a line, it fails and its
/// `{%` turns literal.
pub proof fn lemma_collapsible_no_body(toks: Seq<Token>, stack: Seq<StopCondition>, k: int)
    requires
        collapsible_opens(toks, k),
        ({
            let m = collapsible_title(toks, stack, k).0;
            !(k < m < toks.len() && toks[m].position.column == 0)
        }),
    ensures
        collapsible_res(toks, stack, k) == (false, flipped(toks, k), k, Seq::<Op>::empty()),
{
    lemma_collapsible_res(toks, stack, k);
}

/// Where the nested document of an opened collapsible block does not end at a `%}` at the
/// start of a line, the block fails and its `{%` turns literal in the tokens the document left.
pub proof fn lemma_collapsible_unclosed(
    toks: Seq<Token>,
    stack: Seq<StopCondition>,
    k: int,
    t2: Seq<Token>,
    d: int,
    body: Seq<Op>,
)
    requires
        collapsible_opens(toks, k),
        ({
            let m = collapsible_title(toks, stack, k).0;
            &&& k < m < toks.len()
            &&& toks[m].position.column == 0
            &&& doc_res(toks, stack.push(StopCondition::CollapsibleEnd), m) == (t2, d, body)
        }),
        !(d < t2.len() && collapsible_end()(t2[d])),
    ensures
        collapsible_res(toks, stack, k) == (false, flipped(t2, k), k, Seq::<Op>::empty()),
{
    lemma_collapsible_res(toks, stack, k);
}

/// Where the nested document of an opened collapsible block ends at a `%}` at the start of a
/// line, the block closes there, with the end of line after it.
pub proof fn lemma_collapsible_closed_at(
    toks: Seq<Token>,
    stack: Seq<StopCondition>,
    k: int,
    t2: Seq<Token>,
    d: int,
    body: Seq<Op>,
    e: int,
)
    requires
        collapsible_opens(toks, k),
        ({
            let m = collapsible_title(toks, stack, k).0;
            &&& k < m <= d
            &&& toks[m].position.column == 0
            &&& doc_res(toks, stack.push(StopCondition::CollapsibleEnd), m) == (t2, d, body)
        }),
        t2.len() == toks.len(),
        d < t2.len() && collapsible_end()(t2[d]),
        e == if d + 1 < t2.len() && eol_tok()(t2[d + 1]) {
            d + 2
        } else {
            d + 1
        },
    ensures
        collapsible_res(toks, stack, k) == (
            true,
            t2,
            e,
            seq![Op { kind: OpKind::Start(Node::Collapsible), content: span_of(toks, k, k + 2) }]
                + collapsible_title(toks, stack, k).1 + body + seq![
                Op { kind: OpKind::End(Node::Collapsible), content: span_of(t2, d, e) },
            ],
        ),
{
    lemma_collapsible_res(toks, stack, k);
}

/// Unfolds [`standalone_res`] once.
proof fn lemma_standalone_res(toks: Seq<Token>, stack: Seq<StopCondition>, k: int)
    ensures
        standalone_res(toks, stack, k) == match code_at(toks, stack, k) {
            Some((e, ops)) => (true, toks, e, ops),
            None => {
                let (ok, t1, e, ops) = collapsible_res(toks, stack, k);
                if ok {
                    (true, t1, e, ops)
                } else {
                    match embed_at(t1, stack, k) {
                        Some((e2, ops2)) => (true, t1, e2, ops2),
                        None => match highlight_res(t1, stack, k) {
                            Some((e2, ops2)) => (true, t1, e2, ops2),
                            None => (false, t1, k, Seq::empty()),
                        },
                    }
                }
            },
        },
{
    reveal(collapsible_res);
    reveal(standalone_res);
    reveal(block_res);
    reveal(doc_body);
    reveal(doc_res);
}

/// Unfolds [`block_res`] once.
proof fn lemma_block_res(toks: Seq<Token>, stack: Seq<StopCondition>, k: int)
    ensures
        block_res(toks, stack, k) == if 0 <= k < toks.len() && terminator()(toks[k]) {
            (toks, k + 1, seq![Op { kind: OpKind::Value, content: span_of(toks, k, k + 1) }])
        } else {
            let (ok, t1, e, ops) = standalone_res(toks, stack, k);
            if ok {
                (t1, e, ops)
            } else {
                let (e2, ops2) = terminated_res(t1, stack, k);
                (t1, e2, ops2)
            }
        },
{
    reveal(collapsible_res);
    reveal(standalone_res);
    reveal(block_res);
    reveal(doc_body);
    reveal(doc_res);
}

/// At a logical end of input the blocks end, with nothing more.
proof fn lemma_doc_body_end(toks: Seq<Token>, stack: Seq<StopCondition>, k: int)
    requires
        eof_at(toks, stack, k),
    ensures
        doc_body(toks, stack, k) == (toks, k, Seq::<Op>::empty()),
{
    reveal(collapsible_res);
    reveal(standalone_res);
    reveal(block_res);
    reveal(doc_body);
    reveal(doc_res);
}

/// Elsewhere, a block and then the blocks after it.
proof fn lemma_doc_body_step(toks: Seq<Token>, stack: Seq<StopCondition>, k: int)
    requires
        !eof_at(toks, stack, k),
        block_res(toks, stack, k).0.len() == toks.len(),
        k < block_res(toks, stack, k).1 <= toks.len(),
    ensures
        ({
            let (t1, k1, ops1) = block_res(toks, stack, k);
            let (t2, k2, ops2) = doc_body(t1, stack, k1);
            doc_body(toks, stack, k) == (t2, k2, ops1 + ops2)
        }),
{
    reveal(collapsible_res);
    reveal(standalone_res);
    reveal(block_res);
    reveal(doc_body);
    reveal(doc_res);
}

/// Unfolds [`doc_res`] once.
pub proof fn lemma_doc_res(toks: Seq<Token>, stack: Seq<StopCondition>, k: int)
    ensures
        ({
            let (t, e, body) = doc_body(toks, stack, k);
            doc_res(toks, stack, k) == (
                t,
                e,
                seq![Op { kind: OpKind::Start(Node::Document), content: no_content() }] + body + seq![
                    Op { kind: OpKind::End(Node::Document), content: no_content() },
                ],
            )
        }),
{
    reveal(collapsible_res);
    reveal(standalone_res);
    reveal(block_res);
    reveal(doc_body);
    reveal(doc_res);
}

fn is_terminator(t: &Token) -> (r: bool)
    ensures
        r == terminator()(*t),
{
    t.kind == TokenKind::Terminator
}

/// Tries the blocks that need no terminator around them: code, collapsible, embed and
/// highlight. When none matches, the cursor and the operations stay, and the token at the
/// cursor is the same or turned literal.
fn standalone_block(p: &mut Parser) -> (r: bool)
    requires
        old(p).wf(),
    ensures
        advanced(*old(p), *final(p)),
        r ==> final(p).pos > old(p).pos,
        !r ==> final(p).pos == old(p).pos && final(p).ops@ == old(p).ops@,
        !r ==> final(p).toks() == old(p).toks() || final(p).toks()[old(p).pos as int].kind
            == TokenKind::Literal,
        (r, final(p).toks(), final(p).pos as int, added(*old(p), *final(p))) == standalone_res(
            old(p).toks(),
            old(p).stack(),
            old(p).pos as int,
        ),
    decreases old(p).toks().len() - old(p).pos, 1nat,
{
    let ghost p0 = *p;
    proof {
        lemma_standalone_res(p0.toks(), p0.stack(), p0.pos as int);
    }
    if code(p) {
        return true;
    }
    if collapsible(p) {
        return true;
    }
    let ghost p1 = *p;
    proof {
        assert(added(p0, p1) =~= Seq::<Op>::empty());
    }
    if embed(p) {
        proof {
            lemma_advanced_trans(p0, p1, *p);
        }
        return true;
    }
    let ghost p2 = *p;
    let r = highlight(p);
    proof {
        lemma_advanced_trans(p0, p1, p2);
        lemma_advanced_trans(p0, p2, *p);
        if !r {
            assert(added(p0, *p) =~= Seq::<Op>::empty());
        }
    }
    r
}

/// Tries, within a terminator, the blocks that a terminator ends: list, images, thematic
/// break, heading and, when none of them matches, a paragraph.
fn terminated_block(p: &mut Parser)
    requires
        old(p).wf(),
    ensures
        advanced(*old(p), *final(p)),
        final(p).toks() == old(p).toks(),
        !eof_at(old(p).toks(), old(p).stack().push(StopCondition::Terminator), old(p).pos as int)
            ==> final(p).pos > old(p).pos,
        (final(p).pos as int, added(*old(p), *final(p))) == terminated_res(
            old(p).toks(),
            old(p).stack(),
            old(p).pos as int,
        ),
{
    let ghost p0 = *p;
    p.push_eof(StopCondition::Terminator);
    let ghost q1 = *p;
    if !list(p, 0) {
        let ghost a = *p;
        if !images(p) {
            let ghost b = *p;
            if !thematic_break(p) {
                let ghost c = *p;
                if !heading(p) {
                    let ghost d = *p;
                    paragraph(p);
                    proof {
                        crate::op::parser::lemma_first_eof_ge(q1.toks(), q1.stack(), q1.pos + 1);
                    }
                }
            }
        }
    }
    let ghost q2 = *p;
    p.pop_eof();
    proof {
        assert(p.stack() =~= p0.stack());
        lemma_restack(p0, q1, q2, *p);
        assert(q1.stack() == p0.stack().push(StopCondition::Terminator));
    }
}

/// One block parsed in a document keeps what is emitted a prefix of the whole.
proof fn lemma_doc_step<'a>(t0: Seq<Token>, k0: int, p1: Parser<'a>, b: Parser<'a>, p: Parser<'a>)
    requires
        advanced(p1, b),
        advanced(b, p),
        b.pos < p.pos,
        !eof_at(b.toks(), b.stack(), b.pos as int),
        (p.toks(), p.pos as int, added(b, p)) == block_res(b.toks(), b.stack(), b.pos as int),
        ({
            let (t2, k2, o2) = doc_body(b.toks(), b.stack(), b.pos as int);
            doc_body(t0, b.stack(), k0) == (t2, k2, added(p1, b) + o2)
        }),
    ensures
        ({
            let (t2, k2, o2) = doc_body(p.toks(), p.stack(), p.pos as int);
            doc_body(t0, p.stack(), k0) == (t2, k2, added(p1, p) + o2)
        }),
{
    lemma_advanced_trans(p1, b, p);
    lemma_doc_body_step(b.toks(), b.stack(), b.pos as int);
    let (t2, k2, o2) = doc_body(p.toks(), p.stack(), p.pos as int);
    assert(added(p1, b) + (added(b, p) + o2) =~= added(p1, p) + o2);
}

/// Parses a document at the cursor, block by block, up to a logical end of input: Start and
/// End of [`Node::Document`] with no content around the blocks' operations, each terminator
/// between them a Value. The tokens it leaves, where it ends and its operations are those of
/// [`doc_res`].
pub fn document(p: &mut Parser)
    requires
        old(p).wf(),
    ensures
        advanced(*old(p), *final(p)),
        eof_at(final(p).toks(), final(p).stack(), final(p).pos as int),
        added(*old(p), *final(p)).len() >= 2,
        added(*old(p), *final(p))[0] == (Op { kind: OpKind::Start(Node::Document), content: no_content() }),
        added(*old(p), *final(p)).last() == (Op { kind: OpKind::End(Node::Document), content: no_content() }),
        balanced(added(*old(p), *final(p)).subrange(1, added(*old(p), *final(p)).len() - 1)),
        (final(p).toks(), final(p).pos as int, added(*old(p), *final(p))) == doc_res(
            old(p).toks(),
            old(p).stack(),
            old(p).pos as int,
        ),
    decreases old(p).toks().len() - old(p).pos, 2nat,
{
    let ghost p0 = *p;
    p.ops.push(Op::new_start(Node::Document, Content::empty()));
    let ghost p1 = *p;
    proof {
        lemma_kept(p1, p1);
        let (t2, k2, o2) = doc_body(p.toks(), p.stack(), p.pos as int);
        assert(added(p1, *p) + o2 =~= o2);
    }
    let n = p.tokens.len();
    while !p.at_eof()
        invariant
            p0 == *old(p),
            p0.wf(),
            p1.pos == p0.pos,
            p1.toks() == p0.toks(),
            p1.stack() == p0.stack(),
            p1.source == p0.source,
            p1.ops@ == p0.ops@.push(Op { kind: OpKind::Start(Node::Document), content: no_content() }),
            advanced(p1, *p),
            n == p.toks().len(),
            ({
                let (t2, k2, o2) = doc_body(p.toks(), p0.stack(), p.pos as int);
                doc_body(p0.toks(), p0.stack(), p0.pos as int) == (t2, k2, added(p1, *p) + o2)
            }),
        decreases n - p.pos,
    {
        let ghost b = *p;
        if let Some(range) = p.eat_where(is_terminator, Ghost(terminator())) {
            let content = p.span(range);
            p.ops.push(Op::new_value(content));
            proof {
                let v = Op { kind: OpKind::Value, content: span_of(b.toks(), b.pos as int, b.pos + 1) };
                lemma_balanced_small(v);
                lemma_span_covers(b.toks(), b.pos as int, b.pos + 1, OpKind::Value);
                assert(p.ops@ =~= b.ops@ + seq![v]);
                lemma_appended(b, *p, seq![v]);
                lemma_advanced_trans(p1, b, *p);
                lemma_block_res(b.toks(), b.stack(), b.pos as int);
                lemma_doc_step(p0.toks(), p0.pos as int, p1, b, *p);
            }
        } else if standalone_block(p) {
            proof {
                lemma_advanced_trans(p1, b, *p);
                lemma_block_res(b.toks(), b.stack(), b.pos as int);
                lemma_doc_step(p0.toks(), p0.pos as int, p1, b, *p);
            }
        } else {
            let ghost c = *p;
            proof {
                let k = b.pos as int;
                lemma_eof_push(c.toks(), c.stack(), StopCondition::Terminator, k);
                if c.toks() != b.toks() {
                    lemma_not_eof(c.toks(), c.stack(), k);
                }
            }
            terminated_block(p);
            proof {
                lemma_advanced_trans(p1, b, c);
                lemma_advanced_trans(p1, c, *p);
                lemma_advanced_trans(b, c, *p);
                assert(added(b, c) =~= Seq::<Op>::empty());
                assert(added(b, *p) =~= added(c, *p));
                lemma_block_res(b.toks(), b.stack(), b.pos as int);
                lemma_doc_step(p0.toks(), p0.pos as int, p1, b, *p);
            }
        }
    }
    let ghost pm = *p;
    p.ops.push(Op::new_end(Node::Document, Content::empty()));
    proof {
        lemma_doc_body_end(pm.toks(), pm.stack(), pm.pos as int);
        lemma_doc_res(p0.toks(), p0.stack(), p0.pos as int);
        assert(added(p1, pm) + Seq::<Op>::empty() =~= added(p1, pm));
        let t = p0.toks();
        lemma_evolve_keeps(t, pm.toks());
        let (a, e) = (p0.pos as int, pm.pos as int);
        let st = Op { kind: OpKind::Start(Node::Document), content: no_content() };
        let z = Op { kind: OpKind::End(Node::Document), content: no_content() };
        let body = added(p1, pm);
        lemma_covers_one(t, st, bpos(t, a), bpos(t, a));
        lemma_covers_one(t, z, bpos(t, e), bpos(t, e));
        lemma_wrap(t, st, body, z, Node::Document, bpos(t, a), bpos(t, a), bpos(t, e), bpos(t, e));
        assert(pm.ops@ =~= p1.ops@ + body);
        let all = seq![st] + body + seq![z];
        assert(p.ops@ =~= p0.ops@ + all);
        assert(added(p0, *p) =~= all);
        assert(p.ops@.subrange(0, p0.ops@.len() as int) =~= p0.ops@);
        assert(all[0] == st);
        assert(all.last() == z);
        assert(all.subrange(1, all.len() - 1) =~= body);
    }
}

} // verus!
