//! `{% Title` ... `%}`: a collapsible block holding a nested document.
use crate::lexer::{Token, TokenKind};
use crate::op::document::{
    collapsible_res, collapsible_title, doc_res, document, lemma_collapsible_closed,
    lemma_collapsible_closed_at, lemma_collapsible_no_body, lemma_collapsible_unclosed,
};
use crate::op::embed::eol_tok;
use crate::op::laws::{balanced, covers};
use crate::op::modifier::{modifier, modifier_at};
use crate::op::parser::{bpos, flipped, lemma_flip_evolve, span_of, Parser, StopCondition};
use crate::op::step::{
    added, advanced, lemma_advanced_trans, lemma_appended, lemma_evolve_keeps, lemma_evolve_span,
    lemma_evolve_trans, lemma_kept, lemma_restack, lemma_span_covers, lemma_wrap,
};
use crate::op::{Node, Op, OpKind};
use vstd::prelude::*;

verus! {

/// `{%` at the start of a line.
pub open spec fn collapsible_start() -> spec_fn(Token) -> bool {
    |t: Token| t.kind == TokenKind::CollapsibleStart && t.position.column == 0
}

/// `%}` at the start of a line.
pub open spec fn collapsible_end() -> spec_fn(Token) -> bool {
    |t: Token| t.kind == TokenKind::CollapsibleEnd && t.position.column == 0
}

/// Spaces or an end of line.
pub open spec fn space_or_eol() -> spec_fn(Token) -> bool {
    |t: Token| t.kind == TokenKind::Space || t.kind == TokenKind::Eol
}

fn is_collapsible_start(t: &Token) -> (r: bool)
    ensures
        r == collapsible_start()(*t),
{
    t.kind == TokenKind::CollapsibleStart && t.position.column == 0
}

fn is_collapsible_end(t: &Token) -> (r: bool)
    ensures
        r == collapsible_end()(*t),
{
    t.kind == TokenKind::CollapsibleEnd && t.position.column == 0
}

fn is_space_or_eol(t: &Token) -> (r: bool)
    ensures
        r == space_or_eol()(*t),
{
    t.kind == TokenKind::Space || t.kind == TokenKind::Eol
}

fn is_eol(t: &Token) -> (r: bool)
    ensures
        r == eol_tok()(*t),
{
    t.kind == TokenKind::Eol
}

/// A collapsible block starts at `pos`: `{%` at the start of a line, then spaces or an end of
/// line.
pub open spec fn collapsible_opens(toks: Seq<Token>, pos: int) -> bool {
    0 <= pos && pos + 1 < toks.len() && collapsible_start()(toks[pos]) && space_or_eol()(toks[pos + 1])
}

/// Parses a collapsible block at the cursor: its opening (see [`collapsible_opens`]), a title
/// (a modifier), then, from the start of a line, a nested document up to `%}` at the start of
/// a line, which closes the block together with the end of line after it. On success the
/// operations are Start (the opening), the title's, the nested document's and End (the
/// closing); otherwise the cursor and the operations are restored and, where the opening was
/// found, its `{%` turns literal. What it does is [`collapsible_res`] exactly, tokens included.
#[verifier::rlimit(100)]
#[verifier::spinoff_prover]
pub fn collapsible(p: &mut Parser) -> (r: bool)
    requires
        old(p).wf(),
    ensures
        advanced(*old(p), *final(p)),
        r ==> collapsible_opens(old(p).toks(), old(p).pos as int),
        r ==> final(p).pos > old(p).pos,
        r ==> {
            let a = added(*old(p), *final(p));
            &&& a.len() >= 2
            &&& a[0] == Op {
                kind: OpKind::Start(Node::Collapsible),
                content: span_of(old(p).toks(), old(p).pos as int, old(p).pos + 2),
            }
            &&& a.last().kind == OpKind::End(Node::Collapsible)
        },
        !r ==> final(p).pos == old(p).pos && final(p).ops@ == old(p).ops@,
        !r ==> final(p).toks() == old(p).toks() || final(p).toks()[old(p).pos as int].kind
            == TokenKind::Literal,
        (r, final(p).toks(), final(p).pos as int, added(*old(p), *final(p))) == collapsible_res(
            old(p).toks(),
            old(p).stack(),
            old(p).pos as int,
        ),
    decreases old(p).toks().len() - old(p).pos, 0nat,
{
    let ghost p0 = *p;
    let start = p.pos;
    let snap = p.ops.len();
    if p.eat_where(is_collapsible_start, Ghost(collapsible_start())).is_none() {
        proof {
            lemma_kept(p0, *p);
            lemma_collapsible_closed(p0.toks(), p0.stack(), p0.pos as int);
            assert(added(p0, *p) =~= Seq::<Op>::empty());
        }
        return false;
    }
    if p.eat_where(is_space_or_eol, Ghost(space_or_eol())).is_none() {
        p.pos = start;
        proof {
            lemma_kept(p0, *p);
            lemma_collapsible_closed(p0.toks(), p0.stack(), p0.pos as int);
            assert(added(p0, *p) =~= Seq::<Op>::empty());
        }
        return false;
    }
    let start_content = p.span(start..start + 2);
    p.ops.push(Op::new_start(Node::Collapsible, start_content));
    let ghost p1 = *p;
    proof {
        lemma_kept(p1, p1);
    }
    modifier(p);
    if !(p.pos < p.tokens.len() && p.tokens[p.pos].position.column == 0) {
        let ghost q = *p;
        p.pos = start;
        p.ops.truncate(snap);
        p.flip_to_literal(start);
        proof {
            assert(p.ops@ =~= p0.ops@);
            lemma_flip_evolve(p0.toks(), start as int);
            lemma_kept(p0, *p);
            lemma_collapsible_no_body(p0.toks(), p0.stack(), p0.pos as int);
            assert(added(p0, *p) =~= Seq::<Op>::empty());
        }
        return false;
    }
    let ghost q = *p;
    p.push_eof(StopCondition::CollapsibleEnd);
    let ghost q1 = *p;
    document(p);
    let ghost q2 = *p;
    p.pop_eof();
    proof {
        assert(p.stack() =~= q.stack());
        lemma_restack(q, q1, q2, *p);
        lemma_advanced_trans(p1, q, *p);
        if modifier_at(p0.toks(), p0.stack(), start + 2) is Some {
            let (_, title_ops) = modifier_at(p0.toks(), p0.stack(), start + 2)->0;
            assert(added(p1, q) =~= title_ops);
        } else {
            assert(added(p1, q) =~= Seq::<Op>::empty());
        }
        assert(collapsible_title(p0.toks(), p0.stack(), start as int) == (q.pos as int, added(p1, q)));
        assert(q1.stack() == p0.stack().push(StopCondition::CollapsibleEnd));
        assert(doc_res(p0.toks(), p0.stack().push(StopCondition::CollapsibleEnd), q.pos as int) == (
            q2.toks(),
            q2.pos as int,
            added(q1, q2),
        ));
    }
    let ghost q3 = *p;
    let close = p.pos;
    if p.eat_where(is_collapsible_end, Ghost(collapsible_end())).is_none() {
        p.pos = start;
        p.ops.truncate(snap);
        p.flip_to_literal(start);
        proof {
            assert(q3.ops@.subrange(0, p1.ops@.len() as int) == p1.ops@);
            assert(p.ops@ =~= p0.ops@);
            lemma_evolve_trans(p0.toks(), q3.toks(), p.toks());
            lemma_flip_evolve(q3.toks(), start as int);
            lemma_evolve_trans(p0.toks(), q3.toks(), p.toks());
            lemma_evolve_keeps(p0.toks(), p.toks());
            lemma_kept(p0, *p);
            assert(added(p0, *p) =~= Seq::<Op>::empty());
            lemma_collapsible_unclosed(p0.toks(), p0.stack(), start as int, q2.toks(), q2.pos as int, added(q1, q2));
        }
        return false;
    }
    let _ = p.eat_where(is_eol, Ghost(eol_tok()));
    let end_content = p.span(close..p.pos);
    p.ops.push(Op::new_end(Node::Collapsible, end_content));
    proof {
        let t = p0.toks();
        lemma_evolve_keeps(t, p.toks());
        let (a, c, e) = (start as int, close as int, p.pos as int);
        let st = Op { kind: OpKind::Start(Node::Collapsible), content: span_of(t, a, a + 2) };
        let z = Op { kind: OpKind::End(Node::Collapsible), content: span_of(t, c, e) };
        lemma_evolve_span(t, p.toks(), c, e);
        let body = added(p1, q3);
        lemma_span_covers(t, a, a + 2, st.kind);
        lemma_span_covers(t, c, e, z.kind);
        lemma_wrap(t, st, body, z, Node::Collapsible, bpos(t, a), bpos(t, a + 2), bpos(t, c), bpos(t, e));
        assert(q3.ops@ =~= p1.ops@ + body);
        let all = seq![st] + body + seq![z];
        assert(p.ops@ =~= p0.ops@ + all);
        assert(added(p0, *p) =~= all);
        assert(p.ops@.subrange(0, p0.ops@.len() as int) =~= p0.ops@);
        assert(all[0] == st);
        assert(all.last() == z);
        assert(all =~= seq![st] + added(p1, q) + added(q1, q2) + seq![z]);
        crate::op::parser::lemma_first_eof_ge(q1.toks(), q1.stack(), q1.pos as int);
        lemma_collapsible_closed_at(p0.toks(), p0.stack(), a, q2.toks(), c, added(q1, q2), e);
    }
    true
}

} // verus!
