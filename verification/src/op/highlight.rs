//! `!! Title` ... `!!`: a highlight block, with an optional title and icon, holding paragraphs.
use crate::lexer::{Token, TokenKind};
use crate::op::embed::eol_tok;
use crate::op::heading::space1;
use crate::op::laws::{balanced, covers, lemma_covers_one};
use crate::op::modifier::{modifier, modifier_at};
use crate::op::paragraph::{para_ops, paragraph};
use crate::op::parser::{
    bpos, cond_matches, eof_at, first_eof, lemma_eof_push, lemma_first_eof_ge, lemma_until,
    span_of, tok_len, until, Parser, StopCondition,
};
use crate::op::step::{
    added, advanced, lemma_advanced_trans, lemma_appended, lemma_emit, lemma_kept, lemma_node_ops,
    lemma_restack, lemma_span_covers, lemma_wrap, node_ops, outcome,
};
use crate::op::{Node, Op, OpKind};
use vstd::prelude::*;

verus! {

/// Exactly two `!` at the start of a line.
pub open spec fn two_bangs() -> spec_fn(Token) -> bool {
    |t: Token| t.kind == TokenKind::Bang && t.position.column == 0 && tok_len(t) == 2
}

/// A single `!` at the start of a line.
pub open spec fn one_bang() -> spec_fn(Token) -> bool {
    |t: Token| t.kind == TokenKind::Bang && t.position.column == 0 && tok_len(t) == 1
}

/// A single space or an end of line.
pub open spec fn space_or_eol() -> spec_fn(Token) -> bool {
    |t: Token| space1()(t) || eol_tok()(t)
}

/// A terminator.
pub open spec fn terminator() -> spec_fn(Token) -> bool {
    |t: Token| t.kind == TokenKind::Terminator
}

fn is_two_bangs(t: &Token) -> (r: bool)
    ensures
        r == two_bangs()(*t),
{
    t.kind == TokenKind::Bang && t.position.column == 0 && t.range.end >= t.range.start
        && t.range.end - t.range.start == 2
}

fn is_one_bang(t: &Token) -> (r: bool)
    ensures
        r == one_bang()(*t),
{
    t.kind == TokenKind::Bang && t.position.column == 0 && t.range.end >= t.range.start
        && t.range.end - t.range.start == 1
}

fn is_space(t: &Token) -> (r: bool)
    ensures
        r == space1()(*t),
{
    t.kind == TokenKind::Space && t.range.end >= t.range.start && t.range.end - t.range.start == 1
}

fn is_eol(t: &Token) -> (r: bool)
    ensures
        r == eol_tok()(*t),
{
    t.kind == TokenKind::Eol
}

fn is_space_or_eol(t: &Token) -> (r: bool)
    ensures
        r == space_or_eol()(*t),
{
    is_space(t) || is_eol(t)
}

fn is_terminator(t: &Token) -> (r: bool)
    ensures
        r == terminator()(*t),
{
    t.kind == TokenKind::Terminator
}

/// The icon at `pos`, if there is one: `!` at the start of a line and a single space, then the
/// icon's name up to the next end of line before a logical end of input, which closes it.
pub open spec fn icon_at(toks: Seq<Token>, stack: Seq<StopCondition>, pos: int) -> Option<(int, Seq<Op>)> {
    if 0 <= pos && pos + 1 < toks.len() && one_bang()(toks[pos]) && space1()(toks[pos + 1]) {
        match until(toks, stack, pos + 2, eol_tok()) {
            Some(j) => Some(
                (j + 1, node_ops(Node::Icon, span_of(toks, pos, pos + 2), span_of(toks, pos + 2, j), span_of(toks, j, j + 1))),
            ),
            None => None,
        }
    } else {
        None
    }
}

/// Parses an icon at the cursor (see [`icon_at`]).
pub fn icon(p: &mut Parser) -> (r: bool)
    requires
        old(p).wf(),
    ensures
        outcome(*old(p), *final(p), r, icon_at(old(p).toks(), old(p).stack(), old(p).pos as int)),
        r ==> final(p).pos > old(p).pos,
{
    let ghost p0 = *p;
    let start = p.pos;
    if p.eat_where(is_one_bang, Ghost(one_bang())).is_none() {
        proof {
            lemma_kept(p0, *p);
        }
        return false;
    }
    if p.eat_where(is_space, Ghost(space1())).is_none() {
        p.pos = start;
        proof {
            lemma_kept(p0, *p);
        }
        return false;
    }
    let (body_range, end_range) = match p.scan_until(is_eol, Ghost(eol_tok())) {
        Some(found) => found,
        None => {
            p.pos = start;
            proof {
                lemma_kept(p0, *p);
            }
            return false;
        },
    };
    proof {
        lemma_until(p0.toks(), p0.stack(), start + 2, eol_tok());
    }
    let start_content = p.span(start..start + 2);
    let body_content = p.span(body_range);
    let end_content = p.span(end_range);
    p.ops.push(Op::new_start(Node::Icon, start_content));
    p.ops.push(Op::new_value(body_content));
    p.ops.push(Op::new_end(Node::Icon, end_content));
    proof {
        let (a, j) = (start as int, end_range.start as int);
        lemma_node_ops(p0.toks(), Node::Icon, a, a + 2, j, j + 1);
        let ops = node_ops(Node::Icon, span_of(p0.toks(), a, a + 2), span_of(p0.toks(), a + 2, j), span_of(p0.toks(), j, j + 1));
        assert(p.ops@ =~= p0.ops@ + ops);
        lemma_appended(p0, *p, ops);
    }
    true
}

/// A highlight starts at `pos`: `!!` at the start of a line and a single space or an end of
/// line.
pub open spec fn highlight_start(toks: Seq<Token>, pos: int) -> bool {
    0 <= pos && pos + 1 < toks.len() && two_bangs()(toks[pos]) && space_or_eol()(toks[pos + 1])
}

/// Where the title and the icon of a highlight opening at `pos` end: the title is a modifier
/// unless the opening ends the line; the icon is read within a terminator.
pub open spec fn highlight_body(toks: Seq<Token>, stack: Seq<StopCondition>, pos: int) -> int {
    let t = if eol_tok()(toks[pos + 1]) {
        pos + 2
    } else {
        match modifier_at(toks, stack, pos + 2) {
            Some((e, _)) => e,
            None => pos + 2,
        }
    };
    match icon_at(toks, stack.push(StopCondition::Terminator), t) {
        Some((e, _)) => e,
        None => t,
    }
}

/// The stop conditions of a paragraph inside a highlight.
pub open spec fn highlight_stack(stack: Seq<StopCondition>) -> Seq<StopCondition> {
    stack.push(StopCondition::HighlightEnd).push(StopCondition::Terminator)
}

/// The `!!` that closes a highlight whose body goes on at `k`, before a logical end of input:
/// each paragraph of the body (after a terminator, if one stands there) runs to the next
/// `!!` at the start of a line, terminator or other end of input.
pub open spec fn highlight_close(toks: Seq<Token>, stack: Seq<StopCondition>, k: int) -> Option<int>
    decreases toks.len() - k,
{
    if k < 0 || k >= toks.len() || eof_at(toks, stack, k) {
        None
    } else if two_bangs()(toks[k]) {
        Some(k)
    } else {
        let k1 = if terminator()(toks[k]) {
            k + 1
        } else {
            k
        };
        let k2 = first_eof(toks, highlight_stack(stack), k1);
        if k < k2 <= toks.len() {
            highlight_close(toks, stack, k2)
        } else {
            None
        }
    }
}

/// The operations of the title and the icon of a highlight opening at `pos` (see
/// [`highlight_body`]).
pub open spec fn highlight_head(toks: Seq<Token>, stack: Seq<StopCondition>, pos: int) -> Seq<Op> {
    let (t, title) = if eol_tok()(toks[pos + 1]) {
        (pos + 2, Seq::empty())
    } else {
        match modifier_at(toks, stack, pos + 2) {
            Some((e, ops)) => (e, ops),
            None => (pos + 2, Seq::empty()),
        }
    };
    match icon_at(toks, stack.push(StopCondition::Terminator), t) {
        Some((_, ops)) => title + ops,
        None => title,
    }
}

/// The Value of the terminator at `k`, if one stands there.
pub open spec fn terminator_ops(toks: Seq<Token>, k: int) -> Seq<Op> {
    if terminator()(toks[k]) {
        seq![Op { kind: OpKind::Value, content: span_of(toks, k, k + 1) }]
    } else {
        Seq::empty()
    }
}

#[verifier::opaque]
/// The operations of a highlight's body from token `k` on, up to and including its End (see
/// [`highlight_close`]): for each paragraph, the Value of the terminator before it, if any, and
/// the paragraph's operations; then End, holding the closing `!!` and the end of line after it.
pub open spec fn highlight_rest(toks: Seq<Token>, stack: Seq<StopCondition>, k: int) -> Seq<Op>
    decreases toks.len() - k,
{
    if k < 0 || k >= toks.len() || eof_at(toks, stack, k) {
        Seq::empty()
    } else if two_bangs()(toks[k]) {
        seq![Op { kind: OpKind::End(Node::Highlight), content: span_of(toks, k, close_end(toks, k)) }]
    } else {
        let k1 = body_start(toks, k);
        let k2 = first_eof(toks, highlight_stack(stack), k1);
        if k < k2 <= toks.len() {
            terminator_ops(toks, k) + para_ops(toks, highlight_stack(stack), k1) + highlight_rest(
                toks,
                stack,
                k2,
            )
        } else {
            Seq::empty()
        }
    }
}

/// At the closing `!!`, End remains.
proof fn lemma_highlight_rest_close(toks: Seq<Token>, stack: Seq<StopCondition>, k: int)
    requires
        0 <= k < toks.len(),
        !eof_at(toks, stack, k),
        two_bangs()(toks[k]),
    ensures
        highlight_rest(toks, stack, k) == seq![
            Op { kind: OpKind::End(Node::Highlight), content: span_of(toks, k, close_end(toks, k)) },
        ],
{
    reveal(highlight_rest);
}

/// Elsewhere, a paragraph (after a terminator, if one stands there) and the rest remain.
proof fn lemma_highlight_rest_para(toks: Seq<Token>, stack: Seq<StopCondition>, k: int, k2: int)
    requires
        0 <= k < k2 <= toks.len(),
        !eof_at(toks, stack, k),
        !two_bangs()(toks[k]),
        k2 == first_eof(toks, highlight_stack(stack), body_start(toks, k)),
    ensures
        highlight_rest(toks, stack, k) == terminator_ops(toks, k) + para_ops(
            toks,
            highlight_stack(stack),
            body_start(toks, k),
        ) + highlight_rest(toks, stack, k2),
{
    reveal(highlight_rest);
}

/// The closing `!!` of the highlight at `pos`, if there is one: an opening (see
/// [`highlight_start`]), a title and an icon (see [`highlight_body`]), a body that starts a
/// line, and a closing `!!` (see [`highlight_close`]).
pub open spec fn highlight_at(toks: Seq<Token>, stack: Seq<StopCondition>, pos: int) -> Option<int> {
    if highlight_start(toks, pos) {
        let b = highlight_body(toks, stack, pos);
        if 0 <= b < toks.len() && toks[b].position.column == 0 {
            highlight_close(toks, stack, b)
        } else {
            None
        }
    } else {
        None
    }
}

/// Where a highlight closed by the `!!` at `j` ends: past the end of line after it, if one
/// follows.
pub open spec fn close_end(toks: Seq<Token>, j: int) -> int {
    if j + 1 < toks.len() && eol_tok()(toks[j + 1]) {
        j + 2
    } else {
        j + 1
    }
}

/// The highlight at `pos`, if one stands there (see [`highlight_at`]): where it ends and its
/// operations: Start (the opening), the title's and the icon's, the body's and End.
pub open spec fn highlight_res(toks: Seq<Token>, stack: Seq<StopCondition>, pos: int) -> Option<(int, Seq<Op>)> {
    match highlight_at(toks, stack, pos) {
        Some(j) => Some(
            (
                close_end(toks, j),
                seq![Op { kind: OpKind::Start(Node::Highlight), content: span_of(toks, pos, pos + 2) }]
                    + highlight_head(toks, stack, pos) + highlight_rest(
                    toks,
                    stack,
                    highlight_body(toks, stack, pos),
                ),
            ),
        ),
        None => None,
    }
}

/// Where a paragraph of a highlight's body starts when the body goes on at `k`: past the
/// terminator there, if one stands there.
pub open spec fn body_start(toks: Seq<Token>, k: int) -> int {
    if terminator()(toks[k]) {
        k + 1
    } else {
        k
    }
}

/// Within a highlight's body, at a token that does not close it: the terminator there, if any,
/// as a Value, then a paragraph up to the next `!!` at the start of a line, terminator or
/// other logical end of input.
fn highlight_paragraph(p: &mut Parser)
    requires
        old(p).wf(),
        !eof_at(old(p).toks(), old(p).stack(), old(p).pos as int),
        old(p).pos < old(p).toks().len(),
        !two_bangs()(old(p).toks()[old(p).pos as int]),
    ensures
        advanced(*old(p), *final(p)),
        final(p).toks() == old(p).toks(),
        old(p).pos < final(p).pos,
        final(p).pos == first_eof(
            old(p).toks(),
            highlight_stack(old(p).stack()),
            body_start(old(p).toks(), old(p).pos as int),
        ),
        added(*old(p), *final(p)) == terminator_ops(old(p).toks(), old(p).pos as int) + para_ops(
            old(p).toks(),
            highlight_stack(old(p).stack()),
            body_start(old(p).toks(), old(p).pos as int),
        ),
{
    let ghost before = *p;
    let ghost t = before.toks();
    let ghost stack = before.stack();
    if let Some(term_range) = p.eat_where(is_terminator, Ghost(terminator())) {
        let term_content = p.span(term_range);
        p.ops.push(Op::new_value(term_content));
        proof {
            let v = Op { kind: OpKind::Value, content: span_of(t, before.pos as int, before.pos + 1) };
            crate::op::laws::lemma_balanced_small(v);
            lemma_span_covers(t, before.pos as int, before.pos + 1, OpKind::Value);
            assert(p.ops@ =~= before.ops@ + seq![v]);
            lemma_appended(before, *p, seq![v]);
        }
    } else {
        proof {
            lemma_kept(before, *p);
        }
    }
    let ghost mid = *p;
    p.push_eof(StopCondition::HighlightEnd);
    p.push_eof(StopCondition::Terminator);
    let ghost r1 = *p;
    paragraph(p);
    let ghost r2 = *p;
    p.pop_eof();
    p.pop_eof();
    proof {
        assert(r1.stack() == highlight_stack(stack));
        assert(p.stack() =~= stack);
        lemma_restack(mid, r1, r2, *p);
        lemma_advanced_trans(before, mid, *p);
        if mid.pos == before.pos {
            let k = mid.pos as int;
            let s1 = stack.push(StopCondition::HighlightEnd);
            lemma_eof_push(t, stack, StopCondition::HighlightEnd, k);
            lemma_eof_push(t, s1, StopCondition::Terminator, k);
            lemma_first_eof_ge(t, r1.stack(), k + 1);
        }
        assert(mid.ops@ =~= before.ops@ + terminator_ops(t, before.pos as int));
        assert(added(before, *p) =~= terminator_ops(t, before.pos as int) + para_ops(t, highlight_stack(stack), mid.pos as int));
    }
}

/// Parses a highlight block at the cursor: its opening (see [`highlight_start`]), a title (a
/// modifier, unless the opening ends the line), an icon, and paragraphs separated by
/// terminators up to a closing `!!` at the start of a line, with the end of line after it.
/// The body must start on a new line. On success the operations are Start (the opening), the
/// title's, the icon's, the terminators as Values and the paragraphs', and End (the closing
/// `!!` with its end of line) (see [`highlight_res`]); otherwise nothing changes.
#[verifier::rlimit(100)]
#[verifier::spinoff_prover]
pub fn highlight(p: &mut Parser) -> (r: bool)
    requires
        old(p).wf(),
    ensures
        advanced(*old(p), *final(p)),
        final(p).toks() == old(p).toks(),
        r == highlight_at(old(p).toks(), old(p).stack(), old(p).pos as int) is Some,
        r ==> final(p).pos > old(p).pos,
        r ==> {
            let a = added(*old(p), *final(p));
            let j = highlight_at(old(p).toks(), old(p).stack(), old(p).pos as int)->0;
            &&& final(p).pos == close_end(old(p).toks(), j)
            &&& a.len() >= 2
            &&& a[0] == Op {
                kind: OpKind::Start(Node::Highlight),
                content: span_of(old(p).toks(), old(p).pos as int, old(p).pos + 2),
            }
            &&& a.last() == Op {
                kind: OpKind::End(Node::Highlight),
                content: span_of(old(p).toks(), j, close_end(old(p).toks(), j)),
            }
            &&& a == seq![a[0]] + highlight_head(old(p).toks(), old(p).stack(), old(p).pos as int)
                + highlight_rest(
                old(p).toks(),
                old(p).stack(),
                highlight_body(old(p).toks(), old(p).stack(), old(p).pos as int),
            )
        },
        !r ==> final(p).pos == old(p).pos && final(p).ops@ == old(p).ops@,
        outcome(*old(p), *final(p), r, highlight_res(old(p).toks(), old(p).stack(), old(p).pos as int)),
{
    let ghost p0 = *p;
    let start = p.pos;
    let snap = p.ops.len();
    if p.eat_where(is_two_bangs, Ghost(two_bangs())).is_none() {
        proof {
            lemma_kept(p0, *p);
        }
        return false;
    }
    let skip_title = match p.eat_where(is_space_or_eol, Ghost(space_or_eol())) {
        Some(range) => is_eol(&p.tokens[range.start]),
        None => {
            p.pos = start;
            proof {
                lemma_kept(p0, *p);
            }
            return false;
        },
    };
    let start_content = p.span(start..start + 2);
    p.ops.push(Op::new_start(Node::Highlight, start_content));
    let ghost p1 = *p;
    let ghost t = p0.toks();
    let ghost stack = p0.stack();
    proof {
        crate::op::step::lemma_kept(p1, p1);
    }
    if !skip_title {
        modifier(p);
    }
    let ghost q = *p;
    p.push_eof(StopCondition::Terminator);
    let ghost q1 = *p;
    icon(p);
    let ghost q2 = *p;
    p.pop_eof();
    proof {
        assert(p.stack() =~= q.stack());
        lemma_restack(q, q1, q2, *p);
        lemma_advanced_trans(p1, q, *p);
    }
    if !(p.pos < p.tokens.len() && p.tokens[p.pos].position.column == 0) {
        p.pos = start;
        p.ops.truncate(snap);
        proof {
            assert(p.ops@ =~= p0.ops@);
            lemma_kept(p0, *p);
        }
        return false;
    }
    let n = p.tokens.len();
    let ghost hd = added(p1, *p);
    let ghost b = p.pos as int;
    let ghost mut body: Seq<Op> = Seq::empty();
    proof {
        assert(b == highlight_body(t, stack, start as int));
        assert(hd == highlight_head(t, stack, start as int));
        assert(p.ops@ =~= p1.ops@ + hd + body);
    }
    while !p.at_eof()
        invariant
            p0 == *old(p),
            p0.wf(),
            n == t.len(),
            t == p0.toks(),
            stack == p0.stack(),
            p.toks() == t,
            start == p0.pos,
            snap == p0.ops@.len(),
            highlight_start(t, start as int),
            p1.pos == start + 2,
            p1.toks() == t,
            p1.stack() == stack,
            p1.source == p0.source,
            p1.ops@ == p0.ops@.push(Op { kind: OpKind::Start(Node::Highlight), content: span_of(t, start as int, start + 2) }),
            advanced(p1, *p),
            highlight_at(t, stack, start as int) == highlight_close(t, stack, p.pos as int),
            b == highlight_body(t, stack, start as int),
            hd == highlight_head(t, stack, start as int),
            p.ops@ == p1.ops@ + hd + body,
            highlight_rest(t, stack, b) == body + highlight_rest(t, stack, p.pos as int),
        decreases n - p.pos,
    {
        let ghost before = *p;
        if let Some(close_range) = p.eat_where(is_two_bangs, Ghost(two_bangs())) {
            let end_range = match p.eat_where(is_eol, Ghost(eol_tok())) {
                Some(eol_range) => close_range.start..eol_range.end,
                None => close_range,
            };
            let end_content = p.span(end_range);
            p.ops.push(Op::new_end(Node::Highlight, end_content));
            proof {
                let (a, c, e) = (start as int, before.pos as int, p.pos as int);
                let st = Op { kind: OpKind::Start(Node::Highlight), content: span_of(t, a, a + 2) };
                let z = Op { kind: OpKind::End(Node::Highlight), content: span_of(t, c, e) };
                let body = added(p1, before);
                lemma_span_covers(t, a, a + 2, st.kind);
                lemma_span_covers(t, c, e, z.kind);
                lemma_wrap(t, st, body, z, Node::Highlight, bpos(t, a), bpos(t, a + 2), bpos(t, c), bpos(t, e));
                assert(before.ops@ =~= p1.ops@ + body);
                assert(p.ops@ =~= p0.ops@ + (seq![st] + body + seq![z]));
                lemma_appended(p0, *p, seq![st] + body + seq![z]);
                let all = seq![st] + body + seq![z];
                assert(all[0] == st);
                assert(all.last() == z);
                lemma_highlight_rest_close(t, stack, c);
                assert(all =~= seq![all[0]] + highlight_head(t, stack, a) + highlight_rest(t, stack, b));
            }
            return true;
        }
        let ghost mid = *p;
        highlight_paragraph(p);
        proof {
            let k = before.pos as int;
            lemma_advanced_trans(p1, before, *p);
            lemma_highlight_rest_para(t, stack, k, p.pos as int);
            lemma_emit(
                highlight_rest(t, stack, b),
                body,
                highlight_rest(t, stack, k),
                terminator_ops(t, k),
                para_ops(t, highlight_stack(stack), body_start(t, k)),
                highlight_rest(t, stack, p.pos as int),
            );
            assert(p.ops@ =~= before.ops@ + added(before, *p));
            body = body + terminator_ops(t, k) + para_ops(t, highlight_stack(stack), body_start(t, k));
            assert(p.ops@ =~= p1.ops@ + hd + body);
        }
    }
    p.pos = start;
    p.ops.truncate(snap);
    proof {
        assert(p.ops@.len() == snap);
        assert(p.ops@ =~= p0.ops@);
        lemma_kept(p0, *p);
    }
    false
}

} // verus!
