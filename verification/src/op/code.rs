//! ```` ``` ```` ... ```` ``` ````: a code block, with an optional modifier (the language).
use crate::lexer::{Token, TokenKind};
use crate::op::embed::{block_close_end, eol_tok};
use crate::op::laws::{
    balanced, covers, lemma_balanced_concat, lemma_balanced_small, lemma_balanced_wrap,
    lemma_covers_concat,
};
use crate::op::modifier::{modifier, modifier_at};
use crate::op::parser::{bpos, lemma_until, span_of, tok_len, until, Parser, StopCondition};
use crate::op::step::{added, lemma_appended, lemma_kept, lemma_span_covers, outcome};
use crate::op::{Node, Op, OpKind};
use vstd::prelude::*;

verus! {

/// Exactly three backticks at the start of a line.
pub open spec fn backtick3() -> spec_fn(Token) -> bool {
    |t: Token| t.kind == TokenKind::Backtick && t.position.column == 0 && tok_len(t) == 3
}

fn is_backtick3(t: &Token) -> (r: bool)
    ensures
        r == backtick3()(*t),
{
    t.kind == TokenKind::Backtick && t.position.column == 0 && t.range.end >= t.range.start
        && t.range.end - t.range.start == 3
}

fn is_eol(t: &Token) -> (r: bool)
    ensures
        r == eol_tok()(*t),
{
    t.kind == TokenKind::Eol
}

/// Where the opening of a code block at `pos` ends: past the backticks and the end of line
/// right after them, or past the backticks alone (then a modifier may follow).
pub open spec fn code_open(toks: Seq<Token>, pos: int) -> Option<int> {
    if 0 <= pos < toks.len() && backtick3()(toks[pos]) {
        if pos + 1 < toks.len() && eol_tok()(toks[pos + 1]) {
            Some(pos + 2)
        } else {
            Some(pos + 1)
        }
    } else {
        None
    }
}

/// The modifier of a code block whose opening ends at `f`: only when the opening has no end
/// of line.
pub open spec fn code_modifier(toks: Seq<Token>, stack: Seq<StopCondition>, pos: int, f: int) -> Option<(int, Seq<Op>)> {
    if f == pos + 1 {
        modifier_at(toks, stack, f)
    } else {
        None
    }
}

/// The operations of a code block: Start (the opening), the modifier's operations, a Value
/// (the code, tokens `c..j`) and End (the closing backticks up to `e`).
pub open spec fn code_ops(toks: Seq<Token>, pos: int, f: int, mops: Seq<Op>, c: int, j: int, e: int) -> Seq<Op> {
    seq![Op { kind: OpKind::Start(Node::Code), content: span_of(toks, pos, f) }] + mops + seq![
        Op { kind: OpKind::Value, content: span_of(toks, c, j) },
        Op { kind: OpKind::End(Node::Code), content: span_of(toks, j, e) },
    ]
}

/// The code block at `pos`, if there is one: an opening (see [`code_open`]), an optional
/// modifier, then code up to three backticks at the start of a line before a logical end of
/// input, followed by an end of line (which it takes) or a block boundary.
pub open spec fn code_at(toks: Seq<Token>, stack: Seq<StopCondition>, pos: int) -> Option<(int, Seq<Op>)> {
    match code_open(toks, pos) {
        Some(f) => {
            let m = code_modifier(toks, stack, pos, f);
            let c = match m {
                Some((k, _)) => k,
                None => f,
            };
            let mops = match m {
                Some((_, ops)) => ops,
                None => Seq::empty(),
            };
            match until(toks, stack, c, backtick3()) {
                Some(j) => match block_close_end(toks, stack, j) {
                    Some(e) => Some((e, code_ops(toks, pos, f, mops, c, j, e))),
                    None => None,
                },
                None => None,
            }
        },
        None => None,
    }
}

proof fn lemma_code_ops(t: Seq<Token>, a: int, f: int, mops: Seq<Op>, c: int, j: int, e: int)
    requires
        crate::lexer::chained(t),
        0 <= a < f <= c <= j < e <= t.len(),
        balanced(mops),
        covers(t, mops, bpos(t, f), bpos(t, c)),
    ensures
        balanced(code_ops(t, a, f, mops, c, j, e)),
        covers(t, code_ops(t, a, f, mops, c, j, e), bpos(t, a), bpos(t, e)),
{
    let s = Op { kind: OpKind::Start(Node::Code), content: span_of(t, a, f) };
    let v = Op { kind: OpKind::Value, content: span_of(t, c, j) };
    let z = Op { kind: OpKind::End(Node::Code), content: span_of(t, j, e) };
    assert(code_ops(t, a, f, mops, c, j, e) =~= seq![s] + (mops + seq![v]) + seq![z]);
    lemma_balanced_small(v);
    lemma_balanced_concat(mops, seq![v]);
    lemma_balanced_wrap(s, mops + seq![v], z, Node::Code);
    lemma_span_covers(t, a, f, s.kind);
    lemma_span_covers(t, c, j, v.kind);
    lemma_span_covers(t, j, e, z.kind);
    lemma_covers_concat(t, mops, seq![v], bpos(t, f), bpos(t, c), bpos(t, j));
    lemma_covers_concat(t, seq![s], mops + seq![v], bpos(t, a), bpos(t, f), bpos(t, j));
    lemma_covers_concat(t, seq![s] + (mops + seq![v]), seq![z], bpos(t, a), bpos(t, j), bpos(t, e));
}

/// Parses a code block at the cursor (see [`code_at`]).
#[verifier::rlimit(50)]
pub fn code(p: &mut Parser) -> (r: bool)
    requires
        old(p).wf(),
    ensures
        outcome(*old(p), *final(p), r, code_at(old(p).toks(), old(p).stack(), old(p).pos as int)),
        r ==> final(p).pos > old(p).pos,
{
    let ghost p0 = *p;
    let start_pos = p.pos;
    let snap = p.ops.len();
    if p.eat_where(is_backtick3, Ghost(backtick3())).is_none() {
        proof {
            lemma_kept(p0, *p);
        }
        return false;
    }
    let with_eol = p.eat_where(is_eol, Ghost(eol_tok())).is_some();
    let first_end = p.pos;
    let first_content = p.span(start_pos..first_end);
    p.ops.push(Op::new_start(Node::Code, first_content));
    let ghost p1 = *p;
    if !with_eol {
        modifier(p);
    }
    let ghost p2 = *p;
    let ghost mops = added(p1, p2);
    proof {
        assert(p2.ops@ =~= p1.ops@ + mops);
        let m = code_modifier(p0.toks(), p0.stack(), start_pos as int, first_end as int);
        match m {
            Some((k, ops)) => {
                assert(p2.ops@ == p1.ops@ + ops);
                assert(mops =~= ops);
                assert(p2.pos == k);
            },
            None => {
                assert(mops =~= Seq::<Op>::empty());
                assert(p2.pos == first_end);
            },
        }
    }
    let (body_range, close_range) = match p.scan_until(is_backtick3, Ghost(backtick3())) {
        Some(found) => found,
        None => {
            p.pos = start_pos;
            p.ops.truncate(snap);
            proof {
                assert(p.ops@ =~= p0.ops@);
                lemma_kept(p0, *p);
            }
            return false;
        },
    };
    proof {
        lemma_until(p0.toks(), p0.stack(), p2.pos as int, backtick3());
    }
    let end_range = match p.eat_where(is_eol, Ghost(eol_tok())) {
        Some(eol_range) => close_range.start..eol_range.end,
        None => {
            if p.at_block_boundary() {
                close_range
            } else {
                p.pos = start_pos;
                p.ops.truncate(snap);
                proof {
                    assert(p.ops@ =~= p0.ops@);
                    lemma_kept(p0, *p);
                }
                return false;
            }
        },
    };
    let body_content = p.span(body_range);
    let end_content = p.span(end_range);
    p.ops.push(Op::new_value(body_content));
    p.ops.push(Op::new_end(Node::Code, end_content));
    proof {
        let t = p0.toks();
        let (a, f, c, j, e) = (start_pos as int, first_end as int, p2.pos as int, close_range.start as int, p.pos as int);
        crate::op::laws::lemma_covers_empty(t, bpos(t, f));
        lemma_code_ops(t, a, f, mops, c, j, e);
        assert(p.ops@ =~= p0.ops@ + code_ops(t, a, f, mops, c, j, e));
        lemma_appended(p0, *p, code_ops(t, a, f, mops, c, j, e));
    }
    true
}

} // verus!
