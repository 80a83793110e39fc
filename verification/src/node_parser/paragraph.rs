//! A paragraph: text with bold, emphasised, italic, struck-through text, links and inline code
//! in it, read from the tokens at the cursor.
use crate::lexer::{Token, TokenKind};
use crate::node_parser::anchor::{anchor, anchor_end, anchor_reach, closing_bracket, opt_int};
use crate::node_parser::bold::{bold, bold_scan, is_bold_piece, BoldPiece};
use crate::node_parser::embed::text_len;
use crate::node_parser::heading::or_here;
use crate::node_parser::image::claims;
use crate::node_parser::inline::{closing_pair, closing_single, code_span, emphasis, italic, strikethrough};
use crate::node_parser::{flipped, max_of, next_terminator, Parser};
use crate::nodes::{Paragraph, ParagraphNodes};
use crate::op::parser::span_of;
use crate::op::to_yamd::op_text;
use vstd::prelude::*;
use vstd::string::StringSliceAdditionalSpecFns;

verus! {

/// A piece of a paragraph: the text of the tokens `a..b`; bold text made of the given pieces;
/// emphasised, italic, struck-through text or inline code between the delimiters at `a` and
/// `b`; or the link that starts at `s`, has its `]` at `j` and its closing `)` at `rp`.
pub enum ParaPiece {
    Text(int, int),
    Bold(Seq<BoldPiece>),
    Emphasis(int, int),
    Italic(int, int),
    Strike(int, int),
    Code(int, int),
    Link(int, int, int),
}

/// The node `n` is the piece `piece` of a paragraph over the tokens `lexed` of `src`.
#[verifier::opaque]
pub open spec fn is_para_piece(n: ParagraphNodes, piece: ParaPiece, lexed: Seq<Token>, src: Seq<u8>) -> bool {
    match piece {
        ParaPiece::Text(a, b) => n matches ParagraphNodes::Text(t) && t@ == op_text(span_of(lexed, a, b), src),
        ParaPiece::Bold(ps) => n matches ParagraphNodes::Bold(b) && b.body@.len() == ps.len() && forall|i: int|
            0 <= i < ps.len() ==> is_bold_piece(#[trigger] b.body@[i], ps[i], lexed, src),
        ParaPiece::Emphasis(a, j) => n matches ParagraphNodes::Emphasis(x) && x.text@ == op_text(
            span_of(lexed, a + 1, j),
            src,
        ),
        ParaPiece::Italic(a, j) => n matches ParagraphNodes::Italic(x) && x.text@ == op_text(span_of(lexed, a + 1, j), src),
        ParaPiece::Strike(a, j) => n matches ParagraphNodes::Strikethrough(x) && x.text@ == op_text(
            span_of(lexed, a + 1, j),
            src,
        ),
        ParaPiece::Code(a, j) => n matches ParagraphNodes::CodeSpan(x) && x.text@ == op_text(span_of(lexed, a + 1, j), src),
        ParaPiece::Link(s, j, rp) => n matches ParagraphNodes::Anchor(l) && l.text@ == op_text(
            span_of(lexed, s + 1, j),
            src,
        ) && l.url@ == op_text(span_of(lexed, j + 2, rp), src),
    }
}

/// The token opens one of the inline nodes of a paragraph.
pub open spec fn inline_start(t: Token) -> bool {
    ||| t.kind == TokenKind::Star && (text_len(t) == 2 || text_len(t) == 1)
    ||| t.kind == TokenKind::Underscore && text_len(t) == 1
    ||| t.kind == TokenKind::Tilde && text_len(t) == 2
    ||| t.kind == TokenKind::LeftSquareBracket
    ||| t.kind == TokenKind::Backtick && text_len(t) == 1
}

/// What reading an inline node at `k` does, with `ld` tokens taken: the piece read, if any,
/// where the cursor stops, the tokens and the number taken afterwards, and whether the node
/// is a link with a `)` right after its `]` that closes nothing.
pub struct InlineStep {
    pub node: Option<ParaPiece>,
    pub pos: int,
    pub toks: Seq<Token>,
    pub ld: int,
    pub broken: bool,
}

/// Reading the inline node that opens at `k`.
pub open spec fn inline_step(toks: Seq<Token>, k: int, ld: int) -> InlineStep {
    let t = toks[k];
    if t.kind == TokenKind::Star && text_len(t) == 2 {
        let s = bold_scan(toks, k + 1, None);
        let l1 = max_of(ld, k + 1);
        if s.closed {
            InlineStep {
                node: if s.pieces.len() > 0 {
                    Some(ParaPiece::Bold(s.pieces))
                } else {
                    None
                },
                pos: s.stop,
                toks: s.toks,
                ld: max_of(l1, s.reach),
                broken: false,
            }
        } else {
            InlineStep { node: None, pos: k, toks: flipped(s.toks, k), ld: max_of(l1, s.reach), broken: false }
        }
    } else if t.kind == TokenKind::LeftSquareBracket {
        let l2 = max_of(ld, anchor_reach(toks, k));
        match anchor_end(toks, k) {
            Some((rp, stop)) => {
                let j = closing_bracket(toks, k)->0;
                InlineStep { node: Some(ParaPiece::Link(k, j, rp)), pos: stop, toks, ld: l2, broken: !(j + 2 <= rp) }
            },
            None => InlineStep {
                node: None,
                pos: k,
                toks: if k < l2 {
                    flipped(toks, k)
                } else {
                    toks
                },
                ld: l2,
                broken: false,
            },
        }
    } else {
        let close = if t.kind == TokenKind::Tilde {
            closing_pair(toks, k, TokenKind::Tilde)
        } else {
            closing_single(toks, k, t.kind)
        };
        match close {
            Some(j) => InlineStep {
                node: Some(
                    if t.kind == TokenKind::Star {
                        ParaPiece::Emphasis(k, j)
                    } else if t.kind == TokenKind::Underscore {
                        ParaPiece::Italic(k, j)
                    } else if t.kind == TokenKind::Tilde {
                        ParaPiece::Strike(k, j)
                    } else {
                        ParaPiece::Code(k, j)
                    },
                ),
                pos: j + 1,
                toks,
                ld: max_of(ld, j + 1),
                broken: false,
            },
            None => InlineStep {
                node: None,
                pos: k,
                toks: flipped(toks, k),
                ld: max_of(ld, next_terminator(toks, k + 1)),
                broken: false,
            },
        }
    }
}

/// Reads the inline node at the cursor.
#[verifier::rlimit(100)]
#[verifier::spinoff_prover]
fn read_inline(p: &mut Parser, Ghost(lx): Ghost<Seq<Token>>, Ghost(src): Ghost<Seq<u8>>) -> (r: Option<ParagraphNodes>)
    requires
        old(p).wf(),
        lx == old(p).lexed(),
        src == old(p).source.spec_bytes(),
        old(p).toks().len() < 0x7fff_ffff,
        old(p).stack_pos < old(p).toks().len(),
        inline_start(old(p).toks()[old(p).stack_pos as int]),
        !inline_step(old(p).toks(), old(p).stack_pos as int, old(p).loaded as int).broken,
    ensures
        final(p).wf(),
        final(p).source == old(p).source,
        ({
            let st = inline_step(old(p).toks(), old(p).stack_pos as int, old(p).loaded as int);
            &&& st.node is Some ==> st.pos > old(p).stack_pos
            &&& st.pos >= old(p).stack_pos
            &&& final(p).stack_pos == st.pos
            &&& final(p).toks() == st.toks
            &&& final(p).loaded == st.ld
            &&& match st.node {
                Some(pc) => r matches Some(n) && is_para_piece(n, pc, lx, src),
                None => r is None,
            }
        }),
{
    let k = p.stack_pos;
    let t = &p.tokens[k];
    let kind = t.kind;
    let len_ok = t.range.end >= t.range.start && t.range.end - t.range.start >= t.escaped;
    let tl = if len_ok {
        t.range.end - t.range.start - t.escaped
    } else {
        0
    };
    proof {
        reveal(is_para_piece);
        crate::node_parser::anchor::lemma_anchor_end(old(p).toks(), k as int);
        crate::node_parser::bold::lemma_bold_step(old(p).toks(), k + 1, None);
        crate::node_parser::inline::lemma_closing_bounds(old(p).toks(), k as int, kind);
    }
    if kind == TokenKind::Star && len_ok && tl == 2 {
        match bold(p) {
            Some(b) => Some(ParagraphNodes::Bold(b)),
            None => None,
        }
    } else if kind == TokenKind::LeftSquareBracket {
        match anchor(p) {
            Some(a) => Some(ParagraphNodes::Anchor(a)),
            None => None,
        }
    } else if kind == TokenKind::Star {
        match emphasis(p) {
            Some(x) => Some(ParagraphNodes::Emphasis(x)),
            None => None,
        }
    } else if kind == TokenKind::Underscore {
        match italic(p) {
            Some(x) => Some(ParagraphNodes::Italic(x)),
            None => None,
        }
    } else if kind == TokenKind::Tilde {
        match strikethrough(p) {
            Some(x) => Some(ParagraphNodes::Strikethrough(x)),
            None => None,
        }
    } else {
        match code_span(p) {
            Some(x) => Some(ParagraphNodes::CodeSpan(x)),
            None => None,
        }
    }
}

/// The text piece that starts at `ts`, if any, and ends at `k`.
pub open spec fn para_text_until(ts: Option<int>, k: int) -> Seq<ParaPiece> {
    match ts {
        Some(s) => seq![ParaPiece::Text(s, k)],
        None => Seq::empty(),
    }
}

/// The start of the text not yet closed when a line that the check claims starts at `k`: it
/// is dropped where it is less than two tokens long.
pub open spec fn claimed_start(ts: Option<int>, k: int) -> Option<int> {
    match ts {
        Some(s) => if k - s < 2 {
            None
        } else {
            Some(s)
        },
        None => None,
    }
}

/// What the scan of a paragraph from a token finds: its pieces, the start of the text not yet
/// closed, where it stops, whether a line that the caller's check claims stopped it, the
/// tokens and the number taken afterwards, and whether a link on the way has a `)` right
/// after its `]` that closes nothing.
pub struct ParaScan {
    pub pieces: Seq<ParaPiece>,
    pub ts: Option<int>,
    pub stop: int,
    pub claimed: bool,
    pub toks: Seq<Token>,
    pub ld: int,
    pub broken: bool,
}

/// The scan of a paragraph that started at `start`, from token `k`, with `ld` tokens taken
/// and the text not yet closed starting at `ts`.
#[verifier::opaque]
pub open spec fn para_scan<F: Fn(&Token) -> bool>(
    toks: Seq<Token>,
    ld: int,
    k: int,
    ts: Option<int>,
    start: int,
    check: F,
) -> ParaScan
    decreases toks.len() - k,
{
    let stopped = ParaScan { pieces: Seq::empty(), ts, stop: k, claimed: false, toks, ld, broken: false };
    if k < 0 || k >= toks.len() || toks[k].kind == TokenKind::Terminator {
        stopped
    } else if inline_start(toks[k]) {
        let st = inline_step(toks, k, ld);
        if st.broken {
            ParaScan { broken: true, ..stopped }
        } else if st.toks.len() != toks.len() || st.pos < k || st.pos > toks.len() {
            stopped
        } else {
            match st.node {
                Some(pc) => if st.pos <= k {
                    stopped
                } else {
                    let rest = para_scan(st.toks, st.ld, st.pos, None, start, check);
                    ParaScan {
                        pieces: para_text_until(ts, k) + seq![pc] + rest.pieces,
                        broken: st.broken || rest.broken,
                        ..rest
                    }
                },
                None => if st.pos > k {
                    let rest = para_scan(st.toks, st.ld, st.pos, ts, start, check);
                    ParaScan { broken: st.broken || rest.broken, ..rest }
                } else if k != start && st.toks[k].position.column == 0 && claims(check, st.toks[k]) {
                    ParaScan {
                        pieces: Seq::empty(),
                        ts: claimed_start(ts, k),
                        stop: k,
                        claimed: true,
                        toks: st.toks,
                        ld: st.ld,
                        broken: st.broken,
                    }
                } else {
                    let rest = para_scan(st.toks, max_of(st.ld, k + 1), k + 1, or_here(ts, k), start, check);
                    ParaScan { broken: st.broken || rest.broken, ..rest }
                },
            }
        }
    } else if k != start && toks[k].position.column == 0 && claims(check, toks[k]) {
        ParaScan { ts: claimed_start(ts, k), claimed: true, ..stopped }
    } else {
        para_scan(toks, max_of(ld, k + 1), k + 1, or_here(ts, k), start, check)
    }
}

/// The pieces of a paragraph once its scan `s` is over.
pub open spec fn para_pieces(s: ParaScan) -> Seq<ParaPiece> {
    s.pieces + match s.ts {
        Some(t) => seq![ParaPiece::Text(t, s.stop - if s.claimed { 1int } else { 0int })],
        None => Seq::empty(),
    }
}

/// The scan of a paragraph takes no token back.
pub proof fn lemma_para_ld_mono<F: Fn(&Token) -> bool>(toks: Seq<Token>, ld: int, k: int, ts: Option<int>, start: int, check: F)
    ensures
        para_scan(toks, ld, k, ts, start, check).ld >= ld,
    decreases toks.len() - k,
{
    reveal(para_scan);
    if 0 <= k < toks.len() && toks[k].kind != TokenKind::Terminator {
        if inline_start(toks[k]) {
            let st = inline_step(toks, k, ld);
            if !st.broken && st.toks.len() == toks.len() && k <= st.pos <= toks.len() {
                match st.node {
                    Some(pc) => if st.pos > k {
                        lemma_para_ld_mono(st.toks, st.ld, st.pos, None, start, check);
                    },
                    None => if st.pos > k {
                        lemma_para_ld_mono(st.toks, st.ld, st.pos, ts, start, check);
                    } else {
                        lemma_para_ld_mono(st.toks, max_of(st.ld, k + 1), k + 1, or_here(ts, k), start, check);
                    },
                }
            }
        } else {
            lemma_para_ld_mono(toks, max_of(ld, k + 1), k + 1, or_here(ts, k), start, check);
        }
    }
}

/// A paragraph's text with no delimiter in it is one text: where no token from `k` up to `j`
/// is a `*`, `_`, `~`, `` ` ``, `[` or terminator, nor a line start other than `start` that
/// the check claims, and `j` is a terminator or the end, the scan stops at `j` with no piece
/// closed, having taken the tokens up to `j`, and the text starts at `ts`, or at `k` where
/// there is none and `k < j`.
pub proof fn law_para_plain<F: Fn(&Token) -> bool>(
    toks: Seq<Token>,
    ld: int,
    k: int,
    j: int,
    ts: Option<int>,
    start: int,
    check: F,
)
    requires
        0 <= k <= j <= toks.len(),
        j == toks.len() || toks[j].kind == TokenKind::Terminator,
        forall|i: int|
            k <= i < j ==> {
                let t = #[trigger] toks[i];
                &&& t.kind != TokenKind::Star && t.kind != TokenKind::Underscore && t.kind != TokenKind::Tilde
                &&& t.kind != TokenKind::Backtick && t.kind != TokenKind::LeftSquareBracket
                &&& t.kind != TokenKind::Terminator
                &&& !(i != start && t.position.column == 0 && check.ensures((&t,), true))
            },
    ensures
        para_scan(toks, ld, k, ts, start, check) == (ParaScan {
            pieces: Seq::empty(),
            ts: if ts is Some {
                ts
            } else if k < j {
                Some(k)
            } else {
                None
            },
            stop: j,
            claimed: false,
            toks,
            ld: if k < j {
                max_of(ld, j)
            } else {
                ld
            },
            broken: false,
        }),
    decreases j - k,
{
    reveal(para_scan);
    if k < j {
        let t = toks[k];
        assert(t.kind != TokenKind::Star && t.kind != TokenKind::Underscore && t.kind != TokenKind::Tilde
            && t.kind != TokenKind::Backtick && t.kind != TokenKind::LeftSquareBracket && t.kind != TokenKind::Terminator
            && !(k != start && t.position.column == 0 && check.ensures((&t,), true)));
        law_para_plain(toks, max_of(ld, k + 1), k + 1, j, or_here(ts, k), start, check);
    }
}

/// A scan at a terminator or the end stops there.
proof fn lemma_para_stop<F: Fn(&Token) -> bool>(toks: Seq<Token>, ld: int, k: int, ts: Option<int>, start: int, check: F)
    requires
        0 <= k <= toks.len(),
        k == toks.len() || toks[k].kind == TokenKind::Terminator,
    ensures
        para_scan(toks, ld, k, ts, start, check) == (ParaScan {
            pieces: Seq::empty(),
            ts,
            stop: k,
            claimed: false,
            toks,
            ld,
            broken: false,
        }),
{
    reveal(para_scan);
}

/// A scan meets no broken link where it is not broken.
proof fn lemma_para_not_broken<F: Fn(&Token) -> bool>(toks: Seq<Token>, ld: int, k: int, ts: Option<int>, start: int, check: F)
    requires
        0 <= k < toks.len(),
        toks[k].kind != TokenKind::Terminator,
        inline_start(toks[k]),
        !para_scan(toks, ld, k, ts, start, check).broken,
    ensures
        !inline_step(toks, k, ld).broken,
{
    reveal(para_scan);
}

/// A scan over an inline node that reads goes on after it.
proof fn lemma_para_inline_some<F: Fn(&Token) -> bool>(toks: Seq<Token>, ld: int, k: int, ts: Option<int>, start: int, check: F)
    requires
        0 <= k < toks.len(),
        toks[k].kind != TokenKind::Terminator,
        inline_start(toks[k]),
        !inline_step(toks, k, ld).broken,
        inline_step(toks, k, ld).toks.len() == toks.len(),
        k < inline_step(toks, k, ld).pos <= toks.len(),
        inline_step(toks, k, ld).node is Some,
    ensures
        ({
            let st = inline_step(toks, k, ld);
            let rest = para_scan(st.toks, st.ld, st.pos, None, start, check);
            para_scan(toks, ld, k, ts, start, check) == ParaScan {
                pieces: para_text_until(ts, k) + seq![st.node->0] + rest.pieces,
                broken: st.broken || rest.broken,
                ..rest
            }
        }),
{
    reveal(para_scan);
}

/// A scan over bold text that closes on nothing goes on after it.
proof fn lemma_para_inline_moved<F: Fn(&Token) -> bool>(toks: Seq<Token>, ld: int, k: int, ts: Option<int>, start: int, check: F)
    requires
        0 <= k < toks.len(),
        toks[k].kind != TokenKind::Terminator,
        inline_start(toks[k]),
        !inline_step(toks, k, ld).broken,
        inline_step(toks, k, ld).toks.len() == toks.len(),
        k < inline_step(toks, k, ld).pos <= toks.len(),
        inline_step(toks, k, ld).node is None,
    ensures
        ({
            let st = inline_step(toks, k, ld);
            let rest = para_scan(st.toks, st.ld, st.pos, ts, start, check);
            para_scan(toks, ld, k, ts, start, check) == ParaScan { broken: st.broken || rest.broken, ..rest }
        }),
{
    reveal(para_scan);
}

/// A scan over an inline node that does not read goes on with its first token as text, unless
/// the caller's check claims it.
proof fn lemma_para_inline_failed<F: Fn(&Token) -> bool>(toks: Seq<Token>, ld: int, k: int, ts: Option<int>, start: int, check: F)
    requires
        0 <= k < toks.len(),
        toks[k].kind != TokenKind::Terminator,
        inline_start(toks[k]),
        !inline_step(toks, k, ld).broken,
        inline_step(toks, k, ld).toks.len() == toks.len(),
        inline_step(toks, k, ld).pos == k,
        inline_step(toks, k, ld).node is None,
    ensures
        ({
            let st = inline_step(toks, k, ld);
            if k != start && st.toks[k].position.column == 0 && claims(check, st.toks[k]) {
                para_scan(toks, ld, k, ts, start, check) == ParaScan {
                    pieces: Seq::empty(),
                    ts: claimed_start(ts, k),
                    stop: k,
                    claimed: true,
                    toks: st.toks,
                    ld: st.ld,
                    broken: st.broken,
                }
            } else {
                let rest = para_scan(st.toks, max_of(st.ld, k + 1), k + 1, or_here(ts, k), start, check);
                para_scan(toks, ld, k, ts, start, check) == ParaScan { broken: st.broken || rest.broken, ..rest }
            }
        }),
{
    reveal(para_scan);
}

/// A scan at any other token stops where the caller's check claims it, else takes it as text.
proof fn lemma_para_plain<F: Fn(&Token) -> bool>(toks: Seq<Token>, ld: int, k: int, ts: Option<int>, start: int, check: F)
    requires
        0 <= k < toks.len(),
        toks[k].kind != TokenKind::Terminator,
        !inline_start(toks[k]),
    ensures
        if k != start && toks[k].position.column == 0 && claims(check, toks[k]) {
            para_scan(toks, ld, k, ts, start, check) == ParaScan {
                pieces: Seq::empty(),
                ts: claimed_start(ts, k),
                stop: k,
                claimed: true,
                toks,
                ld,
                broken: false,
            }
        } else {
            para_scan(toks, ld, k, ts, start, check) == para_scan(toks, max_of(ld, k + 1), k + 1, or_here(ts, k), start, check)
        },
{
    reveal(para_scan);
}

/// Adds the text of the tokens `s..k` to `body`.
fn push_para_text(p: &Parser, body: &mut Vec<ParagraphNodes>, s: usize, k: usize, Ghost(lx): Ghost<Seq<Token>>, Ghost(src): Ghost<Seq<u8>>)
    requires
        p.wf(),
        lx == p.lexed(),
        src == p.source.spec_bytes(),
        s <= k <= p.loaded,
    ensures
        final(body)@ == old(body)@.push(final(body)@.last()),
        is_para_piece(final(body)@.last(), ParaPiece::Text(s as int, k as int), lx, src),
{
    let t = p.range_to_string(s..k);
    proof {
        reveal(is_para_piece);
    }
    body.push(ParagraphNodes::Text(t));
}

/// Reads a paragraph from the token at the cursor, up to a terminator, the end, or a line
/// (other than the first) that `new_line_check` claims, whose end of line before it is left
/// out: plain text, with bold, emphasised, italic and struck-through text, links and inline
/// code in it. Delimiters that open nothing are taken as text. The result is `None` where
/// nothing was read; the cursor stays where the paragraph stops either way.
#[verifier::rlimit(100)]
#[verifier::spinoff_prover]
pub fn paragraph(p: &mut Parser, new_line_check: impl Fn(&Token) -> bool) -> (r: Option<Paragraph>)
    requires
        old(p).wf(),
        old(p).toks().len() < 0x7fff_ffff,
        forall|t: &Token| #[trigger] new_line_check.requires((t,)),
        forall|t: &Token, b: bool| #[trigger] new_line_check.ensures((t,), b) ==> b == new_line_check.ensures((t,), true),
        !para_scan(
            old(p).toks(),
            old(p).loaded as int,
            old(p).stack_pos as int,
            None,
            old(p).stack_pos as int,
            new_line_check,
        ).broken,
    ensures
        final(p).wf(),
        final(p).source == old(p).source,
        ({
            let s = para_scan(
                old(p).toks(),
                old(p).loaded as int,
                old(p).stack_pos as int,
                None,
                old(p).stack_pos as int,
                new_line_check,
            );
            let pieces = para_pieces(s);
            &&& final(p).stack_pos == s.stop
            &&& final(p).toks() == s.toks
            &&& final(p).loaded == s.ld
            &&& (pieces.len() == 0 ==> r is None)
            &&& (pieces.len() > 0 ==> (r matches Some(pg) && pg.body@.len() == pieces.len() && forall|i: int|
                0 <= i < pieces.len() ==> is_para_piece(#[trigger] pg.body@[i], pieces[i], old(p).lexed(), old(p).source.spec_bytes())))
        }),
{
    let ghost lx = p.lexed();
    let ghost src = p.source.spec_bytes();
    let start = p.stack_pos;
    let n = p.tokens.len();
    let ghost s0 = para_scan(p.toks(), p.loaded as int, start as int, None, start as int, new_line_check);
    let ghost mut done: Seq<ParaPiece> = Seq::empty();
    let mut body: Vec<ParagraphNodes> = Vec::new();
    let mut text_start: Option<usize> = None;
    let mut end_modifier: usize = 0;
    proof {
        assert(done + s0.pieces =~= s0.pieces);
        if start == n {
            lemma_para_stop(p.toks(), p.loaded as int, n as int, None, start as int, new_line_check);
        }
    }
    while p.stack_pos < n
        invariant_except_break
            end_modifier == 0,
            ({
                let s = para_scan(p.toks(), p.loaded as int, p.stack_pos as int, opt_int(text_start), start as int, new_line_check);
                &&& s0.pieces == done + s.pieces
                &&& s0.ts == s.ts
                &&& s0.stop == s.stop
                &&& s0.claimed == s.claimed
                &&& s0.toks == s.toks
                &&& s0.ld == s.ld
                &&& !s.broken
            }),
            p.stack_pos == n ==> para_scan(p.toks(), p.loaded as int, n as int, opt_int(text_start), start as int, new_line_check)
                == (ParaScan {
                pieces: Seq::empty(),
                ts: opt_int(text_start),
                stop: n as int,
                claimed: false,
                toks: p.toks(),
                ld: p.loaded as int,
                broken: false,
            }),
        invariant
            p.wf(),
            p.source == old(p).source,
            lx == old(p).lexed(),
            src == old(p).source.spec_bytes(),
            n == p.toks().len(),
            n < 0x7fff_ffff,
            start == old(p).stack_pos,
            start <= p.stack_pos <= n,
            text_start matches Some(t) ==> t < p.stack_pos,
            forall|t: &Token| #[trigger] new_line_check.requires((t,)),
            forall|t: &Token, b: bool| #[trigger] new_line_check.ensures((t,), b) ==> b == new_line_check.ensures((t,), true),
            body@.len() == done.len(),
            forall|k: int| 0 <= k < done.len() ==> is_para_piece(#[trigger] body@[k], done[k], lx, src),
        ensures
            s0.pieces == done,
            s0.ts == opt_int(text_start),
            s0.stop == p.stack_pos,
            s0.claimed == (end_modifier == 1),
            s0.toks == p.toks(),
            s0.ld == p.loaded,
            end_modifier <= 1,
            text_start matches Some(t) ==> t + end_modifier <= p.stack_pos,
        decreases n - p.stack_pos,
    {
        let k = p.stack_pos;
        let ghost ts = opt_int(text_start);
        let ghost t0 = p.toks();
        let ghost l0 = p.loaded as int;
        let ghost d0 = done;
        let ghost b0 = body@;
        let t = &p.tokens[k];
        let kind = t.kind;
        let len_ok = t.range.end >= t.range.start && t.range.end - t.range.start >= t.escaped;
        let tl = if len_ok {
            t.range.end - t.range.start - t.escaped
        } else {
            0
        };
        let is_inline = len_ok && ((kind == TokenKind::Star && (tl == 2 || tl == 1)) || (kind == TokenKind::Underscore
            && tl == 1) || (kind == TokenKind::Tilde && tl == 2) || (kind == TokenKind::Backtick && tl == 1))
            || kind == TokenKind::LeftSquareBracket;
        proof {
            assert(is_inline == inline_start(t0[k as int]));
        }
        if kind == TokenKind::Terminator {
            proof {
                lemma_para_stop(t0, l0, k as int, ts, start as int, new_line_check);
                assert(done + Seq::<ParaPiece>::empty() =~= done);
            }
            break;
        } else if is_inline {
            proof {
                lemma_para_not_broken(t0, l0, k as int, ts, start as int, new_line_check);
            }
            let r = read_inline(p, Ghost(lx), Ghost(src));
            proof {
                let st = inline_step(t0, k as int, l0);
                if st.node is Some {
                    lemma_para_inline_some(t0, l0, k as int, ts, start as int, new_line_check);
                } else if st.pos > k {
                    lemma_para_inline_moved(t0, l0, k as int, ts, start as int, new_line_check);
                } else {
                    lemma_para_inline_failed(t0, l0, k as int, ts, start as int, new_line_check);
                }
            }
            match r {
                Some(node) => {
                    if let Some(s) = text_start {
                        push_para_text(p, &mut body, s, k, Ghost(lx), Ghost(src));
                        proof {
                            done = done.push(ParaPiece::Text(s as int, k as int));
                        }
                    }
                    text_start = None;
                    let ghost b1 = body@;
                    body.push(node);
                    proof {
                        let st = inline_step(t0, k as int, l0);
                        let rest = para_scan(st.toks, st.ld, st.pos, None, start as int, new_line_check);
                        done = done.push(st.node->0);
                        assert(d0 + (para_text_until(ts, k as int) + seq![st.node->0] + rest.pieces) =~= done + rest.pieces);
                        assert forall|i: int| 0 <= i < done.len() implies is_para_piece(#[trigger] body@[i], done[i], lx, src) by {
                            if i < b1.len() {
                                assert(body@[i] == b1[i]);
                                if i < d0.len() {
                                    assert(b1[i] == b0[i]);
                                }
                            }
                        }
                        if p.stack_pos == n {
                            lemma_para_stop(p.toks(), p.loaded as int, n as int, None, start as int, new_line_check);
                        }
                    }
                },
                None => {
                    if p.stack_pos == k {
                        if k != start && p.tokens[k].position.column == 0 && new_line_check(&p.tokens[k]) {
                            end_modifier = 1;
                            if let Some(s) = text_start {
                                if k - s < 2 {
                                    text_start = None;
                                }
                            }
                            proof {
                                assert(done + Seq::<ParaPiece>::empty() =~= done);
                            }
                            break;
                        }
                        if text_start.is_none() {
                            text_start = Some(k);
                        }
                        p.step();
                    }
                    proof {
                        if p.stack_pos == n {
                            lemma_para_stop(p.toks(), p.loaded as int, n as int, opt_int(text_start), start as int, new_line_check);
                        }
                    }
                },
            }
        } else {
            proof {
                lemma_para_plain(t0, l0, k as int, ts, start as int, new_line_check);
            }
            if k != start && p.tokens[k].position.column == 0 && new_line_check(&p.tokens[k]) {
                end_modifier = 1;
                if let Some(s) = text_start {
                    if k - s < 2 {
                        text_start = None;
                    }
                }
                proof {
                    assert(done + Seq::<ParaPiece>::empty() =~= done);
                }
                break;
            }
            if text_start.is_none() {
                text_start = Some(k);
            }
            p.step();
            proof {
                if p.stack_pos == n {
                    lemma_para_stop(p.toks(), p.loaded as int, n as int, opt_int(text_start), start as int, new_line_check);
                }
            }
        }
    }
    let ghost d1 = done;
    let ghost b1 = body@;
    if let Some(s) = text_start {
        push_para_text(p, &mut body, s, p.stack_pos - end_modifier, Ghost(lx), Ghost(src));
        proof {
            done = done.push(ParaPiece::Text(s as int, p.stack_pos - end_modifier));
        }
    }
    proof {
        assert(para_pieces(s0) =~= done);
        assert forall|i: int| 0 <= i < done.len() implies is_para_piece(#[trigger] body@[i], done[i], lx, src) by {
            if i < d1.len() {
                assert(body@[i] == b1[i]);
            }
        }
    }
    if body.len() == 0 {
        return None;
    }
    Some(Paragraph { body })
}

} // verus!
