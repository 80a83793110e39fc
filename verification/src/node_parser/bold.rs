//! Bold text, `**...**`, with struck-through and italic text in it, read from the tokens at
//! the cursor.
use crate::lexer::{Token, TokenKind};
use crate::node_parser::anchor::{lemma_next_terminator_le, opt_int};
use crate::node_parser::embed::text_len;
use crate::node_parser::heading::or_here;
use crate::node_parser::inline::{closing_pair, closing_single, italic, strikethrough};
use crate::node_parser::{flipped, max_of, next_terminator, Parser};
use crate::nodes::{Bold, BoldNodes};
use crate::op::parser::span_of;
use crate::op::to_yamd::op_text;
use vstd::prelude::*;
use vstd::string::StringSliceAdditionalSpecFns;

verus! {

/// A piece of bold text: the text of the tokens `a..b`, struck-through text between the `~~`
/// at `a` and the one at `b`, or italic text between the `_` at `a` and the one at `b`.
pub enum BoldPiece {
    Text(int, int),
    Strike(int, int),
    Italic(int, int),
}

/// What the scan of bold text from a token finds: its pieces, whether a closing `**` ended
/// it, where it stops, the tokens after the nested spans that failed have become literals,
/// and how far the cursor gets.
pub struct BoldScan {
    pub pieces: Seq<BoldPiece>,
    pub closed: bool,
    pub stop: int,
    pub toks: Seq<Token>,
    pub reach: int,
}

/// The text piece that starts at `ts`, if any, and ends at `k`.
pub open spec fn text_until(ts: Option<int>, k: int) -> Seq<BoldPiece> {
    match ts {
        Some(s) => seq![BoldPiece::Text(s, k)],
        None => Seq::empty(),
    }
}

/// The scan of bold text from token `k`, with the text not yet closed starting at `ts`.
#[verifier::opaque]
pub open spec fn bold_scan(toks: Seq<Token>, k: int, ts: Option<int>) -> BoldScan
    decreases toks.len() - k,
{
    if k < 0 || k >= toks.len() || toks[k].kind == TokenKind::Terminator {
        BoldScan { pieces: Seq::empty(), closed: false, stop: k, toks, reach: k }
    } else if toks[k].kind == TokenKind::Star && text_len(toks[k]) == 2 {
        BoldScan { pieces: text_until(ts, k), closed: true, stop: k + 1, toks, reach: k + 1 }
    } else if (toks[k].kind == TokenKind::Tilde && text_len(toks[k]) == 2) || (toks[k].kind
        == TokenKind::Underscore && text_len(toks[k]) == 1) {
        let tilde = toks[k].kind == TokenKind::Tilde;
        let close = if tilde {
            closing_pair(toks, k, TokenKind::Tilde)
        } else {
            closing_single(toks, k, TokenKind::Underscore)
        };
        match close {
            Some(j) => {
                if j <= k || j >= toks.len() {
                    BoldScan { pieces: Seq::empty(), closed: false, stop: k, toks, reach: k }
                } else {
                    let rest = bold_scan(toks, j + 1, None);
                    let piece = if tilde {
                        BoldPiece::Strike(k, j)
                    } else {
                        BoldPiece::Italic(k, j)
                    };
                    BoldScan { pieces: text_until(ts, k) + seq![piece] + rest.pieces, ..rest }
                }
            },
            None => {
                let rest = bold_scan(flipped(toks, k), k + 1, or_here(ts, k));
                BoldScan { reach: max_of(next_terminator(toks, k + 1), rest.reach), ..rest }
            },
        }
    } else {
        bold_scan(toks, k + 1, or_here(ts, k))
    }
}

/// One step of the scan of bold text.
pub proof fn lemma_bold_step(toks: Seq<Token>, k: int, ts: Option<int>)
    requires
        0 <= k <= toks.len(),
    ensures
        ({
            let s = bold_scan(toks, k, ts);
            &&& k <= s.stop <= toks.len()
            &&& s.stop <= s.reach
            &&& k <= s.reach
            &&& s.toks.len() == toks.len()
            &&& (k == toks.len() || toks[k].kind == TokenKind::Terminator) ==> s == BoldScan {
                pieces: Seq::empty(),
                closed: false,
                stop: k,
                toks,
                reach: k,
            }
            &&& (k < toks.len() && toks[k].kind == TokenKind::Star && text_len(toks[k]) == 2) ==> s == BoldScan {
                pieces: text_until(ts, k),
                closed: true,
                stop: k + 1,
                toks,
                reach: k + 1,
            }
            &&& (k < toks.len() && toks[k].kind == TokenKind::Tilde && text_len(toks[k]) == 2) ==> match closing_pair(
                toks,
                k,
                TokenKind::Tilde,
            ) {
                Some(j) => {
                    let rest = bold_scan(toks, j + 1, None);
                    &&& k < j < toks.len()
                    &&& s == BoldScan { pieces: text_until(ts, k) + seq![BoldPiece::Strike(k, j)] + rest.pieces, ..rest }
                },
                None => {
                    let rest = bold_scan(flipped(toks, k), k + 1, or_here(ts, k));
                    s == BoldScan { reach: max_of(next_terminator(toks, k + 1), rest.reach), ..rest }
                },
            }
            &&& (k < toks.len() && toks[k].kind == TokenKind::Underscore && text_len(toks[k]) == 1) ==> match closing_single(
                toks,
                k,
                TokenKind::Underscore,
            ) {
                Some(j) => {
                    let rest = bold_scan(toks, j + 1, None);
                    &&& k < j < toks.len()
                    &&& s == BoldScan { pieces: text_until(ts, k) + seq![BoldPiece::Italic(k, j)] + rest.pieces, ..rest }
                },
                None => {
                    let rest = bold_scan(flipped(toks, k), k + 1, or_here(ts, k));
                    s == BoldScan { reach: max_of(next_terminator(toks, k + 1), rest.reach), ..rest }
                },
            }
            &&& (k < toks.len() && toks[k].kind != TokenKind::Terminator && !(toks[k].kind == TokenKind::Star
                && text_len(toks[k]) == 2) && !(toks[k].kind == TokenKind::Tilde && text_len(toks[k]) == 2)
                && !(toks[k].kind == TokenKind::Underscore && text_len(toks[k]) == 1)) ==> s == bold_scan(
                toks,
                k + 1,
                or_here(ts, k),
            )
        }),
    decreases toks.len() - k,
{
    reveal(bold_scan);
    if k < toks.len() && toks[k].kind != TokenKind::Terminator {
        crate::node_parser::inline::lemma_closing_bounds(toks, k, toks[k].kind);
        lemma_next_terminator_le(toks, k + 1);
        if toks[k].kind == TokenKind::Star && text_len(toks[k]) == 2 {
        } else if (toks[k].kind == TokenKind::Tilde && text_len(toks[k]) == 2) || (toks[k].kind
            == TokenKind::Underscore && text_len(toks[k]) == 1) {
            let tilde = toks[k].kind == TokenKind::Tilde;
            let close = if tilde {
                closing_pair(toks, k, TokenKind::Tilde)
            } else {
                closing_single(toks, k, TokenKind::Underscore)
            };
            match close {
                Some(j) => {
                    lemma_bold_step(toks, j + 1, None);
                },
                None => {
                    lemma_bold_step(flipped(toks, k), k + 1, or_here(ts, k));
                },
            }
        } else {
            lemma_bold_step(toks, k + 1, or_here(ts, k));
        }
    }
}

/// The node `n` is the piece `piece` of bold text over the tokens `lexed` of `src`.
#[verifier::opaque]
pub open spec fn is_bold_piece(n: BoldNodes, piece: BoldPiece, lexed: Seq<Token>, src: Seq<u8>) -> bool {
    match piece {
        BoldPiece::Text(a, b) => n matches BoldNodes::Text(t) && t@ == op_text(span_of(lexed, a, b), src),
        BoldPiece::Strike(a, j) => n matches BoldNodes::Strikethrough(x) && x.text@ == op_text(
            span_of(lexed, a + 1, j),
            src,
        ),
        BoldPiece::Italic(a, j) => n matches BoldNodes::Italic(x) && x.text@ == op_text(
            span_of(lexed, a + 1, j),
            src,
        ),
    }
}

/// Reads the struck-through (at a `~~`) or italic (at a `_`) text at the cursor and adds it
/// to `body`, after the text that starts at `text_start`, if any; says whether there was one.
#[verifier::rlimit(100)]
#[verifier::spinoff_prover]
fn read_nested(
    p: &mut Parser,
    body: &mut Vec<BoldNodes>,
    text_start: Option<usize>,
    Ghost(lx): Ghost<Seq<Token>>,
    Ghost(src): Ghost<Seq<u8>>,
) -> (ok: bool)
    requires
        old(p).wf(),
        lx == old(p).lexed(),
        src == old(p).source.spec_bytes(),
        old(p).stack_pos < old(p).toks().len(),
        ({
            let t = old(p).toks()[old(p).stack_pos as int];
            (t.kind == TokenKind::Tilde && text_len(t) == 2) || (t.kind == TokenKind::Underscore && text_len(t) == 1)
        }),
        text_start matches Some(t) ==> t < old(p).stack_pos,
    ensures
        final(p).wf(),
        final(p).source == old(p).source,
        ({
            let toks = old(p).toks();
            let k = old(p).stack_pos as int;
            let tilde = toks[k].kind == TokenKind::Tilde;
            let close = if tilde {
                closing_pair(toks, k, TokenKind::Tilde)
            } else {
                closing_single(toks, k, TokenKind::Underscore)
            };
            match close {
                Some(j) => {
                    let n0 = old(body)@.len() as int;
                    let piece = if tilde {
                        BoldPiece::Strike(k, j)
                    } else {
                        BoldPiece::Italic(k, j)
                    };
                    &&& ok
                    &&& final(p).stack_pos == j + 1
                    &&& final(p).loaded == max_of(old(p).loaded as int, j + 1)
                    &&& final(p).toks() == toks
                    &&& forall|i: int| 0 <= i < n0 ==> #[trigger] final(body)@[i] == old(body)@[i]
                    &&& match text_start {
                        Some(s) => {
                            &&& final(body)@.len() == n0 + 2
                            &&& is_bold_piece(final(body)@[n0], BoldPiece::Text(s as int, k), lx, src)
                            &&& is_bold_piece(final(body)@[n0 + 1], piece, lx, src)
                        },
                        None => {
                            &&& final(body)@.len() == n0 + 1
                            &&& is_bold_piece(final(body)@[n0], piece, lx, src)
                        },
                    }
                },
                None => {
                    &&& !ok
                    &&& final(p).stack_pos == k
                    &&& final(p).loaded == max_of(old(p).loaded as int, next_terminator(toks, k + 1))
                    &&& final(p).toks() == flipped(toks, k)
                    &&& final(body)@ == old(body)@
                },
            }
        }),
{
    let k = p.stack_pos;
    let tilde = p.tokens[k].kind == TokenKind::Tilde;
    let node = if tilde {
        match strikethrough(p) {
            Some(x) => Some(BoldNodes::Strikethrough(x)),
            None => None,
        }
    } else {
        match italic(p) {
            Some(x) => Some(BoldNodes::Italic(x)),
            None => None,
        }
    };
    match node {
        Some(n) => {
            if let Some(s) = text_start {
                let t = p.range_to_string(s..k);
                proof {
                    reveal(is_bold_piece);
                    assert(is_bold_piece(BoldNodes::Text(t), BoldPiece::Text(s as int, k as int), lx, src));
                }
                body.push(BoldNodes::Text(t));
            }
            proof {
                reveal(is_bold_piece);
            }
            body.push(n);
            true
        },
        None => false,
    }
}

/// Adds the text of the tokens `s..k` to `body`.
fn push_text(p: &Parser, body: &mut Vec<BoldNodes>, s: usize, k: usize, Ghost(lx): Ghost<Seq<Token>>, Ghost(src): Ghost<Seq<u8>>)
    requires
        p.wf(),
        lx == p.lexed(),
        src == p.source.spec_bytes(),
        s <= k <= p.loaded,
    ensures
        final(body)@.len() == old(body)@.len() + 1,
        forall|i: int| 0 <= i < old(body)@.len() ==> #[trigger] final(body)@[i] == old(body)@[i],
        is_bold_piece(final(body)@.last(), BoldPiece::Text(s as int, k as int), lx, src),
{
    let t = p.range_to_string(s..k);
    proof {
        reveal(is_bold_piece);
    }
    body.push(BoldNodes::Text(t));
}

/// After a nested span read at `k` up to `j`, the pieces read so far and the rest of the scan
/// still make up the whole scan.
proof fn lemma_nested_done(
    t0: Seq<Token>,
    k: int,
    j: int,
    ts: Option<int>,
    d0: Seq<BoldPiece>,
    b0: Seq<BoldNodes>,
    b1: Seq<BoldNodes>,
    s0: BoldScan,
    lx: Seq<Token>,
    src: Seq<u8>,
) -> (done: Seq<BoldPiece>)
    requires
        0 <= k < j < t0.len(),
        b0.len() == d0.len(),
        forall|i: int| 0 <= i < d0.len() ==> is_bold_piece(#[trigger] b0[i], d0[i], lx, src),
        forall|i: int| 0 <= i < b0.len() ==> #[trigger] b1[i] == b0[i],
        bold_scan(t0, k, ts).pieces == text_until(ts, k) + seq![if t0[k].kind == TokenKind::Tilde {
            BoldPiece::Strike(k, j)
        } else {
            BoldPiece::Italic(k, j)
        }] + bold_scan(t0, j + 1, None).pieces,
        s0.pieces == d0 + bold_scan(t0, k, ts).pieces,
        match ts {
            Some(s) => {
                &&& b1.len() == b0.len() + 2
                &&& is_bold_piece(b1[b0.len() as int], BoldPiece::Text(s, k), lx, src)
                &&& is_bold_piece(b1[b0.len() + 1int], if t0[k].kind == TokenKind::Tilde {
                    BoldPiece::Strike(k, j)
                } else {
                    BoldPiece::Italic(k, j)
                }, lx, src)
            },
            None => {
                &&& b1.len() == b0.len() + 1
                &&& is_bold_piece(b1[b0.len() as int], if t0[k].kind == TokenKind::Tilde {
                    BoldPiece::Strike(k, j)
                } else {
                    BoldPiece::Italic(k, j)
                }, lx, src)
            },
        },
    ensures
        s0.pieces == done + bold_scan(t0, j + 1, None).pieces,
        b1.len() == done.len(),
        forall|i: int| 0 <= i < done.len() ==> is_bold_piece(#[trigger] b1[i], done[i], lx, src),
{
    let piece = if t0[k].kind == TokenKind::Tilde {
        BoldPiece::Strike(k, j)
    } else {
        BoldPiece::Italic(k, j)
    };
    let done = d0 + text_until(ts, k) + seq![piece];
    let rest = bold_scan(t0, j + 1, None);
    assert(d0 + (text_until(ts, k) + seq![piece] + rest.pieces) =~= done + rest.pieces);
    assert forall|i: int| 0 <= i < done.len() implies is_bold_piece(#[trigger] b1[i], done[i], lx, src) by {
        if i < d0.len() {
            assert(b1[i] == b0[i]);
        }
    }
    done
}

/// Reads bold text from the `**` at the cursor to the next `**` before a terminator, with the
/// struck-through and italic text in it read as such. On success the cursor moves past it;
/// the result is `None` where nothing stands between the two. Otherwise the cursor stays where
/// it was and the token there becomes a literal.
#[verifier::rlimit(100)]
#[verifier::spinoff_prover]
pub fn bold(p: &mut Parser) -> (r: Option<Bold>)
    requires
        old(p).wf(),
    ensures
        final(p).wf(),
        final(p).source == old(p).source,
        ({
            let toks = old(p).toks();
            let start = old(p).stack_pos as int;
            let src = old(p).source.spec_bytes();
            let l1 = max_of(old(p).loaded as int, start + 1);
            let s = bold_scan(toks, start + 1, None);
            if start >= toks.len() {
                &&& r is None
                &&& final(p).stack_pos == start
                &&& final(p).loaded == old(p).loaded
                &&& final(p).toks() == toks
            } else if s.closed {
                &&& (s.pieces.len() == 0 ==> r is None)
                &&& (s.pieces.len() > 0 ==> (r matches Some(b) && b.body@.len() == s.pieces.len() && forall|i: int|
                    0 <= i < s.pieces.len() ==> is_bold_piece(#[trigger] b.body@[i], s.pieces[i], old(p).lexed(), src)))
                &&& final(p).stack_pos == s.stop
                &&& final(p).loaded == max_of(l1, s.reach)
                &&& final(p).toks() == s.toks
            } else {
                &&& r is None
                &&& final(p).stack_pos == start
                &&& final(p).loaded == max_of(l1, s.reach)
                &&& final(p).toks() == flipped(s.toks, start)
            }
        }),
{
    let ghost toks = p.toks();
    let ghost lx = p.lexed();
    let ghost src = p.source.spec_bytes();
    let start_pos = p.pos();
    let n = p.tokens.len();
    if start_pos >= n {
        return None;
    }
    p.step();
    let ghost l1 = p.loaded as int;
    let ghost s0 = bold_scan(toks, start_pos + 1, None);
    let ghost mut done: Seq<BoldPiece> = Seq::empty();
    let mut body: Vec<BoldNodes> = Vec::new();
    let mut text_start: Option<usize> = None;
    let mut closed = false;
    proof {
        lemma_bold_step(toks, start_pos + 1, None);
        assert(done + s0.pieces =~= s0.pieces);
    }
    while p.stack_pos < n
        invariant_except_break
            !closed,
            p.stack_pos == n ==> bold_scan(p.toks(), n as int, opt_int(text_start)) == (BoldScan {
                pieces: Seq::empty(),
                closed: false,
                stop: n as int,
                toks: p.toks(),
                reach: n as int,
            }),
            ({
                let s = bold_scan(p.toks(), p.stack_pos as int, opt_int(text_start));
                &&& s0.pieces == done + s.pieces
                &&& s0.closed == s.closed
                &&& s0.stop == s.stop
                &&& s0.toks == s.toks
                &&& max_of(p.loaded as int, s.reach) == max_of(l1, s0.reach)
            }),
        invariant
            p.wf(),
            p.source == old(p).source,
            lx == old(p).lexed(),
            src == old(p).source.spec_bytes(),
            n == p.toks().len(),
            start_pos == old(p).stack_pos,
            start_pos < p.stack_pos <= n,
            text_start matches Some(t) ==> t < p.stack_pos,
            body@.len() == done.len(),
            forall|k: int| 0 <= k < done.len() ==> is_bold_piece(#[trigger] body@[k], done[k], lx, src),
        ensures
            s0.pieces == done,
            s0.closed == closed,
            s0.stop == p.stack_pos,
            s0.toks == p.toks(),
            p.loaded == max_of(l1, s0.reach),
        decreases n - p.stack_pos,
    {
        let k = p.stack_pos;
        let ghost ts = opt_int(text_start);
        let ghost t0 = p.toks();
        let ghost d0 = done;
        let ghost b0 = body@;
        proof {
            lemma_bold_step(t0, k as int, ts);
            lemma_next_terminator_le(t0, k + 1);
        }
        let t = &p.tokens[k];
        let len_ok = t.range.end >= t.range.start && t.range.end - t.range.start >= t.escaped;
        let tl = if len_ok {
            t.range.end - t.range.start - t.escaped
        } else {
            0
        };
        if t.kind == TokenKind::Terminator {
            proof {
                assert(done + Seq::<BoldPiece>::empty() =~= done);
            }
            break;
        } else if t.kind == TokenKind::Star && len_ok && tl == 2 {
            if let Some(s) = text_start {
                push_text(p, &mut body, s, k, Ghost(lx), Ghost(src));
                proof {
                    done = done.push(BoldPiece::Text(s as int, k as int));
                    assert forall|i: int| 0 <= i < done.len() implies is_bold_piece(#[trigger] body@[i], done[i], lx, src) by {
                        if i < d0.len() {
                            assert(body@[i] == b0[i]);
                        }
                    }
                }
            }
            p.step();
            closed = true;
            proof {
                assert(text_until(ts, k as int) =~= done.subrange(d0.len() as int, done.len() as int));
                assert(d0 + text_until(ts, k as int) =~= done);
            }
            break;
        } else if (t.kind == TokenKind::Tilde && len_ok && tl == 2) || (t.kind == TokenKind::Underscore && len_ok
            && tl == 1) {
            if read_nested(p, &mut body, text_start, Ghost(lx), Ghost(src)) {
                proof {
                    done = lemma_nested_done(t0, k as int, p.stack_pos - 1, ts, d0, b0, body@, s0, lx, src);
                    lemma_bold_step(t0, p.stack_pos as int, None);
                }
                text_start = None;
            } else {
                if text_start.is_none() {
                    text_start = Some(k);
                }
                p.step();
                proof {
                    lemma_bold_step(flipped(t0, k as int), k + 1, or_here(ts, k as int));
                }
            }
        } else {
            if text_start.is_none() {
                text_start = Some(k);
            }
            p.step();
            proof {
                lemma_bold_step(t0, k + 1, or_here(ts, k as int));
            }
        }
    }
    if closed {
        if body.len() == 0 {
            return None;
        }
        return Some(Bold { body });
    }
    p.move_to(start_pos);
    p.flip_to_literal_at(start_pos);
    None
}

} // verus!
