//! A heading, `#`s then a space then its text, read from the tokens at the cursor.
use crate::lexer::{Token, TokenKind};
use crate::node_parser::anchor::{anchor, anchor_end, anchor_reach, closing_bracket, opt_int};
use crate::node_parser::image::claims;
use crate::node_parser::{flipped, max_of, Parser};
use crate::nodes::{Heading, HeadingNodes};
use crate::op::parser::span_of;
use crate::op::to_yamd::op_text;
use vstd::prelude::*;
use vstd::string::StringSliceAdditionalSpecFns;

verus! {

/// A piece of a heading: the text of the tokens `a..b`, or the link that starts at `s`, has
/// its `]` at `j` and its closing `)` at `rp`.
pub enum HeadingPiece {
    Text(int, int),
    Link(int, int, int),
}

/// What the scan of a heading's text from a token finds: its pieces, the start of the text
/// not yet closed, where it stops, whether a line that the caller's check claims stopped it,
/// the tokens after the links that failed have become literals, how far the cursor gets, and
/// whether a link on the way has a `)` right after its `]` that closes nothing.
pub struct HeadingScan {
    pub pieces: Seq<HeadingPiece>,
    pub text_start: Option<int>,
    pub stop: int,
    pub claimed: bool,
    pub toks: Seq<Token>,
    pub reach: int,
    pub broken: bool,
}

/// `ts`, or `k` where there is none.
pub open spec fn or_here(ts: Option<int>, k: int) -> Option<int> {
    match ts {
        Some(s) => Some(s),
        None => Some(k),
    }
}

/// The scan of a heading's text from token `k`, with the text not yet closed starting at
/// `ts`.
#[verifier::opaque]
pub open spec fn heading_scan<F: Fn(&Token) -> bool>(
    toks: Seq<Token>,
    k: int,
    ts: Option<int>,
    check: F,
) -> HeadingScan
    decreases toks.len() - k,
{
    let stopped = HeadingScan {
        pieces: Seq::empty(),
        text_start: ts,
        stop: k,
        claimed: false,
        toks,
        reach: k,
        broken: false,
    };
    if k < 0 || k >= toks.len() || toks[k].kind == TokenKind::Terminator {
        stopped
    } else if toks[k].kind == TokenKind::LeftSquareBracket {
        match anchor_end(toks, k) {
            Some((rp, next)) => {
                if next <= k || next > toks.len() {
                    stopped
                } else {
                    let j = closing_bracket(toks, k)->0;
                    let rest = heading_scan(toks, next, None, check);
                    let before = match ts {
                        Some(s) => seq![HeadingPiece::Text(s, k)],
                        None => Seq::empty(),
                    };
                    HeadingScan {
                        pieces: before + seq![HeadingPiece::Link(k, j, rp)] + rest.pieces,
                        broken: !(j + 2 <= rp) || rest.broken,
                        ..rest
                    }
                }
            },
            None => {
                let rest = heading_scan(flipped(toks, k), k + 1, or_here(ts, k), check);
                HeadingScan { reach: max_of(anchor_reach(toks, k), rest.reach), ..rest }
            },
        }
    } else if toks[k].position.column == 0 && claims(check, toks[k]) {
        HeadingScan {
            text_start: match ts {
                Some(s) => if k - s < 2 {
                    None
                } else {
                    Some(s)
                },
                None => None,
            },
            claimed: true,
            ..stopped
        }
    } else {
        heading_scan(toks, k + 1, or_here(ts, k), check)
    }
}

/// A heading's text with no link in it is one text: where no token from `k` up to `j` is a
/// `[` or a terminator or a line start that the check claims, and `j` is a terminator or the
/// end, the scan stops at `j` with no piece closed and the text starting at `ts`, or at `k`
/// where there is none and `k < j`.
pub proof fn law_heading_plain<F: Fn(&Token) -> bool>(toks: Seq<Token>, k: int, j: int, ts: Option<int>, check: F)
    requires
        0 <= k <= j <= toks.len(),
        j == toks.len() || toks[j].kind == TokenKind::Terminator,
        forall|i: int|
            k <= i < j ==> (#[trigger] toks[i]).kind != TokenKind::LeftSquareBracket && toks[i].kind
                != TokenKind::Terminator && !(toks[i].position.column == 0 && check.ensures((&toks[i],), true)),
    ensures
        heading_scan(toks, k, ts, check) == (HeadingScan {
            pieces: Seq::empty(),
            text_start: if ts is Some {
                ts
            } else if k < j {
                Some(k)
            } else {
                None
            },
            stop: j,
            claimed: false,
            toks,
            reach: j,
            broken: false,
        }),
    decreases j - k,
{
    reveal(heading_scan);
    if k < j {
        assert(toks[k].kind != TokenKind::LeftSquareBracket && toks[k].kind != TokenKind::Terminator && !(
        toks[k].position.column == 0 && check.ensures((&toks[k],), true)));
        law_heading_plain(toks, k + 1, j, or_here(ts, k), check);
    }
}

/// One step of the scan of a heading's text.
proof fn lemma_heading_step<F: Fn(&Token) -> bool>(toks: Seq<Token>, k: int, ts: Option<int>, check: F)
    requires
        0 <= k <= toks.len(),
    ensures
        ({
            let s = heading_scan(toks, k, ts, check);
            let stopped = HeadingScan {
                pieces: Seq::empty(),
                text_start: ts,
                stop: k,
                claimed: false,
                toks,
                reach: k,
                broken: false,
            };
            &&& k <= s.stop <= toks.len()
            &&& k <= s.reach
            &&& s.stop <= s.reach
            &&& s.toks.len() == toks.len()
            &&& (k == toks.len() || toks[k].kind == TokenKind::Terminator) ==> s == stopped
            &&& (k < toks.len() && toks[k].kind == TokenKind::LeftSquareBracket && anchor_end(toks, k) is Some) ==> {
                let (rp, next) = anchor_end(toks, k)->0;
                let j = closing_bracket(toks, k)->0;
                let rest = heading_scan(toks, next, None, check);
                let before = match ts {
                    Some(s) => seq![HeadingPiece::Text(s, k)],
                    None => Seq::empty(),
                };
                &&& k < next <= toks.len()
                &&& s == HeadingScan {
                    pieces: before + seq![HeadingPiece::Link(k, j, rp)] + rest.pieces,
                    broken: !(j + 2 <= rp) || rest.broken,
                    ..rest
                }
            }
            &&& (k < toks.len() && toks[k].kind == TokenKind::LeftSquareBracket && anchor_end(toks, k) is None) ==> {
                let rest = heading_scan(flipped(toks, k), k + 1, or_here(ts, k), check);
                s == HeadingScan { reach: max_of(anchor_reach(toks, k), rest.reach), ..rest }
            }
            &&& (k < toks.len() && toks[k].kind != TokenKind::Terminator && toks[k].kind
                != TokenKind::LeftSquareBracket && toks[k].position.column == 0 && claims(check, toks[k])) ==> s
                == HeadingScan {
                text_start: match ts {
                    Some(s) => if k - s < 2 {
                        None
                    } else {
                        Some(s)
                    },
                    None => None,
                },
                claimed: true,
                ..stopped
            }
            &&& (k < toks.len() && toks[k].kind != TokenKind::Terminator && toks[k].kind
                != TokenKind::LeftSquareBracket && !(toks[k].position.column == 0 && claims(check, toks[k])))
                ==> s == heading_scan(toks, k + 1, or_here(ts, k), check)
        }),
    decreases toks.len() - k,
{
    reveal(heading_scan);
    crate::node_parser::anchor::lemma_anchor_end(toks, k);
    if k < toks.len() && toks[k].kind != TokenKind::Terminator {
        if toks[k].kind == TokenKind::LeftSquareBracket {
            match anchor_end(toks, k) {
                Some((rp, next)) => {
                    lemma_heading_step(toks, next, None, check);
                },
                None => {
                    lemma_heading_step(flipped(toks, k), k + 1, or_here(ts, k), check);
                },
            }
        } else if !(toks[k].position.column == 0 && claims(check, toks[k])) {
            lemma_heading_step(toks, k + 1, or_here(ts, k), check);
        }
    }
}

/// Where `next_token` leaves a cursor at `pos` with `loaded` tokens taken out of `len`: the
/// index of the token it returns, if any, the new cursor and the new number taken.
pub open spec fn next_step(len: int, pos: int, loaded: int) -> (Option<int>, int, int) {
    if pos < loaded {
        (if pos + 1 < loaded {
            Some(pos + 1)
        } else {
            None
        }, pos + 1, loaded)
    } else if loaded < len {
        (Some(loaded), loaded + 1, loaded + 1)
    } else {
        (None, pos, loaded)
    }
}

/// The length of the text of `t`, its escapes taken off.
pub open spec fn token_len(t: Token) -> int {
    t.range.end - t.range.start - t.escaped
}

/// The pieces of a heading once its scan `s` is over.
pub open spec fn heading_pieces(s: HeadingScan) -> Seq<HeadingPiece> {
    s.pieces + match s.text_start {
        Some(t) => seq![HeadingPiece::Text(t, s.stop - if s.claimed { 1int } else { 0int })],
        None => Seq::empty(),
    }
}

/// The node `n` is the piece `piece` of a heading over the tokens `lexed` of `src`.
#[verifier::opaque]
pub open spec fn is_piece(n: HeadingNodes, piece: HeadingPiece, lexed: Seq<Token>, src: Seq<u8>) -> bool {
    match piece {
        HeadingPiece::Text(a, b) => n matches HeadingNodes::Text(t) && t@ == op_text(span_of(lexed, a, b), src),
        HeadingPiece::Link(s, j, rp) => n matches HeadingNodes::Anchor(l) && l.text@ == op_text(
            span_of(lexed, s + 1, j),
            src,
        ) && l.url@ == op_text(span_of(lexed, j + 2, rp), src),
    }
}

/// Reads the link at the cursor and adds it to `body`, after the text that starts at
/// `text_start`, if any; says whether there was one.
#[verifier::rlimit(100)]
#[verifier::spinoff_prover]
fn read_link(
    p: &mut Parser,
    body: &mut Vec<HeadingNodes>,
    text_start: Option<usize>,
    Ghost(lx): Ghost<Seq<Token>>,
    Ghost(src): Ghost<Seq<u8>>,
) -> (ok: bool)
    requires
        old(p).wf(),
        old(p).toks().len() < 0x7fff_ffff,
        lx == old(p).lexed(),
        src == old(p).source.spec_bytes(),
        old(p).stack_pos < old(p).toks().len(),
        old(p).toks()[old(p).stack_pos as int].kind == TokenKind::LeftSquareBracket,
        text_start matches Some(t) ==> t < old(p).stack_pos,
        anchor_end(old(p).toks(), old(p).stack_pos as int) matches Some((rp, _)) ==> closing_bracket(
            old(p).toks(),
            old(p).stack_pos as int,
        )->0 + 2 <= rp,
    ensures
        final(p).wf(),
        final(p).source == old(p).source,
        final(p).loaded == max_of(old(p).loaded as int, anchor_reach(old(p).toks(), old(p).stack_pos as int)),
        ({
            let toks = old(p).toks();
            let k = old(p).stack_pos as int;
            match anchor_end(toks, k) {
                Some((rp, next)) => {
                    let j = closing_bracket(toks, k)->0;
                    let n0 = old(body)@.len() as int;
                    &&& ok
                    &&& final(p).stack_pos == next
                    &&& final(p).toks() == toks
                    &&& forall|i: int| 0 <= i < n0 ==> #[trigger] final(body)@[i] == old(body)@[i]
                    &&& match text_start {
                        Some(s) => {
                            &&& final(body)@.len() == n0 + 2
                            &&& is_piece(final(body)@[n0], HeadingPiece::Text(s as int, k), lx, src)
                            &&& is_piece(final(body)@[n0 + 1], HeadingPiece::Link(k, j, rp), lx, src)
                        },
                        None => {
                            &&& final(body)@.len() == n0 + 1
                            &&& is_piece(final(body)@[n0], HeadingPiece::Link(k, j, rp), lx, src)
                        },
                    }
                },
                None => {
                    &&& !ok
                    &&& final(p).stack_pos == k
                    &&& final(p).toks() == flipped(toks, k)
                    &&& final(body)@ == old(body)@
                },
            }
        }),
{
    let k = p.stack_pos;
    proof {
        crate::node_parser::anchor::lemma_anchor_end(p.toks(), k as int);
    }
    let ghost b0 = body@;
    match anchor(p) {
        Some(a) => {
            let ghost toks = old(p).toks();
            let ghost (rp, next) = anchor_end(toks, k as int)->0;
            let ghost j = closing_bracket(toks, k as int)->0;
            if let Some(s) = text_start {
                let t = p.range_to_string(s..k);
                proof {
                    reveal(is_piece);
                    assert(is_piece(HeadingNodes::Text(t), HeadingPiece::Text(s as int, k as int), lx, src));
                }
                body.push(HeadingNodes::Text(t));
            }
            proof {
                reveal(is_piece);
                assert(is_piece(HeadingNodes::Anchor(a), HeadingPiece::Link(k as int, j, rp), lx, src));
            }
            body.push(HeadingNodes::Anchor(a));
            true
        },
        None => false,
    }
}

/// Reads a heading from the token at the cursor: its level is the length of the token that
/// taking a token returns, a space must follow, and its text runs up to a terminator, the end,
/// or a line that `new_line_check` claims (the end of line before such a line is left out),
/// with the links in it read as links. On success the cursor moves past the heading.
/// Otherwise the cursor stays where it was and the token there becomes a literal.
#[verifier::rlimit(100)]
#[verifier::spinoff_prover]
pub fn heading(p: &mut Parser, new_line_check: impl Fn(&Token) -> bool) -> (r: Option<Heading>)
    requires
        old(p).wf(),
        old(p).toks().len() < 0x7fff_ffff,
        forall|t: &Token| #[trigger] new_line_check.requires((t,)),
        forall|t: &Token, b: bool| #[trigger] new_line_check.ensures((t,), b) ==> b == new_line_check.ensures((t,), true),
        ({
            let toks = old(p).toks();
            let (i1, p1, l1) = next_step(toks.len() as int, old(p).stack_pos as int, old(p).loaded as int);
            let (i2, p2, l2) = next_step(toks.len() as int, p1, l1);
            &&& i1 is Some
            &&& token_len(toks[i1->0]) < 256
            &&& !(i2 matches Some(i) && toks[i].kind != TokenKind::Space) ==> !heading_scan(
                toks,
                p2,
                None,
                new_line_check,
            ).broken
        }),
    ensures
        final(p).wf(),
        final(p).source == old(p).source,
        ({
            let toks = old(p).toks();
            let start = old(p).stack_pos;
            let src = old(p).source.spec_bytes();
            let (i1, p1, l1) = next_step(toks.len() as int, start as int, old(p).loaded as int);
            let (i2, p2, l2) = next_step(toks.len() as int, p1, l1);
            let s = heading_scan(toks, p2, None, new_line_check);
            let pieces = heading_pieces(s);
            if i2 matches Some(i) && toks[i].kind != TokenKind::Space {
                &&& r is None
                &&& final(p).stack_pos == start
                &&& final(p).loaded == l2
                &&& final(p).toks() == flipped(toks, start as int)
            } else if pieces.len() > 0 {
                &&& r matches Some(h) && h.level == token_len(toks[i1->0]) as u8 && h.body@.len() == pieces.len()
                    && forall|k: int|
                    0 <= k < pieces.len() ==> is_piece(#[trigger] h.body@[k], pieces[k], old(p).lexed(), src)
                &&& final(p).stack_pos == s.stop
                &&& final(p).loaded == max_of(l2, s.reach)
                &&& final(p).toks() == s.toks
            } else {
                &&& r is None
                &&& final(p).stack_pos == start
                &&& final(p).loaded == max_of(l2, s.reach)
                &&& final(p).toks() == flipped(s.toks, start as int)
            }
        }),
{
    let ghost toks = p.toks();
    let ghost lx = p.lexed();
    let ghost src = p.source.spec_bytes();
    let start = p.pos();
    let n = p.tokens.len();
    let level: u8 = match p.next_token() {
        Some(t) => {
            let l = t.range.end - t.range.start - t.escaped;
            l as u8
        },
        None => 0,
    };
    let bad = match p.next_token() {
        Some(t) => t.kind != TokenKind::Space,
        None => false,
    };
    if bad {
        p.move_to(start);
        p.flip_to_literal_at(start);
        return None;
    }
    let ghost p2 = p.stack_pos as int;
    let ghost l2 = p.loaded as int;
    let ghost s0 = heading_scan(toks, p2, None, new_line_check);
    let ghost mut done: Seq<HeadingPiece> = Seq::empty();
    let mut body: Vec<HeadingNodes> = Vec::new();
    let mut text_start: Option<usize> = None;
    let mut end_modifier: usize = 0;
    proof {
        lemma_heading_step(toks, p2, None, new_line_check);
        assert(done + s0.pieces =~= s0.pieces);
    }
    while p.stack_pos < n
        invariant_except_break
            end_modifier == 0,
            ({
                let s = heading_scan(p.toks(), p.stack_pos as int, opt_int(text_start), new_line_check);
                &&& s0.pieces == done + s.pieces
                &&& s0.text_start == s.text_start
                &&& s0.stop == s.stop
                &&& s0.claimed == s.claimed
                &&& s0.toks == s.toks
                &&& max_of(p.loaded as int, s.reach) == max_of(l2, s0.reach)
                &&& !s.broken
            }),
        invariant
            p.wf(),
            p.source == old(p).source,
            lx == old(p).lexed(),
            src == old(p).source.spec_bytes(),
            n == p.toks().len(),
            n < 0x7fff_ffff,
            p2 <= p.stack_pos <= n,
            forall|t: &Token| #[trigger] new_line_check.requires((t,)),
            forall|t: &Token, b: bool| #[trigger] new_line_check.ensures((t,), b) ==> b == new_line_check.ensures((t,), true),
            text_start matches Some(t) ==> t < p.stack_pos,
            p.stack_pos == n ==> heading_scan(p.toks(), n as int, opt_int(text_start), new_line_check)
                == (HeadingScan {
                pieces: Seq::empty(),
                text_start: opt_int(text_start),
                stop: n as int,
                claimed: false,
                toks: p.toks(),
                reach: n as int,
                broken: false,
            }),
            body@.len() == done.len(),
            forall|k: int| 0 <= k < done.len() ==> is_piece(#[trigger] body@[k], done[k], lx, src),
        ensures
            s0.pieces == done,
            s0.text_start == opt_int(text_start),
            s0.stop == p.stack_pos,
            s0.claimed == (end_modifier == 1),
            s0.toks == p.toks(),
            p.loaded == max_of(l2, s0.reach),
            text_start matches Some(t) ==> t <= p.stack_pos - end_modifier,
            end_modifier <= 1,
        decreases n - p.stack_pos,
    {
        let k = p.stack_pos;
        let kind = p.tokens[k].kind;
        let ghost ts = opt_int(text_start);
        let ghost t0 = p.toks();
        proof {
            lemma_heading_step(t0, k as int, ts, new_line_check);
            crate::node_parser::anchor::lemma_anchor_end(t0, k as int);
        }
        if kind == TokenKind::Terminator {
            proof {
                assert(done + Seq::<HeadingPiece>::empty() =~= done);
            }
            break;
        } else if kind == TokenKind::LeftSquareBracket {
            let ghost d0 = done;
            let ghost b0 = body@;
            if read_link(p, &mut body, text_start, Ghost(lx), Ghost(src)) {
                let ghost (rp, next) = anchor_end(t0, k as int)->0;
                let ghost j = closing_bracket(t0, k as int)->0;
                proof {
                    lemma_heading_step(t0, next, None, new_line_check);
                    let before = match ts {
                        Some(s) => seq![HeadingPiece::Text(s, k as int)],
                        None => Seq::<HeadingPiece>::empty(),
                    };
                    done = d0 + before + seq![HeadingPiece::Link(k as int, j, rp)];
                    let rest = heading_scan(t0, next, None, new_line_check);
                    assert(d0 + (before + seq![HeadingPiece::Link(k as int, j, rp)] + rest.pieces) =~= done
                        + rest.pieces);
                    assert forall|i: int| 0 <= i < done.len() implies is_piece(#[trigger] body@[i], done[i], lx, src) by {
                        if i < d0.len() {
                            assert(body@[i] == b0[i]);
                        }
                    }
                }
                text_start = None;
            } else {
                if text_start.is_none() {
                    text_start = Some(k);
                }
                p.step();
                proof {
                    lemma_heading_step(flipped(t0, k as int), k + 1, or_here(ts, k as int), new_line_check);
                }
            }
        } else if p.tokens[k].position.column == 0 && new_line_check(&p.tokens[k]) {
            end_modifier = 1;
            if let Some(s) = text_start {
                if k - s < 2 {
                    text_start = None;
                }
            }
            proof {
                assert(done + Seq::<HeadingPiece>::empty() =~= done);
            }
            break;
        } else {
            if text_start.is_none() {
                text_start = Some(k);
            }
            p.step();
            proof {
                lemma_heading_step(t0, k + 1, or_here(ts, k as int), new_line_check);
            }
        }
    }
    let ghost d1 = done;
    let ghost b1 = body@;
    if let Some(s) = text_start {
        let t = p.range_to_string(s..p.stack_pos - end_modifier);
        proof {
            reveal(is_piece);
            assert(is_piece(HeadingNodes::Text(t), HeadingPiece::Text(s as int, p.stack_pos - end_modifier), lx, src));
        }
        body.push(HeadingNodes::Text(t));
        proof {
            done = done.push(HeadingPiece::Text(s as int, p.stack_pos - end_modifier));
        }
    }
    proof {
        assert(heading_pieces(s0) =~= done);
        assert forall|i: int| 0 <= i < done.len() implies is_piece(#[trigger] body@[i], done[i], lx, src) by {
            if i < d1.len() {
                assert(body@[i] == b1[i]);
            }
        }
    }
    if body.len() > 0 {
        return Some(Heading { level, body });
    }
    p.move_to(start);
    p.flip_to_literal_at(start);
    None
}

} // verus!
