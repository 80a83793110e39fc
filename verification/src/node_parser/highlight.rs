//! A highlight, `++ title`, `+ icon`, then paragraphs up to a closing `++`, read from the
//! tokens at the cursor.
use crate::lexer::{Token, TokenKind};
use crate::node_parser::anchor::{first_of_kind, lemma_first_of_kind, lemma_next_terminator_le};
use crate::node_parser::embed::text_len;
use crate::node_parser::paragraph::{is_para_piece, lemma_para_ld_mono, para_pieces, para_scan, paragraph, ParaPiece};
use crate::node_parser::{flipped, max_of, next_terminator, Parser};
use crate::nodes::{opt_str_v, Highlight, Paragraph};
use crate::op::parser::span_of;
use crate::op::to_yamd::op_text;
use vstd::prelude::*;
use vstd::string::StringSliceAdditionalSpecFns;

verus! {

/// Where the reading of a highlight is: before its title, before its icon, right after the
/// `+` of its icon, or in its body.
#[derive(PartialEq, Eq, Structural)]
pub enum HighlightState {
    TitleCommit,
    Icon,
    IconCommit,
    Body,
}

/// The token is `++`, which closes a highlight.
pub open spec fn is_plus_pair(t: Token) -> bool {
    t.kind == TokenKind::Plus && text_len(t) == 2
}

/// The check that a line of a highlight's body closes it.
pub fn closes_highlight(t: &Token) -> (b: bool)
    ensures
        b == is_plus_pair(*t),
{
    t.kind == TokenKind::Plus && t.range.end >= t.range.start && t.range.end - t.range.start >= t.escaped
        && t.range.end - t.range.start - t.escaped == 2
}

/// What the scan of a highlight from a token finds: whether a `++` closes it, the tokens of
/// its title and of its icon, the pieces of each paragraph of its body, where the scan stops,
/// the tokens and the number taken afterwards, and whether a link on the way has a `)` right
/// after its `]` that closes nothing.
pub struct HighlightScan {
    pub closed: bool,
    pub title: Option<(int, int)>,
    pub icon: Option<(int, int)>,
    pub paras: Seq<Seq<ParaPiece>>,
    pub stop: int,
    pub toks: Seq<Token>,
    pub ld: int,
    pub broken: bool,
}

/// The scan of a highlight from token `k`, with `ld` tokens taken, in state `state`, with the
/// title, the icon and the paragraphs read so far.
#[verifier::opaque]
pub open spec fn highlight_scan(
    toks: Seq<Token>,
    ld: int,
    k: int,
    state: HighlightState,
    title: Option<(int, int)>,
    icon: Option<(int, int)>,
    paras: Seq<Seq<ParaPiece>>,
) -> HighlightScan
    decreases toks.len() - k,
{
    let fail = HighlightScan { closed: false, title, icon, paras, stop: k, toks, ld, broken: false };
    if k < 0 || k >= toks.len() {
        fail
    } else {
        let t = toks[k];
        if t.kind == TokenKind::Terminator {
            if state != HighlightState::Body {
                fail
            } else {
                highlight_scan(toks, max_of(ld, k + 1), k + 1, state, title, icon, paras)
            }
        } else if t.kind == TokenKind::Space && state == HighlightState::TitleCommit && title is None {
            let nt = next_terminator(toks, k + 1);
            let j = first_of_kind(toks, k + 1, nt, TokenKind::Eol);
            proof {
                lemma_next_terminator_le(toks, k + 1);
                lemma_first_of_kind(toks, k + 1, nt, TokenKind::Eol);
            }
            if j < nt {
                highlight_scan(toks, max_of(ld, j + 1), j + 1, HighlightState::Icon, Some((k + 1, j)), icon, paras)
            } else {
                HighlightScan { toks: flipped(toks, k), ld: max_of(ld, nt), ..fail }
            }
        } else if t.kind == TokenKind::Plus && text_len(t) == 1 && state == HighlightState::Icon && icon is None {
            highlight_scan(toks, max_of(ld, k + 1), k + 1, HighlightState::IconCommit, title, icon, paras)
        } else if t.kind == TokenKind::Space && state == HighlightState::IconCommit && icon is None {
            let nt = next_terminator(toks, k + 1);
            let j = first_of_kind(toks, k + 1, nt, TokenKind::Eol);
            proof {
                lemma_next_terminator_le(toks, k + 1);
                lemma_first_of_kind(toks, k + 1, nt, TokenKind::Eol);
            }
            if j < nt {
                highlight_scan(toks, max_of(ld, j + 1), j + 1, HighlightState::Body, title, Some((k + 1, j)), paras)
            } else {
                HighlightScan { toks: flipped(toks, k), ld: max_of(ld, nt), ..fail }
            }
        } else if t.kind == TokenKind::Eol && state == HighlightState::TitleCommit {
            highlight_scan(toks, max_of(ld, k + 1), k + 1, HighlightState::Icon, title, icon, paras)
        } else if is_plus_pair(t) {
            HighlightScan { closed: true, stop: k + 1, ld: max_of(ld, k + 1), ..fail }
        } else if state == HighlightState::Body || state == HighlightState::Icon {
            let s = para_scan(toks, ld, k, None, k, closes_highlight);
            let pieces = para_pieces(s);
            let paras2 = if pieces.len() > 0 {
                paras.push(pieces)
            } else {
                paras
            };
            if s.broken {
                HighlightScan { broken: true, ..fail }
            } else if s.stop <= k || s.stop > toks.len() || s.toks.len() != toks.len() {
                HighlightScan { paras: paras2, toks: s.toks, ld: s.ld, stop: s.stop, ..fail }
            } else {
                highlight_scan(s.toks, s.ld, s.stop, HighlightState::Body, title, icon, paras2)
            }
        } else {
            fail
        }
    }
}


/// The text of the tokens `a..b` of a title or an icon, if there is one.
pub open spec fn opt_text(lexed: Seq<Token>, src: Seq<u8>, r: Option<(int, int)>) -> Option<Seq<char>> {
    match r {
        Some((a, b)) => Some(op_text(span_of(lexed, a, b), src)),
        None => None,
    }
}

/// The paragraph `pg` is made of the pieces `pieces`, over the tokens `lexed` of `src`.
pub open spec fn is_paragraph_of(pg: Paragraph, pieces: Seq<ParaPiece>, lexed: Seq<Token>, src: Seq<u8>) -> bool {
    &&& pg.body@.len() == pieces.len()
    &&& forall|i: int| 0 <= i < pieces.len() ==> is_para_piece(#[trigger] pg.body@[i], pieces[i], lexed, src)
}

/// The scan of the highlight whose `++` is at token `start`, with `ld` tokens taken.
pub open spec fn highlight_at(toks: Seq<Token>, ld: int, start: int) -> HighlightScan {
    highlight_scan(toks, max_of(ld, start + 1), start + 1, HighlightState::TitleCommit, None, None, Seq::empty())
}

/// `o` as an optional pair of integers.
pub open spec fn opt_pair(o: Option<(usize, usize)>) -> Option<(int, int)> {
    match o {
        Some((a, b)) => Some((a as int, b as int)),
        None => None,
    }
}

/// A scan at the end fails there.
proof fn lemma_highlight_end(
    toks: Seq<Token>,
    ld: int,
    k: int,
    state: HighlightState,
    title: Option<(int, int)>,
    icon: Option<(int, int)>,
    paras: Seq<Seq<ParaPiece>>,
)
    ensures
        k >= toks.len() ==> highlight_scan(toks, ld, k, state, title, icon, paras) == (HighlightScan {
            closed: false,
            title,
            icon,
            paras,
            stop: k,
            toks,
            ld,
            broken: false,
        }),
{
    reveal(highlight_scan);
}

/// The token is an end of line.
fn is_eol(t: &Token) -> (b: bool)
    ensures
        b == (t.kind == TokenKind::Eol),
{
    t.kind == TokenKind::Eol
}

/// The text of the tokens in `r`, if there is one.
fn opt_range_text(p: &Parser, r: Option<(usize, usize)>) -> (s: Option<String>)
    requires
        p.wf(),
        r matches Some((a, b)) ==> a <= b <= p.loaded,
    ensures
        opt_str_v(s) == opt_text(p.lexed(), p.source.spec_bytes(), opt_pair(r)),
{
    match r {
        Some((a, b)) => Some(p.range_to_string(a..b)),
        None => None,
    }
}

/// Reads a highlight from the `++` at the cursor: an optional title after a space on the
/// first line, an optional icon on a line of its own after `+` and a space, then paragraphs
/// (which stop at a line that starts with `++`) up to a closing `++`. Terminators end the
/// title and the icon but not the body. On success the cursor moves past the closing `++`.
/// Otherwise the cursor stays where it was and the token there becomes a literal.
#[verifier::rlimit(100)]
#[verifier::spinoff_prover]
pub fn highlight(p: &mut Parser) -> (r: Option<Highlight>)
    requires
        old(p).wf(),
        old(p).toks().len() < 0x7fff_ffff,
        !highlight_at(old(p).toks(), old(p).loaded as int, old(p).stack_pos as int).broken,
    ensures
        final(p).wf(),
        final(p).source == old(p).source,
        ({
            let s = highlight_at(old(p).toks(), old(p).loaded as int, old(p).stack_pos as int);
            let start = old(p).stack_pos as int;
            let lx = old(p).lexed();
            let src = old(p).source.spec_bytes();
            if start >= old(p).toks().len() {
                &&& r is None
                &&& final(p).stack_pos == old(p).stack_pos
                &&& final(p).loaded == old(p).loaded
                &&& final(p).toks() == old(p).toks()
            } else if s.closed {
                &&& r matches Some(h) && {
                    &&& opt_str_v(h.title) == opt_text(lx, src, s.title)
                    &&& opt_str_v(h.icon) == opt_text(lx, src, s.icon)
                    &&& h.body@.len() == s.paras.len()
                    &&& forall|i: int| 0 <= i < s.paras.len() ==> is_paragraph_of(#[trigger] h.body@[i], s.paras[i], lx, src)
                }
                &&& final(p).stack_pos == s.stop
                &&& final(p).loaded == s.ld
                &&& final(p).toks() == s.toks
            } else {
                &&& r is None
                &&& final(p).stack_pos == start
                &&& final(p).loaded == s.ld
                &&& final(p).toks() == flipped(s.toks, start)
            }
        }),
{
    let ghost lx = p.lexed();
    let ghost src = p.source.spec_bytes();
    let ghost s0 = highlight_at(old(p).toks(), old(p).loaded as int, old(p).stack_pos as int);
    let start = p.pos();
    let n = p.tokens.len();
    if start >= n {
        return None;
    }
    p.next_token();
    let mut title: Option<(usize, usize)> = None;
    let mut icon: Option<(usize, usize)> = None;
    let mut nodes: Vec<Paragraph> = Vec::new();
    let mut state = HighlightState::TitleCommit;
    let ghost mut done: Seq<Seq<ParaPiece>> = Seq::empty();
    proof {
        lemma_highlight_end(p.toks(), p.loaded as int, p.stack_pos as int, state, None, None, done);
    }
    while p.stack_pos < n
        invariant_except_break
            start < p.stack_pos,
            highlight_scan(p.toks(), p.loaded as int, p.stack_pos as int, state, opt_pair(title), opt_pair(icon), done) == s0,
            p.stack_pos >= n ==> !s0.closed && s0.toks == p.toks() && s0.ld == p.loaded,
        invariant
            p.wf(),
            p.source == old(p).source,
            lx == old(p).lexed(),
            src == old(p).source.spec_bytes(),
            n == p.toks().len(),
            n == old(p).toks().len(),
            n < 0x7fff_ffff,
            start == old(p).stack_pos,
            s0 == highlight_at(old(p).toks(), old(p).loaded as int, old(p).stack_pos as int),
            start < p.loaded,
            title matches Some((a, b)) ==> a <= b <= p.loaded,
            icon matches Some((a, b)) ==> a <= b <= p.loaded,
            nodes@.len() == done.len(),
            forall|i: int| 0 <= i < done.len() ==> is_paragraph_of(#[trigger] nodes@[i], done[i], lx, src),
            !s0.broken,
        ensures
            !s0.closed,
            s0.toks == p.toks(),
            s0.ld == p.loaded,
        decreases n - p.stack_pos,
    {
        let k = p.stack_pos;
        let ghost t0 = p.toks();
        let ghost l0 = p.loaded as int;
        let ghost st = state;
        let ghost ti = opt_pair(title);
        let ghost ic = opt_pair(icon);
        let ghost d0 = done;
        let ghost hs = highlight_scan(t0, l0, k as int, st, ti, ic, d0);
        let ghost fail = HighlightScan { closed: false, title: ti, icon: ic, paras: d0, stop: k as int, toks: t0, ld: l0, broken: false };
        let t = &p.tokens[k];
        let kind = t.kind;
        let len_ok = t.range.end >= t.range.start && t.range.end - t.range.start >= t.escaped;
        let tl = if len_ok {
            t.range.end - t.range.start - t.escaped
        } else {
            0
        };
        proof {
            assert(len_ok ==> tl == text_len(t0[k as int]));
            assert(!len_ok ==> text_len(t0[k as int]) < 0);
        }
        if kind == TokenKind::Terminator {
            if state != HighlightState::Body {
                assert(hs == fail) by {
                    reveal(highlight_scan);
                }
                break;
            }
            assert(hs == highlight_scan(t0, max_of(l0, k + 1), k + 1, st, ti, ic, d0)) by {
                reveal(highlight_scan);
            }
            p.next_token();
        } else if kind == TokenKind::Space && state == HighlightState::TitleCommit && title.is_none() {
            let ghost nt = next_terminator(t0, k + 1);
            let ghost f = first_of_kind(t0, k + 1, nt, TokenKind::Eol);
            proof {
                lemma_next_terminator_le(t0, k + 1);
                lemma_first_of_kind(t0, k + 1, nt, TokenKind::Eol);
            }
            match p.advance_until(is_eol) {
                Some((a, j)) => {
                    proof {
                        if f < j {
                            assert(t0[f].kind == TokenKind::Eol);
                        }
                        assert(hs == highlight_scan(t0, max_of(l0, f + 1), f + 1, HighlightState::Icon, Some((k + 1, f)), ic, d0)) by {
                            reveal(highlight_scan);
                        }
                    }
                    state = HighlightState::Icon;
                    title = Some((a + 1, j));
                },
                None => {
                    proof {
                        if f < nt {
                            assert(t0[f].kind == TokenKind::Eol);
                        }
                        assert(hs == HighlightScan { toks: flipped(t0, k as int), ld: max_of(l0, nt), ..fail }) by {
                            reveal(highlight_scan);
                        }
                    }
                    break;
                },
            }
        } else if kind == TokenKind::Plus && len_ok && tl == 1 && state == HighlightState::Icon && icon.is_none() {
            assert(hs == highlight_scan(t0, max_of(l0, k + 1), k + 1, HighlightState::IconCommit, ti, ic, d0)) by {
                reveal(highlight_scan);
            }
            state = HighlightState::IconCommit;
            p.next_token();
        } else if kind == TokenKind::Space && state == HighlightState::IconCommit && icon.is_none() {
            let ghost nt = next_terminator(t0, k + 1);
            let ghost f = first_of_kind(t0, k + 1, nt, TokenKind::Eol);
            proof {
                lemma_next_terminator_le(t0, k + 1);
                lemma_first_of_kind(t0, k + 1, nt, TokenKind::Eol);
            }
            match p.advance_until(is_eol) {
                Some((a, j)) => {
                    proof {
                        if f < j {
                            assert(t0[f].kind == TokenKind::Eol);
                        }
                        assert(hs == highlight_scan(t0, max_of(l0, f + 1), f + 1, HighlightState::Body, ti, Some((k + 1, f)), d0)) by {
                            reveal(highlight_scan);
                        }
                    }
                    state = HighlightState::Body;
                    icon = Some((a + 1, j));
                },
                None => {
                    proof {
                        if f < nt {
                            assert(t0[f].kind == TokenKind::Eol);
                        }
                        assert(hs == HighlightScan { toks: flipped(t0, k as int), ld: max_of(l0, nt), ..fail }) by {
                            reveal(highlight_scan);
                        }
                    }
                    break;
                },
            }
        } else if kind == TokenKind::Eol && state == HighlightState::TitleCommit {
            assert(hs == highlight_scan(t0, max_of(l0, k + 1), k + 1, HighlightState::Icon, ti, ic, d0)) by {
                reveal(highlight_scan);
            }
            state = HighlightState::Icon;
            p.next_token();
        } else if kind == TokenKind::Plus && len_ok && tl == 2 {
            assert(hs == HighlightScan { closed: true, stop: k + 1, ld: max_of(l0, k + 1), ..fail }) by {
                reveal(highlight_scan);
            }
            p.next_token();
            let title_text = opt_range_text(p, title);
            let icon_text = opt_range_text(p, icon);
            let ghost nv = nodes@;
            let h = Highlight { title: title_text, icon: icon_text, body: nodes };
            proof {
                assert forall|i: int| 0 <= i < s0.paras.len() implies is_paragraph_of(#[trigger] h.body@[i], s0.paras[i], lx, src) by {
                    assert(h.body@[i] == nv[i]);
                }
            }
            return Some(h);
        } else if state == HighlightState::Body || state == HighlightState::Icon {
            let ghost ps = para_scan(t0, l0, k as int, None, k as int, closes_highlight);
            let ghost pieces = para_pieces(ps);
            let ghost d1 = if pieces.len() > 0 {
                d0.push(pieces)
            } else {
                d0
            };
            proof {
                lemma_para_ld_mono(t0, l0, k as int, None, k as int, closes_highlight);
                assert(hs == if ps.broken {
                    HighlightScan { broken: true, ..fail }
                } else if ps.stop <= k || ps.stop > t0.len() || ps.toks.len() != t0.len() {
                    HighlightScan { paras: d1, toks: ps.toks, ld: ps.ld, stop: ps.stop, ..fail }
                } else {
                    highlight_scan(ps.toks, ps.ld, ps.stop, HighlightState::Body, ti, ic, d1)
                }) by {
                    reveal(highlight_scan);
                }
            }
            state = HighlightState::Body;
            let got = paragraph(p, closes_highlight);
            match got {
                Some(pg) => {
                    nodes.push(pg);
                    proof {
                        done = done.push(pieces);
                        assert forall|i: int| 0 <= i < done.len() implies is_paragraph_of(#[trigger] nodes@[i], done[i], lx, src) by {
                            if i < d0.len() {
                                assert(done[i] == d0[i]);
                            }
                        }
                    }
                },
                None => {},
            }
            // Where the cursor did not move on, reading on from it would not end.
            if p.stack_pos <= k {
                break;
            }
        } else {
            assert(hs == fail) by {
                reveal(highlight_scan);
            }
            break;
        }
        proof {
            lemma_highlight_end(p.toks(), p.loaded as int, p.stack_pos as int, state, opt_pair(title), opt_pair(icon), done);
        }
    }
    p.move_to(start);
    p.flip_to_literal_at(start);
    None
}

} // verus!
