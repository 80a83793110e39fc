//! A link, `[text](url)`, read from the tokens at the cursor.
use crate::lexer::{Token, TokenKind};
use crate::node_parser::{flipped, max_of, next_terminator, Parser};
use crate::nodes::Anchor;
use crate::op::parser::span_of;
use crate::op::to_yamd::op_text;
use vstd::prelude::*;
use vstd::string::StringSliceAdditionalSpecFns;

verus! {

/// The index of the first token of kind `kind` in `toks` from `k` on and before `end`, or
/// `end`.
pub open spec fn first_of_kind(toks: Seq<Token>, k: int, end: int, kind: TokenKind) -> int
    decreases end - k,
{
    if k >= end || k < 0 || k >= toks.len() {
        end
    } else if toks[k].kind == kind {
        k
    } else {
        first_of_kind(toks, k + 1, end, kind)
    }
}

/// How the scan of a link's URL part goes on from token `k`, with `depth` parentheses open
/// and `last` the last `)` seen: the `)` that closes the first `(`, if the scan meets one, the
/// last `)` seen when it stops, and where it stops.
pub open spec fn url_scan(toks: Seq<Token>, k: int, depth: int, last: Option<int>) -> (
    Option<int>,
    Option<int>,
    int,
)
    decreases toks.len() - k,
{
    if k < 0 || k >= toks.len() || toks[k].kind == TokenKind::Terminator {
        (None, last, k)
    } else if toks[k].kind == TokenKind::LeftParenthesis {
        url_scan(toks, k + 1, depth + 1, last)
    } else if toks[k].kind == TokenKind::RightParenthesis {
        if depth - 1 == 0 {
            (Some(k), Some(k), k + 1)
        } else {
            url_scan(toks, k + 1, depth - 1, Some(k))
        }
    } else if depth == 0 {
        (None, last, k)
    } else {
        url_scan(toks, k + 1, depth, last)
    }
}

/// The `]` that closes the text of a link whose `[` is at `start`, if there is one before the
/// next terminator.
#[verifier::opaque]
pub open spec fn closing_bracket(toks: Seq<Token>, start: int) -> Option<int> {
    let nt = next_terminator(toks, start + 1);
    let j = first_of_kind(toks, start + 1, nt, TokenKind::RightSquareBracket);
    if 0 <= start < toks.len() && toks[start].kind == TokenKind::LeftSquareBracket && j < nt {
        Some(j)
    } else {
        None
    }
}

/// Where the URL of the link at `start` ends (the index of its closing `)`, exclusive of it)
/// and where the cursor stops after it, if the tokens make a link.
#[verifier::opaque]
pub open spec fn anchor_end(toks: Seq<Token>, start: int) -> Option<(int, int)> {
    match closing_bracket(toks, start) {
        Some(j) => {
            let (ret, last, stop) = url_scan(toks, j + 1, 0, None);
            match ret {
                Some(rp) => Some((rp, rp + 1)),
                None => match last {
                    Some(rp) => Some((rp, stop)),
                    None => None,
                },
            }
        },
        None => None,
    }
}

/// How far the cursor gets while it reads the link at `start`.
#[verifier::opaque]
pub open spec fn anchor_reach(toks: Seq<Token>, start: int) -> int {
    match closing_bracket(toks, start) {
        Some(j) => url_scan(toks, j + 1, 0, None).2,
        None => if 0 <= start < toks.len() && toks[start].kind == TokenKind::LeftSquareBracket {
            next_terminator(toks, start + 1)
        } else {
            start
        },
    }
}

/// The `]` of the link whose `[` is at `start` is the first `]` after it, where no terminator
/// comes between.
pub proof fn law_closing_bracket(toks: Seq<Token>, start: int, j: int)
    requires
        0 <= start < j < toks.len(),
        toks[start].kind == TokenKind::LeftSquareBracket,
        toks[j].kind == TokenKind::RightSquareBracket,
        forall|i: int| start < i < j ==> (#[trigger] toks[i]).kind != TokenKind::RightSquareBracket && toks[i].kind
            != TokenKind::Terminator,
    ensures
        closing_bracket(toks, start) == Some(j),
{
    reveal(closing_bracket);
    let nt = next_terminator(toks, start + 1);
    crate::node_parser::law_next_terminator(toks, start + 1);
    lemma_first_of_kind(toks, start + 1, nt, TokenKind::RightSquareBracket);
    if nt <= j && nt < toks.len() {
        assert(toks[nt].kind == TokenKind::Terminator);
    }
    let f = first_of_kind(toks, start + 1, nt, TokenKind::RightSquareBracket);
    if f < j {
        assert(toks[f].kind == TokenKind::RightSquareBracket);
    }
}

/// A link `[text](url)` whose URL holds no parentheses and no terminator ends at the first
/// `)` after its `(`: where `]` at `j` is followed by `(` and `rp` is the first `)` after that,
/// the URL runs from `j + 2` to `rp` and the cursor stops past `rp`.
pub proof fn law_plain_link(toks: Seq<Token>, start: int, j: int, rp: int)
    requires
        0 <= start < j,
        j + 1 < rp < toks.len(),
        toks[start].kind == TokenKind::LeftSquareBracket,
        toks[j].kind == TokenKind::RightSquareBracket,
        forall|i: int| start < i < j ==> (#[trigger] toks[i]).kind != TokenKind::RightSquareBracket && toks[i].kind
            != TokenKind::Terminator,
        toks[j + 1].kind == TokenKind::LeftParenthesis,
        toks[rp].kind == TokenKind::RightParenthesis,
        forall|i: int| j + 1 < i < rp ==> (#[trigger] toks[i]).kind != TokenKind::LeftParenthesis && toks[i].kind
            != TokenKind::RightParenthesis && toks[i].kind != TokenKind::Terminator,
    ensures
        closing_bracket(toks, start) == Some(j),
        anchor_end(toks, start) == Some((rp, rp + 1)),
{
    law_closing_bracket(toks, start, j);
    reveal(anchor_end);
    lemma_url_plain(toks, j + 2, rp, None);
    assert(url_scan(toks, j + 1, 0, None) == url_scan(toks, j + 2, 1, None));
}

/// Inside a URL one parenthesis deep, the scan runs to the first `)`.
proof fn lemma_url_plain(toks: Seq<Token>, k: int, rp: int, last: Option<int>)
    requires
        0 <= k <= rp < toks.len(),
        toks[rp].kind == TokenKind::RightParenthesis,
        forall|i: int| k <= i < rp ==> (#[trigger] toks[i]).kind != TokenKind::LeftParenthesis && toks[i].kind
            != TokenKind::RightParenthesis && toks[i].kind != TokenKind::Terminator,
    ensures
        url_scan(toks, k, 1, last) == (Some(rp), Some(rp), rp + 1),
    decreases rp - k,
{
    if k < rp {
        assert(toks[k].kind != TokenKind::LeftParenthesis && toks[k].kind != TokenKind::RightParenthesis
            && toks[k].kind != TokenKind::Terminator);
        lemma_url_plain(toks, k + 1, rp, last);
    }
}

pub proof fn lemma_first_of_kind(toks: Seq<Token>, k: int, end: int, kind: TokenKind)
    requires
        0 <= k <= end <= toks.len(),
    ensures
        k <= first_of_kind(toks, k, end, kind) <= end,
        first_of_kind(toks, k, end, kind) < end ==> toks[first_of_kind(toks, k, end, kind)].kind == kind,
        forall|i: int| k <= i < first_of_kind(toks, k, end, kind) ==> toks[i].kind != kind,
    decreases end - k,
{
    if k < end && toks[k].kind != kind {
        lemma_first_of_kind(toks, k + 1, end, kind);
    }
}

proof fn lemma_url_scan(toks: Seq<Token>, k: int, depth: int, last: Option<int>)
    requires
        0 <= k <= toks.len(),
        depth >= 0 || last is Some,
        last matches Some(l) ==> l < k,
    ensures
        ({
            let (ret, l2, stop) = url_scan(toks, k, depth, last);
            &&& k <= stop <= toks.len()
            &&& ret matches Some(rp) ==> k <= rp && stop == rp + 1 && l2 == Some(rp)
            &&& l2 matches Some(l) ==> l < stop
            &&& l2 matches Some(l) ==> (last == Some(l) || k <= l)
        }),
    decreases toks.len() - k,
{
    if k < toks.len() && toks[k].kind != TokenKind::Terminator {
        if toks[k].kind == TokenKind::LeftParenthesis {
            lemma_url_scan(toks, k + 1, depth + 1, last);
        } else if toks[k].kind == TokenKind::RightParenthesis {
            if depth - 1 != 0 {
                lemma_url_scan(toks, k + 1, depth - 1, Some(k));
            }
        } else if depth != 0 {
            lemma_url_scan(toks, k + 1, depth, last);
        }
    }
}

/// The token is a `]`.
fn is_right_square_bracket(t: &Token) -> (b: bool)
    ensures
        b == (t.kind == TokenKind::RightSquareBracket),
{
    t.kind == TokenKind::RightSquareBracket
}

/// Reads a link, `[text](url)`, from the token at the cursor: a `[`, the text up to the first
/// `]` before a terminator, then a `(` and the URL up to the `)` that closes it. Parentheses
/// nest in the URL; where they do not close before a terminator or the end, the URL ends at
/// the last `)` seen. On success the cursor moves past the link. Otherwise the cursor stays
/// where it was and the token there becomes a literal.
pub fn anchor(p: &mut Parser) -> (r: Option<Anchor>)
    requires
        old(p).wf(),
        old(p).toks().len() < 0x7fff_ffff,
        anchor_end(old(p).toks(), old(p).stack_pos as int) matches Some((rp, _)) ==> closing_bracket(
            old(p).toks(),
            old(p).stack_pos as int,
        )->0 + 2 <= rp,
    ensures
        final(p).wf(),
        final(p).source == old(p).source,
        final(p).loaded == max_of(old(p).loaded as int, anchor_reach(old(p).toks(), old(p).stack_pos as int)),
        match anchor_end(old(p).toks(), old(p).stack_pos as int) {
            Some((rp, stop)) => {
                let j = closing_bracket(old(p).toks(), old(p).stack_pos as int)->0;
                let src = old(p).source.spec_bytes();
                &&& r matches Some(a) && a.text@ == op_text(span_of(old(p).lexed(), old(p).stack_pos + 1, j), src)
                    && a.url@ == op_text(span_of(old(p).lexed(), j + 2, rp), src)
                &&& final(p).stack_pos == stop
                &&& final(p).toks() == old(p).toks()
            },
            None => {
                &&& r is None
                &&& final(p).stack_pos == old(p).stack_pos
                &&& final(p).toks() == if old(p).stack_pos < final(p).loaded {
                    flipped(old(p).toks(), old(p).stack_pos as int)
                } else {
                    old(p).toks()
                }
            },
        },
{
    reveal(closing_bracket);
    reveal(anchor_end);
    reveal(anchor_reach);
    let ghost p0 = *p;
    let start_pos = p.pos();
    let is_open = match p.peek() {
        Some((t, _)) => t.kind == TokenKind::LeftSquareBracket,
        None => false,
    };
    if !is_open {
        p.flip_to_literal_at(start_pos);
        p.move_to(start_pos);
        return None;
    }
    let found = p.advance_until(is_right_square_bracket);
    let ghost toks = p0.toks();
    let ghost nt = next_terminator(toks, start_pos + 1);
    proof {
        lemma_next_terminator_le(toks, start_pos + 1);
        lemma_first_of_kind(toks, start_pos + 1, nt, TokenKind::RightSquareBracket);
    }
    let rsb = match found {
        Some((_, end)) => end,
        None => {
            proof {
                let j = first_of_kind(toks, start_pos + 1, nt, TokenKind::RightSquareBracket);
                if j < nt {
                    assert(toks[j].kind == TokenKind::RightSquareBracket);
                }
            }
            p.flip_to_literal_at(start_pos);
            p.move_to(start_pos);
            proof {
                assert(flipped(flipped(toks, start_pos as int), start_pos as int) =~= flipped(toks, start_pos as int));
            }
            return None;
        },
    };
    proof {
        let j = first_of_kind(toks, start_pos + 1, nt, TokenKind::RightSquareBracket);
        if j < rsb {
            assert(toks[j].kind == TokenKind::RightSquareBracket);
        }
        assert(closing_bracket(toks, start_pos as int) == Some(rsb as int));
        lemma_url_scan(toks, rsb + 1, 0, None);
    }
    match scan_url(p, rsb) {
        Some(right_paren_pos) => {
            let text = p.range_to_string(start_pos + 1..rsb);
            let url = p.range_to_string(rsb + 2..right_paren_pos);
            Some(Anchor { text, url })
        },
        None => {
            p.flip_to_literal_at(start_pos);
            p.move_to(start_pos);
            None
        },
    }
}

/// `o` as an optional integer.
pub open spec fn opt_int(o: Option<usize>) -> Option<int> {
    match o {
        Some(l) => Some(l as int),
        None => None,
    }
}

/// Scans the URL part of a link whose `]` is at `rsb`, from the token after it: the `)` that
/// closes the first `(`, or else the last `)` seen, if any.
fn scan_url(p: &mut Parser, rsb: usize) -> (r: Option<usize>)
    requires
        old(p).wf(),
        old(p).stack_pos == rsb + 1,
        old(p).toks().len() < 0x7fff_ffff,
    ensures
        final(p).wf(),
        final(p).source == old(p).source,
        final(p).toks() == old(p).toks(),
        ({
            let (ret, last, stop) = url_scan(old(p).toks(), rsb + 1, 0, None);
            &&& opt_int(r) == match ret {
                Some(rp) => Some(rp),
                None => last,
            }
            &&& final(p).stack_pos == stop
            &&& final(p).loaded == max_of(old(p).loaded as int, stop)
        }),
{
    let ghost toks = p.toks();
    let ghost l0 = p.loaded;
    let mut paren_count: i32 = 0;
    let mut last_right_paren_pos: Option<usize> = None;
    let n = p.tokens.len();
    while p.stack_pos < n
        invariant
            p.wf(),
            p.source == old(p).source,
            p.toks() == toks,
            toks == old(p).toks(),
            l0 == old(p).loaded,
            n == toks.len(),
            rsb + 1 <= p.stack_pos <= n,
            p.loaded == max_of(l0 as int, p.stack_pos as int),
            n < 0x7fff_ffff,
            -(p.stack_pos as int) <= paren_count <= p.stack_pos,
            paren_count >= 0 || last_right_paren_pos is Some,
            last_right_paren_pos matches Some(l) ==> l < p.stack_pos,
            url_scan(toks, rsb + 1, 0, None) == url_scan(
                toks,
                p.stack_pos as int,
                paren_count as int,
                opt_int(last_right_paren_pos),
            ),
        ensures
            url_scan(toks, rsb + 1, 0, None) == (None::<int>, opt_int(last_right_paren_pos), p.stack_pos as int),
        decreases n - p.stack_pos,
    {
        let pos = p.stack_pos;
        let kind = p.tokens[pos].kind;
        if kind == TokenKind::Terminator {
            break;
        } else if kind == TokenKind::LeftParenthesis {
            p.step();
            paren_count = paren_count + 1;
        } else if kind == TokenKind::RightParenthesis {
            last_right_paren_pos = Some(pos);
            p.step();
            paren_count = paren_count - 1;
            if paren_count == 0 {
                return Some(pos);
            }
        } else if paren_count == 0 {
            break;
        } else {
            p.step();
        }
    }
    last_right_paren_pos
}

/// A link that reads ends after its `]`, which comes after its start.
pub proof fn lemma_anchor_end(toks: Seq<Token>, a: int)
    requires
        0 <= a,
    ensures
        anchor_end(toks, a) matches Some((rp, next)) ==> {
            let j = closing_bracket(toks, a)->0;
            &&& closing_bracket(toks, a) is Some
            &&& a < j < rp < next <= toks.len()
            &&& anchor_reach(toks, a) == next
        },
        a <= anchor_reach(toks, a),
        a <= toks.len() ==> anchor_reach(toks, a) <= toks.len(),
        a < toks.len() && toks[a].kind == TokenKind::LeftSquareBracket ==> a < anchor_reach(toks, a),
{
    reveal(closing_bracket);
    reveal(anchor_end);
    reveal(anchor_reach);
    if 0 <= a < toks.len() && toks[a].kind == TokenKind::LeftSquareBracket {
        lemma_next_terminator_le(toks, a + 1);
        let nt = next_terminator(toks, a + 1);
        lemma_first_of_kind(toks, a + 1, nt, TokenKind::RightSquareBracket);
        if let Some(j) = closing_bracket(toks, a) {
            lemma_url_scan(toks, j + 1, 0, None);
        }
    }
}

pub proof fn lemma_next_terminator_le(toks: Seq<Token>, k: int)
    requires
        0 <= k <= toks.len(),
    ensures
        k <= next_terminator(toks, k) <= toks.len(),
        forall|i: int| k <= i < next_terminator(toks, k) ==> toks[i].kind != TokenKind::Terminator,
    decreases toks.len() - k,
{
    if k < toks.len() && toks[k].kind != TokenKind::Terminator {
        lemma_next_terminator_le(toks, k + 1);
    }
}

} // verus!
