//! A document's metadata, `---`, an end of line, any text, then `---` at the start of a
//! line, read from the tokens at the cursor.
use crate::lexer::{Token, TokenKind};
use crate::node_parser::heading::{next_step, token_len};
use crate::node_parser::{flipped, max_of, Parser};
use crate::op::parser::span_of;
use crate::op::to_yamd::op_text;
use vstd::prelude::*;
use vstd::string::StringSliceAdditionalSpecFns;

verus! {

/// The token is `---` at the start of a line, which closes the metadata.
pub open spec fn closes_metadata(t: Token) -> bool {
    t.kind == TokenKind::Minus && token_len(t) == 3 && t.position.column == 0
}

/// The index of the first token from `k` on that closes the metadata, or the end.
pub open spec fn metadata_close(toks: Seq<Token>, k: int) -> int
    decreases toks.len() - k,
{
    if k < 0 || k >= toks.len() {
        toks.len() as int
    } else if closes_metadata(toks[k]) {
        k
    } else {
        metadata_close(toks, k + 1)
    }
}

proof fn lemma_metadata_close(toks: Seq<Token>, k: int)
    requires
        0 <= k <= toks.len(),
    ensures
        k <= metadata_close(toks, k) <= toks.len(),
        metadata_close(toks, k) < toks.len() ==> closes_metadata(toks[metadata_close(toks, k)]),
        forall|i: int| k <= i < metadata_close(toks, k) ==> !closes_metadata(#[trigger] toks[i]),
    decreases toks.len() - k,
{
    if k < toks.len() && !closes_metadata(toks[k]) {
        lemma_metadata_close(toks, k + 1);
    }
}

/// The metadata closes at the first `---` at the start of a line from `k` on: where `c` is
/// such a token and none comes between `k` and `c`, or `c` is the end and none comes at all,
/// the closing is found at `c`. Terminators do not stop the search.
pub proof fn law_metadata_close(toks: Seq<Token>, k: int, c: int)
    requires
        0 <= k <= c <= toks.len(),
        c == toks.len() || (toks[c].kind == TokenKind::Minus && toks[c].range.end - toks[c].range.start
            - toks[c].escaped == 3 && toks[c].position.column == 0),
        forall|i: int|
            k <= i < c ==> !((#[trigger] toks[i]).kind == TokenKind::Minus && toks[i].range.end - toks[i].range.start
                - toks[i].escaped == 3 && toks[i].position.column == 0),
    ensures
        metadata_close(toks, k) == c,
    decreases c - k,
{
    if k < c {
        assert(!(toks[k].kind == TokenKind::Minus && toks[k].range.end - toks[k].range.start - toks[k].escaped == 3
            && toks[k].position.column == 0));
        law_metadata_close(toks, k + 1, c);
    }
}

/// Where the metadata that starts at token `start` closes, with `ld` tokens taken: the
/// cursor after taking two tokens, the number then taken, and the closing token, if the
/// second token is an end of line and a closing token follows.
pub open spec fn metadata_at(toks: Seq<Token>, ld: int, start: int) -> (int, int, Option<int>) {
    let (i1, p1, l1) = next_step(toks.len() as int, start, ld);
    let (i2, p2, l2) = next_step(toks.len() as int, p1, l1);
    let j = metadata_close(toks, p2);
    if i2 matches Some(i) && toks[i].kind == TokenKind::Eol && j < toks.len() {
        (p2, l2, Some(j))
    } else {
        (p2, l2, None)
    }
}

/// The text of the metadata whose `---` is at `start`, with `ld` tokens taken, if it is read:
/// the text of the tokens after the end of line that follows the `---`, up to the end of
/// line before the closing `---`.
pub open spec fn metadata_read(toks: Seq<Token>, lexed: Seq<Token>, src: Seq<u8>, ld: int, start: int) -> Option<Seq<char>> {
    match metadata_at(toks, ld, start).2 {
        Some(j) => Some(op_text(span_of(lexed, start + 2, j - 1), src)),
        None => None,
    }
}

/// The metadata read where no token after its `---` was taken yet: where the token after the
/// `---` at `start` is an end of line and the first `---` at the start of a line after it is
/// at `c`, the metadata is the text of the tokens from `start + 2` up to the end of line at
/// `c - 1`, whatever lies between, and the reading stops past `c`.
pub proof fn law_metadata_text(toks: Seq<Token>, lexed: Seq<Token>, src: Seq<u8>, start: int, c: int)
    requires
        0 <= start,
        start + 2 <= c < toks.len(),
        toks[start + 1].kind == TokenKind::Eol,
        toks[c].kind == TokenKind::Minus && toks[c].range.end - toks[c].range.start - toks[c].escaped == 3
            && toks[c].position.column == 0,
        forall|i: int|
            start + 2 <= i < c ==> !((#[trigger] toks[i]).kind == TokenKind::Minus && toks[i].range.end
                - toks[i].range.start - toks[i].escaped == 3 && toks[i].position.column == 0),
    ensures
        metadata_at(toks, start, start) == (start + 2, start + 2, Some(c)),
        metadata_read(toks, lexed, src, start, start) == Some(op_text(span_of(lexed, start + 2, c - 1), src)),
{
    law_metadata_close(toks, start + 2, c);
}

/// Reads a document's metadata from the `---` at the cursor: the token after it must be an
/// end of line, and the text runs from there to the next `---` at the start of a line, the
/// end of line before it left out. On success the cursor moves past the closing `---`.
/// Otherwise the cursor stays where it was and the token there becomes a literal.
pub fn metadata(p: &mut Parser) -> (r: Option<String>)
    requires
        old(p).wf(),
        ({
            let (p2, l2, close) = metadata_at(old(p).toks(), old(p).loaded as int, old(p).stack_pos as int);
            close matches Some(j) ==> j >= old(p).stack_pos + 3
        }),
    ensures
        final(p).wf(),
        final(p).source == old(p).source,
        ({
            let toks = old(p).toks();
            let start = old(p).stack_pos as int;
            let (p2, l2, close) = metadata_at(toks, old(p).loaded as int, start);
            match close {
                Some(j) => {
                    &&& r matches Some(t) && metadata_read(
                        toks,
                        old(p).lexed(),
                        old(p).source.spec_bytes(),
                        old(p).loaded as int,
                        start,
                    ) == Some(t@)
                    &&& final(p).stack_pos == j + 1
                    &&& final(p).loaded == max_of(l2, j + 1)
                    &&& final(p).toks() == toks
                },
                None => {
                    let (i1, p1, l1) = next_step(toks.len() as int, start, old(p).loaded as int);
                    let (i2, _p2, _l2) = next_step(toks.len() as int, p1, l1);
                    let ld = if i2 matches Some(i) && toks[i].kind == TokenKind::Eol {
                        max_of(l2, toks.len() as int)
                    } else {
                        l2
                    };
                    &&& r is None
                    &&& final(p).stack_pos == if start < ld {
                        start
                    } else {
                        p2
                    }
                    &&& final(p).loaded == ld
                    &&& final(p).toks() == if start < ld {
                        flipped(toks, start)
                    } else {
                        toks
                    }
                },
            }
        }),
{
    let ghost toks = p.toks();
    let start = p.pos();
    let n = p.tokens.len();
    p.next_token();
    let eol = match p.next_token() {
        Some(t) => t.kind == TokenKind::Eol,
        None => false,
    };
    let ghost p2 = p.stack_pos as int;
    let ghost l2 = p.loaded as int;
    if eol {
        proof {
            lemma_metadata_close(toks, p2);
        }
        while p.stack_pos < n
            invariant
                p.wf(),
                p.source == old(p).source,
                p.toks() == toks,
                toks == old(p).toks(),
                n == toks.len(),
                start == old(p).stack_pos,
                p2 <= p.stack_pos <= metadata_close(toks, p2) <= n,
                p.loaded == max_of(l2, p.stack_pos as int),
                p2 <= l2,
                start + 2 <= p2,
                metadata_at(toks, old(p).loaded as int, start as int) == (p2, l2, if metadata_close(toks, p2) < n {
                    Some(metadata_close(toks, p2))
                } else {
                    None::<int>
                }),
                metadata_close(toks, p2) < n ==> metadata_close(toks, p2) >= start + 3,
                forall|i: int| p2 <= i < metadata_close(toks, p2) ==> !closes_metadata(#[trigger] toks[i]),
                metadata_close(toks, p2) < n ==> closes_metadata(toks[metadata_close(toks, p2)]),
            decreases n - p.stack_pos,
        {
            let k = p.stack_pos;
            let t = &p.tokens[k];
            let closing = t.kind == TokenKind::Minus && t.range.end >= t.range.start && t.range.end - t.range.start
                >= t.escaped && t.range.end - t.range.start - t.escaped == 3 && t.position.column == 0;
            proof {
                assert(closing == closes_metadata(toks[k as int]));
            }
            if closing {
                p.next_token();
                return Some(p.range_to_string(start + 2..k - 1));
            }
            p.next_token();
        }
    }
    p.move_to(start);
    p.flip_to_literal_at(start);
    None
}

} // verus!
