//! A code block, ```` ```lang ````, its code, and ```` ``` ```` at the start of a line, read from the
//! tokens at the cursor.
use crate::lexer::{Token, TokenKind};
use crate::node_parser::{flipped, max_of, Parser};
use crate::node_parser::embed::text_len;
use crate::nodes::Code;
use crate::op::parser::span_of;
use crate::op::to_yamd::op_text;
use vstd::prelude::*;
use vstd::string::StringSliceAdditionalSpecFns;

verus! {

/// How the scan of a code block goes on from token `k`, with the end of its first line at
/// `pipe` if one was seen: that end of line and the closing ```` ``` ````, if it meets one,
/// and where it stops.
pub open spec fn code_scan(toks: Seq<Token>, k: int, pipe: Option<int>) -> (Option<(int, int)>, int)
    decreases toks.len() - k,
{
    if k < 0 || k >= toks.len() || (toks[k].kind == TokenKind::Terminator && pipe is None) {
        (None, k)
    } else if toks[k].kind == TokenKind::Backtick && toks[k].position.column == 0 && text_len(toks[k]) == 3 && pipe is Some {
        (Some((pipe->0, k)), k + 1)
    } else if toks[k].kind == TokenKind::Eol && pipe is None {
        code_scan(toks, k + 1, Some(k))
    } else {
        code_scan(toks, k + 1, pipe)
    }
}

proof fn lemma_code_scan(toks: Seq<Token>, k: int, pipe: Option<int>)
    requires
        0 <= k <= toks.len(),
        pipe matches Some(q) ==> q < k,
    ensures
        ({
            let (found, stop) = code_scan(toks, k, pipe);
            &&& k <= stop <= toks.len()
            &&& found matches Some((q, c)) ==> (pipe matches Some(q0) ==> q == q0) && q < c && stop == c + 1 && (
            pipe is None ==> k <= q)
        }),
    decreases toks.len() - k,
{
    if 0 <= k < toks.len() && !(toks[k].kind == TokenKind::Terminator && pipe is None) {
        if toks[k].kind == TokenKind::Backtick && toks[k].position.column == 0 && text_len(toks[k]) == 3 && pipe is Some {
        } else if toks[k].kind == TokenKind::Eol && pipe is None {
            lemma_code_scan(toks, k + 1, Some(k));
        } else {
            lemma_code_scan(toks, k + 1, pipe);
        }
    }
}

/// The token is ```` ``` ```` at the start of a line, which closes a code block.
pub open spec fn is_fence(t: Token) -> bool {
    t.kind == TokenKind::Backtick && t.position.column == 0 && text_len(t) == 3
}

/// After the end of the first line at `q`, the scan from `k` runs to the first closing
/// fence, whatever it passes on the way.
proof fn lemma_code_body(toks: Seq<Token>, k: int, q: int, c: int)
    requires
        0 <= q < k <= c < toks.len(),
        is_fence(toks[c]),
        forall|i: int| k <= i < c ==> !is_fence(#[trigger] toks[i]),
    ensures
        code_scan(toks, k, Some(q)) == (Some((q, c)), c + 1),
    decreases c - k,
{
    if k < c {
        assert(!is_fence(toks[k]));
        lemma_code_body(toks, k + 1, q, c);
    }
}

/// After the end of the first line at `q`, a scan that meets no closing fence runs to the end.
proof fn lemma_code_body_open(toks: Seq<Token>, k: int, q: int)
    requires
        0 <= q < k <= toks.len(),
        forall|i: int| k <= i < toks.len() ==> !is_fence(#[trigger] toks[i]),
    ensures
        code_scan(toks, k, Some(q)) == (None::<(int, int)>, toks.len() as int),
    decreases toks.len() - k,
{
    if k < toks.len() {
        assert(!is_fence(toks[k]));
        lemma_code_body_open(toks, k + 1, q);
    }
}

/// A code block is read: where its first line, from `k`, ends at the end of line `q` with no
/// terminator on it, and the first ```` ``` ```` at the start of a line after `q` is at `c`,
/// the block's language is the tokens `k..q`, its code runs from `q` to `c`, and the scan
/// stops past `c`. Blank lines (terminators) in the code do not stop it.
pub proof fn law_code_block_read(toks: Seq<Token>, k: int, q: int, c: int)
    requires
        0 <= k <= q < c < toks.len(),
        forall|i: int| k <= i < q ==> (#[trigger] toks[i]).kind != TokenKind::Eol && toks[i].kind != TokenKind::Terminator,
        toks[q].kind == TokenKind::Eol,
        is_fence(toks[c]),
        forall|i: int| q < i < c ==> !is_fence(#[trigger] toks[i]),
    ensures
        code_scan(toks, k, None) == (Some((q, c)), c + 1),
    decreases q - k,
{
    if k < q {
        assert(toks[k].kind != TokenKind::Eol && toks[k].kind != TokenKind::Terminator);
        law_code_block_read(toks, k + 1, q, c);
    } else {
        lemma_code_body(toks, q + 1, q, c);
    }
}

/// A code block with no closing ```` ``` ```` at the start of a line after the end of its
/// first line is not read; the scan runs to the end.
pub proof fn law_code_block_unclosed(toks: Seq<Token>, k: int, q: int)
    requires
        0 <= k <= q < toks.len(),
        forall|i: int| k <= i < q ==> (#[trigger] toks[i]).kind != TokenKind::Eol && toks[i].kind != TokenKind::Terminator,
        toks[q].kind == TokenKind::Eol,
        forall|i: int| q < i < toks.len() ==> !is_fence(#[trigger] toks[i]),
    ensures
        code_scan(toks, k, None) == (None::<(int, int)>, toks.len() as int),
    decreases q - k,
{
    if k < q {
        assert(toks[k].kind != TokenKind::Eol && toks[k].kind != TokenKind::Terminator);
        law_code_block_unclosed(toks, k + 1, q);
    } else {
        lemma_code_body_open(toks, q + 1, q);
    }
}

/// A code block whose first line, from `k`, meets a terminator at `j` before any end of line
/// is not read; the scan stops at the terminator.
pub proof fn law_code_block_first_line_ends(toks: Seq<Token>, k: int, j: int)
    requires
        0 <= k <= j < toks.len(),
        toks[j].kind == TokenKind::Terminator,
        forall|i: int| k <= i < j ==> (#[trigger] toks[i]).kind != TokenKind::Eol && toks[i].kind != TokenKind::Terminator,
    ensures
        code_scan(toks, k, None) == (None::<(int, int)>, j),
    decreases j - k,
{
    if k < j {
        assert(toks[k].kind != TokenKind::Eol && toks[k].kind != TokenKind::Terminator);
        law_code_block_first_line_ends(toks, k + 1, j);
    }
}

/// The language and the code of the block whose opening ```` ``` ```` is at `start`, if it
/// is read: the text of the tokens up to the end of its first line, and the text of those
/// after it up to the end of line before the closing ```` ``` ````.
pub open spec fn code_read(toks: Seq<Token>, lexed: Seq<Token>, src: Seq<u8>, start: int) -> Option<(Seq<char>, Seq<char>)> {
    match code_scan(toks, start + 1, None).0 {
        Some((q, c)) => Some((op_text(span_of(lexed, start + 1, q), src), op_text(span_of(lexed, q + 1, c - 1), src))),
        None => None,
    }
}

/// The text of a code block read from tokens: where the first line after the opening at
/// `start` ends at the end of line `q` with no terminator on it, and the first ```` ``` ````
/// at the start of a line after it is at `c`, the language is the text of the tokens
/// `start + 1..q` and the code the text of the tokens from `q + 1` up to the end of line at
/// `c - 1`, blank lines in it included.
pub proof fn law_code_block_text(toks: Seq<Token>, lexed: Seq<Token>, src: Seq<u8>, start: int, q: int, c: int)
    requires
        0 <= start < q < c < toks.len(),
        forall|i: int| start < i < q ==> (#[trigger] toks[i]).kind != TokenKind::Eol && toks[i].kind != TokenKind::Terminator,
        toks[q].kind == TokenKind::Eol,
        toks[c].kind == TokenKind::Backtick && toks[c].position.column == 0 && toks[c].range.end - toks[c].range.start
            - toks[c].escaped == 3,
        forall|i: int|
            q < i < c ==> !((#[trigger] toks[i]).kind == TokenKind::Backtick && toks[i].position.column == 0
                && toks[i].range.end - toks[i].range.start - toks[i].escaped == 3),
    ensures
        code_read(toks, lexed, src, start) == Some(
            (op_text(span_of(lexed, start + 1, q), src), op_text(span_of(lexed, q + 1, c - 1), src)),
        ),
{
    law_code_block_read(toks, start + 1, q, c);
}

/// Reads a code block from the token at the cursor: its language runs to the end of the
/// first line (no terminator may come before it), its code from there to the end of line
/// before the next ```` ``` ```` that starts a line. On success the cursor moves past it.
/// Otherwise the cursor stays where it was and the token there becomes a literal.
pub fn code(p: &mut Parser) -> (r: Option<Code>)
    requires
        old(p).wf(),
        code_scan(old(p).toks(), old(p).stack_pos + 1, None).0 matches Some((q, c)) ==> q + 1 <= c - 1,
    ensures
        final(p).wf(),
        final(p).source == old(p).source,
        ({
            let toks = old(p).toks();
            let start = old(p).stack_pos as int;
            let src = old(p).source.spec_bytes();
            let (found, stop) = code_scan(toks, start + 1, None);
            if start >= toks.len() {
                &&& r is None
                &&& final(p).stack_pos == start
                &&& final(p).loaded == old(p).loaded
                &&& final(p).toks() == toks
            } else {
                match found {
                    Some((q, c)) => {
                        &&& r matches Some(e) && code_read(toks, old(p).lexed(), src, start) == Some((e.lang@, e.code@))
                        &&& final(p).stack_pos == stop
                        &&& final(p).loaded == max_of(old(p).loaded as int, stop)
                        &&& final(p).toks() == toks
                    },
                    None => {
                        &&& r is None
                        &&& final(p).stack_pos == start
                        &&& final(p).loaded == max_of(old(p).loaded as int, stop)
                        &&& final(p).toks() == flipped(toks, start)
                    },
                }
            }
        }),
{
    let ghost toks = p.toks();
    let ghost l0 = p.loaded as int;
    let start_pos = p.pos();
    let n = p.tokens.len();
    if start_pos >= n {
        return None;
    }
    p.step();
    let mut kind: Option<usize> = None;
    proof {
        lemma_code_scan(toks, start_pos + 1, None);
    }
    while p.stack_pos < n
        invariant
            p.wf(),
            p.source == old(p).source,
            toks == old(p).toks(),
            p.toks() == toks,
            l0 == old(p).loaded,
            n == toks.len(),
            start_pos == old(p).stack_pos,
            start_pos < p.stack_pos <= n,
            p.loaded == max_of(l0, p.stack_pos as int),
            kind matches Some(q) ==> start_pos < q < p.stack_pos,
            code_scan(toks, start_pos + 1, None).0 matches Some((q, c)) ==> q + 1 <= c - 1,
            code_scan(toks, start_pos + 1, None) == code_scan(
                toks,
                p.stack_pos as int,
                crate::node_parser::anchor::opt_int(kind),
            ),
        ensures
            code_scan(toks, start_pos + 1, None) == (None::<(int, int)>, p.stack_pos as int),
        decreases n - p.stack_pos,
    {
        let pos = p.stack_pos;
        let t = &p.tokens[pos];
        if t.kind == TokenKind::Terminator && kind.is_none() {
            break;
        } else if t.kind == TokenKind::Backtick && t.position.column == 0 && t.range.end >= t.range.start
            && t.range.end - t.range.start >= t.escaped && t.range.end - t.range.start - t.escaped == 3
            && kind.is_some() {
            p.step();
            if let Some(q) = kind {
                let lang = p.range_to_string(start_pos + 1..q);
                let code = p.range_to_string(q + 1..pos - 1);
                return Some(Code { lang, code });
            }
        } else if t.kind == TokenKind::Eol && kind.is_none() {
            kind = Some(pos);
            p.step();
        } else {
            p.step();
        }
    }
    p.move_to(start_pos);
    p.flip_to_literal_at(start_pos);
    None
}

} // verus!
