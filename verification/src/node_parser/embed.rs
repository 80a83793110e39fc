//! An embedded object, `{{kind|args}}`, read from the tokens at the cursor.
use crate::lexer::{Token, TokenKind};
use crate::node_parser::{flipped, max_of, Parser};
use crate::nodes::Embed;
use crate::op::parser::span_of;
use crate::op::to_yamd::op_text;
use vstd::prelude::*;
use vstd::string::StringSliceAdditionalSpecFns;

verus! {

/// The length of the text of `t`, its escapes taken off.
pub open spec fn text_len(t: Token) -> int {
    t.range.end - t.range.start - t.escaped
}

/// How the scan of an embed goes on from token `k`, with the `|` at `pipe` if one was seen:
/// the `|` and the `}}` that closes the embed, if it meets one, and where it stops.
pub open spec fn embed_scan(toks: Seq<Token>, k: int, pipe: Option<int>) -> (Option<(int, int)>, int)
    decreases toks.len() - k,
{
    if k < 0 || k >= toks.len() || (toks[k].kind == TokenKind::Terminator && pipe is None) {
        (None, k)
    } else if toks[k].kind == TokenKind::RightCurlyBrace && text_len(toks[k]) == 2 {
        match pipe {
            Some(q) => (Some((q, k)), k + 1),
            None => embed_scan(toks, k + 1, pipe),
        }
    } else if toks[k].kind == TokenKind::Pipe && pipe is None {
        embed_scan(toks, k + 1, Some(k))
    } else {
        embed_scan(toks, k + 1, pipe)
    }
}

proof fn lemma_embed_scan(toks: Seq<Token>, k: int, pipe: Option<int>)
    requires
        0 <= k <= toks.len(),
        pipe matches Some(q) ==> q < k,
    ensures
        ({
            let (found, stop) = embed_scan(toks, k, pipe);
            &&& k <= stop <= toks.len()
            &&& found matches Some((q, c)) ==> (pipe matches Some(q0) ==> q == q0) && q < c && stop == c + 1 && (
            pipe is None ==> k <= q)
        }),
    decreases toks.len() - k,
{
    if 0 <= k < toks.len() && !(toks[k].kind == TokenKind::Terminator && pipe is None) {
        if toks[k].kind == TokenKind::RightCurlyBrace && text_len(toks[k]) == 2 {
            if pipe is None {
                lemma_embed_scan(toks, k + 1, pipe);
            }
        } else if toks[k].kind == TokenKind::Pipe && pipe is None {
            lemma_embed_scan(toks, k + 1, Some(k));
        } else {
            lemma_embed_scan(toks, k + 1, pipe);
        }
    }
}

/// The token is `}}`, which closes an embed.
pub open spec fn is_embed_close(t: Token) -> bool {
    t.kind == TokenKind::RightCurlyBrace && text_len(t) == 2
}

/// After the `|` at `q`, the scan from `k` runs to the first `}}`, whatever it passes on the
/// way.
proof fn lemma_embed_args(toks: Seq<Token>, k: int, q: int, c: int)
    requires
        0 <= q < k <= c < toks.len(),
        is_embed_close(toks[c]),
        forall|i: int| k <= i < c ==> !is_embed_close(#[trigger] toks[i]),
    ensures
        embed_scan(toks, k, Some(q)) == (Some((q, c)), c + 1),
    decreases c - k,
{
    if k < c {
        assert(!is_embed_close(toks[k]));
        lemma_embed_args(toks, k + 1, q, c);
    }
}

/// After the `|` at `q`, a scan that meets no `}}` runs to the end.
proof fn lemma_embed_args_open(toks: Seq<Token>, k: int, q: int)
    requires
        0 <= q < k <= toks.len(),
        forall|i: int| k <= i < toks.len() ==> !is_embed_close(#[trigger] toks[i]),
    ensures
        embed_scan(toks, k, Some(q)) == (None::<(int, int)>, toks.len() as int),
    decreases toks.len() - k,
{
    if k < toks.len() {
        assert(!is_embed_close(toks[k]));
        lemma_embed_args_open(toks, k + 1, q);
    }
}

/// An embed is read: where its kind, from `k`, runs to the first `|` at `q` with no
/// terminator before it, and the first `}}` after `q` is at `c`, the kind is the tokens
/// `k..q`, the arguments the tokens between `q` and `c`, and the scan stops past `c`.
/// Terminators among the arguments do not stop it.
pub proof fn law_embed_read(toks: Seq<Token>, k: int, q: int, c: int)
    requires
        0 <= k <= q < c < toks.len(),
        forall|i: int| k <= i < q ==> (#[trigger] toks[i]).kind != TokenKind::Pipe && toks[i].kind != TokenKind::Terminator,
        toks[q].kind == TokenKind::Pipe,
        is_embed_close(toks[c]),
        forall|i: int| q < i < c ==> !is_embed_close(#[trigger] toks[i]),
    ensures
        embed_scan(toks, k, None) == (Some((q, c)), c + 1),
    decreases q - k,
{
    if k < q {
        assert(toks[k].kind != TokenKind::Pipe && toks[k].kind != TokenKind::Terminator);
        law_embed_read(toks, k + 1, q, c);
    } else {
        lemma_embed_args(toks, q + 1, q, c);
    }
}

/// An embed with no `}}` after its first `|` is not read; the scan runs to the end.
pub proof fn law_embed_unclosed(toks: Seq<Token>, k: int, q: int)
    requires
        0 <= k <= q < toks.len(),
        forall|i: int| k <= i < q ==> (#[trigger] toks[i]).kind != TokenKind::Pipe && toks[i].kind != TokenKind::Terminator,
        toks[q].kind == TokenKind::Pipe,
        forall|i: int| q < i < toks.len() ==> !is_embed_close(#[trigger] toks[i]),
    ensures
        embed_scan(toks, k, None) == (None::<(int, int)>, toks.len() as int),
    decreases q - k,
{
    if k < q {
        assert(toks[k].kind != TokenKind::Pipe && toks[k].kind != TokenKind::Terminator);
        law_embed_unclosed(toks, k + 1, q);
    } else {
        lemma_embed_args_open(toks, q + 1, q);
    }
}

/// An embed whose kind, from `k`, meets a terminator at `j` before any `|` is not read; the
/// scan stops at the terminator.
pub proof fn law_embed_kind_ends(toks: Seq<Token>, k: int, j: int)
    requires
        0 <= k <= j < toks.len(),
        toks[j].kind == TokenKind::Terminator,
        forall|i: int| k <= i < j ==> (#[trigger] toks[i]).kind != TokenKind::Pipe && toks[i].kind != TokenKind::Terminator,
    ensures
        embed_scan(toks, k, None) == (None::<(int, int)>, j),
    decreases j - k,
{
    if k < j {
        assert(toks[k].kind != TokenKind::Pipe && toks[k].kind != TokenKind::Terminator);
        law_embed_kind_ends(toks, k + 1, j);
    }
}

/// The kind and the arguments of the embed whose `{{` is at `start`, if it is read: the text
/// of the tokens up to its first `|`, and the text of those after it up to its `}}`.
pub open spec fn embed_read(toks: Seq<Token>, lexed: Seq<Token>, src: Seq<u8>, start: int) -> Option<(Seq<char>, Seq<char>)> {
    match embed_scan(toks, start + 1, None).0 {
        Some((q, c)) => Some((op_text(span_of(lexed, start + 1, q), src), op_text(span_of(lexed, q + 1, c), src))),
        None => None,
    }
}

/// The text of an embed read from tokens: where the first `|` after the `{{` at `start` is at
/// `q` with no terminator before it, and the first `}}` after it is at `c`, the kind is the
/// text of the tokens `start + 1..q` and the arguments the text of the tokens `q + 1..c`.
pub proof fn law_embed_text(toks: Seq<Token>, lexed: Seq<Token>, src: Seq<u8>, start: int, q: int, c: int)
    requires
        0 <= start < q < c < toks.len(),
        forall|i: int| start < i < q ==> (#[trigger] toks[i]).kind != TokenKind::Pipe && toks[i].kind != TokenKind::Terminator,
        toks[q].kind == TokenKind::Pipe,
        toks[c].kind == TokenKind::RightCurlyBrace && toks[c].range.end - toks[c].range.start - toks[c].escaped == 2,
        forall|i: int|
            q < i < c ==> !((#[trigger] toks[i]).kind == TokenKind::RightCurlyBrace && toks[i].range.end
                - toks[i].range.start - toks[i].escaped == 2),
    ensures
        embed_read(toks, lexed, src, start) == Some(
            (op_text(span_of(lexed, start + 1, q), src), op_text(span_of(lexed, q + 1, c), src)),
        ),
{
    assert forall|i: int| q < i < c implies !is_embed_close(#[trigger] toks[i]) by {}
    law_embed_read(toks, start + 1, q, c);
}

/// Reads an embedded object, `{{kind|args}}`, from the token at the cursor: its kind runs to
/// the first `|` (no terminator may come before it), its arguments to the next `}}`. On
/// success the cursor moves past it. Otherwise the cursor stays where it was and the token
/// there becomes a literal.
pub fn embed(p: &mut Parser) -> (r: Option<Embed>)
    requires
        old(p).wf(),
    ensures
        final(p).wf(),
        final(p).source == old(p).source,
        ({
            let toks = old(p).toks();
            let start = old(p).stack_pos as int;
            let src = old(p).source.spec_bytes();
            let (found, stop) = embed_scan(toks, start + 1, None);
            if start >= toks.len() {
                &&& r is None
                &&& final(p).stack_pos == start
                &&& final(p).loaded == old(p).loaded
                &&& final(p).toks() == toks
            } else {
                match found {
                    Some((q, c)) => {
                        &&& r matches Some(e) && embed_read(toks, old(p).lexed(), src, start) == Some((e.kind@, e.args@))
                        &&& final(p).stack_pos == stop
                        &&& final(p).loaded == max_of(old(p).loaded as int, stop)
                        &&& final(p).toks() == toks
                    },
                    None => {
                        &&& r is None
                        &&& final(p).stack_pos == start
                        &&& final(p).loaded == max_of(old(p).loaded as int, stop)
                        &&& final(p).toks() == flipped(toks, start)
                    },
                }
            }
        }),
{
    let ghost toks = p.toks();
    let ghost l0 = p.loaded as int;
    let start_pos = p.pos();
    let n = p.tokens.len();
    if start_pos >= n {
        return None;
    }
    p.step();
    let mut kind: Option<usize> = None;
    proof {
        lemma_embed_scan(toks, start_pos + 1, None);
    }
    while p.stack_pos < n
        invariant
            p.wf(),
            p.source == old(p).source,
            toks == old(p).toks(),
            p.toks() == toks,
            l0 == old(p).loaded,
            n == toks.len(),
            start_pos == old(p).stack_pos,
            start_pos < p.stack_pos <= n,
            p.loaded == max_of(l0, p.stack_pos as int),
            kind matches Some(q) ==> start_pos < q < p.stack_pos,
            embed_scan(toks, start_pos + 1, None) == embed_scan(
                toks,
                p.stack_pos as int,
                crate::node_parser::anchor::opt_int(kind),
            ),
        ensures
            embed_scan(toks, start_pos + 1, None) == (None::<(int, int)>, p.stack_pos as int),
        decreases n - p.stack_pos,
    {
        let pos = p.stack_pos;
        let t = &p.tokens[pos];
        if t.kind == TokenKind::Terminator && kind.is_none() {
            break;
        } else if t.kind == TokenKind::RightCurlyBrace && t.range.end >= t.range.start && t.range.end
            - t.range.start >= t.escaped && t.range.end - t.range.start - t.escaped == 2 {
            p.step();
            if let Some(q) = kind {
                let k = p.range_to_string(start_pos + 1..q);
                let args = p.range_to_string(q + 1..pos);
                return Some(Embed { kind: k, args });
            }
        } else if t.kind == TokenKind::Pipe && kind.is_none() {
            kind = Some(pos);
            p.step();
        } else {
            p.step();
        }
    }
    p.move_to(start_pos);
    p.flip_to_literal_at(start_pos);
    None
}

} // verus!
