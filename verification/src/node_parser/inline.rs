//! Inline nodes that run from one delimiter token to the next one of the same kind: italic
//! text between `_`, struck-through text between `~~` and inline code between `` ` ``.
use crate::lexer::{Token, TokenKind};
use crate::node_parser::{flipped, law_next_terminator, max_of, next_terminator, Parser};
use crate::nodes::{CodeSpan, Emphasis, Italic, Strikethrough};
use crate::op::parser::span_of;
use crate::op::to_yamd::op_text;
use vstd::prelude::*;
use vstd::string::StringSliceAdditionalSpecFns;

verus! {

/// The token is a single `kind` character.
pub open spec fn is_single(t: Token, kind: TokenKind) -> bool {
    t.kind == kind && t.range.end - t.range.start - t.escaped == 1
}

/// The index of the first single `kind` token in `toks` from `k` on and before `end`, or
/// `end`.
pub open spec fn first_single(toks: Seq<Token>, k: int, end: int, kind: TokenKind) -> int
    decreases end - k,
{
    if k >= end || k < 0 || k >= toks.len() {
        end
    } else if is_single(toks[k], kind) {
        k
    } else {
        first_single(toks, k + 1, end, kind)
    }
}

proof fn lemma_first_single(toks: Seq<Token>, k: int, end: int, kind: TokenKind)
    requires
        0 <= k <= end <= toks.len(),
    ensures
        k <= first_single(toks, k, end, kind) <= end,
        first_single(toks, k, end, kind) < end ==> is_single(toks[first_single(toks, k, end, kind)], kind),
        forall|i: int| k <= i < first_single(toks, k, end, kind) ==> !is_single(toks[i], kind),
    decreases end - k,
{
    if k < end && !is_single(toks[k], kind) {
        lemma_first_single(toks, k + 1, end, kind);
    }
}

/// The closing delimiter of the span that opens at `start`: the first single `kind` token
/// after it and before the next terminator, if there is one.
pub open spec fn closing_single(toks: Seq<Token>, start: int, kind: TokenKind) -> Option<int> {
    let nt = next_terminator(toks, start + 1);
    let j = first_single(toks, start + 1, nt, kind);
    if j < nt {
        Some(j)
    } else {
        None
    }
}

/// The token is a single `_`.
fn is_single_underscore(t: &Token) -> (b: bool)
    ensures
        b == is_single(*t, TokenKind::Underscore),
{
    t.kind == TokenKind::Underscore && t.range.end >= t.range.start && t.range.end - t.range.start >= t.escaped
        && t.range.end - t.range.start - t.escaped == 1
}

/// The token is a single `` ` ``.
fn is_single_backtick(t: &Token) -> (b: bool)
    ensures
        b == is_single(*t, TokenKind::Backtick),
{
    t.kind == TokenKind::Backtick && t.range.end >= t.range.start && t.range.end - t.range.start >= t.escaped
        && t.range.end - t.range.start - t.escaped == 1
}

/// Italic text, `_text_`, from the `_` at the cursor to the next single `_` before a
/// terminator. On success the cursor moves past it. Otherwise the cursor stays where it was
/// and the token there becomes a literal.
pub fn italic(p: &mut Parser) -> (r: Option<Italic>)
    requires
        old(p).wf(),
    ensures
        final(p).wf(),
        final(p).source == old(p).source,
        ({
            let toks = old(p).toks();
            let start = old(p).stack_pos as int;
            match closing_single(toks, start, TokenKind::Underscore) {
                Some(j) => {
                    &&& r matches Some(i) && i.text@ == op_text(span_of(old(p).lexed(), start + 1, j), old(p).source.spec_bytes())
                    &&& final(p).stack_pos == j + 1
                    &&& final(p).loaded == max_of(old(p).loaded as int, j + 1)
                    &&& final(p).toks() == toks
                },
                None => {
                    &&& r is None
                    &&& final(p).stack_pos == start
                    &&& start < toks.len() ==> final(p).loaded == max_of(old(p).loaded as int, next_terminator(toks, start + 1))
                        && final(p).toks() == flipped(toks, start)
                    &&& start >= toks.len() ==> final(p).loaded == old(p).loaded && final(p).toks() == toks
                },
            }
        }),
{
    let ghost toks = p.toks();
    let ghost start = p.stack_pos as int;
    let found = p.advance_until(is_single_underscore);
    proof {
        lemma_closing_single(toks, start, TokenKind::Underscore);
    }
    match found {
        Some((a, j)) => {
            proof {
                lemma_found_single(toks, start, j as int, TokenKind::Underscore);
            }
            Some(Italic { text: p.range_to_string(a + 1..j) })
        },
        None => None,
    }
}

/// The token is a single `*`.
fn is_single_star(t: &Token) -> (b: bool)
    ensures
        b == is_single(*t, TokenKind::Star),
{
    t.kind == TokenKind::Star && t.range.end >= t.range.start && t.range.end - t.range.start >= t.escaped
        && t.range.end - t.range.start - t.escaped == 1
}

/// Emphasised text, `*text*`, from the `*` at the cursor to the next single `*` before a
/// terminator. On success the cursor moves past it. Otherwise the cursor stays where it was
/// and the token there becomes a literal.
pub fn emphasis(p: &mut Parser) -> (r: Option<Emphasis>)
    requires
        old(p).wf(),
    ensures
        final(p).wf(),
        final(p).source == old(p).source,
        ({
            let toks = old(p).toks();
            let start = old(p).stack_pos as int;
            match closing_single(toks, start, TokenKind::Star) {
                Some(j) => {
                    &&& r matches Some(i) && i.text@ == op_text(span_of(old(p).lexed(), start + 1, j), old(p).source.spec_bytes())
                    &&& final(p).stack_pos == j + 1
                    &&& final(p).loaded == max_of(old(p).loaded as int, j + 1)
                    &&& final(p).toks() == toks
                },
                None => {
                    &&& r is None
                    &&& final(p).stack_pos == start
                    &&& start < toks.len() ==> final(p).loaded == max_of(old(p).loaded as int, next_terminator(toks, start + 1))
                        && final(p).toks() == flipped(toks, start)
                    &&& start >= toks.len() ==> final(p).loaded == old(p).loaded && final(p).toks() == toks
                },
            }
        }),
{
    let ghost toks = p.toks();
    let ghost start = p.stack_pos as int;
    let found = p.advance_until(is_single_star);
    proof {
        lemma_closing_single(toks, start, TokenKind::Star);
    }
    match found {
        Some((a, j)) => {
            proof {
                lemma_found_single(toks, start, j as int, TokenKind::Star);
            }
            Some(Emphasis { text: p.range_to_string(a + 1..j) })
        },
        None => None,
    }
}

/// Inline code, `` `code` ``, from the `` ` `` at the cursor to the next single `` ` ``
/// before a terminator. On success the cursor moves past it. Otherwise the cursor stays where
/// it was and the token there becomes a literal.
pub fn code_span(p: &mut Parser) -> (r: Option<CodeSpan>)
    requires
        old(p).wf(),
    ensures
        final(p).wf(),
        final(p).source == old(p).source,
        ({
            let toks = old(p).toks();
            let start = old(p).stack_pos as int;
            match closing_single(toks, start, TokenKind::Backtick) {
                Some(j) => {
                    &&& r matches Some(c) && c.text@ == op_text(span_of(old(p).lexed(), start + 1, j), old(p).source.spec_bytes())
                    &&& final(p).stack_pos == j + 1
                    &&& final(p).loaded == max_of(old(p).loaded as int, j + 1)
                    &&& final(p).toks() == toks
                },
                None => {
                    &&& r is None
                    &&& final(p).stack_pos == start
                    &&& start < toks.len() ==> final(p).loaded == max_of(old(p).loaded as int, next_terminator(toks, start + 1))
                        && final(p).toks() == flipped(toks, start)
                    &&& start >= toks.len() ==> final(p).loaded == old(p).loaded && final(p).toks() == toks
                },
            }
        }),
{
    let ghost toks = p.toks();
    let ghost start = p.stack_pos as int;
    let found = p.advance_until(is_single_backtick);
    proof {
        lemma_closing_single(toks, start, TokenKind::Backtick);
    }
    match found {
        Some((a, j)) => {
            proof {
                lemma_found_single(toks, start, j as int, TokenKind::Backtick);
            }
            Some(CodeSpan { text: p.range_to_string(a + 1..j) })
        },
        None => None,
    }
}

/// Where no single `kind` token comes before the next terminator, there is no closing one.
proof fn lemma_closing_single(toks: Seq<Token>, start: int, kind: TokenKind)
    requires
        0 <= start,
    ensures
        (forall|k: int| start < k < next_terminator(toks, start + 1) ==> !is_single(#[trigger] toks[k], kind))
            ==> closing_single(toks, start, kind) is None,
{
    if start + 1 <= toks.len() {
        crate::node_parser::anchor::lemma_next_terminator_le(toks, start + 1);
        let nt = next_terminator(toks, start + 1);
        lemma_first_single(toks, start + 1, nt, kind);
        let f = first_single(toks, start + 1, nt, kind);
        if f < nt {
            assert(is_single(toks[f], kind));
        }
    }
}

/// A single `kind` token found after `start`, before the next terminator, with none before
/// it, is the closing one.
proof fn lemma_found_single(toks: Seq<Token>, start: int, j: int, kind: TokenKind)
    requires
        0 <= start < j < next_terminator(toks, start + 1),
        j < toks.len(),
        is_single(toks[j], kind),
        forall|k: int| start < k < j ==> !is_single(#[trigger] toks[k], kind),
    ensures
        closing_single(toks, start, kind) == Some(j),
{
    crate::node_parser::anchor::lemma_next_terminator_le(toks, start + 1);
    let nt = next_terminator(toks, start + 1);
    lemma_first_single(toks, start + 1, nt, kind);
    let f = first_single(toks, start + 1, nt, kind);
    if f < j {
        assert(is_single(toks[f], kind));
    }
}

/// The token is a pair of `kind` characters.
pub open spec fn is_pair(t: Token, kind: TokenKind) -> bool {
    t.kind == kind && t.range.end - t.range.start - t.escaped == 2
}

/// The index of the first pair of `kind` characters in `toks` from `k` on and before `end`, or
/// `end`.
pub open spec fn first_pair(toks: Seq<Token>, k: int, end: int, kind: TokenKind) -> int
    decreases end - k,
{
    if k >= end || k < 0 || k >= toks.len() {
        end
    } else if is_pair(toks[k], kind) {
        k
    } else {
        first_pair(toks, k + 1, end, kind)
    }
}

proof fn lemma_first_pair(toks: Seq<Token>, k: int, end: int, kind: TokenKind)
    requires
        0 <= k <= end <= toks.len(),
    ensures
        k <= first_pair(toks, k, end, kind) <= end,
        first_pair(toks, k, end, kind) < end ==> is_pair(toks[first_pair(toks, k, end, kind)], kind),
        forall|i: int| k <= i < first_pair(toks, k, end, kind) ==> !is_pair(toks[i], kind),
    decreases end - k,
{
    if k < end && !is_pair(toks[k], kind) {
        lemma_first_pair(toks, k + 1, end, kind);
    }
}

/// The closing delimiter of the span that opens at `start`: the first pair of `kind` characters
/// after it and before the next terminator, if there is one.
pub open spec fn closing_pair(toks: Seq<Token>, start: int, kind: TokenKind) -> Option<int> {
    let nt = next_terminator(toks, start + 1);
    let j = first_pair(toks, start + 1, nt, kind);
    if j < nt {
        Some(j)
    } else {
        None
    }
}

/// The token is `~~`.
fn is_tilde_pair(t: &Token) -> (b: bool)
    ensures
        b == is_pair(*t, TokenKind::Tilde),
{
    t.kind == TokenKind::Tilde && t.range.end >= t.range.start && t.range.end - t.range.start >= t.escaped
        && t.range.end - t.range.start - t.escaped == 2
}

/// Struck-through text, `~~text~~`, from the `~~` at the cursor to the next `~~` before a
/// terminator. On success the cursor moves past it. Otherwise the cursor stays where it was
/// and the token there becomes a literal.
pub fn strikethrough(p: &mut Parser) -> (r: Option<Strikethrough>)
    requires
        old(p).wf(),
    ensures
        final(p).wf(),
        final(p).source == old(p).source,
        ({
            let toks = old(p).toks();
            let start = old(p).stack_pos as int;
            match closing_pair(toks, start, TokenKind::Tilde) {
                Some(j) => {
                    &&& r matches Some(i) && i.text@ == op_text(span_of(old(p).lexed(), start + 1, j), old(p).source.spec_bytes())
                    &&& final(p).stack_pos == j + 1
                    &&& final(p).loaded == max_of(old(p).loaded as int, j + 1)
                    &&& final(p).toks() == toks
                },
                None => {
                    &&& r is None
                    &&& final(p).stack_pos == start
                    &&& start < toks.len() ==> final(p).loaded == max_of(old(p).loaded as int, next_terminator(toks, start + 1))
                        && final(p).toks() == flipped(toks, start)
                    &&& start >= toks.len() ==> final(p).loaded == old(p).loaded && final(p).toks() == toks
                },
            }
        }),
{
    let ghost toks = p.toks();
    let ghost start = p.stack_pos as int;
    let found = p.advance_until(is_tilde_pair);
    proof {
        lemma_closing_pair(toks, start, TokenKind::Tilde);
    }
    match found {
        Some((a, j)) => {
            proof {
                lemma_found_pair(toks, start, j as int, TokenKind::Tilde);
            }
            Some(Strikethrough { text: p.range_to_string(a + 1..j) })
        },
        None => None,
    }
}

/// Where no pair of `kind` characters comes before the next terminator, there is no closing one.
proof fn lemma_closing_pair(toks: Seq<Token>, start: int, kind: TokenKind)
    requires
        0 <= start,
    ensures
        (forall|k: int| start < k < next_terminator(toks, start + 1) ==> !is_pair(#[trigger] toks[k], kind))
            ==> closing_pair(toks, start, kind) is None,
{
    if start + 1 <= toks.len() {
        crate::node_parser::anchor::lemma_next_terminator_le(toks, start + 1);
        let nt = next_terminator(toks, start + 1);
        lemma_first_pair(toks, start + 1, nt, kind);
        let f = first_pair(toks, start + 1, nt, kind);
        if f < nt {
            assert(is_pair(toks[f], kind));
        }
    }
}

/// A pair of `kind` characters found after `start`, before the next terminator, with none before
/// it, is the closing one.
proof fn lemma_found_pair(toks: Seq<Token>, start: int, j: int, kind: TokenKind)
    requires
        0 <= start < j < next_terminator(toks, start + 1),
        j < toks.len(),
        is_pair(toks[j], kind),
        forall|k: int| start < k < j ==> !is_pair(#[trigger] toks[k], kind),
    ensures
        closing_pair(toks, start, kind) == Some(j),
{
    crate::node_parser::anchor::lemma_next_terminator_le(toks, start + 1);
    let nt = next_terminator(toks, start + 1);
    lemma_first_pair(toks, start + 1, nt, kind);
    let f = first_pair(toks, start + 1, nt, kind);
    if f < j {
        assert(is_pair(toks[f], kind));
    }
}

/// A closing delimiter comes after the opening one and before the end.
pub proof fn lemma_closing_bounds(toks: Seq<Token>, k: int, kind: TokenKind)
    requires
        0 <= k < toks.len(),
    ensures
        closing_single(toks, k, kind) matches Some(j) ==> k < j < toks.len(),
        closing_pair(toks, k, kind) matches Some(j) ==> k < j < toks.len(),
{
    crate::node_parser::anchor::lemma_next_terminator_le(toks, k + 1);
    let nt = next_terminator(toks, k + 1);
    lemma_first_single(toks, k + 1, nt, kind);
    lemma_first_pair(toks, k + 1, nt, kind);
}


/// The delimiter at `start` is closed at `j`: the first token after `start` that is a single
/// `kind` character, with no terminator from `start` up to it.
pub proof fn law_closing_single(toks: Seq<Token>, start: int, kind: TokenKind, j: int)
    requires
        0 <= start < j < toks.len(),
        toks[j].kind == kind && toks[j].range.end - toks[j].range.start - toks[j].escaped == 1,
        forall|i: int| start < i <= j ==> (#[trigger] toks[i]).kind != TokenKind::Terminator,
        forall|i: int|
            start < i < j ==> !((#[trigger] toks[i]).kind == kind && toks[i].range.end - toks[i].range.start
                - toks[i].escaped == 1),
    ensures
        closing_single(toks, start, kind) == Some(j),
{
    let nt = next_terminator(toks, start + 1);
    law_next_terminator(toks, start + 1);
    lemma_first_single(toks, start + 1, nt, kind);
    if nt <= j {
        if nt < toks.len() {
            assert(toks[nt].kind == TokenKind::Terminator);
        }
    }
    let f = first_single(toks, start + 1, nt, kind);
    if f < j {
        assert(is_single(toks[f], kind));
    }
    if f > j {
        assert(!is_single(toks[j], kind));
    }
}

/// The delimiter at `start` is not closed where no single `kind` character comes after it
/// before the next terminator.
pub proof fn law_closing_single_none(toks: Seq<Token>, start: int, kind: TokenKind)
    requires
        0 <= start < toks.len(),
        forall|i: int|
            start < i < toks.len() && (forall|m: int| start < m <= i ==> (#[trigger] toks[m]).kind != TokenKind::Terminator)
                ==> !((#[trigger] toks[i]).kind == kind && toks[i].range.end - toks[i].range.start - toks[i].escaped == 1),
    ensures
        closing_single(toks, start, kind) is None,
{
    let nt = next_terminator(toks, start + 1);
    law_next_terminator(toks, start + 1);
    lemma_first_single(toks, start + 1, nt, kind);
    let f = first_single(toks, start + 1, nt, kind);
    if f < nt {
        assert(is_single(toks[f], kind));
        assert forall|m: int| start < m <= f implies (#[trigger] toks[m]).kind != TokenKind::Terminator by {}
    }
}

/// The delimiter at `start` is closed at `j`: the first token after `start` that is a pair of
/// `kind` characters, with no terminator from `start` up to it.
pub proof fn law_closing_pair(toks: Seq<Token>, start: int, kind: TokenKind, j: int)
    requires
        0 <= start < j < toks.len(),
        toks[j].kind == kind && toks[j].range.end - toks[j].range.start - toks[j].escaped == 2,
        forall|i: int| start < i <= j ==> (#[trigger] toks[i]).kind != TokenKind::Terminator,
        forall|i: int|
            start < i < j ==> !((#[trigger] toks[i]).kind == kind && toks[i].range.end - toks[i].range.start
                - toks[i].escaped == 2),
    ensures
        closing_pair(toks, start, kind) == Some(j),
{
    let nt = next_terminator(toks, start + 1);
    law_next_terminator(toks, start + 1);
    lemma_first_pair(toks, start + 1, nt, kind);
    if nt <= j {
        if nt < toks.len() {
            assert(toks[nt].kind == TokenKind::Terminator);
        }
    }
    let f = first_pair(toks, start + 1, nt, kind);
    if f < j {
        assert(is_pair(toks[f], kind));
    }
    if f > j {
        assert(!is_pair(toks[j], kind));
    }
}

/// The delimiter at `start` is not closed where no pair of `kind` characters comes after it
/// before the next terminator.
pub proof fn law_closing_pair_none(toks: Seq<Token>, start: int, kind: TokenKind)
    requires
        0 <= start < toks.len(),
        forall|i: int|
            start < i < toks.len() && (forall|m: int| start < m <= i ==> (#[trigger] toks[m]).kind != TokenKind::Terminator)
                ==> !((#[trigger] toks[i]).kind == kind && toks[i].range.end - toks[i].range.start - toks[i].escaped == 2),
    ensures
        closing_pair(toks, start, kind) is None,
{
    let nt = next_terminator(toks, start + 1);
    law_next_terminator(toks, start + 1);
    lemma_first_pair(toks, start + 1, nt, kind);
    let f = first_pair(toks, start + 1, nt, kind);
    if f < nt {
        assert(is_pair(toks[f], kind));
        assert forall|m: int| start < m <= f implies (#[trigger] toks[m]).kind != TokenKind::Terminator by {}
    }
}

} // verus!
