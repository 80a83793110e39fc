//! Parsers that build document nodes straight from the tokens of the text, on a cursor that
//! takes tokens from the lexer as it goes and can step back over the ones it has taken.
use crate::lexer::{clean_cut, lemma_clean_cut, lemma_tokens_clean, spec_tokens, tiles, tokenize, Token, TokenKind};
use crate::op::parser::{span_of, toks_evolve};
use crate::op::to_yamd::op_text;
use crate::op::{lemma_escapes_bound, Content};
use std::ops::Range;
use vstd::prelude::*;
use vstd::string::StringSliceAdditionalSpecFns;

pub mod anchor;
pub mod bold;
pub mod code;
pub mod embed;
pub mod heading;
pub mod image;
pub mod inline;
pub mod list;
pub mod metadata;
pub mod highlight;
pub mod paragraph;

verus! {

/// A cursor over the tokens of `source`.
///
/// `tokens` holds every token of the text; the first `loaded` of them are those the cursor has
/// taken from the lexer so far (and the only ones whose kind may have been turned into a
/// literal), and `stack_pos` is the index of the next token.
pub struct Parser<'a> {
    pub source: &'a str,
    pub tokens: Vec<Token>,
    pub loaded: usize,
    pub stack_pos: usize,
}

/// The index of the first terminator at or after `k` in `toks`, or `toks.len()`.
pub open spec fn next_terminator(toks: Seq<Token>, k: int) -> int
    decreases toks.len() - k,
{
    if k < 0 || k >= toks.len() {
        toks.len() as int
    } else if toks[k].kind == TokenKind::Terminator {
        k
    } else {
        next_terminator(toks, k + 1)
    }
}

/// The index of the first token at or after `k` in `toks` that starts a line, or
/// `toks.len()`.
pub open spec fn next_line_start(toks: Seq<Token>, k: int) -> int
    decreases toks.len() - k,
{
    if k < 0 || k >= toks.len() {
        toks.len() as int
    } else if toks[k].position.column == 0 {
        k
    } else {
        next_line_start(toks, k + 1)
    }
}

/// The tokens `toks` with the kind of the one at `i` turned into a literal.
pub open spec fn flipped(toks: Seq<Token>, i: int) -> Seq<Token> {
    toks.update(i, Token { kind: TokenKind::Literal, ..toks[i] })
}

/// The larger of `a` and `b`.
pub open spec fn max_of(a: int, b: int) -> int {
    if a < b {
        b
    } else {
        a
    }
}

impl<'a> Parser<'a> {
    /// The tokens, as the cursor sees them now.
    pub open spec fn toks(&self) -> Seq<Token> {
        self.tokens@
    }

    /// The tokens of the text, as the lexer makes them.
    pub open spec fn lexed(&self) -> Seq<Token> {
        spec_tokens(self.source.spec_bytes())
    }

    /// The cursor's invariant: the tokens are those of the text, with the kinds of some that
    /// were taken turned into literals; the cursor is among the tokens taken.
    pub open spec fn wf(&self) -> bool {
        &&& toks_evolve(self.lexed(), self.toks())
        &&& forall|k: int|
            self.loaded <= k < self.toks().len() ==> #[trigger] self.toks()[k] == self.lexed()[k]
        &&& self.loaded <= self.toks().len()
        &&& self.stack_pos <= self.loaded
        &&& tiles(self.lexed(), 0, self.source.spec_bytes().len() as int)
        &&& forall|k: int|
            0 <= k < self.lexed().len() ==> clean_cut(
                self.source.spec_bytes(),
                #[trigger] self.lexed()[k].range.start as int,
            ) && clean_cut(self.source.spec_bytes(), self.lexed()[k].range.end as int)
    }

    /// A cursor at the start of `input`, with no token taken yet.
    pub fn new(input: &'a str) -> (r: Parser<'a>)
        ensures
            r.source == input,
            r.toks() == r.lexed(),
            r.loaded == 0,
            r.stack_pos == 0,
            r.wf(),
    {
        let len = input.as_bytes().len();
        let tokens = tokenize(input);
        proof {
            assert(len == input.spec_bytes().len());
            lemma_tokens_clean(input.spec_bytes());
        }
        Parser { source: input, tokens, loaded: 0, stack_pos: 0 }
    }

    /// Moves to the next token. Where the cursor is behind the tokens taken, it steps forward
    /// and returns the token after the one it steps onto, if that one was taken; else it takes
    /// a new token from the lexer and returns it.
    pub fn next_token(&mut self) -> (r: Option<&Token>)
        requires
            old(self).wf(),
        ensures
            final(self).wf(),
            final(self).source == old(self).source,
            final(self).toks() == old(self).toks(),
            old(self).stack_pos < old(self).loaded ==> {
                &&& final(self).stack_pos == old(self).stack_pos + 1
                &&& final(self).loaded == old(self).loaded
                &&& r == if old(self).stack_pos + 1 < old(self).loaded {
                    Some(&old(self).toks()[old(self).stack_pos + 1])
                } else {
                    None
                }
            },
            old(self).stack_pos == old(self).loaded && old(self).loaded < old(self).toks().len() ==> {
                &&& final(self).stack_pos == old(self).loaded + 1
                &&& final(self).loaded == old(self).loaded + 1
                &&& r == Some(&old(self).toks()[old(self).loaded as int])
            },
            old(self).stack_pos == old(self).loaded && old(self).loaded == old(self).toks().len() ==> {
                &&& final(self).stack_pos == old(self).stack_pos
                &&& final(self).loaded == old(self).loaded
                &&& r is None
            },
    {
        if self.loaded > self.stack_pos {
            self.stack_pos = self.stack_pos + 1;
            if self.stack_pos < self.loaded {
                return Some(&self.tokens[self.stack_pos]);
            }
            return None;
        }
        if self.loaded >= self.tokens.len() {
            return None;
        }
        self.loaded = self.loaded + 1;
        self.stack_pos = self.loaded;
        Some(&self.tokens[self.loaded - 1])
    }

    /// The token at the cursor and its index, without moving.
    pub fn peek(&self) -> (r: Option<(&Token, usize)>)
        requires
            self.wf(),
        ensures
            r == if self.stack_pos < self.toks().len() {
                Some((&self.toks()[self.stack_pos as int], self.stack_pos))
            } else {
                None
            },
    {
        if self.stack_pos < self.tokens.len() {
            Some((&self.tokens[self.stack_pos], self.stack_pos))
        } else {
            None
        }
    }

    /// The text of the tokens in `range`, among those taken, with their escapes removed.
    #[verifier::spinoff_prover]
    pub fn range_to_string(&self, range: Range<usize>) -> (r: String)
        requires
            self.wf(),
            range.start <= range.end <= self.loaded,
        ensures
            r@ == op_text(span_of(self.lexed(), range.start as int, range.end as int), self.source.spec_bytes()),
    {
        let sub = vstd::slice::slice_subrange(self.tokens.as_slice(), range.start, range.end);
        let ghost src = self.source.spec_bytes();
        proof {
            let a = range.start as int;
            let b = range.end as int;
            let t = self.toks();
            let l = self.lexed();
            assert(sub@ =~= t.subrange(a, b));
            assert forall|k: int| 0 <= k < sub@.len() implies #[trigger] sub@[k].escaped <= 1 by {
                assert(sub@[k] == t[a + k]);
                assert(t[a + k].escaped == l[a + k].escaped);
                assert(l[a + k].range.start < l[a + k].range.end);
                assert(l[a + k].escaped <= 1);
            }
            lemma_escapes_bound(sub@);
            vstd::utf8::encode_utf8_valid_utf8(self.source@);
            if a < b {
                assert(t[a].range == l[a].range);
                assert(t[b - 1].range == l[b - 1].range);
                assert(l[b - 1].range.end <= src.len()) by {
                    lemma_tiles_le(l, b - 1, src.len() as int);
                }
                assert(l[a].range.start <= l[b - 1].range.start) by {
                    lemma_tiles_mono(l, a, b - 1);
                }
                lemma_clean_cut(src, l[a].range.start as int);
                lemma_clean_cut(src, l[b - 1].range.end as int);
            }
        }
        let c = Content::from_tokens(sub);
        proof {
            let a = range.start as int;
            let b = range.end as int;
            lemma_content_of_kinds(self.toks().subrange(a, b), self.lexed().subrange(a, b));
        }
        let r = c.to_string(self.source);
        proof {
            vstd::utf8::encode_utf8_decode_utf8(r@);
        }
        r
    }

    /// Moves the cursor to `index`, if that token was taken.
    pub fn move_to(&mut self, index: usize)
        requires
            old(self).wf(),
        ensures
            final(self).wf(),
            final(self).source == old(self).source,
            final(self).toks() == old(self).toks(),
            final(self).loaded == old(self).loaded,
            final(self).stack_pos == if index < old(self).loaded {
                index
            } else {
                old(self).stack_pos
            },
    {
        if index < self.loaded {
            self.stack_pos = index;
        }
    }

    /// Turns the token at `index` into a literal, if it was taken; says whether it was.
    pub fn flip_to_literal_at(&mut self, index: usize) -> (r: bool)
        requires
            old(self).wf(),
        ensures
            final(self).wf(),
            final(self).source == old(self).source,
            final(self).loaded == old(self).loaded,
            final(self).stack_pos == old(self).stack_pos,
            r == (index < old(self).loaded),
            final(self).toks() == if r {
                flipped(old(self).toks(), index as int)
            } else {
                old(self).toks()
            },
    {
        if index < self.loaded {
            let t = &self.tokens[index];
            let nt = Token { kind: TokenKind::Literal, range: t.range.start..t.range.end, position: t.position, escaped: t.escaped };
            self.tokens.set(index, nt);
            proof {
                assert(self.toks() =~= flipped(old(self).toks(), index as int));
            }
            return true;
        }
        false
    }

    /// Moves past the token at the cursor, then on to the first token that `f` accepts, before
    /// a terminator. On success the cursor moves past that token and the result is the
    /// starting index and that token's index. Otherwise the cursor goes back to where it
    /// started and the token there becomes a literal.
    pub fn advance_until(&mut self, f: impl Fn(&Token) -> bool) -> (r: Option<(usize, usize)>)
        requires
            old(self).wf(),
            forall|t: &Token| #[trigger] f.requires((t,)),
        ensures
            final(self).wf(),
            final(self).source == old(self).source,
            match r {
                Some((a, j)) => {
                    &&& a == old(self).stack_pos
                    &&& old(self).stack_pos < j < next_terminator(old(self).toks(), old(self).stack_pos + 1)
                    &&& f.ensures((&old(self).toks()[j as int],), true)
                    &&& forall|k: int|
                        old(self).stack_pos < k < j ==> f.ensures((&old(self).toks()[k],), false)
                    &&& final(self).stack_pos == j + 1
                    &&& final(self).loaded == max_of(old(self).loaded as int, j + 1)
                    &&& final(self).toks() == old(self).toks()
                },
                None => {
                    &&& final(self).stack_pos == old(self).stack_pos
                    &&& forall|k: int|
                        old(self).stack_pos < k < next_terminator(old(self).toks(), old(self).stack_pos + 1)
                            ==> f.ensures((&old(self).toks()[k],), false)
                    &&& old(self).stack_pos < old(self).toks().len() ==> {
                        &&& final(self).loaded == max_of(
                            old(self).loaded as int,
                            next_terminator(old(self).toks(), old(self).stack_pos + 1),
                        )
                        &&& final(self).toks() == flipped(old(self).toks(), old(self).stack_pos as int)
                    }
                    &&& old(self).stack_pos >= old(self).toks().len() ==> {
                        &&& final(self).loaded == old(self).loaded
                        &&& final(self).toks() == old(self).toks()
                    }
                },
            },
    {
        let start = self.stack_pos;
        let n = self.tokens.len();
        if start >= n {
            return None;
        }
        self.stack_pos = start + 1;
        if self.loaded < self.stack_pos {
            self.loaded = self.stack_pos;
        }
        while self.stack_pos < n
            invariant
                n == self.toks().len(),
                start == old(self).stack_pos,
                start < self.stack_pos <= n,
                self.wf(),
                self.source == old(self).source,
                self.toks() == old(self).toks(),
                self.loaded == max_of(old(self).loaded as int, self.stack_pos as int),
                forall|t: &Token| #[trigger] f.requires((t,)),
                next_terminator(self.toks(), start + 1) == next_terminator(self.toks(), self.stack_pos as int),
                forall|k: int| start < k < self.stack_pos ==> f.ensures((&old(self).toks()[k],), false),
            ensures
                self.stack_pos == next_terminator(self.toks(), start + 1),
            decreases n - self.stack_pos,
        {
            if self.tokens[self.stack_pos].kind == TokenKind::Terminator {
                break;
            }
            if f(&self.tokens[self.stack_pos]) {
                proof {
                    lemma_next_terminator_ge(self.toks(), self.stack_pos + 1);
                }
                let found = self.stack_pos;
                self.stack_pos = found + 1;
                if self.loaded < self.stack_pos {
                    self.loaded = self.stack_pos;
                }
                return Some((start, found));
            }
            self.stack_pos = self.stack_pos + 1;
            if self.loaded < self.stack_pos {
                self.loaded = self.stack_pos;
            }
        }
        self.stack_pos = start;
        self.flip_to_literal_at(start);
        None
    }

    /// Moves past the token at the cursor, then on to the first token that starts a line. On
    /// success the cursor stops on that token and the result is the starting index and that
    /// token's index. Otherwise the cursor goes back to where it started and the token there
    /// becomes a literal.
    pub fn advance_until_new_line(&mut self) -> (r: Option<(usize, usize)>)
        requires
            old(self).wf(),
        ensures
            final(self).wf(),
            final(self).source == old(self).source,
            match r {
                Some((a, j)) => {
                    &&& a == old(self).stack_pos
                    &&& j == next_line_start(old(self).toks(), old(self).stack_pos + 1)
                    &&& j < old(self).toks().len()
                    &&& final(self).stack_pos == j
                    &&& final(self).loaded == max_of(old(self).loaded as int, j as int)
                    &&& final(self).toks() == old(self).toks()
                },
                None => {
                    &&& next_line_start(old(self).toks(), old(self).stack_pos + 1) >= old(self).toks().len()
                    &&& final(self).stack_pos == old(self).stack_pos
                    &&& old(self).stack_pos < old(self).toks().len() ==> {
                        &&& final(self).loaded == old(self).toks().len()
                        &&& final(self).toks() == flipped(old(self).toks(), old(self).stack_pos as int)
                    }
                    &&& old(self).stack_pos >= old(self).toks().len() ==> {
                        &&& final(self).loaded == old(self).loaded
                        &&& final(self).toks() == old(self).toks()
                    }
                },
            },
    {
        let start = self.stack_pos;
        let n = self.tokens.len();
        if start >= n {
            return None;
        }
        self.stack_pos = start + 1;
        if self.loaded < self.stack_pos {
            self.loaded = self.stack_pos;
        }
        while self.stack_pos < n
            invariant
                n == self.toks().len(),
                start == old(self).stack_pos,
                start < self.stack_pos <= n,
                self.wf(),
                self.source == old(self).source,
                self.toks() == old(self).toks(),
                self.loaded == max_of(old(self).loaded as int, self.stack_pos as int),
                next_line_start(self.toks(), start + 1) == next_line_start(self.toks(), self.stack_pos as int),
            decreases n - self.stack_pos,
        {
            if self.tokens[self.stack_pos].position.column == 0 {
                return Some((start, self.stack_pos));
            }
            self.stack_pos = self.stack_pos + 1;
            if self.loaded < self.stack_pos {
                self.loaded = self.stack_pos;
            }
        }
        self.stack_pos = start;
        self.flip_to_literal_at(start);
        None
    }

    /// Moves the cursor onto the next token, taking it from the lexer where it was not taken.
    pub(crate) fn step(&mut self)
        requires
            old(self).wf(),
            old(self).stack_pos < old(self).toks().len(),
        ensures
            final(self).wf(),
            final(self).source == old(self).source,
            final(self).toks() == old(self).toks(),
            final(self).stack_pos == old(self).stack_pos + 1,
            final(self).loaded == max_of(old(self).loaded as int, old(self).stack_pos + 1),
    {
        let n = self.tokens.len();
        assert(self.stack_pos < n);
        self.stack_pos = self.stack_pos + 1;
        if self.loaded < self.stack_pos {
            self.loaded = self.stack_pos;
        }
    }

    /// The index of the cursor.
    pub fn pos(&self) -> (r: usize)
        ensures
            r == self.stack_pos,
    {
        self.stack_pos
    }
}

/// The next terminator from `k` is the first token from `k` on whose kind is a terminator, or
/// the end where there is none.
pub proof fn law_next_terminator(toks: Seq<Token>, k: int)
    requires
        0 <= k <= toks.len(),
    ensures
        k <= next_terminator(toks, k) <= toks.len(),
        next_terminator(toks, k) < toks.len() ==> toks[next_terminator(toks, k)].kind == TokenKind::Terminator,
        forall|i: int| k <= i < next_terminator(toks, k) ==> (#[trigger] toks[i]).kind != TokenKind::Terminator,
    decreases toks.len() - k,
{
    if k < toks.len() && toks[k].kind != TokenKind::Terminator {
        law_next_terminator(toks, k + 1);
    }
}

proof fn lemma_next_terminator_ge(toks: Seq<Token>, k: int)
    requires
        0 <= k <= toks.len(),
    ensures
        k <= next_terminator(toks, k) <= toks.len(),
    decreases toks.len() - k,
{
    if k < toks.len() && toks[k].kind != TokenKind::Terminator {
        lemma_next_terminator_ge(toks, k + 1);
    }
}

/// What tokens make up does not depend on their kinds.
proof fn lemma_content_of_kinds(t: Seq<Token>, u: Seq<Token>)
    requires
        t.len() == u.len(),
        forall|i: int| 0 <= i < t.len() ==> (#[trigger] t[i]).range == u[i].range && t[i].escaped == u[i].escaped,
    ensures
        crate::op::content_of(t) == crate::op::content_of(u),
{
    lemma_escapes_of_kinds(t, u);
    if t.len() > 0 {
        assert(t[0].range == u[0].range);
        assert(t[t.len() - 1].range == u[u.len() - 1].range);
    }
}

proof fn lemma_escapes_of_kinds(t: Seq<Token>, u: Seq<Token>)
    requires
        t.len() == u.len(),
        forall|i: int| 0 <= i < t.len() ==> (#[trigger] t[i]).range == u[i].range && t[i].escaped == u[i].escaped,
    ensures
        crate::op::escapes_of(t) == crate::op::escapes_of(u),
    decreases t.len(),
{
    if t.len() > 0 {
        let t2 = t.drop_last();
        let u2 = u.drop_last();
        assert forall|i: int| 0 <= i < t2.len() implies (#[trigger] t2[i]).range == u2[i].range && t2[i].escaped
            == u2[i].escaped by {
            assert(t2[i] == t[i] && u2[i] == u[i]);
        }
        lemma_escapes_of_kinds(t2, u2);
        assert(t[t.len() - 1].escaped == u[u.len() - 1].escaped);
    }
}

/// In a tiling, every token ends at or before the end.
proof fn lemma_tiles_le(toks: Seq<Token>, k: int, hi: int)
    requires
        0 <= k < toks.len(),
        tiles(toks, 0, hi),
    ensures
        toks[k].range.end <= hi,
    decreases toks.len() - k,
{
    if k + 1 < toks.len() {
        lemma_tiles_le(toks, k + 1, hi);
    }
}

/// In a tiling, tokens start in order.
proof fn lemma_tiles_mono(toks: Seq<Token>, a: int, b: int)
    requires
        0 <= a <= b < toks.len(),
        crate::lexer::chained(toks),
    ensures
        toks[a].range.start <= toks[b].range.start,
    decreases b - a,
{
    if a < b {
        lemma_tiles_mono(toks, a, b - 1);
    }
}

} // verus!
