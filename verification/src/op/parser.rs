//! The token-stream parser shared by every node parser of [`crate::op`].
use crate::lexer::{chained, tokenize, tiles, Token, TokenKind, spec_tokens};
use crate::op::laws::{balanced, covers};
use crate::op::{content_of, escapes_of, lemma_escapes_bound, Content, Node, Op, OpKind};
use std::ops::Range;
use vstd::prelude::*;
use vstd::string::*;

verus! {

/// Distinguishes unordered (`-`) from ordered (`+`) lists during parsing.
#[derive(Debug, Clone, Copy, PartialEq, Eq, Structural)]
pub enum ListKind {
    /// Unordered list, items prefixed with `-`. Maps to [`Node::UnorderedList`].
    Unordered,
    /// Ordered list, items prefixed with `+`. Maps to [`Node::OrderedList`].
    Ordered,
}

/// The node that a list of this kind becomes.
pub open spec fn list_node(kind: ListKind) -> Node {
    match kind {
        ListKind::Unordered => Node::UnorderedList,
        ListKind::Ordered => Node::OrderedList,
    }
}

/// The byte length of a token.
pub open spec fn tok_len(t: Token) -> int {
    t.range.end - t.range.start
}

/// The list kind that a marker token opens: `-` or `+`, one byte long.
pub open spec fn kind_of_marker(t: Token) -> Option<ListKind> {
    if t.kind == TokenKind::Minus && tok_len(t) == 1 {
        Some(ListKind::Unordered)
    } else if t.kind == TokenKind::Plus && tok_len(t) == 1 {
        Some(ListKind::Ordered)
    } else {
        None
    }
}

impl ListKind {
    /// The node that a list of this kind becomes.
    pub fn node(&self) -> (r: Node)
        ensures
            r == list_node(*self),
    {
        match self {
            ListKind::Unordered => Node::UnorderedList,
            ListKind::Ordered => Node::OrderedList,
        }
    }

    /// The kind of list that the marker `t` opens, if it is one.
    pub fn from_marker(t: &Token) -> (r: Option<ListKind>)
        ensures
            r == kind_of_marker(*t),
    {
        if t.kind == TokenKind::Minus && t.range.end >= t.range.start && t.range.end
            - t.range.start == 1 {
            Some(ListKind::Unordered)
        } else if t.kind == TokenKind::Plus && t.range.end >= t.range.start && t.range.end
            - t.range.start == 1 {
            Some(ListKind::Ordered)
        } else {
            None
        }
    }
}

/// Defines when the parser should treat the current position as a logical end-of-input.
///
/// Stop conditions are pushed onto a stack via [`Parser::with_eof`] and checked by
/// [`Parser::at_eof`]. This lets nested parsers (e.g., a paragraph inside a collapsible block)
/// stop at their enclosing delimiter without consuming it.
#[derive(Debug, Clone, Copy, PartialEq, Eq, Structural)]
pub enum StopCondition {
    /// Double newline — separates block-level elements.
    Terminator,
    /// `%}` at column 0 — ends a collapsible block.
    CollapsibleEnd,
    /// `!!` (two bangs) at column 0 — ends a highlight block.
    HighlightEnd,
    /// A list marker at or below the given nesting level — signals a sibling or parent item.
    ListBoundary { level: usize, kind: ListKind },
}

/// `t` is a list marker of kind `kind` (any kind for `None`).
pub open spec fn is_list_marker(t: Token, kind: Option<ListKind>) -> bool {
    match kind {
        Some(k) => kind_of_marker(t) == Some(k),
        None => kind_of_marker(t) is Some,
    }
}

/// `t` is a single space.
pub open spec fn is_space_1(t: Token) -> bool {
    t.kind == TokenKind::Space && tok_len(t) == 1
}

/// A list item of nesting level `level` (and kind `kind`, if given) starts at token `pos`:
/// at column 0, `level` spaces (none for level 0), a marker and one space.
pub open spec fn item_start_at(toks: Seq<Token>, pos: int, level: int, kind: Option<ListKind>) -> bool {
    if level == 0 {
        &&& 0 <= pos
        &&& pos + 1 < toks.len()
        &&& toks[pos].position.column == 0
        &&& is_list_marker(toks[pos], kind)
        &&& is_space_1(toks[pos + 1])
    } else {
        &&& 0 <= pos
        &&& pos + 2 < toks.len()
        &&& toks[pos].position.column == 0
        &&& toks[pos].kind == TokenKind::Space
        &&& tok_len(toks[pos]) == level
        &&& is_list_marker(toks[pos + 1], kind)
        &&& is_space_1(toks[pos + 2])
    }
}

/// Some level in `from..=max` has a list item starting at `pos`; at level `current` it must be
/// of kind `kind`.
pub open spec fn boundary_from(
    toks: Seq<Token>,
    pos: int,
    current: int,
    kind: ListKind,
    from: int,
    max: int,
) -> bool
    decreases max + 1 - from,
{
    if from > max || from < 0 {
        false
    } else {
        item_start_at(toks, pos, from, if from == current { Some(kind) } else { None })
            || boundary_from(toks, pos, current, kind, from + 1, max)
    }
}

/// The token at `pos` meets the stop condition `c`.
pub open spec fn cond_matches(c: StopCondition, toks: Seq<Token>, pos: int) -> bool {
    let t = toks[pos];
    match c {
        StopCondition::Terminator => t.kind == TokenKind::Terminator,
        StopCondition::CollapsibleEnd => t.kind == TokenKind::CollapsibleEnd && t.position.column
            == 0,
        StopCondition::HighlightEnd => t.kind == TokenKind::Bang && t.position.column == 0
            && tok_len(t) == 2,
        StopCondition::ListBoundary { level, kind } => t.position.column == 0 && boundary_from(
            toks,
            pos,
            level as int,
            kind,
            0,
            level + 1,
        ),
    }
}

/// Position `pos` is a logical end of input: past the last token, or a stop condition on the
/// stack holds there.
pub open spec fn eof_at(toks: Seq<Token>, stack: Seq<StopCondition>, pos: int) -> bool {
    ||| pos < 0
    ||| pos >= toks.len()
    ||| exists|i: int| 0 <= i < stack.len() && cond_matches(#[trigger] stack[i], toks, pos)
}

/// The stop conditions can be checked without overflow.
pub open spec fn stack_ok(stack: Seq<StopCondition>) -> bool {
    forall|i: int|
        0 <= i < stack.len() ==> match #[trigger] stack[i] {
            StopCondition::ListBoundary { level, .. } => level + 1 < usize::MAX,
            _ => true,
        }
}

/// The first index at or after `k` whose token satisfies `m`, scanning no further than the
/// first logical end of input.
pub open spec fn until(
    toks: Seq<Token>,
    stack: Seq<StopCondition>,
    k: int,
    m: spec_fn(Token) -> bool,
) -> Option<int>
    decreases toks.len() - k,
{
    if k < 0 || k >= toks.len() || eof_at(toks, stack, k) {
        None
    } else if m(toks[k]) {
        Some(k)
    } else {
        until(toks, stack, k + 1, m)
    }
}

/// What [`until`] finds is a token at or after `k`, before the first logical end of input,
/// that satisfies `m`; every token before it, from `k` on, does not.
pub proof fn lemma_until(toks: Seq<Token>, stack: Seq<StopCondition>, k: int, m: spec_fn(Token) -> bool)
    ensures
        until(toks, stack, k, m) matches Some(j) ==> {
            &&& k <= j < toks.len()
            &&& 0 <= k
            &&& m(toks[j])
            &&& clear(toks, stack, k, j + 1)
        },
    decreases toks.len() - k,
{
    if !(k < 0 || k >= toks.len() || eof_at(toks, stack, k)) && !m(toks[k]) {
        lemma_until(toks, stack, k + 1, m);
    }
}

/// With one more stop condition on the stack, a position is an end of input when it was one
/// already or the new condition holds there.
pub proof fn lemma_eof_push(toks: Seq<Token>, stack: Seq<StopCondition>, c: StopCondition, k: int)
    requires
        0 <= k < toks.len(),
    ensures
        eof_at(toks, stack.push(c), k) == (eof_at(toks, stack, k) || cond_matches(c, toks, k)),
{
    let s2 = stack.push(c);
    if eof_at(toks, stack, k) {
        let i = choose|i: int| 0 <= i < stack.len() && cond_matches(#[trigger] stack[i], toks, k);
        assert(s2[i] == stack[i]);
    }
    if cond_matches(c, toks, k) {
        assert(s2[stack.len() as int] == c);
    }
    if eof_at(toks, s2, k) {
        let i = choose|i: int| 0 <= i < s2.len() && cond_matches(#[trigger] s2[i], toks, k);
        if i < stack.len() {
            assert(s2[i] == stack[i]);
        }
    }
}

/// No position in `a..b` is a logical end of input.
pub open spec fn clear(toks: Seq<Token>, stack: Seq<StopCondition>, a: int, b: int) -> bool {
    forall|k: int| a <= k < b ==> !#[trigger] eof_at(toks, stack, k)
}

/// A run of positions that are no end of input, up to one that is, ends at the first end of
/// input.
pub proof fn lemma_first_eof_clear(toks: Seq<Token>, stack: Seq<StopCondition>, a: int, b: int)
    requires
        0 <= a <= b,
        clear(toks, stack, a, b),
        eof_at(toks, stack, b),
    ensures
        first_eof(toks, stack, a) == b,
    decreases b - a,
{
    if a < b {
        assert(!eof_at(toks, stack, a));
        lemma_first_eof_clear(toks, stack, a + 1, b);
    }
}

/// A token that no stop condition can match: no terminator, `%}`, `!!`, single `-` or `+`, or
/// space.
pub open spec fn never_stops(t: Token) -> bool {
    !(t.kind == TokenKind::Terminator || t.kind == TokenKind::CollapsibleEnd || (t.kind
        == TokenKind::Bang && tok_len(t) == 2) || ((t.kind == TokenKind::Minus || t.kind
        == TokenKind::Plus) && tok_len(t) == 1) || t.kind == TokenKind::Space)
}

proof fn lemma_no_boundary(
    toks: Seq<Token>,
    pos: int,
    current: int,
    kind: ListKind,
    from: int,
    max: int,
)
    requires
        0 <= pos < toks.len(),
        never_stops(toks[pos]),
    ensures
        !boundary_from(toks, pos, current, kind, from, max),
    decreases max + 1 - from,
{
    if !(from > max || from < 0) {
        lemma_no_boundary(toks, pos, current, kind, from + 1, max);
    }
}

/// A token that no stop condition can match is no logical end of input.
pub proof fn lemma_not_eof(toks: Seq<Token>, stack: Seq<StopCondition>, k: int)
    requires
        0 <= k < toks.len(),
        never_stops(toks[k]),
    ensures
        !eof_at(toks, stack, k),
{
    assert forall|i: int| 0 <= i < stack.len() implies !cond_matches(#[trigger] stack[i], toks, k) by {
        match stack[i] {
            StopCondition::ListBoundary { level, kind } => {
                lemma_no_boundary(toks, k, level as int, kind, 0, level + 1);
            },
            _ => {},
        }
    }
}

/// Position `k` is a logical end of input or holds a terminator.
pub open spec fn block_boundary(toks: Seq<Token>, stack: Seq<StopCondition>, k: int) -> bool {
    eof_at(toks, stack, k) || (0 <= k < toks.len() && toks[k].kind == TokenKind::Terminator)
}

/// The first index at or after `k` that is a logical end of input.
pub open spec fn first_eof(toks: Seq<Token>, stack: Seq<StopCondition>, k: int) -> int
    decreases toks.len() - k,
{
    if k < 0 || k >= toks.len() || eof_at(toks, stack, k) {
        k
    } else {
        first_eof(toks, stack, k + 1)
    }
}

/// The first logical end of input at or after `k` is not before `k`.
pub proof fn lemma_first_eof_ge(toks: Seq<Token>, stack: Seq<StopCondition>, k: int)
    ensures
        first_eof(toks, stack, k) >= k,
        0 <= k <= toks.len() ==> first_eof(toks, stack, k) <= toks.len(),
    decreases toks.len() - k,
{
    if !(k < 0 || k >= toks.len() || eof_at(toks, stack, k)) {
        lemma_first_eof_ge(toks, stack, k + 1);
    }
}

/// The byte offset where token `k` starts, or the end of the last token for `k == len`.
pub open spec fn bpos(toks: Seq<Token>, k: int) -> int {
    if 0 <= k < toks.len() {
        toks[k].range.start as int
    } else if toks.len() > 0 {
        toks.last().range.end as int
    } else {
        0
    }
}

/// The content of the tokens `a..b`.
pub open spec fn span_of(toks: Seq<Token>, a: int, b: int) -> Content {
    content_of(toks.subrange(a, b))
}

/// The tokens `new` are `old` with some kinds turned into literals.
pub open spec fn toks_evolve(old: Seq<Token>, new: Seq<Token>) -> bool {
    &&& new.len() == old.len()
    &&& forall|k: int|
        0 <= k < old.len() ==> {
            &&& (#[trigger] new[k]).range == old[k].range
            &&& new[k].position == old[k].position
            &&& new[k].escaped == old[k].escaped
            &&& (new[k].kind == old[k].kind || new[k].kind == TokenKind::Literal)
        }
}

/// `a` and `b` agree but for their stop-condition stacks.
pub open spec fn same_but_stack<'a>(a: Parser<'a>, b: Parser<'a>) -> bool {
    &&& a.source == b.source
    &&& a.toks() == b.toks()
    &&& a.pos == b.pos
    &&& a.ops == b.ops
}

/// `s` with its last `n` elements taken off (all of them where it has fewer).
pub open spec fn pop_n<A>(s: Seq<A>, n: nat) -> Seq<A> {
    if n <= s.len() {
        s.subrange(0, s.len() - n)
    } else {
        Seq::empty()
    }
}

/// `toks` with the token at `k`, if there is one, turned into a literal.
pub open spec fn flipped(toks: Seq<Token>, k: int) -> Seq<Token> {
    if 0 <= k < toks.len() {
        toks.update(k, Token { kind: TokenKind::Literal, ..toks[k] })
    } else {
        toks
    }
}

/// Turning a token literal is an evolution of the tokens.
pub proof fn lemma_flip_evolve(toks: Seq<Token>, k: int)
    ensures
        toks_evolve(toks, flipped(toks, k)),
{
}

/// Token-stream parser that produces a flat [`Op`] sequence.
///
/// Wraps the lexer output with a position cursor, a [`StopCondition`] stack for context-sensitive
/// end-of-input detection, and an output buffer of [`Op`]s.
///
/// Node-specific parsing functions (e.g., `heading`, `paragraph`) receive `&mut Parser`, match
/// tokens, and push results to [`ops`](Parser::ops). On mismatch they restore
/// [`pos`](Parser::pos) and truncate `ops` to backtrack.
pub struct Parser<'a> {
    pub source: &'a str,
    pub tokens: Vec<Token>,
    pub pos: usize,
    pub eof_stack: Vec<StopCondition>,
    pub ops: Vec<Op>,
}

impl<'a> Parser<'a> {
    /// The tokens.
    pub open spec fn toks(&self) -> Seq<Token> {
        self.tokens@
    }

    /// The stop-condition stack, innermost last.
    pub open spec fn stack(&self) -> Seq<StopCondition> {
        self.eof_stack@
    }

    /// The parser's invariant: the cursor is within the tokens, the tokens are non-empty and
    /// contiguous, and the stop conditions can be checked.
    pub open spec fn wf(&self) -> bool {
        &&& self.pos <= self.toks().len()
        &&& chained(self.toks())
        &&& stack_ok(self.stack())
    }

    /// The cursor is at a logical end of input.
    pub open spec fn spec_at_eof(&self) -> bool {
        eof_at(self.toks(), self.stack(), self.pos as int)
    }

    /// Creates a parser over the tokens of `input`, at the first token, with no stop
    /// conditions and no operations.
    pub fn new(input: &'a str) -> (r: Parser<'a>)
        ensures
            r.source == input,
            r.toks() == spec_tokens(input.spec_bytes()),
            tiles(r.toks(), 0, input.spec_bytes().len() as int),
            r.pos == 0,
            r.stack().len() == 0,
            r.ops@.len() == 0,
            r.wf(),
    {
        let tokens = tokenize(input);
        Parser { source: input, tokens, pos: 0, eof_stack: Vec::new(), ops: Vec::new() }
    }

    /// Returns `true` when the position cursor has passed the last token.
    pub fn is_eof(&self) -> (r: bool)
        ensures
            r == (self.pos >= self.toks().len()),
    {
        self.pos >= self.tokens.len()
    }

    /// Returns the total number of tokens.
    pub fn len(&self) -> (r: usize)
        ensures
            r == self.toks().len(),
    {
        self.tokens.len()
    }

    /// Returns `true` if the token stream is empty.
    pub fn is_empty(&self) -> (r: bool)
        ensures
            r == (self.toks().len() == 0),
    {
        self.tokens.len() == 0
    }

    /// Returns the token at `index`, or `None` if out of bounds.
    pub fn get(&self, index: usize) -> (r: Option<&Token>)
        ensures
            index < self.toks().len() ==> r == Some(&self.toks()[index as int]),
            index >= self.toks().len() ==> r is None,
    {
        if index < self.tokens.len() {
            Some(&self.tokens[index])
        } else {
            None
        }
    }

    /// Returns the current position and token, or `None` at end-of-stream.
    pub fn peek(&self) -> (r: Option<(usize, &Token)>)
        ensures
            self.pos < self.toks().len() ==> r == Some((self.pos, &self.toks()[self.pos as int])),
            self.pos >= self.toks().len() ==> r is None,
    {
        if self.pos < self.tokens.len() {
            Some((self.pos, &self.tokens[self.pos]))
        } else {
            None
        }
    }

    /// Advances the cursor by one and returns the previous position, or `None` at
    /// end-of-stream.
    pub fn advance(&mut self) -> (r: Option<usize>)
        ensures
            final(self).source == old(self).source,
            final(self).toks() == old(self).toks(),
            final(self).stack() == old(self).stack(),
            final(self).ops == old(self).ops,
            old(self).pos < old(self).toks().len() ==> r == Some(old(self).pos) && final(self).pos
                == old(self).pos + 1,
            old(self).pos >= old(self).toks().len() ==> r is None && final(self).pos == old(
                self,
            ).pos,
    {
        if self.pos >= self.tokens.len() {
            return None;
        }
        let pos = self.pos;
        self.pos = self.pos + 1;
        Some(pos)
    }

    /// Returns a slice of tokens for the given index range.
    pub fn slice(&self, range: Range<usize>) -> (r: &[Token])
        requires
            range.start <= range.end <= self.toks().len(),
        ensures
            r@ == self.toks().subrange(range.start as int, range.end as int),
    {
        vstd::slice::slice_subrange(self.tokens.as_slice(), range.start, range.end)
    }

    /// Advances the cursor by one. Does nothing at end-of-stream.
    pub fn next(&mut self)
        ensures
            final(self).source == old(self).source,
            final(self).toks() == old(self).toks(),
            final(self).stack() == old(self).stack(),
            final(self).ops == old(self).ops,
            final(self).pos == if old(self).pos < old(self).toks().len() {
                old(self).pos + 1
            } else {
                old(self).pos as int
            },
    {
        if self.pos < self.tokens.len() {
            self.pos = self.pos + 1;
        }
    }

    /// Consumes the current token if `pred` returns `true`. Returns the token index range on
    /// match, or `None` (without advancing) on mismatch.
    pub fn eat(&mut self, pred: impl Fn(&Token) -> bool) -> (r: Option<Range<usize>>)
        requires
            forall|t: &Token| #[trigger] pred.requires((t,)),
        ensures
            final(self).source == old(self).source,
            final(self).toks() == old(self).toks(),
            final(self).stack() == old(self).stack(),
            final(self).ops == old(self).ops,
            match r {
                Some(range) => {
                    &&& old(self).pos < old(self).toks().len()
                    &&& pred.ensures((&old(self).toks()[old(self).pos as int],), true)
                    &&& range == (Range { start: old(self).pos, end: (old(self).pos + 1) as usize })
                    &&& final(self).pos == old(self).pos + 1
                },
                None => {
                    &&& final(self).pos == old(self).pos
                    &&& old(self).pos < old(self).toks().len() ==> pred.ensures(
                        (&old(self).toks()[old(self).pos as int],),
                        false,
                    )
                },
            },
    {
        if self.pos >= self.tokens.len() {
            return None;
        }
        let token = &self.tokens[self.pos];
        if pred(token) {
            let start = self.pos;
            self.pos = self.pos + 1;
            Some(start..self.pos)
        } else {
            None
        }
    }

    /// Consumes the current token if it satisfies `pred`, whose meaning is `m`.
    pub(crate) fn eat_where(
        &mut self,
        pred: impl Fn(&Token) -> bool,
        Ghost(m): Ghost<spec_fn(Token) -> bool>,
    ) -> (r: Option<Range<usize>>)
        requires
            forall|t: &Token| #[trigger] pred.requires((t,)),
            forall|t: &Token, b: bool| pred.ensures((t,), b) ==> b == m(*t),
        ensures
            final(self).source == old(self).source,
            final(self).toks() == old(self).toks(),
            final(self).stack() == old(self).stack(),
            final(self).ops == old(self).ops,
            (old(self).pos < old(self).toks().len() && m(old(self).toks()[old(self).pos as int]))
                ==> r == Some(Range { start: old(self).pos, end: (old(self).pos + 1) as usize })
                && final(self).pos == old(self).pos + 1,
            !(old(self).pos < old(self).toks().len() && m(old(self).toks()[old(self).pos as int]))
                ==> r is None && final(self).pos == old(self).pos,
    {
        if self.pos >= self.tokens.len() {
            return None;
        }
        let token = &self.tokens[self.pos];
        if pred(token) {
            let start = self.pos;
            self.pos = self.pos + 1;
            Some(start..self.pos)
        } else {
            None
        }
    }

    /// Returns `true` if the current token satisfies `pred`, without consuming it.
    pub fn at(&self, pred: impl Fn(&Token) -> bool) -> (r: bool)
        requires
            forall|t: &Token| #[trigger] pred.requires((t,)),
        ensures
            self.pos < self.toks().len() ==> pred.ensures((&self.toks()[self.pos as int],), r),
            self.pos >= self.toks().len() ==> !r,
    {
        if self.pos < self.tokens.len() {
            pred(&self.tokens[self.pos])
        } else {
            false
        }
    }

    /// Pushes a stop condition.
    pub(crate) fn push_eof(&mut self, cond: StopCondition)
        ensures
            final(self).source == old(self).source,
            final(self).toks() == old(self).toks(),
            final(self).stack() == old(self).stack().push(cond),
            final(self).ops == old(self).ops,
            final(self).pos == old(self).pos,
    {
        self.eof_stack.push(cond);
    }

    /// Pops the innermost stop condition.
    pub(crate) fn pop_eof(&mut self)
        ensures
            final(self).source == old(self).source,
            final(self).toks() == old(self).toks(),
            final(self).stack() == if old(self).stack().len() > 0 {
                old(self).stack().drop_last()
            } else {
                old(self).stack()
            },
            final(self).ops == old(self).ops,
            final(self).pos == old(self).pos,
    {
        self.eof_stack.pop();
    }

    /// Pushes `cond` onto the stop-condition stack, runs `f`, then pops it.
    /// This scopes a stop condition to a parsing function — nested parsers see the condition
    /// via [`at_eof`](Parser::at_eof) and stop before consuming the delimiter.
    ///
    /// `f` runs on this parser with `cond` pushed; its result is returned, and the parser is
    /// what `f` left with the innermost stop condition popped.
    pub fn with_eof<R>(&mut self, cond: StopCondition, f: impl FnOnce(&mut Self) -> R) -> (r: R)
        requires
            forall|s: &mut Self| #[trigger] f.requires((s,)),
        ensures
            exists|m: &mut Self|
                {
                    &&& same_but_stack(*m, *old(self))
                    &&& (*m).stack() == old(self).stack().push(cond)
                    &&& #[trigger] f.ensures((m,), r)
                    &&& same_but_stack(*final(self), *final(m))
                    &&& final(self).stack() == pop_n(final(m).stack(), 1)
                },
    {
        self.eof_stack.push(cond);
        let result = f(self);
        self.eof_stack.pop();
        result
    }

    /// Like [`with_eof`](Parser::with_eof) but pushes multiple conditions at once.
    ///
    /// `f` runs on this parser with `conds` pushed in order; its result is returned, and the
    /// parser is what `f` left with as many stop conditions popped as were pushed.
    pub fn with_eofs<R>(&mut self, conds: &[StopCondition], f: impl FnOnce(&mut Self) -> R) -> (r: R)
        requires
            forall|s: &mut Self| #[trigger] f.requires((s,)),
        ensures
            exists|m: &mut Self|
                {
                    &&& same_but_stack(*m, *old(self))
                    &&& (*m).stack() == old(self).stack() + conds@
                    &&& #[trigger] f.ensures((m,), r)
                    &&& same_but_stack(*final(self), *final(m))
                    &&& final(self).stack() == pop_n(final(m).stack(), conds@.len())
                },
    {
        let mut i: usize = 0;
        while i < conds.len()
            invariant
                i <= conds@.len(),
                same_but_stack(*self, *old(self)),
                self.stack() == old(self).stack() + conds@.subrange(0, i as int),
            decreases conds@.len() - i,
        {
            self.eof_stack.push(conds[i]);
            proof {
                assert(conds@.subrange(0, i + 1) =~= conds@.subrange(0, i as int).push(conds@[i as int]));
            }
            i = i + 1;
        }
        proof {
            assert(conds@.subrange(0, conds@.len() as int) =~= conds@);
        }
        let ghost before = *self;
        let result = f(self);
        let ghost after = *self;
        let mut j: usize = 0;
        while j < conds.len()
            invariant
                j <= conds@.len(),
                same_but_stack(*self, after),
                self.stack() == pop_n(after.stack(), j as nat),
            decreases conds@.len() - j,
        {
            self.eof_stack.pop();
            j = j + 1;
        }
        result
    }

    /// Changes the token at `pos` to [`Literal`](TokenKind::Literal).
    /// Used during backtracking to prevent a special character from being re-interpreted
    /// as a delimiter on the next parse attempt.
    pub fn flip_to_literal(&mut self, pos: usize)
        ensures
            final(self).source == old(self).source,
            final(self).stack() == old(self).stack(),
            final(self).ops == old(self).ops,
            final(self).pos == old(self).pos,
            final(self).toks() == flipped(old(self).toks(), pos as int),
    {
        if pos < self.tokens.len() {
            let t = &self.tokens[pos];
            let flipped = Token {
                kind: TokenKind::Literal,
                range: t.range.start..t.range.end,
                position: t.position,
                escaped: t.escaped,
            };
            self.tokens.set(pos, flipped);
        }
    }

    /// Converts a token index range into a [`Content`] using the tokens' byte ranges and
    /// escapes.
    pub fn span(&self, range: Range<usize>) -> (r: Content)
        requires
            range.start <= range.end <= self.toks().len(),
            chained(self.toks()),
        ensures
            r == span_of(self.toks(), range.start as int, range.end as int),
    {
        let n = self.tokens.len();
        let toks = self.slice(range);
        proof {
            let sub = self.toks().subrange(range.start as int, range.end as int);
            assert forall|k: int| 0 <= k < sub.len() implies #[trigger] sub[k].escaped <= 1 by {
                assert(sub[k] == self.toks()[range.start + k]);
                assert(self.toks()[range.start + k].range.start < self.toks()[range.start
                    + k].range.end);
            }
            lemma_escapes_bound(sub);
        }
        Content::from_tokens(toks)
    }

    /// Consumes the parser and returns the accumulated operations.
    pub fn into_ops(self) -> (r: Vec<Op>)
        ensures
            r == self.ops,
    {
        self.ops
    }
}


fn is_list_marker_exec(t: &Token, kind: Option<ListKind>) -> (r: bool)
    ensures
        r == is_list_marker(*t, kind),
{
    let k = ListKind::from_marker(t);
    match kind {
        Some(want) => match k {
            Some(got) => got == want,
            None => false,
        },
        None => k.is_some(),
    }
}

fn is_space_1_exec(t: &Token) -> (r: bool)
    ensures
        r == is_space_1(*t),
{
    t.kind == TokenKind::Space && t.range.end >= t.range.start && t.range.end - t.range.start
        == 1
}

pub(crate) fn item_start_exec(p: &Parser, level: usize, kind: Option<ListKind>) -> (r: bool)
    ensures
        r == item_start_at(p.toks(), p.pos as int, level as int, kind),
{
    let n = p.tokens.len();
    let pos = p.pos;
    if level == 0 {
        pos < n && n - pos > 1 && p.tokens[pos].position.column == 0 && is_list_marker_exec(
            &p.tokens[pos],
            kind,
        ) && is_space_1_exec(&p.tokens[pos + 1])
    } else {
        pos < n && n - pos > 2 && p.tokens[pos].position.column == 0 && p.tokens[pos].kind
            == TokenKind::Space && p.tokens[pos].range.end >= p.tokens[pos].range.start
            && p.tokens[pos].range.end - p.tokens[pos].range.start == level
            && is_list_marker_exec(&p.tokens[pos + 1], kind) && is_space_1_exec(
            &p.tokens[pos + 2],
        )
    }
}

/// A list item of some level up to `max_level` starts at the cursor; at `current_level` it
/// must be of kind `kind`.
fn at_list_boundary(p: &Parser, current_level: usize, max_level: usize, kind: ListKind) -> (r:
    bool)
    requires
        max_level < usize::MAX,
    ensures
        r == boundary_from(p.toks(), p.pos as int, current_level as int, kind, 0, max_level as int),
{
    let mut level: usize = 0;
    while level <= max_level
        invariant
            level <= max_level + 1,
            max_level < usize::MAX,
            boundary_from(p.toks(), p.pos as int, current_level as int, kind, 0, max_level as int)
                == boundary_from(
                p.toks(),
                p.pos as int,
                current_level as int,
                kind,
                level as int,
                max_level as int,
            ),
        decreases max_level + 1 - level,
    {
        let k = if level == current_level {
            Some(kind)
        } else {
            None
        };
        if item_start_exec(p, level, k) {
            return true;
        }
        level = level + 1;
    }
    false
}

impl StopCondition {
    /// The token at the cursor meets this condition.
    fn matches(&self, token: &Token, parser: &Parser) -> (r: bool)
        requires
            parser.pos < parser.toks().len(),
            *token == parser.toks()[parser.pos as int],
            match *self {
                StopCondition::ListBoundary { level, .. } => level + 1 < usize::MAX,
                _ => true,
            },
        ensures
            r == cond_matches(*self, parser.toks(), parser.pos as int),
    {
        match self {
            StopCondition::Terminator => token.kind == TokenKind::Terminator,
            StopCondition::CollapsibleEnd => token.kind == TokenKind::CollapsibleEnd
                && token.position.column == 0,
            StopCondition::HighlightEnd => token.kind == TokenKind::Bang && token.position.column
                == 0 && token.range.end >= token.range.start && token.range.end
                - token.range.start == 2,
            StopCondition::ListBoundary { level, kind } => token.position.column == 0
                && at_list_boundary(parser, *level, *level + 1, *kind),
        }
    }
}

impl<'a> Parser<'a> {
    /// Returns `true` if at end-of-stream or the current token matches any condition on the
    /// stop-condition stack.
    pub fn at_eof(&self) -> (r: bool)
        requires
            stack_ok(self.stack()),
        ensures
            r == self.spec_at_eof(),
    {
        if self.pos >= self.tokens.len() {
            return true;
        }
        let token = &self.tokens[self.pos];
        let n = self.eof_stack.len();
        let mut i: usize = 0;
        while i < n
            invariant
                n == self.stack().len(),
                i <= n,
                self.pos < self.toks().len(),
                *token == self.toks()[self.pos as int],
                stack_ok(self.stack()),
                forall|j: int| 0 <= j < i ==> !cond_matches(#[trigger] self.stack()[j], self.toks(), self.pos as int),
            decreases n - i,
        {
            if self.eof_stack[i].matches(token, self) {
                return true;
            }
            i = i + 1;
        }
        false
    }

    /// Returns `true` if at a block boundary — either at logical EOF or at a
    /// [`Terminator`](StopCondition::Terminator) token.
    pub fn at_block_boundary(&self) -> (r: bool)
        requires
            stack_ok(self.stack()),
        ensures
            r == block_boundary(self.toks(), self.stack(), self.pos as int),
    {
        self.at_eof() || (self.pos < self.tokens.len() && self.tokens[self.pos].kind
            == TokenKind::Terminator)
    }

    /// Scans forward from the current position looking for a token that satisfies `matcher`.
    /// Returns `(before_range, match_range)` on success, where `before_range` covers tokens
    /// before the match and `match_range` covers the matched token. Backtracks to the starting
    /// position if no match is found before EOF or a stop condition.
    pub fn advance_until(&mut self, matcher: impl Fn(&Token) -> bool) -> (r: Option<
        (Range<usize>, Range<usize>),
    >)
        requires
            old(self).wf(),
            forall|t: &Token| #[trigger] matcher.requires((t,)),
        ensures
            final(self).source == old(self).source,
            final(self).toks() == old(self).toks(),
            final(self).stack() == old(self).stack(),
            final(self).ops == old(self).ops,
            match r {
                Some((before, found)) => {
                    &&& before.start == old(self).pos
                    &&& before.start <= before.end
                    &&& before.end == found.start
                    &&& found.end == found.start + 1
                    &&& found.start < first_eof(old(self).toks(), old(self).stack(), old(self).pos as int)
                    &&& final(self).pos == found.end
                    &&& matcher.ensures((&old(self).toks()[found.start as int],), true)
                    &&& forall|k: int|
                        old(self).pos <= k < found.start ==> matcher.ensures((&old(self).toks()[k],), false)
                },
                None => {
                    &&& final(self).pos == old(self).pos
                    &&& forall|k: int|
                        old(self).pos <= k < first_eof(old(self).toks(), old(self).stack(), old(self).pos as int)
                            ==> matcher.ensures((&old(self).toks()[k],), false)
                },
            },
    {
        let start = self.pos;
        let n = self.tokens.len();
        while self.pos < n
            invariant
                n == self.toks().len(),
                start == old(self).pos,
                start <= self.pos <= n,
                self.wf(),
                self.toks() == old(self).toks(),
                self.stack() == old(self).stack(),
                self.source == old(self).source,
                self.ops == old(self).ops,
                forall|t: &Token| #[trigger] matcher.requires((t,)),
                first_eof(self.toks(), self.stack(), start as int) == first_eof(self.toks(), self.stack(), self.pos as int),
                forall|k: int|
                    start <= k < self.pos ==> matcher.ensures((&old(self).toks()[k],), false),
            ensures
                eof_at(self.toks(), self.stack(), self.pos as int),
            decreases n - self.pos,
        {
            if self.at_eof() {
                break;
            }
            if matcher(&self.tokens[self.pos]) {
                proof {
                    lemma_first_eof_ge(self.toks(), self.stack(), self.pos + 1);
                }
                let before = start..self.pos;
                let match_start = self.pos;
                self.pos = self.pos + 1;
                return Some((before, match_start..self.pos));
            }
            self.pos = self.pos + 1;
        }
        assert(first_eof(self.toks(), self.stack(), self.pos as int) == self.pos);
        self.pos = start;
        None
    }

    /// Scans forward like [`advance_until`](Parser::advance_until) for a token that satisfies
    /// `matcher`, whose meaning is `m`.
    pub(crate) fn scan_until(
        &mut self,
        matcher: impl Fn(&Token) -> bool,
        Ghost(m): Ghost<spec_fn(Token) -> bool>,
    ) -> (r: Option<(Range<usize>, Range<usize>)>)
        requires
            old(self).wf(),
            forall|t: &Token| #[trigger] matcher.requires((t,)),
            forall|t: &Token, b: bool| matcher.ensures((t,), b) ==> b == m(*t),
        ensures
            final(self).source == old(self).source,
            final(self).toks() == old(self).toks(),
            final(self).stack() == old(self).stack(),
            final(self).ops == old(self).ops,
            match until(old(self).toks(), old(self).stack(), old(self).pos as int, m) {
                Some(j) => r == Some(
                    (
                        Range { start: old(self).pos, end: j as usize },
                        Range { start: j as usize, end: (j + 1) as usize },
                    ),
                ) && final(self).pos == j + 1,
                None => r is None && final(self).pos == old(self).pos,
            },
    {
        let start = self.pos;
        let n = self.tokens.len();
        while self.pos < n
            invariant
                n == self.toks().len(),
                start == old(self).pos,
                start <= self.pos <= n,
                self.wf(),
                self.toks() == old(self).toks(),
                self.stack() == old(self).stack(),
                self.source == old(self).source,
                self.ops == old(self).ops,
                forall|t: &Token| #[trigger] matcher.requires((t,)),
                forall|t: &Token, b: bool| matcher.ensures((t,), b) ==> b == m(*t),
                until(self.toks(), self.stack(), start as int, m) == until(
                    self.toks(),
                    self.stack(),
                    self.pos as int,
                    m,
                ),
            ensures
                eof_at(self.toks(), self.stack(), self.pos as int),
            decreases n - self.pos,
        {
            if self.at_eof() {
                break;
            }
            if matcher(&self.tokens[self.pos]) {
                let before = start..self.pos;
                let match_start = self.pos;
                self.pos = self.pos + 1;
                return Some((before, match_start..self.pos));
            }
            self.pos = self.pos + 1;
        }
        assert(until(self.toks(), self.stack(), self.pos as int, m) is None);
        self.pos = start;
        None
    }
}

/// Token predicate that matches an end-of-line token.
pub fn eol(t: &Token) -> (r: bool)
    ensures
        r == (t.kind == TokenKind::Eol),
{
    t.kind == TokenKind::Eol
}

} // verus!
