//! Splits source text into [`Token`]s.
//!
//! Every byte of the input belongs to exactly one token, in order. Special characters become
//! tokens of their own kind (runs of the same character are grouped, except brackets and
//! parentheses, which are always one byte long). Everything else is a [`TokenKind::Literal`];
//! a literal also takes up the spaces that follow it. A `\` starts a new literal that takes the
//! next byte verbatim (an escape).
use std::ops::Range;
use vstd::prelude::*;
use vstd::string::*;

verus! {

/// The kind of a [`Token`].
#[derive(Debug, Clone, Copy, PartialEq, Eq, Structural)]
pub enum TokenKind {
    /// `!` run
    Bang,
    /// `` ` `` run
    Backtick,
    /// `%}`
    CollapsibleEnd,
    /// `{%`
    CollapsibleStart,
    /// a single `\n`
    Eol,
    /// `#` run
    Hash,
    /// `{` run
    LeftCurlyBrace,
    /// `(`
    LeftParenthesis,
    /// `[`
    LeftSquareBracket,
    /// anything else, including escapes
    Literal,
    /// `-` run
    Minus,
    /// `|` run
    Pipe,
    /// `+` run
    Plus,
    /// `}` run
    RightCurlyBrace,
    /// `)`
    RightParenthesis,
    /// `]`
    RightSquareBracket,
    /// ` ` run that does not follow a literal
    Space,
    /// `*` run
    Star,
    /// two or more `\n`
    Terminator,
    /// `~` run
    Tilde,
    /// `_` run
    Underscore,
}

/// Where a token starts: its byte offset from the start of its line.
#[derive(Debug, Clone, Copy, PartialEq, Eq, Structural)]
pub struct Position {
    pub column: usize,
}

impl Default for Position {
    fn default() -> (r: Position)
        ensures
            r.column == 0,
    {
        Position { column: 0 }
    }
}

/// A lexical token: its kind, the byte range it covers in the source, where it starts on its
/// line and how many `\`-escapes it contains.
#[derive(Debug, PartialEq)]
pub struct Token {
    pub kind: TokenKind,
    pub range: Range<usize>,
    pub position: Position,
    pub escaped: usize,
}

impl Token {
    /// Creates a token without escapes.
    pub fn new(kind: TokenKind, range: Range<usize>, position: Position) -> (r: Token)
        ensures
            r.kind == kind,
            r.range == range,
            r.position == position,
            r.escaped == 0,
    {
        Token { kind, range, position, escaped: 0 }
    }
}

/// The kind of a token made of a run of the byte `b`, if `b` forms runs.
pub open spec fn run_kind(b: u8) -> Option<TokenKind> {
    if b == 42u8 {
        Some(TokenKind::Star)
    } else if b == 126u8 {
        Some(TokenKind::Tilde)
    } else if b == 95u8 {
        Some(TokenKind::Underscore)
    } else if b == 96u8 {
        Some(TokenKind::Backtick)
    } else if b == 35u8 {
        Some(TokenKind::Hash)
    } else if b == 45u8 {
        Some(TokenKind::Minus)
    } else if b == 43u8 {
        Some(TokenKind::Plus)
    } else if b == 33u8 {
        Some(TokenKind::Bang)
    } else if b == 124u8 {
        Some(TokenKind::Pipe)
    } else if b == 32u8 {
        Some(TokenKind::Space)
    } else if b == 123u8 {
        Some(TokenKind::LeftCurlyBrace)
    } else if b == 125u8 {
        Some(TokenKind::RightCurlyBrace)
    } else {
        None
    }
}

/// The kind of a one-byte token made of `b`, if `b` is a bracket or a parenthesis.
pub open spec fn single_kind(b: u8) -> Option<TokenKind> {
    if b == 91u8 {
        Some(TokenKind::LeftSquareBracket)
    } else if b == 93u8 {
        Some(TokenKind::RightSquareBracket)
    } else if b == 40u8 {
        Some(TokenKind::LeftParenthesis)
    } else if b == 41u8 {
        Some(TokenKind::RightParenthesis)
    } else {
        None
    }
}

/// `%}` starts at `k`.
pub open spec fn collapsible_end_at(s: Seq<u8>, k: int) -> bool {
    0 <= k && k + 1 < s.len() && s[k] == 37u8 && s[k + 1] == 125u8
}

/// `{%` starts at `k`.
pub open spec fn collapsible_start_at(s: Seq<u8>, k: int) -> bool {
    0 <= k && k + 1 < s.len() && s[k] == 123u8 && s[k + 1] == 37u8
}

/// The byte at `k` ends a literal: a newline, a backslash, a bracket, a parenthesis, a
/// run-forming byte other than space, or the start of `%}`.
pub open spec fn breaks_literal(s: Seq<u8>, k: int) -> bool {
    ||| s[k] == 10u8
    ||| s[k] == 92u8
    ||| single_kind(s[k]) is Some
    ||| (run_kind(s[k]) is Some && s[k] != 32u8)
    ||| collapsible_end_at(s, k)
}

/// The end of the run of byte `b` that continues at `k`.
pub open spec fn run_end(s: Seq<u8>, k: int, b: u8) -> int
    decreases s.len() - k,
{
    if k < 0 || k >= s.len() || s[k] != b {
        k
    } else {
        run_end(s, k + 1, b)
    }
}

/// The end of the literal that continues at `k`.
pub open spec fn literal_end(s: Seq<u8>, k: int) -> int
    decreases s.len() - k,
{
    if k < 0 || k >= s.len() || breaks_literal(s, k) {
        k
    } else {
        literal_end(s, k + 1)
    }
}

/// The kind, end and number of escapes of the token that starts at `i`.
pub open spec fn token_at(s: Seq<u8>, i: int) -> (TokenKind, int, usize) {
    let b = s[i];
    if b == 10u8 {
        if i + 1 < s.len() && s[i + 1] == 10u8 {
            (TokenKind::Terminator, run_end(s, i + 1, 10u8), 0)
        } else {
            (TokenKind::Eol, i + 1, 0)
        }
    } else if b == 92u8 {
        if i + 1 < s.len() {
            (TokenKind::Literal, literal_end(s, i + 2), 1)
        } else {
            (TokenKind::Literal, i + 1, 0)
        }
    } else if collapsible_start_at(s, i) {
        (TokenKind::CollapsibleStart, i + 2, 0)
    } else if collapsible_end_at(s, i) {
        (TokenKind::CollapsibleEnd, i + 2, 0)
    } else if single_kind(b) is Some {
        (single_kind(b).unwrap(), i + 1, 0)
    } else if run_kind(b) is Some {
        (run_kind(b).unwrap(), run_end(s, i + 1, b), 0)
    } else {
        (TokenKind::Literal, literal_end(s, i + 1), 0)
    }
}

/// Where the line that holds byte `i` starts.
pub open spec fn line_start(s: Seq<u8>, i: int) -> int
    decreases i,
{
    if i <= 0 {
        0
    } else if s[i - 1] == 10u8 {
        i
    } else {
        line_start(s, i - 1)
    }
}

/// The token that starts at `i`.
pub open spec fn spec_token(s: Seq<u8>, i: int) -> Token {
    let (kind, end, escaped) = token_at(s, i);
    Token {
        kind,
        range: Range { start: i as usize, end: end as usize },
        position: Position { column: (i - line_start(s, i)) as usize },
        escaped,
    }
}

/// The tokens of `s` from byte `i` on.
pub open spec fn spec_tokens_from(s: Seq<u8>, i: int) -> Seq<Token>
    decreases s.len() - i,
{
    if i < 0 || i >= s.len() {
        Seq::empty()
    } else {
        let end = token_at(s, i).1;
        if end <= i || end > s.len() {
            Seq::empty()
        } else {
            seq![spec_token(s, i)] + spec_tokens_from(s, end)
        }
    }
}

/// The tokens of `s`.
pub open spec fn spec_tokens(s: Seq<u8>) -> Seq<Token> {
    spec_tokens_from(s, 0)
}

/// Each token is at least one byte long, holds at most one escape, and starts where the
/// previous one ends.
pub open spec fn chained(toks: Seq<Token>) -> bool {
    &&& forall|k: int|
        0 <= k < toks.len() ==> #[trigger] toks[k].range.start < toks[k].range.end
            && toks[k].escaped <= 1
    &&& forall|k: int|
        0 <= k < toks.len() - 1 ==> #[trigger] toks[k].range.end == toks[k + 1].range.start
}

/// The tokens cover the bytes `lo..hi` exactly once, in order, each token at least one byte.
pub open spec fn tiles(toks: Seq<Token>, lo: int, hi: int) -> bool {
    &&& toks.len() == 0 ==> lo == hi
    &&& toks.len() > 0 ==> toks[0].range.start == lo && toks.last().range.end == hi
    &&& chained(toks)
}

proof fn lemma_run_end(s: Seq<u8>, k: int, b: u8)
    requires
        0 <= k <= s.len(),
    ensures
        k <= run_end(s, k, b) <= s.len(),
    decreases s.len() - k,
{
    if k < s.len() && s[k] == b {
        lemma_run_end(s, k + 1, b);
    }
}

proof fn lemma_literal_end(s: Seq<u8>, k: int)
    requires
        0 <= k <= s.len(),
    ensures
        k <= literal_end(s, k) <= s.len(),
    decreases s.len() - k,
{
    if k < s.len() && !breaks_literal(s, k) {
        lemma_literal_end(s, k + 1);
    }
}

/// The token at `i` is not empty and ends inside `s`.
pub proof fn lemma_token_at(s: Seq<u8>, i: int)
    requires
        0 <= i < s.len(),
    ensures
        i < token_at(s, i).1 <= s.len(),
{
    lemma_run_end(s, i + 1, s[i]);
    lemma_run_end(s, i + 1, 10u8);
    if i + 2 <= s.len() {
        lemma_literal_end(s, i + 2);
    }
    lemma_literal_end(s, i + 1);
}

/// The tokens from `i` on tile `i..s.len()`.
pub proof fn lemma_tokens_tile(s: Seq<u8>, i: int)
    requires
        0 <= i <= s.len(),
        s.len() <= usize::MAX,
    ensures
        tiles(spec_tokens_from(s, i), i, s.len() as int),
        forall|k: int|
            0 <= k < spec_tokens_from(s, i).len() ==> #[trigger] spec_tokens_from(s, i)[k]
                == spec_token(s, spec_tokens_from(s, i)[k].range.start as int),
    decreases s.len() - i,
{
    if i < s.len() {
        lemma_token_at(s, i);
        let end = token_at(s, i).1;
        lemma_tokens_tile(s, end);
        let rest = spec_tokens_from(s, end);
        let all = spec_tokens_from(s, i);
        assert(all == seq![spec_token(s, i)] + rest);
        assert forall|k: int| 0 <= k < all.len() - 1 implies #[trigger] all[k].range.end
            == all[k + 1].range.start by {
            if k > 0 {
                assert(all[k] == rest[k - 1]);
                assert(all[k + 1] == rest[k]);
            }
        }
        assert forall|k: int| 0 <= k < all.len() implies #[trigger] all[k]
            == spec_token(s, all[k].range.start as int) by {
            if k > 0 {
                assert(all[k] == rest[k - 1]);
            }
        }
    }
}


proof fn lemma_line_start(s: Seq<u8>, i: int)
    requires
        0 <= i,
    ensures
        0 <= line_start(s, i) <= i,
    decreases i,
{
    if i > 0 && s[i - 1] != 10u8 {
        lemma_line_start(s, i - 1);
    }
}

fn exec_run_end(s: &[u8], k: usize, b: u8) -> (r: usize)
    requires
        k <= s@.len(),
    ensures
        r == run_end(s@, k as int, b),
{
    let mut j = k;
    while j < s.len() && s[j] == b
        invariant
            k <= j <= s@.len(),
            run_end(s@, j as int, b) == run_end(s@, k as int, b),
        decreases s@.len() - j,
    {
        j += 1;
    }
    j
}

fn exec_run_kind(b: u8) -> (r: Option<TokenKind>)
    ensures
        r == run_kind(b),
{
    if b == 42u8 {
        Some(TokenKind::Star)
    } else if b == 126u8 {
        Some(TokenKind::Tilde)
    } else if b == 95u8 {
        Some(TokenKind::Underscore)
    } else if b == 96u8 {
        Some(TokenKind::Backtick)
    } else if b == 35u8 {
        Some(TokenKind::Hash)
    } else if b == 45u8 {
        Some(TokenKind::Minus)
    } else if b == 43u8 {
        Some(TokenKind::Plus)
    } else if b == 33u8 {
        Some(TokenKind::Bang)
    } else if b == 124u8 {
        Some(TokenKind::Pipe)
    } else if b == 32u8 {
        Some(TokenKind::Space)
    } else if b == 123u8 {
        Some(TokenKind::LeftCurlyBrace)
    } else if b == 125u8 {
        Some(TokenKind::RightCurlyBrace)
    } else {
        None
    }
}

fn exec_single_kind(b: u8) -> (r: Option<TokenKind>)
    ensures
        r == single_kind(b),
{
    if b == 91u8 {
        Some(TokenKind::LeftSquareBracket)
    } else if b == 93u8 {
        Some(TokenKind::RightSquareBracket)
    } else if b == 40u8 {
        Some(TokenKind::LeftParenthesis)
    } else if b == 41u8 {
        Some(TokenKind::RightParenthesis)
    } else {
        None
    }
}

fn exec_breaks_literal(s: &[u8], k: usize) -> (r: bool)
    requires
        k < s@.len(),
    ensures
        r == breaks_literal(s@, k as int),
{
    let b = s[k];
    if b == 10u8 || b == 92u8 {
        return true;
    }
    if exec_single_kind(b).is_some() {
        return true;
    }
    if b != 32u8 && exec_run_kind(b).is_some() {
        return true;
    }
    b == 37u8 && k + 1 < s.len() && s[k + 1] == 125u8
}

fn exec_literal_end(s: &[u8], k: usize) -> (r: usize)
    requires
        k <= s@.len(),
    ensures
        r == literal_end(s@, k as int),
{
    let mut j = k;
    while j < s.len() && !exec_breaks_literal(s, j)
        invariant
            k <= j <= s@.len(),
            literal_end(s@, j as int) == literal_end(s@, k as int),
        decreases s@.len() - j,
    {
        j += 1;
    }
    j
}

fn exec_token_at(s: &[u8], i: usize) -> (r: (TokenKind, usize, usize))
    requires
        i < s@.len(),
    ensures
        r.0 == token_at(s@, i as int).0,
        r.1 == token_at(s@, i as int).1,
        r.2 == token_at(s@, i as int).2,
{
    proof {
        lemma_token_at(s@, i as int);
    }
    let b = s[i];
    if b == 10u8 {
        if i + 1 < s.len() && s[i + 1] == 10u8 {
            (TokenKind::Terminator, exec_run_end(s, i + 1, 10u8), 0)
        } else {
            (TokenKind::Eol, i + 1, 0)
        }
    } else if b == 92u8 {
        if i + 1 < s.len() {
            (TokenKind::Literal, exec_literal_end(s, i + 2), 1)
        } else {
            (TokenKind::Literal, i + 1, 0)
        }
    } else if b == 123u8 && i + 1 < s.len() && s[i + 1] == 37u8 {
        (TokenKind::CollapsibleStart, i + 2, 0)
    } else if b == 37u8 && i + 1 < s.len() && s[i + 1] == 125u8 {
        (TokenKind::CollapsibleEnd, i + 2, 0)
    } else if let Some(k) = exec_single_kind(b) {
        (k, i + 1, 0)
    } else if let Some(k) = exec_run_kind(b) {
        (k, exec_run_end(s, i + 1, b), 0)
    } else {
        (TokenKind::Literal, exec_literal_end(s, i + 1), 0)
    }
}

/// Splits `input` into tokens.
pub fn tokenize(input: &str) -> (r: Vec<Token>)
    ensures
        r@ == spec_tokens(input.spec_bytes()),
        tiles(r@, 0, input.spec_bytes().len() as int),
{
    let s = input.as_bytes();
    let ghost sb = s@;
    let n = s.len();
    assert(sb.len() == n);
    let mut out: Vec<Token> = Vec::new();
    let mut i: usize = 0;
    let mut ls: usize = 0;
    proof {
        lemma_tokens_tile(sb, 0);
    }
    while i < s.len()
        invariant
            sb == s@,
            sb == input.spec_bytes(),
            i <= sb.len(),
            ls == line_start(sb, i as int),
            spec_tokens(sb) == out@ + spec_tokens_from(sb, i as int),
        decreases sb.len() - i,
    {
        let (kind, end, escaped) = exec_token_at(s, i);
        proof {
            lemma_token_at(sb, i as int);
            lemma_line_start(sb, i as int);
        }
        let tok = Token { kind, range: i..end, position: Position { column: i - ls }, escaped };
        proof {
            assert(tok == spec_token(sb, i as int));
            assert(spec_tokens_from(sb, i as int) == seq![tok] + spec_tokens_from(sb, end as int));
            assert(out@.push(tok) + spec_tokens_from(sb, end as int) == out@ + (seq![tok]
                + spec_tokens_from(sb, end as int)));
        }
        out.push(tok);
        let mut k = i;
        while k < end
            invariant
                sb == s@,
                i <= k <= end,
                end <= sb.len(),
                ls == line_start(sb, k as int),
            decreases end - k,
        {
            if s[k] == 10u8 {
                ls = k + 1;
            }
            k += 1;
        }
        i = end;
    }
    proof {
        assert(spec_tokens_from(sb, i as int) == Seq::<Token>::empty());
        assert(out@ + Seq::<Token>::empty() == out@);
    }
    out
}

/// Escaping does not depend on context: a `\` followed by a byte starts a literal token that
/// holds that byte and counts one escape.
pub proof fn law_escape_is_literal(s: Seq<u8>, i: int)
    requires
        0 <= i,
        i + 1 < s.len(),
        s.len() <= usize::MAX,
        s[i] == 92u8,
    ensures
        spec_token(s, i).kind == TokenKind::Literal,
        spec_token(s, i).escaped == 1,
        i + 2 <= spec_token(s, i).range.end,
{
    lemma_literal_end(s, i + 2);
    lemma_token_at(s, i);
}

/// The run of `b` from `k` is maximal: every byte in it is `b`, and the byte after it, if
/// any, is not.
proof fn lemma_run_end_max(s: Seq<u8>, k: int, b: u8)
    requires
        0 <= k <= s.len(),
    ensures
        forall|m: int| k <= m < run_end(s, k, b) ==> s[m] == b,
        run_end(s, k, b) == s.len() || s[run_end(s, k, b)] != b,
    decreases s.len() - k,
{
    if k < s.len() && s[k] == b {
        lemma_run_end_max(s, k + 1, b);
    }
}

/// A `\n` starts an end of line when no `\n` follows it, and otherwise a terminator that
/// holds the whole run of `\n` from it and at least two of them.
pub proof fn law_newline_token(s: Seq<u8>, i: int)
    requires
        0 <= i < s.len(),
        s[i] == 10u8,
    ensures
        ({
            let t = token_at(s, i);
            if i + 1 < s.len() && s[i + 1] == 10u8 {
                &&& t.0 == TokenKind::Terminator
                &&& i + 2 <= t.1 <= s.len()
                &&& forall|m: int| i <= m < t.1 ==> s[m] == 10u8
                &&& t.1 == s.len() || s[t.1] != 10u8
            } else {
                t.0 == TokenKind::Eol && t.1 == i + 1
            }
        }),
{
    if i + 1 < s.len() && s[i + 1] == 10u8 {
        lemma_run_end(s, i + 1, 10u8);
        lemma_run_end_max(s, i + 1, 10u8);
        lemma_run_end_max(s, i + 2, 10u8);
        assert(run_end(s, i + 1, 10u8) == run_end(s, i + 2, 10u8));
    }
}

/// A token that starts with one of the bytes `*~_#-+!| {}` ``` ` ```, other than the start of
/// `{%` or `%}`, holds the whole run of that byte from it and no escape, and its kind is that
/// byte's: `*` Star, `~` Tilde, `_` Underscore, `` ` `` Backtick, `#` Hash, `-` Minus, `+` Plus,
/// `!` Bang, `|` Pipe, space Space, `{` LeftCurlyBrace, `}` RightCurlyBrace.
pub proof fn law_run_token(s: Seq<u8>, i: int)
    requires
        0 <= i < s.len(),
        s[i] == 42u8 || s[i] == 126u8 || s[i] == 95u8 || s[i] == 96u8 || s[i] == 35u8 || s[i] == 45u8 || s[i] == 43u8
            || s[i] == 33u8 || s[i] == 124u8 || s[i] == 32u8 || s[i] == 123u8 || s[i] == 125u8,
        !(i + 1 < s.len() && s[i] == 123u8 && s[i + 1] == 37u8),
    ensures
        ({
            let t = token_at(s, i);
            &&& t.2 == 0
            &&& i < t.1 <= s.len()
            &&& forall|m: int| i <= m < t.1 ==> s[m] == s[i]
            &&& t.1 == s.len() || s[t.1] != s[i]
            &&& t.0 == if s[i] == 42u8 {
                TokenKind::Star
            } else if s[i] == 126u8 {
                TokenKind::Tilde
            } else if s[i] == 95u8 {
                TokenKind::Underscore
            } else if s[i] == 96u8 {
                TokenKind::Backtick
            } else if s[i] == 35u8 {
                TokenKind::Hash
            } else if s[i] == 45u8 {
                TokenKind::Minus
            } else if s[i] == 43u8 {
                TokenKind::Plus
            } else if s[i] == 33u8 {
                TokenKind::Bang
            } else if s[i] == 124u8 {
                TokenKind::Pipe
            } else if s[i] == 32u8 {
                TokenKind::Space
            } else if s[i] == 123u8 {
                TokenKind::LeftCurlyBrace
            } else {
                TokenKind::RightCurlyBrace
            }
        }),
{
    lemma_run_end(s, i + 1, s[i]);
    lemma_run_end_max(s, i + 1, s[i]);
}

/// Cutting `s` at `j` splits no character: `j` is an end of `s`, or the byte just before or
/// just at `j` is ASCII.
pub open spec fn clean_cut(s: Seq<u8>, j: int) -> bool {
    ||| j == 0
    ||| j == s.len()
    ||| (0 < j < s.len() && (s[j - 1] < 128 || s[j] < 128))
}

/// In UTF-8, a character starts right after an ASCII byte.
proof fn lemma_after_ascii(s: Seq<u8>, j: int)
    requires
        vstd::utf8::valid_utf8(s),
        0 < j <= s.len(),
        s[j - 1] < 128,
    ensures
        vstd::utf8::is_char_boundary(s, j),
    decreases s.len(),
{
    let l = vstd::utf8::length_of_first_scalar(s);
    let rest = vstd::utf8::pop_first_scalar(s);
    assert(vstd::utf8::valid_first_scalar(s) && vstd::utf8::valid_utf8(rest));
    if j - 1 < l {
        assert(j == 1 && l == 1);
        assert(vstd::utf8::is_char_boundary(rest, 0));
    } else {
        assert(rest[j - 1 - l] == s[j - 1]);
        lemma_after_ascii(rest, j - l);
    }
}

/// A clean cut of UTF-8 text is a character boundary.
pub proof fn lemma_clean_cut(s: Seq<u8>, j: int)
    requires
        vstd::utf8::valid_utf8(s),
        0 <= j <= s.len(),
        clean_cut(s, j),
    ensures
        vstd::utf8::is_char_boundary(s, j),
{
    if j == 0 {
    } else if j == s.len() {
        vstd::utf8::is_char_boundary_start_end_of_seq(s);
    } else if s[j] < 128 {
        vstd::utf8::is_char_boundary_iff_not_is_continuation_byte(s, j);
    } else {
        lemma_after_ascii(s, j);
    }
}

proof fn lemma_run_end_prev(s: Seq<u8>, k: int, b: u8)
    requires
        0 < k <= s.len(),
        s[k - 1] == b,
    ensures
        k <= run_end(s, k, b) <= s.len(),
        s[run_end(s, k, b) - 1] == b,
    decreases s.len() - k,
{
    if k < s.len() && s[k] == b {
        lemma_run_end_prev(s, k + 1, b);
    }
}

proof fn lemma_literal_end_clean(s: Seq<u8>, k: int)
    requires
        0 <= k <= s.len(),
    ensures
        literal_end(s, k) == s.len() || (literal_end(s, k) < s.len() && s[literal_end(s, k)] < 128),
    decreases s.len() - k,
{
    if k < s.len() && !breaks_literal(s, k) {
        lemma_literal_end_clean(s, k + 1);
    }
}

/// A token ends at a clean cut.
proof fn lemma_token_end_clean(s: Seq<u8>, i: int)
    requires
        0 <= i < s.len(),
    ensures
        clean_cut(s, token_at(s, i).1),
{
    lemma_token_at(s, i);
    let b = s[i];
    if b == 10u8 {
        if i + 1 < s.len() && s[i + 1] == 10u8 {
            lemma_run_end_prev(s, i + 2, 10u8);
        }
    } else if b == 92u8 {
        if i + 1 < s.len() {
            lemma_literal_end_clean(s, i + 2);
        }
    } else if collapsible_start_at(s, i) || collapsible_end_at(s, i) {
    } else if single_kind(b) is Some {
    } else if run_kind(b) is Some {
        assert(b < 128);
        lemma_run_end_prev(s, i + 1, b);
    } else {
        lemma_literal_end_clean(s, i + 1);
    }
}

/// Every token of `s` starts and ends at a clean cut.
pub proof fn lemma_tokens_clean(s: Seq<u8>)
    requires
        s.len() <= usize::MAX,
    ensures
        forall|k: int|
            0 <= k < spec_tokens(s).len() ==> clean_cut(s, #[trigger] spec_tokens(s)[k].range.start as int)
                && clean_cut(s, spec_tokens(s)[k].range.end as int),
{
    let toks = spec_tokens(s);
    lemma_tokens_tile(s, 0);
    assert forall|k: int| 0 <= k < toks.len() implies clean_cut(s, #[trigger] toks[k].range.end as int) by {
        let st = toks[k].range.start as int;
        assert(toks[k] == spec_token(s, st));
        if k == 0 {
            assert(st == 0);
        } else {
            assert(toks[k - 1].range.end == toks[k].range.start);
        }
        assert(0 <= st < s.len()) by {
            if k + 1 < toks.len() {
                assert(toks[k].range.end == toks[k + 1].range.start);
            }
            assert(toks[k].range.start < toks[k].range.end);
            assert(toks.last().range.end == s.len());
            lemma_tiles_bound(toks, k, s.len() as int);
        }
        lemma_token_end_clean(s, st);
    }
    assert forall|k: int| 0 <= k < toks.len() implies clean_cut(s, #[trigger] toks[k].range.start as int) by {
        if k > 0 {
            assert(toks[k - 1].range.end == toks[k].range.start);
            assert(clean_cut(s, toks[k - 1].range.end as int));
        }
    }
}

/// In a tiling, every token ends at or before the end.
proof fn lemma_tiles_bound(toks: Seq<Token>, k: int, hi: int)
    requires
        0 <= k < toks.len(),
        toks.len() > 0 && toks.last().range.end == hi,
        chained(toks),
    ensures
        toks[k].range.end <= hi,
    decreases toks.len() - k,
{
    if k + 1 < toks.len() {
        assert(toks[k].range.end == toks[k + 1].range.start);
        lemma_tiles_bound(toks, k + 1, hi);
    }
}

} // verus!
