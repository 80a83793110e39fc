//! Splits text into character tokens: special characters on their own, runs of other
//! characters as text.
use vstd::prelude::*;

verus! {

/// A token: a run of ordinary characters, or one special character.
#[derive(Debug, PartialEq)]
pub enum Token {
    Text(String),
    NewLine,
    OpenBracket,
    CloseBracket,
    OpenParen,
    CloseParen,
    Star,
    Tick,
    OpenCurlyBrace,
    CloseCurlyBrace,
    Percent,
    ExclamationMark,
    Pipe,
    Minus,
    Hashtag,
    Space,
    Underscore,
    Tilde,
}

/// The number of the special character `c` (1 to 17), or 0 for an ordinary character.
pub open spec fn sym_code(c: char) -> int {
    if c == '\n' {
        1
    } else if c == '[' {
        2
    } else if c == ']' {
        3
    } else if c == '(' {
        4
    } else if c == ')' {
        5
    } else if c == '*' {
        6
    } else if c == '`' {
        7
    } else if c == '{' {
        8
    } else if c == '}' {
        9
    } else if c == '%' {
        10
    } else if c == '!' {
        11
    } else if c == '|' {
        12
    } else if c == '-' {
        13
    } else if c == '#' {
        14
    } else if c == ' ' {
        15
    } else if c == '_' {
        16
    } else if c == '~' {
        17
    } else {
        0
    }
}

/// A token as a number (that of its special character, 0 for text) and its text.
pub open spec fn token_view(t: Token) -> (int, Seq<char>) {
    match t {
        Token::Text(s) => (0, s@),
        Token::NewLine => (1, Seq::empty()),
        Token::OpenBracket => (2, Seq::empty()),
        Token::CloseBracket => (3, Seq::empty()),
        Token::OpenParen => (4, Seq::empty()),
        Token::CloseParen => (5, Seq::empty()),
        Token::Star => (6, Seq::empty()),
        Token::Tick => (7, Seq::empty()),
        Token::OpenCurlyBrace => (8, Seq::empty()),
        Token::CloseCurlyBrace => (9, Seq::empty()),
        Token::Percent => (10, Seq::empty()),
        Token::ExclamationMark => (11, Seq::empty()),
        Token::Pipe => (12, Seq::empty()),
        Token::Minus => (13, Seq::empty()),
        Token::Hashtag => (14, Seq::empty()),
        Token::Space => (15, Seq::empty()),
        Token::Underscore => (16, Seq::empty()),
        Token::Tilde => (17, Seq::empty()),
    }
}

/// The tokens of `s`, as [`token_view`]s: each special character alone, every run of
/// ordinary characters one text token.
pub open spec fn lex(s: Seq<char>) -> Seq<(int, Seq<char>)>
    decreases s.len(),
{
    if s.len() == 0 {
        Seq::empty()
    } else {
        let prev = lex(s.drop_last());
        let c = s.last();
        if sym_code(c) != 0 {
            prev.push((sym_code(c), Seq::empty()))
        } else if prev.len() > 0 && prev.last().0 == 0 {
            prev.update(prev.len() - 1, (0, prev.last().1.push(c)))
        } else {
            prev.push((0, seq![c]))
        }
    }
}

/// Appends `c` to `s`. Trusted: the body calls std's `String::push`, which its documentation
/// says appends the given char to the end of the string; the contract claims exactly that of
/// the string's characters.
#[verifier::external_body]
pub(crate) fn push_char_to(s: &mut String, c: char)
    ensures
        final(s)@ == old(s)@.push(c),
{
    s.push(c);
}

fn special(c: char) -> (r: Option<Token>)
    ensures
        sym_code(c) == 0 ==> r is None,
        sym_code(c) != 0 ==> (r matches Some(t) && token_view(t) == (sym_code(c), Seq::<char>::empty())),
{
    if c == '\n' {
        Some(Token::NewLine)
    } else if c == '[' {
        Some(Token::OpenBracket)
    } else if c == ']' {
        Some(Token::CloseBracket)
    } else if c == '(' {
        Some(Token::OpenParen)
    } else if c == ')' {
        Some(Token::CloseParen)
    } else if c == '*' {
        Some(Token::Star)
    } else if c == '`' {
        Some(Token::Tick)
    } else if c == '{' {
        Some(Token::OpenCurlyBrace)
    } else if c == '}' {
        Some(Token::CloseCurlyBrace)
    } else if c == '%' {
        Some(Token::Percent)
    } else if c == '!' {
        Some(Token::ExclamationMark)
    } else if c == '|' {
        Some(Token::Pipe)
    } else if c == '-' {
        Some(Token::Minus)
    } else if c == '#' {
        Some(Token::Hashtag)
    } else if c == ' ' {
        Some(Token::Space)
    } else if c == '_' {
        Some(Token::Underscore)
    } else if c == '~' {
        Some(Token::Tilde)
    } else {
        None
    }
}

/// The views of `v`'s tokens.
pub open spec fn views(v: Seq<Token>) -> Seq<(int, Seq<char>)> {
    v.map_values(|t: Token| token_view(t))
}

struct Tokenizer<'a> {
    input: &'a str,
    tokens: Vec<Token>,
}

impl<'a> Tokenizer<'a> {
    fn new(input: &'a str) -> (r: Tokenizer<'a>)
        ensures
            r.input == input,
            r.tokens@.len() == 0,
    {
        Self { input, tokens: Vec::new() }
    }

    /// Adds the ordinary character `c`: to the text token at the end, or as a new one.
    fn push_char(&mut self, c: char)
        ensures
            final(self).input == old(self).input,
            views(final(self).tokens@) == {
                let prev = views(old(self).tokens@);
                if prev.len() > 0 && prev.last().0 == 0 {
                    prev.update(prev.len() - 1, (0, prev.last().1.push(c)))
                } else {
                    prev.push((0, seq![c]))
                }
            },
    {
        let ghost prev = views(self.tokens@);
        let n = self.tokens.len();
        if n > 0 {
            if let Token::Text(_) = &self.tokens[n - 1] {
                let last = self.tokens.pop().unwrap();
                if let Token::Text(mut t) = last {
                    push_char_to(&mut t, c);
                    self.tokens.push(Token::Text(t));
                    proof {
                        assert(views(self.tokens@) =~= prev.update(prev.len() - 1, (0, prev.last().1.push(c))));
                    }
                }
                return;
            }
        }
        let mut t = String::new();
        push_char_to(&mut t, c);
        self.tokens.push(Token::Text(t));
        proof {
            assert(t@ =~= seq![c]);
            assert(views(self.tokens@) =~= prev.push((0, seq![c])));
        }
    }

    /// Splits the text into tokens (see [`lex`]).
    fn tokenize(self) -> (r: Vec<Token>)
        requires
            self.tokens@.len() == 0,
        ensures
            views(r@) == lex(self.input@),
    {
        let mut this = self;
        this.run()
    }

    fn run(&mut self) -> (r: Vec<Token>)
        requires
            old(self).tokens@.len() == 0,
        ensures
            views(r@) == lex(old(self).input@),
    {
        let n = self.input.unicode_len();
        let mut i: usize = 0;
        while i < n
            invariant
                n == self.input@.len(),
                i <= n,
                views(self.tokens@) == lex(self.input@.subrange(0, i as int)),
                self.input == old(self).input,
            decreases n - i,
        {
            let c = self.input.get_char(i);
            proof {
                let s = self.input@.subrange(0, i + 1);
                assert(s.drop_last() =~= self.input@.subrange(0, i as int));
                assert(s.last() == c);
            }
            match special(c) {
                Some(t) => {
                    let ghost prev = views(self.tokens@);
                    self.tokens.push(t);
                    proof {
                        assert(views(self.tokens@) =~= prev.push((sym_code(c), Seq::<char>::empty())));
                    }
                },
                None => self.push_char(c),
            }
            i = i + 1;
        }
        proof {
            assert(self.input@.subrange(0, n as int) =~= self.input@);
        }
        let mut out: Vec<Token> = Vec::new();
        std::mem::swap(&mut out, &mut self.tokens);
        out
    }
}

/// Splits `input` into tokens (see [`lex`]).
pub fn tokenize(input: &str) -> (r: Vec<Token>)
    ensures
        views(r@) == lex(input@),
{
    Tokenizer::new(input).tokenize()
}

} // verus!
