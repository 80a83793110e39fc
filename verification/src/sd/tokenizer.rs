//! A character tokenizer that finds the body between a start and an end pattern.
use vstd::prelude::*;
use vstd::string::*;

verus! {

/// One element of a pattern: a character once, a character any number of times (none
/// included), or a character exactly a given number of times.
#[derive(Clone)]
pub enum Pattern {
    Exact(char),
    Repeat(char),
    ExactRepeat(usize, char),
}

/// Feeding `c` to a pattern at element `index`, with `erl` characters already taken by an
/// exact repetition there: the element to go on from (`None` when `c` does not fit) and the
/// new count of the exact repetition. A repetition that is satisfied or optional lets `c` try
/// the next element.
pub open spec fn pattern_step(pats: Seq<Pattern>, erl: int, c: char, index: int) -> (Option<int>, int)
    decreases pats.len() - index,
{
    if index < 0 || index >= pats.len() {
        (None, 0)
    } else {
        match pats[index] {
            Pattern::Exact(p) => if p == c {
                (Some(index + 1), 0)
            } else {
                (None, 0)
            },
            Pattern::Repeat(p) => if p == c {
                (Some(index), 0)
            } else {
                pattern_step(pats, 0, c, index + 1)
            },
            Pattern::ExactRepeat(len, p) => if p == c && erl < len {
                (Some(index), erl + 1)
            } else if p != c && erl == len {
                pattern_step(pats, 0, c, index + 1)
            } else {
                (None, 0)
            },
        }
    }
}

/// The state of a matcher (element index, characters matched, exact repetition count) after
/// feeding `c`, and whether `c` was matched; a miss starts the pattern over.
pub open spec fn match_char(pats: Seq<Pattern>, m: (int, int, int), c: char) -> (bool, (int, int, int)) {
    let (ni, e) = pattern_step(pats, m.2, c, m.0);
    match ni {
        Some(i) => (true, (i, m.1 + 1, e)),
        None => (false, (0, 0, e)),
    }
}

/// Feeds characters to a pattern one at a time.
pub struct Matcher<'token> {
    pub index: usize,
    pub token: &'token Vec<Pattern>,
    pub length: usize,
    pub exact_repeat_length: usize,
}

impl<'token> Matcher<'token> {
    /// The state of the matcher: element index, characters matched, exact repetition count.
    pub open spec fn state(&self) -> (int, int, int) {
        (self.index as int, self.length as int, self.exact_repeat_length as int)
    }

    /// A matcher at the start of `token`.
    pub fn new(token: &'token Vec<Pattern>) -> (r: Matcher<'token>)
        ensures
            r.token == token,
            r.state() == (0int, 0int, 0int),
    {
        Self { index: 0, token, length: 0, exact_repeat_length: 0 }
    }

    /// Feeds `c` at element `index` (see [`pattern_step`]).
    pub fn new_index(&mut self, c: &char, index: usize) -> (r: Option<usize>)
        ensures
            final(self).token == old(self).token,
            final(self).index == old(self).index,
            final(self).length == old(self).length,
            (match r {
                Some(i) => Some(i as int),
                None => None,
            }, final(self).exact_repeat_length as int) == pattern_step(
                old(self).token@,
                old(self).exact_repeat_length as int,
                *c,
                index as int,
            ),
        decreases old(self).token@.len() - index,
    {
        if index >= self.token.len() {
            self.exact_repeat_length = 0;
            return None;
        }
        match &self.token[index] {
            Pattern::Exact(p) => {
                self.exact_repeat_length = 0;
                if *p == *c {
                    Some(index + 1)
                } else {
                    None
                }
            },
            Pattern::Repeat(p) => {
                self.exact_repeat_length = 0;
                if *p == *c {
                    Some(index)
                } else {
                    self.new_index(c, index + 1)
                }
            },
            Pattern::ExactRepeat(length, p) => {
                if *p == *c && self.exact_repeat_length < *length {
                    self.exact_repeat_length = self.exact_repeat_length + 1;
                    Some(index)
                } else if *p != *c && self.exact_repeat_length == *length {
                    self.exact_repeat_length = 0;
                    self.new_index(c, index + 1)
                } else {
                    self.exact_repeat_length = 0;
                    None
                }
            },
        }
    }

    /// Feeds `c` (see [`match_char`]); `true` when it was matched.
    pub fn is_match(&mut self, c: &char) -> (r: bool)
        requires
            old(self).length < usize::MAX,
        ensures
            final(self).token == old(self).token,
            (r, final(self).state()) == match_char(old(self).token@, old(self).state(), *c),
    {
        let index = self.index;
        if let Some(new_index) = self.new_index(c, index) {
            self.index = new_index;
            self.length = self.length + 1;
            return true;
        }
        self.index = 0;
        self.length = 0;
        false
    }

    /// The whole pattern has been matched.
    pub fn is_done(&self) -> (r: bool)
        ensures
            r == (self.index == self.token@.len()),
    {
        self.index == self.token.len()
    }
}

/// Scanning for a start pattern from character `k` with matcher state `m`: where the body
/// starts (right after the pattern) and where the scan stops; `None` when a character does
/// not fit or the text ends first.
pub open spec fn start_scan(pats: Seq<Pattern>, s: Seq<char>, k: int, m: (int, int, int)) -> (Option<int>, int)
    decreases s.len() - k,
{
    if k < 0 || k >= s.len() {
        (None, k)
    } else {
        let (hit, m2) = match_char(pats, m, s[k]);
        if !hit {
            (None, k + 1)
        } else if m2.0 == pats.len() {
            (Some(k + 1), k + 1)
        } else {
            start_scan(pats, s, k + 1, m2)
        }
    }
}

/// Scanning for an end pattern from character `k` with matcher state `m`, for a body that
/// starts at `bs`: the body's character range (up to where the end pattern starts, or to the
/// end of the text when `to_end` and the last character is reached), where the scan stops,
/// and the last character looked at (`pos` when none).
pub open spec fn body_scan(
    pats: Seq<Pattern>,
    s: Seq<char>,
    k: int,
    m: (int, int, int),
    bs: int,
    to_end: bool,
    pos: int,
) -> (Option<(int, int)>, int, int)
    decreases s.len() - k,
{
    if k < 0 || k >= s.len() {
        (None, k, pos)
    } else {
        let (hit, m2) = match_char(pats, m, s[k]);
        if hit && m2.0 == pats.len() {
            (Some((bs, k + 1 - m2.1)), k + 1, k)
        } else if to_end && k == s.len() - 1 {
            (Some((bs, s.len() as int)), k + 1, k)
        } else {
            body_scan(pats, s, k + 1, m2, bs, to_end, k)
        }
    }
}

/// Reads bodies between patterns from a text, left to right.
pub struct Tokenizer<'input> {
    input: &'input str,
    next: usize,
    match_end_of_input: bool,
    position: usize,
}

impl<'input> Tokenizer<'input> {
    /// The characters of the text.
    pub closed spec fn text(&self) -> Seq<char> {
        self.input@
    }

    /// The index of the next character to read.
    pub closed spec fn cursor(&self) -> int {
        self.next as int
    }

    /// The last character looked at while scanning for an end pattern.
    pub closed spec fn last_position(&self) -> int {
        self.position as int
    }

    /// A body may run to the end of the text when no end pattern closes it.
    pub closed spec fn to_end(&self) -> bool {
        self.match_end_of_input
    }

    /// The tokenizer's invariant: ASCII text, a cursor within it, and a last position before
    /// the cursor unless nothing was read yet.
    pub closed spec fn wf(&self) -> bool {
        &&& is_ascii(self.input)
        &&& self.next <= self.input@.len()
        &&& (self.position == 0 || self.position < self.next)
    }

    /// Where a body after `start` begins and where the cursor stops: with no start pattern, at
    /// the cursor's last position (just after it, once something was read).
    pub open spec fn body_start(&self, start: Seq<Pattern>) -> (Option<int>, int) {
        if start.len() == 0 {
            (Some(self.last_position() + if self.last_position() == 0 { 0int } else { 1int }), self.cursor())
        } else {
            start_scan(start, self.text(), self.cursor(), (0, 0, 0))
        }
    }

    /// A tokenizer over the ASCII text `input` whose bodies need an end pattern.
    pub fn new(input: &'input str) -> (r: Tokenizer<'input>)
        requires
            is_ascii(input),
        ensures
            r.wf(),
            r.text() == input@,
            r.cursor() == 0,
            r.last_position() == 0,
            !r.to_end(),
    {
        Self::new_with_match_end_of_input(input, false)
    }

    /// A tokenizer over the ASCII text `input`; with `match_end_of_input` a body may run to
    /// the end of the text.
    pub fn new_with_match_end_of_input(input: &'input str, match_end_of_input: bool) -> (r: Tokenizer<'input>)
        requires
            is_ascii(input),
        ensures
            r.wf(),
            r.text() == input@,
            r.cursor() == 0,
            r.last_position() == 0,
            r.to_end() == match_end_of_input,
    {
        Tokenizer { input, next: 0, match_end_of_input, position: 0 }
    }

    /// Reads the start pattern `start_token` from the cursor (see [`Tokenizer::body_start`]) and
    /// returns where the body after it begins.
    pub fn get_body_start(&mut self, start_token: Vec<Pattern>) -> (r: Option<usize>)
        requires
            old(self).wf(),
        ensures
            final(self).wf(),
            final(self).text() == old(self).text(),
            final(self).to_end() == old(self).to_end(),
            final(self).last_position() == old(self).last_position(),
            (match r {
                Some(b) => Some(b as int),
                None => None,
            }, final(self).cursor()) == old(self).body_start(start_token@),
            r matches Some(b) ==> b <= final(self).cursor(),
    {
        if start_token.len() == 0 {
            let add: usize = if self.position == 0 {
                0
            } else {
                1
            };
            return Some(self.position + add);
        }
        let mut m = Matcher::new(&start_token);
        let n = self.input.unicode_len();
        let ghost k0 = self.next as int;
        while self.next < n
            invariant
                self.wf(),
                n == self.input@.len(),
                self.input == old(self).input,
                self.match_end_of_input == old(self).match_end_of_input,
                self.position == old(self).position,
                k0 == old(self).next,
                k0 <= self.next,
                start_token@.len() > 0,
                m.token == &start_token,
                m.length <= self.next - k0,
                start_scan(start_token@, self.input@, k0, (0, 0, 0)) == start_scan(
                    start_token@,
                    self.input@,
                    self.next as int,
                    m.state(),
                ),
            decreases n - self.next,
        {
            let index = self.next;
            let ch = self.input.get_char(index);
            self.next = index + 1;
            if !m.is_match(&ch) {
                return None;
            }
            if m.is_done() {
                return Some(index + 1);
            }
        }
        None
    }

    /// Reads a body between the patterns `start_token` and `end_token` from the cursor (see
    /// [`Tokenizer::body_start`] and [`body_scan`]); `None` when the start pattern is not there
    /// or the body is not closed.
    pub fn get_token_body(&mut self, start_token: Vec<Pattern>, end_token: Vec<Pattern>) -> (r: Option<&str>)
        requires
            old(self).wf(),
        ensures
            final(self).wf(),
            final(self).text() == old(self).text(),
            final(self).to_end() == old(self).to_end(),
            match old(self).body_start(start_token@) {
                (None, k) => r is None && final(self).cursor() == k && final(self).last_position()
                    == old(self).last_position(),
                (Some(b), k) => {
                    let (res, k2, pos) = body_scan(
                        end_token@,
                        old(self).text(),
                        k,
                        (0, 0, 0),
                        b,
                        old(self).to_end(),
                        old(self).last_position(),
                    );
                    &&& final(self).cursor() == k2
                    &&& final(self).last_position() == pos
                    &&& match res {
                        Some((a, e)) => r is Some && r->0@ == old(self).text().subrange(a, e),
                        None => r is None,
                    }
                },
            },
    {
        let body_start = match self.get_body_start(start_token) {
            Some(b) => b,
            None => {
                return None;
            },
        };
        let mut m = Matcher::new(&end_token);
        let n = self.input.unicode_len();
        let ghost k0 = self.next as int;
        let ghost pos0 = self.position as int;
        while self.next < n
            invariant
                self.wf(),
                n == self.input@.len(),
                self.input@ == old(self).input@,
                self.match_end_of_input == old(self).match_end_of_input,
                body_start <= k0 <= self.next,
                old(self).body_start(start_token@) == (Some(body_start as int), k0),
                pos0 == old(self).position,
                self.next == k0 ==> self.position == pos0,
                m.token == &end_token,
                m.length <= self.next - k0,
                body_scan(end_token@, self.input@, k0, (0, 0, 0), body_start as int, self.match_end_of_input, pos0)
                    == body_scan(
                    end_token@,
                    self.input@,
                    self.next as int,
                    m.state(),
                    body_start as int,
                    self.match_end_of_input,
                    if self.next == k0 { pos0 } else { self.position as int },
                ),
            decreases n - self.next,
        {
            let index = self.next;
            let ch = self.input.get_char(index);
            self.next = index + 1;
            self.position = index;
            if m.is_match(&ch) && m.is_done() {
                return Some(self.input.substring_ascii(body_start, index + 1 - m.length));
            } else if self.match_end_of_input && index == n - 1 {
                return Some(self.input.substring_ascii(body_start, n));
            }
        }
        None
    }
}

} // verus!
