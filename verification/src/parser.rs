//! Finding a part of a text between a start and an end sequence of characters.
use vstd::prelude::*;

verus! {

/// Matches a sequence of characters, one character at a time.
pub struct Matcher {
    pub index: usize,
    pub needle: Vec<char>,
}

impl Matcher {
    /// A matcher at the start of `needle`.
    pub fn new(needle: Vec<char>) -> (r: Matcher)
        ensures
            r.index == 0,
            r.needle == needle,
    {
        Self { index: 0, needle }
    }

    /// Feeds `c`: taken when it is the next character of the needle (the matcher moves on),
    /// else the matcher starts over.
    pub fn is_match(&mut self, c: &char) -> (r: bool)
        ensures
            r == (old(self).index < old(self).needle@.len() && old(self).needle@[old(self).index as int] == *c),
            final(self).needle == old(self).needle,
            final(self).index == if r { old(self).index + 1 } else { 0 },
    {
        if self.index < self.needle.len() && self.needle[self.index] == *c {
            self.index = self.index + 1;
            return true;
        }
        self.index = 0;
        false
    }

    /// The whole needle has been matched.
    pub fn is_done(&self) -> (r: bool)
        ensures
            r == (self.index == self.needle@.len()),
    {
        self.index == self.needle.len()
    }
}

/// Feeding `c` to a matcher of `needle` at `idx`: whether it was taken and where the matcher
/// goes on.
pub open spec fn step(needle: Seq<char>, idx: int, c: char) -> (bool, int) {
    if 0 <= idx < needle.len() && needle[idx] == c {
        (true, idx + 1)
    } else {
        (false, 0)
    }
}

/// Reading the start sequence from character `k` on: whether it was completed, and where
/// reading stops (just past the first character that does not continue it).
pub open spec fn start_phase(needle: Seq<char>, s: Seq<char>, k: int, idx: int, matched: bool) -> (bool, int)
    decreases s.len() - k,
{
    if k < 0 || k >= s.len() {
        (matched, k)
    } else {
        let (hit, idx2) = step(needle, idx, s[k]);
        if !hit {
            (matched, k + 1)
        } else {
            start_phase(needle, s, k + 1, idx2, matched || idx2 == needle.len())
        }
    }
}

/// Two ends of line: a hard stop.
pub open spec fn hard_stop() -> Seq<char> {
    seq!['\n', '\n']
}

/// Reading from character `k` on for the end sequence: the index of its last character, or
/// `None` when two ends of line in a row or the end of the text come first; and where reading
/// stops.
pub open spec fn end_phase(end: Seq<char>, s: Seq<char>, k: int, ei: int, hi: int) -> (Option<int>, int)
    decreases s.len() - k,
{
    if k < 0 || k >= s.len() {
        (None, k)
    } else {
        let (eh, ei2) = step(end, ei, s[k]);
        if eh && ei2 == end.len() {
            (Some(k), k + 1)
        } else {
            let (hh, hi2) = step(hard_stop(), hi, s[k]);
            if hh && hi2 == hard_stop().len() {
                (None, k + 1)
            } else {
                end_phase(end, s, k + 1, ei2, hi2)
            }
        }
    }
}

/// A part of a text starting at character `k`: the index of the last character of the end
/// sequence when the start sequence stands at `k` and the end follows before a hard stop; and
/// where reading stops.
pub open spec fn part(start: Seq<char>, end: Seq<char>, s: Seq<char>, k: int) -> (Option<int>, int) {
    let (matched, k2) = start_phase(start, s, k, 0, false);
    if matched {
        end_phase(end, s, k2, 0, 0)
    } else {
        (None, k2)
    }
}

/// Completing the start sequence takes at least its remaining characters, and reading never
/// goes back.
pub proof fn lemma_start_phase_bounds(needle: Seq<char>, s: Seq<char>, k: int, idx: int, matched: bool)
    requires
        0 <= k,
        0 <= idx <= needle.len(),
    ensures
        k <= start_phase(needle, s, k, idx, matched).1,
        start_phase(needle, s, k, idx, matched).0 && !matched ==> k + needle.len() - idx
            <= start_phase(needle, s, k, idx, matched).1,
    decreases s.len() - k,
{
    if k < s.len() {
        let (hit, idx2) = step(needle, idx, s[k]);
        if hit {
            lemma_start_phase_bounds(needle, s, k + 1, idx2, matched || idx2 == needle.len());
        }
    }
}

/// The end sequence found from character `k` on ends inside the text, no earlier than its
/// remaining characters allow.
pub proof fn lemma_end_phase_bounds(end: Seq<char>, s: Seq<char>, k: int, ei: int, hi: int)
    requires
        0 <= k,
        0 <= ei <= end.len(),
    ensures
        end_phase(end, s, k, ei, hi).0 matches Some(j) ==> k <= j < s.len() && k + end.len() - ei
            - 1 <= j,
    decreases s.len() - k,
{
    if k < s.len() {
        let (eh, ei2) = step(end, ei, s[k]);
        if !(eh && ei2 == end.len()) {
            let (hh, hi2) = step(hard_stop(), hi, s[k]);
            if !(hh && hi2 == hard_stop().len()) {
                lemma_end_phase_bounds(end, s, k + 1, ei2, hi2);
            }
        }
    }
}

/// Reads a part between a start and an end sequence.
pub trait ParserPart {
    /// Reads the start sequence and then up to the end sequence; returns the index of the end
    /// sequence's last character.
    fn parse_part(&mut self, start: Vec<char>, end: Vec<char>) -> Option<usize>;
}

/// A node read from a text at a character position.
pub trait Parser {
    /// Reads a node at character `start_position`; returns it with the index where it ends.
    fn parse(input: &str, start_position: usize) -> Option<(Self, usize)> where Self: Sized;

    /// A cursor over `input` placed at character `start_position` (at its end when past it).
    fn get_iterator(input: &str, start_position: usize) -> (r: CharCursor)
        ensures
            r.text() == input@,
            r.position() == if start_position <= input@.len() {
                start_position as int
            } else {
                input@.len() as int
            },
    {
        let mut chars = CharCursor::new(input);
        if start_position != 0 {
            chars.nth(start_position - 1);
        }
        chars
    }
}

/// The characters of a text with a reading position, read one at a time with their index.
pub struct CharCursor {
    chars: Vec<char>,
    next: usize,
}

impl CharCursor {
    /// The characters.
    pub closed spec fn text(&self) -> Seq<char> {
        self.chars@
    }

    /// The index of the next character to read.
    pub closed spec fn position(&self) -> int {
        self.next as int
    }

    /// The reading position is within the text.
    #[verifier::type_invariant]
    spec fn wf(&self) -> bool {
        self.next <= self.chars@.len()
    }

    /// A cursor at the first character of `input`.
    pub fn new(input: &str) -> (r: CharCursor)
        ensures
            r.text() == input@,
            r.position() == 0,
    {
        let n = input.unicode_len();
        let mut chars: Vec<char> = Vec::new();
        let mut i: usize = 0;
        while i < n
            invariant
                n == input@.len(),
                i <= n,
                chars@ == input@.subrange(0, i as int),
            decreases n - i,
        {
            chars.push(input.get_char(i));
            proof {
                assert(input@.subrange(0, i + 1) =~= input@.subrange(0, i as int).push(input@[i as int]));
            }
            i = i + 1;
        }
        proof {
            assert(input@.subrange(0, n as int) =~= input@);
        }
        CharCursor { chars, next: 0 }
    }

    /// Skips `n` characters and reads the next one, with its index, if there is one.
    pub fn nth(&mut self, n: usize) -> (r: Option<(usize, char)>)
        ensures
            final(self).text() == old(self).text(),
            old(self).position() + n < old(self).text().len() ==> r == Some(
                ((old(self).position() + n) as usize, old(self).text()[old(self).position() + n]),
            ) && final(self).position() == old(self).position() + n + 1,
            old(self).position() + n >= old(self).text().len() ==> r is None && final(self).position()
                == old(self).text().len(),
    {
        proof {
            use_type_invariant(&*self);
        }
        let len = self.chars.len();
        if n < len - self.next {
            let i = self.next + n;
            self.next = i + 1;
            Some((i, self.chars[i]))
        } else {
            self.next = len;
            None
        }
    }

    /// The character at index `i`.
    pub fn char_at(&self, i: usize) -> (c: char)
        requires
            i < self.text().len(),
        ensures
            c == self.text()[i as int],
    {
        self.chars[i]
    }

    /// Reads a part (see [`part`]) and returns the index of the end sequence's last character.
    pub fn read_part(&mut self, start: Vec<char>, end: Vec<char>) -> (r: Option<usize>)
        ensures
            final(self).text() == old(self).text(),
            (match r {
                Some(i) => Some(i as int),
                None => None,
            }, final(self).position()) == part(start@, end@, old(self).text(), old(self).position()),
    {
        proof {
            use_type_invariant(&*self);
        }
        let ghost s = self.chars@;
        let ghost k0 = self.next as int;
        let ghost st = start@;
        let ghost en = end@;
        let n = self.chars.len();
        let mut start_matcher = Matcher::new(start);
        let mut start_matched = false;
        while self.next < n
            invariant_except_break
                start_phase(st, s, k0, 0, false) == start_phase(
                    st,
                    s,
                    self.next as int,
                    start_matcher.index as int,
                    start_matched,
                ),
            invariant
                self.next <= n,
                n == s.len(),
                s == self.chars@,
                start_matcher.needle@ == st,
            ensures
                start_phase(st, s, k0, 0, false) == (start_matched, self.next as int),
            decreases n - self.next,
        {
            let c = self.chars[self.next];
            self.next = self.next + 1;
            if !start_matcher.is_match(&c) {
                break;
            }
            if start_matcher.is_done() {
                start_matched = true;
            }
        }
        if !start_matched {
            return None;
        }
        let mut end_matcher = Matcher::new(end);
        let mut hard_stop_matcher = Matcher::new(vec!['\n', '\n']);
        let ghost k1 = self.next as int;
        proof {
            assert(hard_stop_matcher.needle@ =~= hard_stop());
        }
        while self.next < n
            invariant
                self.next <= n,
                n == s.len(),
                s == self.chars@,
                end_matcher.needle@ == en,
                hard_stop_matcher.needle@ == hard_stop(),
                s == old(self).text(),
                k0 == old(self).position(),
                st == start@,
                en == end@,
                start_phase(st, s, k0, 0, false) == (true, k1),
                end_phase(en, s, k1, 0, 0) == end_phase(
                    en,
                    s,
                    self.next as int,
                    end_matcher.index as int,
                    hard_stop_matcher.index as int,
                ),
            decreases n - self.next,
        {
            let index = self.next;
            let c = self.chars[index];
            self.next = index + 1;
            if end_matcher.is_match(&c) && end_matcher.is_done() {
                return Some(index);
            } else if hard_stop_matcher.is_match(&c) && hard_stop_matcher.is_done() {
                return None;
            }
        }
        None
    }
}

impl ParserPart for CharCursor {
    /// See [`CharCursor::read_part`].
    fn parse_part(&mut self, start: Vec<char>, end: Vec<char>) -> (r: Option<usize>)
        ensures
            final(self).text() == old(self).text(),
            (match r {
                Some(i) => Some(i as int),
                None => None,
            }, final(self).position()) == part(start@, end@, old(self).text(), old(self).position()),
    {
        self.read_part(start, end)
    }
}

} // verus!
