//! Finds a start pattern and the end pattern that closes it in ASCII text, where a pattern is
//! a sequence of quantified characters.
use vstd::prelude::*;
use vstd::string::*;

verus! {

/// One element of a pattern: a character once, any number of times, or a given number of
/// times (none at all for zero).
#[derive(Clone, Debug, PartialEq, Eq, Structural)]
pub enum Quantifiers {
    Once(char),
    ZeroOrMore(char),
    RepeatTimes(usize, char),
}

/// `l` with one more character counted at `i`.
pub open spec fn bump(l: Seq<usize>, i: int) -> Seq<usize> {
    if 0 <= i < l.len() {
        l.update(i, (l[i] + 1) as usize)
    } else {
        l
    }
}

/// Feeding `c` at element `index` with the counts `l`: the element to go on from (`None`
/// when `c` does not fit) and the new counts. An element that may be left (any number, or
/// zero repetitions) lets `c` try the next one; the last of a repetition is not counted.
pub open spec fn next_step(q: Seq<Quantifiers>, l: Seq<usize>, c: char, index: int) -> (Option<int>, Seq<usize>)
    decreases q.len() - index,
{
    if index < 0 || index >= q.len() {
        (None, l)
    } else {
        let cur = if index < l.len() {
            l[index] as int
        } else {
            0
        };
        match q[index] {
            Quantifiers::Once(p) => if p == c {
                (Some(index + 1), bump(l, index))
            } else {
                (None, l)
            },
            Quantifiers::ZeroOrMore(p) => if p == c {
                (Some(index), bump(l, index))
            } else {
                next_step(q, l, c, index + 1)
            },
            Quantifiers::RepeatTimes(len, p) => if p == c && cur + 1 < len {
                (Some(index), bump(l, index))
            } else if p == c && cur + 1 == len {
                (Some(index + 1), l)
            } else if len == 0 {
                next_step(q, l, c, index + 1)
            } else {
                (None, l)
            },
        }
    }
}

/// `n` zeros.
pub open spec fn zeros(n: int) -> Seq<usize> {
    Seq::new(n as nat, |i: int| 0usize)
}

/// A pattern's state (element index, characters taken, counts per element) at its start.
pub open spec fn fresh(n: int) -> (int, int, Seq<usize>) {
    (0, 0, zeros(n))
}

/// Feeding `c` to a pattern in state `st`: whether it was taken, and the new state; a miss
/// starts the pattern over.
pub open spec fn feed(q: Seq<Quantifiers>, st: (int, int, Seq<usize>), c: char) -> (bool, (int, int, Seq<usize>)) {
    match next_step(q, st.2, c, st.0) {
        (Some(ni), l2) => (true, (ni, st.1 + 1, l2)),
        (None, _) => (false, fresh(q.len() as int)),
    }
}

/// Matches characters against a sequence of quantifiers, one character at a time.
pub struct Pattern<'token, const SIZE: usize> {
    index: usize,
    sequence: &'token [Quantifiers; SIZE],
    pub length: usize,
    quantifiers_lengths: [usize; SIZE],
}

impl<'sequence, const SIZE: usize> Pattern<'sequence, SIZE> {
    /// The quantifiers.
    pub closed spec fn quantifiers(&self) -> Seq<Quantifiers> {
        self.sequence@
    }

    /// The state: element index, characters taken and counts per element.
    pub closed spec fn state(&self) -> (int, int, Seq<usize>) {
        (self.index as int, self.length as int, self.quantifiers_lengths@)
    }

    /// The invariant: the index is within the pattern and no count exceeds the characters
    /// taken.
    pub closed spec fn wf(&self) -> bool {
        &&& self.sequence@.len() == SIZE
        &&& self.quantifiers_lengths@.len() == SIZE
        &&& self.index <= SIZE
        &&& forall|j: int| 0 <= j < SIZE ==> #[trigger] self.quantifiers_lengths@[j] <= self.length
    }

    /// A pattern over `sequence`, at its start.
    pub fn new(sequence: &'sequence [Quantifiers; SIZE]) -> (r: Pattern<'sequence, SIZE>)
        ensures
            r.wf(),
            r.quantifiers() == sequence@,
            r.state() == fresh(SIZE as int),
    {
        let r = Self { index: 0, sequence, length: 0, quantifiers_lengths: [0;SIZE] };
        proof {
            assert(r.quantifiers_lengths@ =~= zeros(SIZE as int));
        }
        r
    }

    /// Feeds `c` at element `index` (see [`next_step`]).
    pub fn next_index(&mut self, c: &char, index: usize) -> (r: Option<usize>)
        requires
            old(self).wf(),
            old(self).state().1 < usize::MAX,
            index <= SIZE,
        ensures
            final(self).quantifiers() == old(self).quantifiers(),
            final(self).state().0 == old(self).state().0,
            final(self).state().1 == old(self).state().1,
            final(self).state().2.len() == SIZE,
            forall|j: int| 0 <= j < SIZE ==> #[trigger] final(self).state().2[j] <= old(self).state().1 + 1,
            (match r {
                Some(i) => Some(i as int),
                None => None,
            }, final(self).state().2) == next_step(
                old(self).quantifiers(),
                old(self).state().2,
                *c,
                index as int,
            ),
            r matches Some(i) ==> i <= SIZE,
        decreases SIZE - index,
    {
        if index >= SIZE {
            return None;
        }
        let cur = self.quantifiers_lengths[index];
        match &self.sequence[index] {
            Quantifiers::Once(p) => {
                if *p == *c {
                    self.quantifiers_lengths[index] = cur + 1;
                    proof {
                        assert(self.quantifiers_lengths@ =~= bump(old(self).quantifiers_lengths@, index as int));
                    }
                    Some(index + 1)
                } else {
                    None
                }
            },
            Quantifiers::ZeroOrMore(p) => {
                if *p == *c {
                    self.quantifiers_lengths[index] = cur + 1;
                    proof {
                        assert(self.quantifiers_lengths@ =~= bump(old(self).quantifiers_lengths@, index as int));
                    }
                    Some(index)
                } else {
                    self.next_index(c, index + 1)
                }
            },
            Quantifiers::RepeatTimes(length, p) => {
                let length = *length;
                if *p == *c && length > 0 && cur < length - 1 {
                    self.quantifiers_lengths[index] = cur + 1;
                    proof {
                        assert(self.quantifiers_lengths@ =~= bump(old(self).quantifiers_lengths@, index as int));
                    }
                    Some(index)
                } else if *p == *c && length > 0 && cur == length - 1 {
                    Some(index + 1)
                } else if length == 0 {
                    self.next_index(c, index + 1)
                } else {
                    None
                }
            },
        }
    }

    /// Feeds `c` to the pattern (see [`feed`]); `true` when it was taken.
    pub fn check_character(&mut self, c: &char) -> (r: bool)
        requires
            old(self).wf(),
            old(self).state().1 < usize::MAX,
        ensures
            final(self).wf(),
            final(self).quantifiers() == old(self).quantifiers(),
            (r, final(self).state()) == feed(old(self).quantifiers(), old(self).state(), *c),
    {
        let index = self.index;
        if let Some(new_index) = self.next_index(c, index) {
            self.index = new_index;
            self.length = self.length + 1;
            return true;
        }
        self.reset();
        false
    }

    /// Starts the pattern over.
    pub fn reset(&mut self)
        ensures
            old(self).quantifiers().len() == SIZE ==> final(self).wf(),
            final(self).quantifiers() == old(self).quantifiers(),
            final(self).state() == fresh(SIZE as int),
    {
        self.index = 0;
        self.length = 0;
        self.quantifiers_lengths = [0;SIZE];
        proof {
            assert(self.quantifiers_lengths@ =~= zeros(SIZE as int));
        }
    }

    /// The whole pattern has been matched.
    pub fn is_end_of_sequence(&self) -> (r: bool)
        requires
            self.wf(),
        ensures
            r == (self.state().0 == self.quantifiers().len()),
    {
        self.index == SIZE
    }

    /// How many characters element `index` has taken, if there is such an element.
    pub fn get_quantifier_length(&self, index: usize) -> (r: Option<&usize>)
        requires
            self.wf(),
        ensures
            index < SIZE ==> r == Some(&self.state().2[index as int]),
            index >= SIZE ==> r is None,
    {
        if index < SIZE {
            Some(&self.quantifiers_lengths[index])
        } else {
            None
        }
    }
}

/// Feeding the characters of `s` from `i` on to a pattern in state `st`: where the first
/// complete match ends and how many characters it took; with `to_end`, the end of the text
/// when the last character is reached first; with `fail_fast`, `None` at the first miss.
pub open spec fn scan(
    q: Seq<Quantifiers>,
    s: Seq<char>,
    i: int,
    st: (int, int, Seq<usize>),
    fail_fast: bool,
    to_end: bool,
) -> Option<(int, int)>
    decreases s.len() - i,
{
    if i < 0 || i >= s.len() {
        None
    } else {
        let (hit, st2) = feed(q, st, s[i]);
        if hit && st2.0 == q.len() {
            Some((i + 1, st2.1))
        } else if to_end && i == s.len() - 1 {
            Some((i + 1, 0))
        } else if fail_fast && !hit {
            None
        } else {
            scan(q, s, i + 1, st2, fail_fast, to_end)
        }
    }
}

/// What [`scan`] finds ends after where it starts.
pub proof fn lemma_scan_after(
    q: Seq<Quantifiers>,
    s: Seq<char>,
    i: int,
    st: (int, int, Seq<usize>),
    fail_fast: bool,
    to_end: bool,
)
    ensures
        scan(q, s, i, st, fail_fast, to_end) matches Some((e, _)) ==> i < e <= s.len(),
    decreases s.len() - i,
{
    if 0 <= i < s.len() {
        let (hit, st2) = feed(q, st, s[i]);
        lemma_scan_after(q, s, i + 1, st2, fail_fast, to_end);
    }
}

/// Like [`scan`] from `from` with a fresh pattern, but an empty pattern is found at once, and
/// with `to_end` so is the end of the text.
pub open spec fn find(q: Seq<Quantifiers>, s: Seq<char>, from: int, fail_fast: bool, to_end: bool) -> Option<(int, int)> {
    if q.len() == 0 {
        Some((from, 0))
    } else if to_end && from == s.len() {
        Some((from, 0))
    } else {
        scan(q, s, from, fresh(q.len() as int), fail_fast, to_end)
    }
}

/// Scanning from `i` with both patterns running and `balance` starts open: where the end
/// that closes the first start begins and ends. A complete start opens one more (and starts
/// its pattern over); while some are open, a complete end closes one (and starts its pattern
/// over).
pub open spec fn nesting_close(
    qs: Seq<Quantifiers>,
    qe: Seq<Quantifiers>,
    s: Seq<char>,
    i: int,
    sp: (int, int, Seq<usize>),
    ep: (int, int, Seq<usize>),
    balance: int,
) -> Option<(int, int)>
    decreases s.len() - i,
{
    if i < 0 || i >= s.len() {
        None
    } else {
        let (h1, sp2) = feed(qs, sp, s[i]);
        if h1 && sp2.0 == qs.len() {
            nesting_close(qs, qe, s, i + 1, fresh(qs.len() as int), ep, balance + 1)
        } else if balance > 0 {
            let (h2, ep2) = feed(qe, ep, s[i]);
            if h2 && ep2.0 == qe.len() {
                if balance == 1 {
                    Some((i + 1 - ep2.1, i + 1))
                } else {
                    nesting_close(qs, qe, s, i + 1, sp2, fresh(qe.len() as int), balance - 1)
                }
            } else {
                nesting_close(qs, qe, s, i + 1, sp2, ep2, balance)
            }
        } else {
            nesting_close(qs, qe, s, i + 1, sp2, ep, balance)
        }
    }
}

/// Starts and ends nest when neither is empty, they are equally long and differ, and the
/// end of the text is no end.
pub open spec fn nesting(qs: Seq<Quantifiers>, qe: Seq<Quantifiers>, to_end: bool) -> bool {
    !to_end && qs.len() > 0 && qe.len() == qs.len() && qs != qe
}

/// The match from character `pos` on, as the characters `a..b` of the start token, `b..c` of
/// the body and `c..d` of the end token: the start must stand at `pos`; the end is the one
/// that closes it when they nest (then the start token reaches back to the start of the
/// text), else the first one after it.
pub open spec fn match_at(s: Seq<char>, pos: int, qs: Seq<Quantifiers>, qe: Seq<Quantifiers>, to_end: bool) -> Option<(int, int, int, int)> {
    match find(qs, s, pos, true, false) {
        Some((se, sl)) => if nesting(qs, qe, to_end) {
            match nesting_close(qs, qe, s, pos, fresh(qs.len() as int), fresh(qe.len() as int), 0) {
                Some((c, d)) => Some((0, se, c, d)),
                None => None,
            }
        } else {
            match find(qe, s, se, false, to_end) {
                Some((ee, el)) => Some((se - sl, se, ee - el, ee)),
                None => None,
            }
        },
        None => None,
    }
}

/// Start token, body and end token of a match.
#[derive(Debug, PartialEq)]
pub struct Match<'input> {
    pub start_token: &'input str,
    pub body: &'input str,
    pub end_token: &'input str,
}

/// Finds matches in an ASCII text, left to right.
pub struct Matcher<'input> {
    input: &'input str,
    position: usize,
}

impl<'input> Matcher<'input> {
    /// The characters of the text.
    pub closed spec fn text(&self) -> Seq<char> {
        self.input@
    }

    /// Where the next match may start.
    pub closed spec fn cursor(&self) -> int {
        self.position as int
    }

    /// The invariant: ASCII text and a cursor within it.
    pub closed spec fn wf(&self) -> bool {
        &&& is_ascii(self.input)
        &&& self.position <= self.input@.len()
    }

    /// A matcher at the start of the ASCII text `input`.
    pub fn new(input: &'input str) -> (r: Matcher<'input>)
        requires
            is_ascii(input),
        ensures
            r.wf(),
            r.text() == input@,
            r.cursor() == 0,
    {
        Self { input, position: 0 }
    }

    fn are_sequences_equal<const FIRST_SEQUENCE_SIZE: usize, const SECOND_SEQUENCE_SIZE: usize>(
        a: &[Quantifiers; FIRST_SEQUENCE_SIZE],
        b: &[Quantifiers; SECOND_SEQUENCE_SIZE],
    ) -> (r: bool)
        ensures
            r == (a@ == b@),
    {
        if FIRST_SEQUENCE_SIZE != SECOND_SEQUENCE_SIZE {
            return false;
        }
        let mut i: usize = 0;
        while i < FIRST_SEQUENCE_SIZE
            invariant
                FIRST_SEQUENCE_SIZE == SECOND_SEQUENCE_SIZE,
                a@.len() == FIRST_SEQUENCE_SIZE,
                b@.len() == SECOND_SEQUENCE_SIZE,
                i <= FIRST_SEQUENCE_SIZE,
                forall|j: int| 0 <= j < i ==> a@[j] == b@[j],
            decreases FIRST_SEQUENCE_SIZE - i,
        {
            if a[i] != b[i] {
                return false;
            }
            i = i + 1;
        }
        proof {
            assert(a@ =~= b@);
        }
        true
    }

    /// The next match from the cursor (see [`match_at`]); on success the cursor moves past its
    /// end token.
    pub fn get_match<const START_SEQUENCE_SIZE: usize, const END_SEQUENCE_SIZE: usize>(
        &mut self,
        start_sequence: &'input [Quantifiers; START_SEQUENCE_SIZE],
        end_sequence: &'input [Quantifiers; END_SEQUENCE_SIZE],
        match_end_of_input: bool,
    ) -> (r: Option<Match<'input>>)
        requires
            old(self).wf(),
        ensures
            final(self).wf(),
            final(self).text() == old(self).text(),
            match match_at(old(self).text(), old(self).cursor(), start_sequence@, end_sequence@, match_end_of_input) {
                Some((a, b, c, d)) => r matches Some(m) && m.start_token@ == old(self).text().subrange(a, b)
                    && m.body@ == old(self).text().subrange(b, c) && m.end_token@ == old(self).text().subrange(c, d)
                    && final(self).cursor() == d,
                None => r is None && final(self).cursor() == old(self).cursor(),
            },
    {
        if !match_end_of_input && START_SEQUENCE_SIZE > 0 && END_SEQUENCE_SIZE == START_SEQUENCE_SIZE
            && !Self::are_sequences_equal(start_sequence, end_sequence) {
            return self.get_balanced_match(start_sequence, end_sequence);
        }
        self.get_unbalanced_match(start_sequence, end_sequence, match_end_of_input)
    }

    fn iterate<const SEQUENCE_SIZE: usize>(
        &self,
        sequence: &[Quantifiers; SEQUENCE_SIZE],
        start_position: usize,
        fail_fast: bool,
        match_end_of_input: bool,
    ) -> (r: Option<(usize, usize)>)
        requires
            self.wf(),
            start_position <= self.text().len(),
        ensures
            match r {
                Some((e, l)) => Some((e as int, l as int)),
                None => None,
            } == find(sequence@, self.text(), start_position as int, fail_fast, match_end_of_input),
            r matches Some((e, l)) ==> start_position <= e - l && e <= self.text().len(),
    {
        if SEQUENCE_SIZE == 0 {
            return Some((start_position, 0));
        }
        let mut pattern = Pattern::new(sequence);
        let n = self.input.unicode_len();
        if match_end_of_input && start_position == n {
            return Some((start_position, 0));
        }
        let mut index = start_position;
        while index < n
            invariant
                n == self.text().len(),
                SEQUENCE_SIZE > 0,
                start_position <= index <= n,
                !(match_end_of_input && start_position == n),
                pattern.wf(),
                pattern.quantifiers() == sequence@,
                pattern.state().1 <= index - start_position,
                scan(sequence@, self.text(), start_position as int, fresh(SEQUENCE_SIZE as int), fail_fast, match_end_of_input)
                    == scan(sequence@, self.text(), index as int, pattern.state(), fail_fast, match_end_of_input),
            decreases n - index,
        {
            let c = self.input.get_char(index);
            let hit = pattern.check_character(&c);
            if hit && pattern.is_end_of_sequence() {
                return Some((index + 1, pattern.length));
            } else if match_end_of_input && index == n - 1 {
                return Some((index + 1, 0));
            } else if fail_fast && !hit {
                return None;
            }
            index = index + 1;
        }
        None
    }

    fn get_unbalanced_match<const START_SEQUENCE_SIZE: usize, const END_SEQUENCE_SIZE: usize>(
        &mut self,
        start_sequence: &'input [Quantifiers; START_SEQUENCE_SIZE],
        end_sequence: &'input [Quantifiers; END_SEQUENCE_SIZE],
        match_end_of_input: bool,
    ) -> (r: Option<Match<'input>>)
        requires
            old(self).wf(),
            !nesting(start_sequence@, end_sequence@, match_end_of_input),
        ensures
            final(self).wf(),
            final(self).input == old(self).input,
            match match_at(old(self).text(), old(self).cursor(), start_sequence@, end_sequence@, match_end_of_input) {
                Some((a, b, c, d)) => r matches Some(m) && m.start_token@ == old(self).text().subrange(a, b)
                    && m.body@ == old(self).text().subrange(b, c) && m.end_token@ == old(self).text().subrange(c, d)
                    && final(self).cursor() == d,
                None => r is None && final(self).cursor() == old(self).cursor(),
            },
    {
        if let Some((start_token_end_index, start_sequence_length)) = self.iterate(start_sequence, self.position, true, false) {
            if let Some((end_token_end_index, end_sequence_length)) = self.iterate(
                end_sequence,
                start_token_end_index,
                false,
                match_end_of_input,
            ) {
                self.position = end_token_end_index;
                return Some(
                    Match {
                        start_token: self.input.substring_ascii(
                            start_token_end_index - start_sequence_length,
                            start_token_end_index,
                        ),
                        body: self.input.substring_ascii(
                            start_token_end_index,
                            end_token_end_index - end_sequence_length,
                        ),
                        end_token: self.input.substring_ascii(
                            end_token_end_index - end_sequence_length,
                            end_token_end_index,
                        ),
                    },
                );
            }
        }
        None
    }

    fn get_balanced_match<const START_SEQUENCE_SIZE: usize, const END_SEQUENCE_SIZE: usize>(
        &mut self,
        start_sequence: &'input [Quantifiers; START_SEQUENCE_SIZE],
        end_sequence: &'input [Quantifiers; END_SEQUENCE_SIZE],
    ) -> (r: Option<Match<'input>>)
        requires
            old(self).wf(),
            nesting(start_sequence@, end_sequence@, false),
        ensures
            final(self).wf(),
            final(self).input == old(self).input,
            match match_at(old(self).text(), old(self).cursor(), start_sequence@, end_sequence@, false) {
                Some((a, b, c, d)) => r matches Some(m) && m.start_token@ == old(self).text().subrange(a, b)
                    && m.body@ == old(self).text().subrange(b, c) && m.end_token@ == old(self).text().subrange(c, d)
                    && final(self).cursor() == d,
                None => r is None && final(self).cursor() == old(self).cursor(),
            },
    {
        let mut start_pattern = Pattern::new(start_sequence);
        let mut end_pattern = Pattern::new(end_sequence);
        let mut balance: usize = 0;
        if let Some((start_token_end_index, sl)) = self.iterate(start_sequence, self.position, true, false) {
            let n = self.input.unicode_len();
            let pos = self.position;
            let mut index = pos;
            let ghost qs = start_sequence@;
            let ghost qe = end_sequence@;
            let ghost s = self.text();
            while index < n
                invariant
                    self.wf(),
                    self.input == old(self).input,
                    self.position == old(self).position,
                    pos == self.position,
                    s == self.text(),
                    n == s.len(),
                    qs == start_sequence@,
                    qe == end_sequence@,
                    nesting(qs, qe, false),
                    pos <= index <= n,
                    start_token_end_index <= n,
                    find(qs, s, pos as int, true, false) == Some((start_token_end_index as int, sl as int)),
                    start_pattern.wf(),
                    start_pattern.quantifiers() == qs,
                    start_pattern.state().1 <= index - pos,
                    end_pattern.wf(),
                    end_pattern.quantifiers() == qe,
                    balance <= index - pos,
                    balance == 0 ==> end_pattern.state() == fresh(qe.len() as int),
                    balance == 0 ==> scan(qs, s, index as int, start_pattern.state(), true, false)
                        == Some((start_token_end_index as int, sl as int)),
                    balance > 0 ==> start_token_end_index <= index && end_pattern.state().1 <= index - start_token_end_index,
                    nesting_close(qs, qe, s, pos as int, fresh(qs.len() as int), fresh(qe.len() as int), 0)
                        == nesting_close(qs, qe, s, index as int, start_pattern.state(), end_pattern.state(), balance as int),
                decreases n - index,
            {
                let c = self.input.get_char(index);
                proof {
                    if balance == 0 {
                        lemma_scan_after(qs, s, index as int, start_pattern.state(), true, false);
                    }
                }
                let h1 = start_pattern.check_character(&c);
                if h1 && start_pattern.is_end_of_sequence() {
                    start_pattern.reset();
                    balance = balance + 1;
                } else if balance > 0 {
                    let h2 = end_pattern.check_character(&c);
                    if h2 && end_pattern.is_end_of_sequence() {
                        balance = balance - 1;
                        if balance == 0 {
                            let end_token_end_index = index + 1;
                            let end_token_start_index = end_token_end_index - end_pattern.length;
                            self.position = index + 1;
                            return Some(
                                Match {
                                    start_token: self.input.substring_ascii(0, start_token_end_index),
                                    body: self.input.substring_ascii(start_token_end_index, end_token_start_index),
                                    end_token: self.input.substring_ascii(end_token_start_index, end_token_end_index),
                                },
                            );
                        }
                        end_pattern.reset();
                    }
                }
                index = index + 1;
            }
        }
        None
    }

    /// The text from the cursor on.
    pub fn get_rest(&self) -> (r: &'input str)
        requires
            self.wf(),
        ensures
            r@ == self.text().subrange(self.cursor(), self.text().len() as int),
    {
        self.input.substring_ascii(self.position, self.input.unicode_len())
    }
}

} // verus!
