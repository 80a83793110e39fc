//! A pattern of characters (each once, or a fixed number of times) matched one character at a
//! time.
use vstd::prelude::*;

verus! {

/// One element of a pattern: a character once, or a character a given number of times (none
/// at all for zero).
#[derive(Clone, Debug, PartialEq)]
pub enum Quantifiers {
    Once(char),
    RepeatTimes(usize, char),
}

/// The sum of `s`.
pub open spec fn seq_sum(s: Seq<usize>) -> int
    decreases s.len(),
{
    if s.len() == 0 {
        0
    } else {
        seq_sum(s.drop_last()) + s.last()
    }
}

/// How many characters an element can count at most.
pub open spec fn bound(q: Quantifiers) -> int {
    match q {
        Quantifiers::Once(_) => 1,
        Quantifiers::RepeatTimes(len, _) => if len == 0 {
            1
        } else {
            len as int
        },
    }
}

/// How many characters the elements of `s` can count at most, together.
pub open spec fn total(s: Seq<Quantifiers>) -> int
    decreases s.len(),
{
    if s.len() == 0 {
        0
    } else {
        total(s.drop_last()) + bound(s.last())
    }
}

/// `n` zeros.
pub open spec fn zeros(n: int) -> Seq<usize> {
    Seq::new(n as nat, |i: int| 0usize)
}

/// `l` with one more character counted at `i`.
pub open spec fn bump(l: Seq<usize>, i: int) -> Seq<usize> {
    if 0 <= i < l.len() {
        l.update(i, (l[i] + 1) as usize)
    } else {
        l
    }
}

/// Feeding `c` at element `index` with the counts `l`: the element to go on from (`None`
/// when `c` does not fit there) and the new counts. An element of zero repetitions lets `c`
/// try the next one.
pub open spec fn step_index(q: Seq<Quantifiers>, l: Seq<usize>, c: char, index: int) -> (Option<int>, Seq<usize>)
    decreases q.len() - index,
{
    if index < 0 || index >= q.len() {
        (None, l)
    } else {
        let cur = if index < l.len() {
            l[index] as int
        } else {
            0
        };
        match q[index] {
            Quantifiers::Once(p) => if p == c {
                (Some(index + 1), bump(l, index))
            } else {
                (None, l)
            },
            Quantifiers::RepeatTimes(len, p) => if p == c && cur + 1 < len {
                (Some(index), bump(l, index))
            } else if p == c && cur + 1 == len {
                (Some(index + 1), bump(l, index))
            } else if len == 0 {
                step_index(q, l, c, index + 1)
            } else {
                (None, l)
            },
        }
    }
}

/// The state a check reports, and the pattern's state (element index, last character,
/// counts) after it: at the end of the pattern, an end state with the counts and their sum,
/// and the pattern starts over; otherwise a plain state.
pub open spec fn create(q: Seq<Quantifiers>, hit: bool, st: (int, Option<char>, Seq<usize>)) -> (
    (bool, bool, int, Seq<usize>),
    (int, Option<char>, Seq<usize>),
) {
    if st.0 == q.len() {
        ((true, true, seq_sum(st.2), st.2), (0, None, zeros(q.len() as int)))
    } else {
        ((hit, false, 0, zeros(q.len() as int)), st)
    }
}

/// Feeding `c` to a pattern in state `st`: it goes on from where it is; or, right after a
/// first element, the same character again is taken; or the pattern starts over with `c`;
/// or it misses and starts over.
pub open spec fn check(q: Seq<Quantifiers>, st: (int, Option<char>, Seq<usize>), c: char) -> (
    (bool, bool, int, Seq<usize>),
    (int, Option<char>, Seq<usize>),
) {
    let (index, last, l) = st;
    match step_index(q, l, c, index) {
        (Some(ni), l2) => create(q, true, (ni, Some(c), l2)),
        (None, _) => if index == 1 && last == Some(c) {
            create(q, true, st)
        } else {
            match step_index(q, l, c, 0) {
                (Some(ni), _) => create(q, true, (ni, Some(c), bump(zeros(q.len() as int), 0))),
                (None, _) => create(q, false, (0, None, zeros(q.len() as int))),
            }
        },
    }
}

/// What a check reports: whether the character was taken, whether the pattern ended, and
/// at its end how many characters it took, in all and per element.
#[derive(Debug, PartialEq)]
pub struct PatternState<const SIZE: usize> {
    pub hit: bool,
    pub end: bool,
    pub length: usize,
    quantifiers_lengths: [usize; SIZE],
}

impl<const SIZE: usize> PatternState<SIZE> {
    /// The state as a tuple: hit, end, length and counts per element.
    pub closed spec fn view_state(&self) -> (bool, bool, int, Seq<usize>) {
        (self.hit, self.end, self.length as int, self.quantifiers_lengths@)
    }

    /// A state that is no end: taken or not, with no counts.
    pub fn new(hit: bool) -> (r: PatternState<SIZE>)
        ensures
            r.view_state() == (hit, false, 0int, zeros(SIZE as int)),
    {
        let r = PatternState { hit, end: false, length: 0, quantifiers_lengths: [0;SIZE] };
        proof {
            assert(r.quantifiers_lengths@ =~= zeros(SIZE as int));
        }
        r
    }

    /// The state at the end of a pattern with the counts `quantifiers_lengths`, whose sum is its
    /// length.
    pub fn end(quantifiers_lengths: [usize; SIZE]) -> (r: PatternState<SIZE>)
        requires
            seq_sum(quantifiers_lengths@) <= usize::MAX,
        ensures
            r.view_state() == (true, true, seq_sum(quantifiers_lengths@), quantifiers_lengths@),
    {
        let mut length: usize = 0;
        let mut i: usize = 0;
        while i < SIZE
            invariant
                i <= SIZE,
                quantifiers_lengths@.len() == SIZE,
                length == seq_sum(quantifiers_lengths@.subrange(0, i as int)),
                seq_sum(quantifiers_lengths@) <= usize::MAX,
            decreases SIZE - i,
        {
            proof {
                lemma_sum_prefix(quantifiers_lengths@, i + 1);
                assert(quantifiers_lengths@.subrange(0, i + 1).drop_last() =~= quantifiers_lengths@.subrange(0, i as int));
            }
            length = length + quantifiers_lengths[i];
            i = i + 1;
        }
        proof {
            assert(quantifiers_lengths@.subrange(0, SIZE as int) =~= quantifiers_lengths@);
        }
        PatternState { hit: true, end: true, length, quantifiers_lengths }
    }
}

/// A prefix sums to no more than the whole.
pub proof fn lemma_sum_prefix(s: Seq<usize>, i: int)
    requires
        0 <= i <= s.len(),
    ensures
        0 <= seq_sum(s.subrange(0, i)) <= seq_sum(s),
    decreases s.len(),
{
    if i < s.len() {
        lemma_sum_prefix(s.drop_last(), i);
        assert(s.drop_last().subrange(0, i) =~= s.subrange(0, i));
    } else {
        assert(s.subrange(0, i) =~= s);
        lemma_sum_nonneg(s);
    }
}

proof fn lemma_sum_nonneg(s: Seq<usize>)
    ensures
        seq_sum(s) >= 0,
    decreases s.len(),
{
    if s.len() > 0 {
        lemma_sum_nonneg(s.drop_last());
    }
}

/// Counts within their bounds sum to no more than the pattern's total.
pub proof fn lemma_sum_bound(q: Seq<Quantifiers>, l: Seq<usize>)
    requires
        q.len() == l.len(),
        forall|j: int| 0 <= j < l.len() ==> l[j] <= bound(#[trigger] q[j]),
    ensures
        seq_sum(l) <= total(q),
    decreases l.len(),
{
    if l.len() > 0 {
        let (q2, l2) = (q.drop_last(), l.drop_last());
        assert forall|j: int| 0 <= j < l2.len() implies l2[j] <= bound(#[trigger] q2[j]) by {
            assert(q2[j] == q[j] && l2[j] == l[j]);
        }
        lemma_sum_bound(q2, l2);
        assert(l[l.len() - 1] <= bound(q[q.len() - 1]));
    }
}

/// Matches characters against a sequence of quantifiers, one character at a time.
pub struct Pattern<'token, const SIZE: usize> {
    index: usize,
    last_char: Option<char>,
    sequence: &'token [Quantifiers; SIZE],
    quantifiers_lengths: [usize; SIZE],
}

impl<'sequence, const SIZE: usize> Pattern<'sequence, SIZE> {
    /// The quantifiers.
    pub closed spec fn quantifiers(&self) -> Seq<Quantifiers> {
        self.sequence@
    }

    /// The state: element index, last character taken and counts per element.
    pub closed spec fn view_state(&self) -> (int, Option<char>, Seq<usize>) {
        (self.index as int, self.last_char, self.quantifiers_lengths@)
    }

    /// The invariant: the counts stay within their elements' bounds, elements from the current
    /// one on count nothing yet (but a repetition in progress), and the counts of the whole
    /// pattern fit in a `usize`.
    pub closed spec fn wf(&self) -> bool {
        let (q, l) = (self.sequence@, self.quantifiers_lengths@);
        &&& q.len() == SIZE
        &&& l.len() == SIZE
        &&& self.index <= SIZE
        &&& total(q) <= usize::MAX
        &&& forall|j: int| 0 <= j < SIZE ==> l[j] <= bound(#[trigger] q[j])
        &&& forall|j: int| self.index < j < SIZE ==> #[trigger] l[j] == 0
        &&& forall|j: int|
            self.index <= j < SIZE && (#[trigger] q[j]) is Once ==> l[j] == 0
    }

    /// A pattern over `sequence`, at its start.
    pub fn new(sequence: &'sequence [Quantifiers; SIZE]) -> (r: Pattern<'sequence, SIZE>)
        requires
            total(sequence@) <= usize::MAX,
        ensures
            r.wf(),
            r.quantifiers() == sequence@,
            r.view_state() == (0int, None::<char>, zeros(SIZE as int)),
    {
        let r = Pattern { index: 0, last_char: None, sequence, quantifiers_lengths: [0;SIZE] };
        proof {
            assert(r.quantifiers_lengths@ =~= zeros(SIZE as int));
        }
        r
    }

    fn increment_quantifier_length(&mut self, index: usize)
        requires
            index < SIZE ==> old(self).quantifiers_lengths@[index as int] < usize::MAX,
            old(self).quantifiers_lengths@.len() == SIZE,
        ensures
            final(self).index == old(self).index,
            final(self).last_char == old(self).last_char,
            final(self).sequence == old(self).sequence,
            final(self).quantifiers_lengths@ == bump(old(self).quantifiers_lengths@, index as int),
    {
        if index < SIZE {
            let v = self.quantifiers_lengths[index];
            self.quantifiers_lengths[index] = v + 1;
            proof {
                assert(self.quantifiers_lengths@ =~= bump(old(self).quantifiers_lengths@, index as int));
            }
        }
    }

    fn next_index(&mut self, c: &char, index: usize) -> (r: Option<usize>)
        requires
            old(self).sequence@.len() == SIZE,
            old(self).quantifiers_lengths@.len() == SIZE,
            forall|j: int| 0 <= j < SIZE ==> old(self).quantifiers_lengths@[j] <= bound(#[trigger] old(self).sequence@[j]),
            total(old(self).sequence@) <= usize::MAX,
            index <= SIZE,
        ensures
            final(self).index == old(self).index,
            final(self).last_char == old(self).last_char,
            final(self).sequence == old(self).sequence,
            (match r {
                Some(i) => Some(i as int),
                None => None,
            }, final(self).quantifiers_lengths@) == step_index(
                old(self).sequence@,
                old(self).quantifiers_lengths@,
                *c,
                index as int,
            ),
            r matches Some(i) ==> i <= SIZE,
        decreases SIZE - index,
    {
        if index >= SIZE {
            return None;
        }
        proof {
            lemma_bound_le_total(old(self).sequence@, index as int);
        }
        let cur = self.quantifiers_lengths[index];
        match &self.sequence[index] {
            Quantifiers::Once(p) => {
                if *p == *c {
                    self.increment_quantifier_length(index);
                    Some(index + 1)
                } else {
                    None
                }
            },
            Quantifiers::RepeatTimes(length, p) => {
                let length = *length;
                if *p == *c && length > 0 && cur < length - 1 {
                    self.increment_quantifier_length(index);
                    Some(index)
                } else if *p == *c && length > 0 && cur == length - 1 {
                    self.increment_quantifier_length(index);
                    Some(index + 1)
                } else if length == 0 {
                    self.next_index(c, index + 1)
                } else {
                    None
                }
            },
        }
    }

    /// Feeds `c` to the pattern (see [`check`]) and reports the state.
    pub fn check_character(&mut self, c: &char) -> (r: PatternState<SIZE>)
        requires
            old(self).wf(),
        ensures
            final(self).wf(),
            final(self).quantifiers() == old(self).quantifiers(),
            (r.view_state(), final(self).view_state()) == check(
                old(self).quantifiers(),
                old(self).view_state(),
                *c,
            ),
    {
        let ghost q = self.sequence@;
        let ghost st0 = self.view_state();
        let index = self.index;
        if let Some(new_index) = self.next_index(c, index) {
            self.index = new_index;
            self.last_char = Some(*c);
            proof {
                lemma_step_keeps(q, st0.2, *c, index as int);
            }
            return self.create_state(true);
        }
        proof {
            lemma_step_none(q, st0.2, *c, index as int);
        }
        if self.index == 1 && self.last_char == Some(*c) {
            return self.create_state(true);
        } else if let Some(new_index) = self.next_index(c, 0) {
            self.reset();
            self.increment_quantifier_length(0);
            self.index = new_index;
            self.last_char = Some(*c);
            proof {
                let l = self.quantifiers_lengths@;
                assert(l == bump(zeros(SIZE as int), 0));
                assert forall|j: int| 0 <= j < SIZE implies l[j] <= bound(#[trigger] q[j]) && (j > 0 ==> l[j] == 0) && (j == 0 ==> l[j] == 1) by {
                    assert(zeros(SIZE as int)[j] == 0);
                }
                lemma_step_start(q, st0.2, *c);
                assert(self.sequence@ == q);
                assert(self.wf());
            }
            return self.create_state(true);
        }
        self.reset();
        self.create_state(false)
    }

    /// Starts the pattern over.
    pub fn reset(&mut self)
        ensures
            final(self).quantifiers() == old(self).quantifiers(),
            total(old(self).quantifiers()) <= usize::MAX ==> final(self).wf(),
            final(self).view_state() == (0int, None::<char>, zeros(SIZE as int)),
    {
        self.index = 0;
        self.last_char = None;
        self.quantifiers_lengths = [0;SIZE];
        proof {
            assert(self.quantifiers_lengths@ =~= zeros(SIZE as int));
            assert(self.sequence@.len() == SIZE);
        }
    }

    fn create_state(&mut self, hit: bool) -> (r: PatternState<SIZE>)
        requires
            old(self).wf(),
        ensures
            final(self).wf(),
            final(self).sequence == old(self).sequence,
            (r.view_state(), final(self).view_state()) == create(old(self).sequence@, hit, old(self).view_state()),
    {
        if self.index == SIZE {
            proof {
                lemma_sum_bound(self.sequence@, self.quantifiers_lengths@);
            }
            let state = PatternState::end(self.quantifiers_lengths);
            self.reset();
            return state;
        }
        PatternState::new(hit)
    }
}

/// An element's bound is within the pattern's total.
pub proof fn lemma_bound_le_total(q: Seq<Quantifiers>, i: int)
    requires
        0 <= i < q.len(),
    ensures
        bound(q[i]) <= total(q),
    decreases q.len(),
{
    lemma_total_nonneg(q.drop_last());
    if i < q.len() - 1 {
        lemma_bound_le_total(q.drop_last(), i);
        assert(q.drop_last()[i] == q[i]);
    }
}

proof fn lemma_total_nonneg(q: Seq<Quantifiers>)
    ensures
        total(q) >= 0,
    decreases q.len(),
{
    if q.len() > 0 {
        lemma_total_nonneg(q.drop_last());
    }
}

/// Going on from element `index` keeps the counts within bounds, and what lies beyond the new
/// element untouched.
pub proof fn lemma_step_keeps(q: Seq<Quantifiers>, l: Seq<usize>, c: char, index: int)
    requires
        q.len() == l.len(),
        0 <= index <= q.len(),
        forall|j: int| 0 <= j < l.len() ==> l[j] <= bound(#[trigger] q[j]),
        forall|j: int| index < j < l.len() ==> #[trigger] l[j] == 0,
        forall|j: int| index <= j < l.len() && (#[trigger] q[j]) is Once ==> l[j] == 0,
    ensures
        step_index(q, l, c, index) matches (Some(ni), l2) ==> {
            &&& index <= ni <= q.len()
            &&& l2.len() == l.len()
            &&& forall|j: int| 0 <= j < l2.len() ==> l2[j] <= bound(#[trigger] q[j])
            &&& forall|j: int| ni < j < l2.len() ==> #[trigger] l2[j] == 0
            &&& forall|j: int| ni <= j < l2.len() && (#[trigger] q[j]) is Once ==> l2[j] == 0
        },
    decreases q.len() - index,
{
    if 0 <= index < q.len() {
        match q[index] {
            Quantifiers::RepeatTimes(len, p) => {
                let cur = l[index] as int;
                if !(p == c && cur + 1 < len) && !(p == c && cur + 1 == len) && len == 0 {
                    lemma_step_keeps(q, l, c, index + 1);
                }
            },
            _ => {},
        }
    }
}

/// A miss leaves the counts as they were.
pub proof fn lemma_step_none(q: Seq<Quantifiers>, l: Seq<usize>, c: char, index: int)
    ensures
        step_index(q, l, c, index).0 is None ==> step_index(q, l, c, index).1 == l,
    decreases q.len() - index,
{
    if 0 <= index < q.len() {
        lemma_step_none(q, l, c, index + 1);
    }
}

/// Starting over with `c` goes on to an element within the pattern.
pub proof fn lemma_step_start(q: Seq<Quantifiers>, l: Seq<usize>, c: char)
    ensures
        step_index(q, l, c, 0) matches (Some(ni), _) ==> 0 <= ni <= q.len(),
{
    lemma_step_range(q, l, c, 0);
}

proof fn lemma_step_range(q: Seq<Quantifiers>, l: Seq<usize>, c: char, index: int)
    ensures
        step_index(q, l, c, index) matches (Some(ni), _) ==> index <= ni <= q.len(),
    decreases q.len() - index,
{
    if 0 <= index < q.len() {
        lemma_step_range(q, l, c, index + 1);
    }
}

} // verus!
