//! Finds a start sequence and the end sequence that closes it in a text.
use vstd::prelude::*;
use vstd::string::*;
use vstd::utf8::{
    is_char_boundary, is_char_boundary_iff_not_is_continuation_byte, is_char_boundary_start_end_of_seq,
    length_of_first_scalar, pop_first_scalar, valid_first_scalar, valid_utf8, valid_utf8_split,
};

verus! {

/// In UTF-8, the end of a valid prefix is a character boundary.
proof fn lemma_prefix_boundary(q: Seq<u8>, r: Seq<u8>)
    requires
        valid_utf8(q),
        valid_utf8(q + r),
    ensures
        is_char_boundary(q + r, q.len() as int),
    decreases q.len(),
{
    if q.len() > 0 {
        let s = q + r;
        let l = length_of_first_scalar(q);
        assert(valid_first_scalar(q) && valid_utf8(pop_first_scalar(q)));
        assert(s[0] == q[0]);
        assert(l <= q.len());
        assert forall|i: int| 0 <= i < l implies s[i] == q[i] by {}
        assert(length_of_first_scalar(s) == l);
        assert(pop_first_scalar(s) =~= pop_first_scalar(q) + r);
        assert(valid_utf8(pop_first_scalar(s)));
        lemma_prefix_boundary(pop_first_scalar(q), r);
    }
}

/// A boundary of the text after byte `p` is one of the whole text, when `p` is one.
proof fn lemma_boundary_lift(b: Seq<u8>, p: int, j: int)
    requires
        valid_utf8(b),
        0 <= p <= j <= b.len(),
        is_char_boundary(b, p),
        is_char_boundary(b.subrange(p, b.len() as int), j - p),
    ensures
        is_char_boundary(b, j),
{
    if j == b.len() {
        is_char_boundary_start_end_of_seq(b);
    } else {
        let t = b.subrange(p, b.len() as int);
        valid_utf8_split(b, p);
        is_char_boundary_iff_not_is_continuation_byte(t, j - p);
        is_char_boundary_iff_not_is_continuation_byte(b, j);
    }
}

/// A boundary of the text is one of the text after byte `p`, when `p` is one.
proof fn lemma_boundary_lower(b: Seq<u8>, p: int, j: int)
    requires
        valid_utf8(b),
        0 <= p <= j <= b.len(),
        is_char_boundary(b, p),
        is_char_boundary(b, j),
    ensures
        is_char_boundary(b.subrange(p, b.len() as int), j - p),
{
    let t = b.subrange(p, b.len() as int);
    valid_utf8_split(b, p);
    if j == b.len() {
        is_char_boundary_start_end_of_seq(t);
    } else {
        is_char_boundary_iff_not_is_continuation_byte(t, j - p);
        is_char_boundary_iff_not_is_continuation_byte(b, j);
    }
}

/// Where valid UTF-8 `q` stands at a boundary `p` of the text, its end is a boundary too.
proof fn lemma_boundary_after(b: Seq<u8>, p: int, q: Seq<u8>)
    requires
        valid_utf8(b),
        valid_utf8(q),
        0 <= p,
        p + q.len() <= b.len(),
        is_char_boundary(b, p),
        b.subrange(p, p + q.len()) == q,
    ensures
        is_char_boundary(b, p + q.len()),
{
    let t = b.subrange(p, b.len() as int);
    valid_utf8_split(b, p);
    assert(t =~= q + t.subrange(q.len() as int, t.len() as int));
    lemma_prefix_boundary(q, t.subrange(q.len() as int, t.len() as int));
    lemma_boundary_lift(b, p, p + q.len());
}

/// The bytes `a..b` of `s`, where both are character boundaries.
fn slice_str<'a>(s: &'a str, a: usize, b: usize) -> (r: &'a str)
    requires
        a <= b <= s.spec_bytes().len(),
        is_char_boundary(s.spec_bytes(), a as int),
        is_char_boundary(s.spec_bytes(), b as int),
    ensures
        r.spec_bytes() == s.spec_bytes().subrange(a as int, b as int),
{
    let ghost sb = s.spec_bytes();
    proof {
        vstd::utf8::encode_utf8_valid_utf8(s@);
        lemma_boundary_lower(sb, a as int, b as int);
    }
    let (_, rest) = s.split_at(a);
    let (mid, _) = rest.split_at(b - a);
    proof {
        assert(rest.spec_bytes() =~= sb.subrange(a as int, sb.len() as int));
        assert(mid.spec_bytes() =~= sb.subrange(a as int, b as int));
    }
    mid
}

/// `pat` stands in `b` at byte `i`.
pub open spec fn starts_at(b: Seq<u8>, i: int, pat: Seq<u8>) -> bool {
    0 <= i && i + pat.len() <= b.len() && b.subrange(i, i + pat.len()) == pat
}

/// Looking for `pat` from byte `i` on: where the first occurrence ends and how long it is;
/// with `to_end`, the end of the text when the last byte is reached first; with `fail_fast`,
/// `None` unless `pat` stands at `i` itself (or `to_end` applies there).
pub open spec fn scan(b: Seq<u8>, pat: Seq<u8>, i: int, fail_fast: bool, to_end: bool) -> Option<(int, int)>
    decreases b.len() - i,
{
    if i < 0 || i >= b.len() {
        None
    } else if starts_at(b, i, pat) {
        Some((i + pat.len(), pat.len() as int))
    } else if to_end && i == b.len() - 1 {
        Some((i + 1, 0))
    } else if fail_fast {
        None
    } else {
        scan(b, pat, i + 1, fail_fast, to_end)
    }
}

/// Like [`scan`] from `from`, but an empty `pat` is found at once, and with `to_end` so is
/// the end of the text.
pub open spec fn find(b: Seq<u8>, pat: Seq<u8>, from: int, fail_fast: bool, to_end: bool) -> Option<(int, int)> {
    if pat.len() == 0 {
        Some((from, 0))
    } else if to_end && from == b.len() {
        Some((from, 0))
    } else {
        scan(b, pat, from, fail_fast, to_end)
    }
}

/// Where the `end` that closes a `start` stands, scanning from byte `i` with `balance` starts
/// still open; a `start` found first opens one more.
pub open spec fn nesting_close(b: Seq<u8>, start: Seq<u8>, end: Seq<u8>, i: int, balance: int) -> Option<int>
    decreases b.len() - i,
{
    if i < 0 || i >= b.len() {
        None
    } else if starts_at(b, i, start) {
        nesting_close(b, start, end, i + 1, balance + 1)
    } else if starts_at(b, i, end) {
        if balance == 1 {
            Some(i)
        } else {
            nesting_close(b, start, end, i + 1, balance - 1)
        }
    } else {
        nesting_close(b, start, end, i + 1, balance)
    }
}

/// Starts and ends nest when they differ but are equally long, neither empty, and the end of
/// the text is no end.
pub open spec fn nesting(start: Seq<u8>, end: Seq<u8>, to_end: bool) -> bool {
    !to_end && start.len() > 0 && end.len() > 0 && start.len() == end.len() && start != end
}

/// The match from byte `pos` on, as the bytes `a..b` of the start token, `b..c` of the body
/// and `c..d` of the end token: the start must stand at `pos`; the end is the one that
/// closes it when they nest (then the start token reaches back to the start of the text),
/// else the first one after it.
pub open spec fn match_at(b: Seq<u8>, pos: int, start: Seq<u8>, end: Seq<u8>, to_end: bool) -> Option<(int, int, int, int)> {
    match find(b, start, pos, true, false) {
        Some((se, sl)) => if nesting(start, end, to_end) {
            match nesting_close(b, start, end, se, 1) {
                Some(i) => Some((0, se, i, i + end.len())),
                None => None,
            }
        } else {
            match find(b, end, se, false, to_end) {
                Some((ee, el)) => Some((se - sl, se, ee - el, ee)),
                None => None,
            }
        },
        None => None,
    }
}

/// Each byte that [`scan`] reaches is taken as the start of the rest of the text, so each
/// must start a character.
pub open spec fn scan_cuts_clean(b: Seq<u8>, pat: Seq<u8>, i: int, fail_fast: bool, to_end: bool) -> bool
    decreases b.len() - i,
{
    if i < 0 || i >= b.len() {
        true
    } else {
        is_char_boundary(b, i) && (starts_at(b, i, pat) || (to_end && i == b.len() - 1) || fail_fast
            || scan_cuts_clean(b, pat, i + 1, fail_fast, to_end))
    }
}

/// Each byte that [`find`] reaches starts a character.
pub open spec fn find_cuts_clean(b: Seq<u8>, pat: Seq<u8>, from: int, fail_fast: bool, to_end: bool) -> bool {
    pat.len() == 0 || (to_end && from == b.len()) || scan_cuts_clean(b, pat, from, fail_fast, to_end)
}

/// Each byte that [`nesting_close`] reaches starts a character.
pub open spec fn nesting_cuts_clean(b: Seq<u8>, start: Seq<u8>, end: Seq<u8>, i: int, balance: int) -> bool
    decreases b.len() - i,
{
    if i < 0 || i >= b.len() {
        true
    } else {
        is_char_boundary(b, i) && if starts_at(b, i, start) {
            nesting_cuts_clean(b, start, end, i + 1, balance + 1)
        } else if starts_at(b, i, end) {
            balance == 1 || nesting_cuts_clean(b, start, end, i + 1, balance - 1)
        } else {
            nesting_cuts_clean(b, start, end, i + 1, balance)
        }
    }
}

/// Each byte that the search for a match from byte `pos` reaches starts a character.
pub open spec fn match_cuts_clean(b: Seq<u8>, pos: int, start: Seq<u8>, end: Seq<u8>, to_end: bool) -> bool {
    &&& find_cuts_clean(b, start, pos, true, false)
    &&& match find(b, start, pos, true, false) {
        Some((se, sl)) => if nesting(start, end, to_end) {
            nesting_cuts_clean(b, start, end, se, 1)
        } else {
            find_cuts_clean(b, end, se, false, to_end)
        },
        None => true,
    }
}

proof fn lemma_scan_cut(b: Seq<u8>, pat: Seq<u8>, i: int, fail_fast: bool, to_end: bool)
    requires
        0 <= i,
        valid_utf8(b),
        scan_cuts_clean(b, pat, i, fail_fast, to_end),
    ensures
        scan(b, pat, i, fail_fast, to_end) matches Some((e, l)) ==> is_char_boundary(b, e - l),
    decreases b.len() - i,
{
    if 0 <= i < b.len() {
        if starts_at(b, i, pat) {
        } else if to_end && i == b.len() - 1 {
            is_char_boundary_start_end_of_seq(b);
        } else if !fail_fast {
            lemma_scan_cut(b, pat, i + 1, fail_fast, to_end);
        }
    }
}

proof fn lemma_nesting_cut(b: Seq<u8>, start: Seq<u8>, end: Seq<u8>, i: int, balance: int)
    requires
        0 <= i,
        nesting_cuts_clean(b, start, end, i, balance),
    ensures
        nesting_close(b, start, end, i, balance) matches Some(j) ==> is_char_boundary(b, j),
    decreases b.len() - i,
{
    if 0 <= i < b.len() {
        if starts_at(b, i, start) {
            lemma_nesting_cut(b, start, end, i + 1, balance + 1);
        } else if starts_at(b, i, end) {
            if balance != 1 {
                lemma_nesting_cut(b, start, end, i + 1, balance - 1);
            }
        } else {
            lemma_nesting_cut(b, start, end, i + 1, balance);
        }
    }
}

/// Where a match lies, its pieces start and end characters, given that its search reaches
/// only starts of characters from a start of a character.
proof fn lemma_match_cuts(b: Seq<u8>, pos: int, start: Seq<u8>, end: Seq<u8>, to_end: bool)
    requires
        valid_utf8(b),
        valid_utf8(start),
        valid_utf8(end),
        0 <= pos <= b.len(),
        is_char_boundary(b, pos),
        match_cuts_clean(b, pos, start, end, to_end),
    ensures
        match_at(b, pos, start, end, to_end) matches Some((a, bb, c, d)) ==> {
            &&& is_char_boundary(b, a)
            &&& is_char_boundary(b, bb)
            &&& is_char_boundary(b, c)
            &&& is_char_boundary(b, d)
        },
{
    lemma_match_at(b, pos, start, end, to_end);
    lemma_scan(b, start, pos, true, false);
    if let Some((se, sl)) = find(b, start, pos, true, false) {
        if start.len() > 0 {
            assert(se == pos + start.len());
            lemma_boundary_after(b, pos, start);
        }
        lemma_scan(b, end, se, false, to_end);
        lemma_nesting_close(b, start, end, se, 1);
        vstd::utf8::is_char_boundary_start_end_of_seq(b);
        if nesting(start, end, to_end) {
            lemma_nesting_cut(b, start, end, se, 1);
            if let Some(i) = nesting_close(b, start, end, se, 1) {
                assert(b.subrange(i, i + end.len()) == end);
                lemma_boundary_after(b, i, end);
            }
        } else {
            if end.len() > 0 && !(to_end && se == b.len()) {
                lemma_scan_cut(b, end, se, false, to_end);
                if let Some((ee, el)) = scan(b, end, se, false, to_end) {
                    if el > 0 {
                        assert(b.subrange(ee - el, ee) == end);
                        lemma_boundary_after(b, ee - el, end);
                    }
                }
            }
        }
    }
}

/// After a match from byte `pos`, the text from `pos` on is its start token, body and end
/// token, then the text after it; its start token is `start` and its end token is `end`, or
/// nothing where the end of the text ended it. This holds where starts and ends do not nest,
/// or the search starts at the start of the text (a nested match's start token runs from
/// there).
pub proof fn law_match_then_rest(b: Seq<u8>, pos: int, start: Seq<u8>, end: Seq<u8>, to_end: bool)
    requires
        0 <= pos <= b.len(),
        !nesting(start, end, to_end) || pos == 0,
    ensures
        match_at(b, pos, start, end, to_end) matches Some((a, bb, c, d)) ==> {
            &&& b.subrange(pos, b.len() as int) == b.subrange(a, bb) + b.subrange(bb, c) + b.subrange(c, d)
                + b.subrange(d, b.len() as int)
            &&& b.subrange(a, bb) == start
            &&& (b.subrange(c, d) == end || (to_end && c == d))
        },
{
    lemma_match_at(b, pos, start, end, to_end);
    lemma_scan(b, start, pos, true, false);
    if let Some((a, bb, c, d)) = match_at(b, pos, start, end, to_end) {
        let (se, sl) = find(b, start, pos, true, false)->0;
        lemma_scan(b, end, se, false, to_end);
        lemma_nesting_close(b, start, end, se, 1);
        if start.len() > 0 {
            assert(se == pos + start.len());
        }
        assert(a == pos);
        assert(b.subrange(a, bb) =~= start);
        if nesting(start, end, to_end) {
            assert(b.subrange(c, d) =~= end);
        } else if end.len() > 0 && !(to_end && se == b.len()) {
            if d - c > 0 {
                assert(b.subrange(c, d) =~= end);
            }
        }
        assert(b.subrange(pos, b.len() as int) =~= b.subrange(a, bb) + b.subrange(bb, c) + b.subrange(c, d)
            + b.subrange(d, b.len() as int));
    }
}

proof fn lemma_scan(b: Seq<u8>, pat: Seq<u8>, i: int, fail_fast: bool, to_end: bool)
    requires
        0 <= i,
    ensures
        scan(b, pat, i, fail_fast, to_end) matches Some((e, l)) ==> 0 <= l && i <= e - l && e <= b.len()
            && (!to_end ==> l == pat.len()) && (l > 0 ==> l == pat.len() && starts_at(b, e - l, pat))
            && (l == 0 ==> pat.len() == 0 || (to_end && e == b.len())),
    decreases b.len() - i,
{
    if 0 <= i < b.len() {
        lemma_scan(b, pat, i + 1, fail_fast, to_end);
    }
}

proof fn lemma_nesting_close(b: Seq<u8>, start: Seq<u8>, end: Seq<u8>, i: int, balance: int)
    requires
        0 <= i,
    ensures
        nesting_close(b, start, end, i, balance) matches Some(j) ==> i <= j && j + end.len() <= b.len()
            && starts_at(b, j, end),
    decreases b.len() - i,
{
    if 0 <= i < b.len() {
        lemma_nesting_close(b, start, end, i + 1, balance + 1);
        lemma_nesting_close(b, start, end, i + 1, balance - 1);
        lemma_nesting_close(b, start, end, i + 1, balance);
    }
}

/// Where a match lies: within the text, in order.
pub proof fn lemma_match_at(b: Seq<u8>, pos: int, start: Seq<u8>, end: Seq<u8>, to_end: bool)
    requires
        0 <= pos <= b.len(),
    ensures
        match_at(b, pos, start, end, to_end) matches Some((a, bb, c, d)) ==> 0 <= a <= bb <= c <= d
            <= b.len(),
{
    lemma_scan(b, start, pos, true, false);
    if let Some((se, sl)) = find(b, start, pos, true, false) {
        lemma_scan(b, end, se, false, to_end);
        lemma_nesting_close(b, start, end, se, 1);
    }
}

fn starts_with_at(b: &[u8], i: usize, pat: &[u8]) -> (r: bool)
    ensures
        r == starts_at(b@, i as int, pat@),
{
    let n = b.len();
    if i > n || pat.len() > n - i {
        return false;
    }
    let mut k: usize = 0;
    while k < pat.len()
        invariant
            n == b@.len(),
            i + pat@.len() <= b@.len(),
            k <= pat@.len(),
            b@.subrange(i as int, i + k) == pat@.subrange(0, k as int),
        decreases pat@.len() - k,
    {
        if b[i + k] != pat[k] {
            proof {
                assert(b@.subrange(i as int, i + pat@.len())[k as int] != pat@[k as int]);
            }
            return false;
        }
        proof {
            assert(b@.subrange(i as int, i + k + 1) =~= b@.subrange(i as int, i + k).push(b@[i + k]));
            assert(pat@.subrange(0, k + 1) =~= pat@.subrange(0, k as int).push(pat@[k as int]));
        }
        k = k + 1;
    }
    proof {
        assert(pat@.subrange(0, pat@.len() as int) =~= pat@);
    }
    true
}

fn same_bytes(a: &[u8], b: &[u8]) -> (r: bool)
    ensures
        r == (a@ == b@),
{
    if a.len() != b.len() {
        return false;
    }
    let r = starts_with_at(a, 0, b);
    proof {
        assert(a@.subrange(0, b@.len() as int) =~= a@);
    }
    r
}

/// Start token, body and end token of a match.
#[derive(Debug, PartialEq)]
pub struct Match<'input> {
    pub start_token: &'input str,
    pub body: &'input str,
    pub end_token: &'input str,
}

/// Finds matches in a text, left to right.
pub struct Matcher<'input> {
    input: &'input str,
    position: usize,
}

/// What a call of `get_match` with `start`, `end` and `to_end` on `m0` gives: `r`, with the
/// matcher left as `m1`.
pub open spec fn match_result<'input>(
    m0: Matcher<'input>,
    m1: Matcher<'input>,
    start: &str,
    end: &str,
    to_end: bool,
    r: Option<Match<'input>>,
) -> bool {
    &&& m1.bytes() == m0.bytes()
    &&& match match_at(m0.bytes(), m0.cursor(), start.spec_bytes(), end.spec_bytes(), to_end) {
        Some((a, b, c, d)) => r matches Some(m) && m.start_token.spec_bytes() == m0.bytes().subrange(a, b)
            && m.body.spec_bytes() == m0.bytes().subrange(b, c) && m.end_token.spec_bytes() == m0.bytes().subrange(c, d)
            && m1.cursor() == d,
        None => r is None && m1.cursor() == m0.cursor(),
    }
}

impl<'input> Matcher<'input> {
    /// The bytes of the text.
    pub closed spec fn bytes(&self) -> Seq<u8> {
        self.input.spec_bytes()
    }

    /// Where the next match may start.
    pub closed spec fn cursor(&self) -> int {
        self.position as int
    }

    /// The text from the cursor on, as bytes.
    pub open spec fn rest(&self) -> Seq<u8> {
        self.bytes().subrange(self.cursor(), self.bytes().len() as int)
    }

    /// The invariant: the cursor is within the text, at the start of a character.
    pub closed spec fn wf(&self) -> bool {
        &&& self.position <= self.input.spec_bytes().len()
        &&& is_char_boundary(self.input.spec_bytes(), self.position as int)
    }

    /// A matcher at the start of `input`.
    pub fn new(input: &'input str) -> (r: Matcher<'input>)
        ensures
            r.wf(),
            r.bytes() == input.spec_bytes(),
            r.cursor() == 0,
    {
        proof {
            vstd::utf8::encode_utf8_valid_utf8(input@);
            is_char_boundary_start_end_of_seq(input.spec_bytes());
        }
        Self { input, position: 0 }
    }

    /// The next match from the cursor (see [`match_at`]); on success the cursor moves past its
    /// end token. Every byte the search reaches is taken as the start of the rest of the
    /// text, so each must start a character.
    pub fn get_match(&mut self, start_sequence: &'input str, end_sequence: &'input str, match_end_of_input: bool) -> (r: Option<Match<'input>>)
        requires
            old(self).wf(),
            match_cuts_clean(
                old(self).bytes(),
                old(self).cursor(),
                start_sequence.spec_bytes(),
                end_sequence.spec_bytes(),
                match_end_of_input,
            ),
        ensures
            final(self).wf(),
            match_result(*old(self), *final(self), start_sequence, end_sequence, match_end_of_input, r),
    {
        proof {
            vstd::utf8::encode_utf8_valid_utf8(self.input@);
            vstd::utf8::encode_utf8_valid_utf8(start_sequence@);
            vstd::utf8::encode_utf8_valid_utf8(end_sequence@);
            lemma_match_cuts(
                self.bytes(),
                self.cursor(),
                start_sequence.spec_bytes(),
                end_sequence.spec_bytes(),
                match_end_of_input,
            );
        }
        let sb = start_sequence.as_bytes();
        let eb = end_sequence.as_bytes();
        if !match_end_of_input && sb.len() > 0 && eb.len() > 0 && sb.len() == eb.len()
            && !same_bytes(sb, eb) {
            return self.get_balanced_match(start_sequence, end_sequence);
        }
        self.get_unbalanced_match(start_sequence, end_sequence, match_end_of_input)
    }

    fn iterate(&self, sequence: &str, start_position: usize, fail_fast: bool, match_end_of_input: bool) -> (r: Option<(usize, usize)>)
        requires
            self.wf(),
            start_position <= self.bytes().len(),
        ensures
            match r {
                Some((e, l)) => Some((e as int, l as int)),
                None => None,
            } == find(self.bytes(), sequence.spec_bytes(), start_position as int, fail_fast, match_end_of_input),
    {
        let b = self.input.as_bytes();
        let pat = sequence.as_bytes();
        if pat.len() == 0 {
            return Some((start_position, 0));
        }
        let n = b.len();
        if match_end_of_input && start_position == n {
            return Some((start_position, 0));
        }
        let mut index = start_position;
        while index < n
            invariant
                b@ == self.bytes(),
                pat@ == sequence.spec_bytes(),
                pat@.len() > 0,
                n == b@.len(),
                start_position <= index <= n,
                !(match_end_of_input && start_position == n),
                fail_fast ==> index == start_position,
                scan(b@, pat@, start_position as int, fail_fast, match_end_of_input) == scan(
                    b@,
                    pat@,
                    index as int,
                    fail_fast,
                    match_end_of_input,
                ),
            decreases n - index,
        {
            if starts_with_at(b, index, pat) {
                return Some((index + pat.len(), pat.len()));
            } else if match_end_of_input && index == n - 1 {
                return Some((index + 1, 0));
            } else if fail_fast {
                return None;
            }
            index = index + 1;
        }
        None
    }

    fn get_unbalanced_match(&mut self, start_sequence: &'input str, end_sequence: &'input str, match_end_of_input: bool) -> (r: Option<Match<'input>>)
        requires
            old(self).wf(),
            !nesting(start_sequence.spec_bytes(), end_sequence.spec_bytes(), match_end_of_input),
            match_at(old(self).bytes(), old(self).cursor(), start_sequence.spec_bytes(), end_sequence.spec_bytes(), match_end_of_input)
                matches Some((a, b, c, d)) ==> is_char_boundary(old(self).bytes(), a) && is_char_boundary(old(self).bytes(), b)
                && is_char_boundary(old(self).bytes(), c) && is_char_boundary(old(self).bytes(), d),
        ensures
            final(self).wf(),
            final(self).input == old(self).input,
            match_result(*old(self), *final(self), start_sequence, end_sequence, match_end_of_input, r),
    {
        proof {
            lemma_match_at(self.bytes(), self.cursor(), start_sequence.spec_bytes(), end_sequence.spec_bytes(), match_end_of_input);
            lemma_scan(self.bytes(), start_sequence.spec_bytes(), self.cursor(), true, false);
        }
        if let Some((start_token_end_index, start_token_length)) = self.iterate(start_sequence, self.position, true, false) {
            if let Some((end_token_end_index, end_token_length)) = self.iterate(
                end_sequence,
                start_token_end_index,
                false,
                match_end_of_input,
            ) {
                self.position = end_token_end_index;
                return Some(
                    Match {
                        start_token: slice_str(self.input, 
                            start_token_end_index - start_token_length,
                            start_token_end_index,
                        ),
                        body: slice_str(self.input, 
                            start_token_end_index,
                            end_token_end_index - end_token_length,
                        ),
                        end_token: slice_str(self.input, 
                            end_token_end_index - end_token_length,
                            end_token_end_index,
                        ),
                    },
                );
            }
        }
        None
    }

    fn get_balanced_match(&mut self, start_sequence: &'input str, end_sequence: &'input str) -> (r: Option<Match<'input>>)
        requires
            old(self).wf(),
            nesting(start_sequence.spec_bytes(), end_sequence.spec_bytes(), false),
            match_at(old(self).bytes(), old(self).cursor(), start_sequence.spec_bytes(), end_sequence.spec_bytes(), false)
                matches Some((a, b, c, d)) ==> is_char_boundary(old(self).bytes(), a) && is_char_boundary(old(self).bytes(), b)
                && is_char_boundary(old(self).bytes(), c) && is_char_boundary(old(self).bytes(), d),
        ensures
            final(self).wf(),
            final(self).input == old(self).input,
            match_result(*old(self), *final(self), start_sequence, end_sequence, false, r),
    {
        proof {
            lemma_match_at(self.bytes(), self.cursor(), start_sequence.spec_bytes(), end_sequence.spec_bytes(), false);
            lemma_scan(self.bytes(), start_sequence.spec_bytes(), self.cursor(), true, false);
        }
        let mut balance: usize = 1;
        if let Some((start_token_end_index, sl)) = self.iterate(start_sequence, self.position, true, false) {
            let b = self.input.as_bytes();
            let sb = start_sequence.as_bytes();
            let eb = end_sequence.as_bytes();
            let n = b.len();
            let mut index = start_token_end_index;
            while index < n
                invariant
                    self.wf(),
                    self.input == old(self).input,
                    self.position == old(self).position,
                    b@ == self.bytes(),
                    sb@ == start_sequence.spec_bytes(),
                    eb@ == end_sequence.spec_bytes(),
                    n == b@.len(),
                    1 <= start_token_end_index <= index <= n,
                    1 <= balance <= index - start_token_end_index + 1,
                    find(b@, sb@, old(self).position as int, true, false) == Some((start_token_end_index as int, sl as int)),
                    nesting(sb@, eb@, false),
                    match_at(old(self).bytes(), old(self).cursor(), start_sequence.spec_bytes(), end_sequence.spec_bytes(), false)
                        matches Some((a, b, c, d)) ==> is_char_boundary(old(self).bytes(), a) && is_char_boundary(old(self).bytes(), b)
                        && is_char_boundary(old(self).bytes(), c) && is_char_boundary(old(self).bytes(), d),
                    nesting_close(b@, sb@, eb@, start_token_end_index as int, 1) == nesting_close(
                        b@,
                        sb@,
                        eb@,
                        index as int,
                        balance as int,
                    ),
                decreases n - index,
            {
                if starts_with_at(b, index, sb) {
                    balance = balance + 1;
                } else if starts_with_at(b, index, eb) {
                    balance = balance - 1;
                    if balance == 0 {
                        let end_token_end_index = index + eb.len();
                        self.position = end_token_end_index;
                        return Some(
                            Match {
                                start_token: slice_str(self.input, 0, start_token_end_index),
                                body: slice_str(self.input, start_token_end_index, index),
                                end_token: slice_str(self.input, index, end_token_end_index),
                            },
                        );
                    }
                }
                index = index + 1;
            }
        }
        None
    }

    /// The text from the cursor on.
    pub fn get_rest(&self) -> (r: &'input str)
        requires
            self.wf(),
        ensures
            r.spec_bytes() == self.rest(),
    {
        proof {
            vstd::utf8::encode_utf8_valid_utf8(self.input@);
            is_char_boundary_start_end_of_seq(self.input.spec_bytes());
        }
        slice_str(self.input, self.position, self.input.as_bytes().len())
    }
}

/// After `get_match` on `m0` gives the match `x` and leaves `m1`, the rest of the text before
/// the call is `x`'s start token, body and end token, then the rest after it; the start token
/// is `start` and the end token is `end`, or empty where the end of the text ended the match.
/// This holds where starts and ends do not nest, or the matcher is at the start of the text.
pub proof fn law_get_match_then_get_rest<'input>(
    m0: Matcher<'input>,
    m1: Matcher<'input>,
    start: &str,
    end: &str,
    to_end: bool,
    x: Match<'input>,
)
    requires
        m0.wf(),
        !nesting(start.spec_bytes(), end.spec_bytes(), to_end) || m0.cursor() == 0,
        match_result(m0, m1, start, end, to_end, Some(x)),
    ensures
        m0.rest() == x.start_token.spec_bytes() + x.body.spec_bytes() + x.end_token.spec_bytes() + m1.rest(),
        x.start_token.spec_bytes() == start.spec_bytes(),
        x.end_token.spec_bytes() == end.spec_bytes() || (to_end && x.end_token.spec_bytes().len() == 0),
{
    law_match_then_rest(m0.bytes(), m0.cursor(), start.spec_bytes(), end.spec_bytes(), to_end);
    lemma_match_at(m0.bytes(), m0.cursor(), start.spec_bytes(), end.spec_bytes(), to_end);
}

impl<'input> Matcher<'input> {
}

} // verus!
