//! Strikethrough: `~~text~~`.
use crate::parser::{
    end_phase, hard_stop, lemma_end_phase_bounds, lemma_start_phase_bounds, part, start_phase, step,
    Parser,
};
use crate::toolkit::lexer::push_char_to;
use vstd::prelude::*;

verus! {

/// Strikethrough text.
#[derive(Debug, PartialEq)]
pub struct S {
    pub text: String,
}

/// The delimiter on both sides: two tildes.
pub open spec fn tildes() -> Seq<char> {
    seq!['~', '~']
}

/// `s` with its ends of line left out.
pub open spec fn without_newlines(s: Seq<char>) -> Seq<char>
    decreases s.len(),
{
    if s.len() == 0 {
        s
    } else if s.last() == '\n' {
        without_newlines(s.drop_last())
    } else {
        without_newlines(s.drop_last()).push(s.last())
    }
}

/// The text of a strikethrough that opens at character `start` of `s` and whose closing
/// tildes end at character `end`: what lies between the delimiters, without ends of line.
pub open spec fn struck_text(s: Seq<char>, start: int, end: int) -> Seq<char> {
    without_newlines(s.subrange(start + 2, end - 1))
}

/// The source form of a strikethrough of `text`.
pub open spec fn struck_source(text: Seq<char>) -> Seq<char> {
    tildes() + text + tildes()
}

impl S {
    /// A strikethrough of `text`.
    pub fn new(text: &str) -> (r: S)
        ensures
            r.text@ == text@,
    {
        S { text: String::from_str(text) }
    }

    /// The source form, `~~text~~`.
    pub fn to_source(&self) -> (r: String)
        ensures
            r@ == struck_source(self.text@),
    {
        let mut r = String::from_str("~~");
        proof {
            reveal_strlit("~~");
        }
        r.append(self.text.as_str());
        r.append("~~");
        r
    }
}

impl From<S> for String {
    fn from(value: S) -> (r: String)
        ensures
            r@ == struck_source(value.text@),
    {
        value.to_source()
    }
}

impl vstd::std_specs::convert::FromSpecImpl<S> for String {
    open spec fn obeys_from_spec() -> bool {
        false
    }

    open spec fn from_spec(v: S) -> String {
        arbitrary()
    }
}

impl Parser for S {
    /// Reads a strikethrough at character `start_position`: two tildes, at least one more
    /// character, then two tildes, with no empty line in between. Returns it with the index of
    /// the last closing tilde.
    fn parse(input: &str, start_position: usize) -> (r: Option<(S, usize)>)
        ensures
            match part(tildes(), tildes(), input@, start_position as int).0 {
                Some(j) => r matches Some((v, e)) && e == j && v.text@ == struck_text(
                    input@,
                    start_position as int,
                    j,
                ),
                None => r is None,
            },
    {
        let mut chars = Self::get_iterator(input, start_position);
        let ghost s = input@;
        let ghost k0 = chars.position();
        let found = chars.read_part(vec!['~', '~'], vec!['~', '~']);
        proof {
            assert(seq!['~', '~'] =~= tildes());
        }
        match found {
            Some(end_position) => {
                proof {
                    lemma_start_phase_bounds(tildes(), s, k0, 0, false);
                    let k1 = start_phase(tildes(), s, k0, 0, false).1;
                    lemma_end_phase_bounds(tildes(), s, k1, 0, 0);
                }
                let from = start_position + 2;
                let to = end_position - 1;
                let mut text = String::new();
                let mut i = from;
                while i < to
                    invariant
                        from <= i <= to,
                        to < chars.text().len(),
                        chars.text() == s,
                        text@ == without_newlines(s.subrange(from as int, i as int)),
                    decreases to - i,
                {
                    let c = chars.char_at(i);
                    proof {
                        assert(s.subrange(from as int, i + 1).drop_last() =~= s.subrange(
                            from as int,
                            i as int,
                        ));
                    }
                    if c != '\n' {
                        push_char_to(&mut text, c);
                    }
                    i = i + 1;
                }
                Some((S { text }, end_position))
            },
            None => None,
        }
    }
}

/// Text with no ends of line is left as it is.
proof fn lemma_without_newlines_keeps(t: Seq<char>)
    requires
        forall|i: int| 0 <= i < t.len() ==> t[i] != '\n',
    ensures
        without_newlines(t) == t,
    decreases t.len(),
{
    if t.len() > 0 {
        let u = t.drop_last();
        assert forall|i: int| 0 <= i < u.len() implies u[i] != '\n' by {
            assert(u[i] == t[i]);
        }
        lemma_without_newlines_keeps(u);
        assert(u.push(t.last()) =~= t);
    }
}

/// In the source form of `t`, reading from inside `t` finds the closing tildes.
proof fn lemma_source_end(t: Seq<char>, k: int)
    requires
        forall|i: int| 0 <= i < t.len() ==> t[i] != '~' && t[i] != '\n',
        2 <= k <= t.len() + 2,
    ensures
        end_phase(tildes(), struck_source(t), k, 0, 0) == (Some(t.len() + 3int), t.len() + 4int),
    decreases t.len() + 2 - k,
{
    let s = struck_source(t);
    let n = t.len() as int;
    assert(s.len() == n + 4);
    assert(hard_stop().len() == 2);
    if k < n + 2 {
        assert(s[k] == t[k - 2]);
        lemma_source_end(t, k + 1);
    } else {
        assert(s[n + 2] == '~');
        assert(s[n + 3] == '~');
        assert(step(tildes(), 0, s[n + 2]) == (true, 1int));
        assert(step(hard_stop(), 0, s[n + 2]) == (false, 0int));
        assert(step(tildes(), 1, s[n + 3]) == (true, 2int));
        assert(end_phase(tildes(), s, n + 3, 1, 0) == (Some(n + 3), n + 4));
    }
}

/// Reading the source form of a strikethrough gives its text back, where the text is not
/// empty and holds neither a tilde nor an end of line: the part closes at the last tilde of
/// the source, and the text between the tildes is the text itself.
pub proof fn law_source_reads_back(t: Seq<char>)
    requires
        t.len() > 0,
        forall|i: int| 0 <= i < t.len() ==> t[i] != '~' && t[i] != '\n',
    ensures
        part(tildes(), tildes(), struck_source(t), 0) == (Some(t.len() + 3int), t.len() + 4int),
        struck_text(struck_source(t), 0, t.len() + 3int) == t,
{
    let s = struck_source(t);
    let n = t.len() as int;
    assert(s[0] == '~' && s[1] == '~' && s[2] == t[0]);
    assert(step(tildes(), 0, s[0]) == (true, 1int));
    assert(step(tildes(), 1, s[1]) == (true, 2int));
    assert(step(tildes(), 2, s[2]) == (false, 0int));
    assert(start_phase(tildes(), s, 2, 2, true) == (true, 3int));
    assert(start_phase(tildes(), s, 1, 1, false) == (true, 3int));
    assert(start_phase(tildes(), s, 0, 0, false) == (true, 3int));
    lemma_source_end(t, 3);
    assert(s.subrange(2, n + 2) =~= t);
    lemma_without_newlines_keeps(t);
}

} // verus!
