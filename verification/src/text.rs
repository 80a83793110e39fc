//! Plain text.
use vstd::prelude::*;
use vstd::string::StringSliceAdditionalSpecFns;

verus! {

/// A run of plain text.
#[derive(Debug, PartialEq)]
pub struct Text {
    pub text: String,
}

impl Text {
    /// Text holding `text`.
    pub fn new(text: &str) -> (r: Text)
        ensures
            r.text@ == text@,
    {
        Text { text: String::from_str(text) }
    }

    /// The source form: the text itself.
    pub fn serialize(&self) -> (r: String)
        ensures
            r@ == self.text@,
    {
        self.text.clone()
    }

    /// Reads text from byte `start_position` to the end of `input`; returns it with the length
    /// of `input` in bytes, where reading stopped.
    pub fn deserialize(input: &str, start_position: usize) -> (r: Option<(Text, usize)>)
        requires
            vstd::utf8::is_char_boundary(input.spec_bytes(), start_position as int),
        ensures
            r matches Some((t, n)) && n == input.spec_bytes().len() && vstd::utf8::encode_utf8(t.text@)
                == input.spec_bytes().subrange(start_position as int, input.spec_bytes().len() as int),
    {
        let (_, rest) = input.split_at(start_position);
        Some((Text { text: rest.to_owned() }, input.as_bytes().len()))
    }
}

} // verus!
