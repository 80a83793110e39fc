//! Values handed from a parent node to its children while deserializing.
use vstd::prelude::*;

verus! {

/// A context value: a number or a string.
#[derive(Debug)]
pub enum ContextValues {
    Usize(usize),
    String(String),
}

impl From<usize> for ContextValues {
    fn from(value: usize) -> (r: ContextValues) {
        ContextValues::Usize(value)
    }
}

impl vstd::std_specs::convert::FromSpecImpl<usize> for ContextValues {
    open spec fn obeys_from_spec() -> bool {
        true
    }

    open spec fn from_spec(v: usize) -> ContextValues {
        ContextValues::Usize(v)
    }
}

impl From<String> for ContextValues {
    fn from(value: String) -> (r: ContextValues) {
        ContextValues::String(value)
    }
}

impl vstd::std_specs::convert::FromSpecImpl<String> for ContextValues {
    open spec fn obeys_from_spec() -> bool {
        true
    }

    open spec fn from_spec(v: String) -> ContextValues {
        ContextValues::String(v)
    }
}

impl ContextValues {
    /// The number, if this value is one.
    pub fn get_usize_value(&self) -> (r: Option<usize>)
        ensures
            r == match *self {
                ContextValues::Usize(v) => Some(v),
                ContextValues::String(_) => None::<usize>,
            },
    {
        if let ContextValues::Usize(value) = self {
            return Some(*value);
        }
        None
    }

    /// The string, if this value is one.
    pub fn get_string_value(&self) -> (r: Option<&String>)
        ensures
            r == match self {
                ContextValues::String(v) => Some(v),
                ContextValues::Usize(_) => None::<&String>,
            },
    {
        if let ContextValues::String(value) = self {
            return Some(value);
        }
        None
    }
}

} // verus!
