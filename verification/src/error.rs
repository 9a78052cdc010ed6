//! Errors of index construction.
use vstd::prelude::*;

verus! {

/// An error that can occur when constructing a search index.
#[derive(Debug)]
pub enum Error {
    /// The provided text is invalid.
    InvalidText(&'static str),
}

impl Error {
    /// The message that describes the error.
    pub fn message(&self) -> (r: &'static str)
        ensures
            match self {
                Error::InvalidText(m) => r == *m,
            },
    {
        match self {
            Error::InvalidText(m) => m,
        }
    }

    /// The error as text: what kind of error it is, and its message.
    pub fn to_string(&self) -> (r: String)
        ensures
            match self {
                Error::InvalidText(m) => r@ == "invalid text: "@ + m@,
            },
    {
        match self {
            Error::InvalidText(m) => String::from_str("invalid text: ").concat(m),
        }
    }
}

} // verus!
