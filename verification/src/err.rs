//! The parse error type.

use vstd::prelude::*;

verus! {

/// A parse error, carrying a human-readable description.
#[derive(Debug)]
pub enum Error {
    Sql(String),
}

impl View for Error {
    type V = Seq<char>;

    open spec fn view(&self) -> Seq<char> {
        match self {
            Error::Sql(m) => m@,
        }
    }
}

impl Error {
    /// The error's description.
    pub fn message(&self) -> (r: &str)
        ensures
            r@ == self@,
    {
        match self {
            Error::Sql(m) => m.as_str(),
        }
    }
}

/// Creates an error with the given description.
pub fn new(msg: String) -> (e: Error)
    ensures
        e@ == msg@,
{
    Error::Sql(msg)
}

} // verus!
