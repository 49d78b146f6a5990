//! The error surfaced by the cipher text processing.

use vstd::prelude::*;

verus! {

/// A processing failure, carrying a human-readable description.
#[derive(Debug)]
#[non_exhaustive]
pub enum Error {
    ProcessingError(String),
}

impl Error {
    /// The carried description.
    pub open spec fn spec_message(&self) -> Seq<char> {
        match self {
            Error::ProcessingError(m) => m@,
        }
    }

    /// Reads the carried description.
    pub fn message(&self) -> (r: &str)
        ensures
            r@ == self.spec_message(),
    {
        match self {
            Error::ProcessingError(m) => m.as_str(),
        }
    }
}

} // verus!
