//! The errors reported by this crate.
use vstd::prelude::*;

verus! {

/// Why an operation was refused.
#[derive(Clone, Copy, Debug, PartialEq, Eq, Structural)]
pub enum Error {
    /// The half-open index range `[first, last)` does not satisfy
    /// `first <= last <= len`.
    IndexOutOfRange,
    /// A pool handle is the end marker, lies outside the pool, or names a
    /// node that has been freed.
    InvalidHandle,
}

impl Error {
    /// The text of `message`.
    pub open spec fn text(self) -> Seq<char> {
        match self {
            Error::IndexOutOfRange => "index range is not within the sequence"@,
            Error::InvalidHandle => "handle does not name a live node"@,
        }
    }

    /// A short description of the error.
    pub fn message(&self) -> (s: &'static str)
        ensures
            s@ == self.text(),
    {
        match self {
            Error::IndexOutOfRange => "index range is not within the sequence",
            Error::InvalidHandle => "handle does not name a live node",
        }
    }
}

} // verus!
