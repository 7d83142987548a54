//! The error that building a generator can end in.

use vstd::prelude::*;

verus! {

/// The RipGen error type.
#[derive(Debug)]
pub enum RipGenError {
    /// A domain line that cannot be read as a DNS name; it holds the line.
    ErrorParsingDomain(String),
}

impl RipGenError {
    /// The input that was refused.
    pub open spec fn input(self) -> Seq<char> {
        match self {
            RipGenError::ErrorParsingDomain(line) => line@,
        }
    }

    /// The text shown for this error.
    pub fn message(&self) -> (r: String)
        ensures
            r@ == "Unable to parse provided domain."@,
    {
        "Unable to parse provided domain.".to_owned()
    }
}

} // verus!
