//! The failures that the library reports.

use vstd::prelude::*;

verus! {

/// Why an operation gave up.
#[derive(Clone, Copy, Debug, PartialEq, Eq, Structural)]
pub enum Error {
    /// Key material was malformed: a scalar outside the field, for one.
    InvalidInput,
    /// A stored key or value exists but does not decode.
    Corruption,
    /// The backing store lacks the column that was asked of it.
    Storage,
    /// A balance left the range of 64 bits.
    Overflow,
}

impl Error {
    /// A description of the failure for people.
    pub fn message(&self) -> (r: &'static str)
        ensures
            r@ == (match *self {
                Error::InvalidInput => "invalid input"@,
                Error::Corruption => "stored value is corrupt"@,
                Error::Storage => "storage failure"@,
                Error::Overflow => "balance out of range"@,
            }),
    {
        match self {
            Error::InvalidInput => "invalid input",
            Error::Corruption => "stored value is corrupt",
            Error::Storage => "storage failure",
            Error::Overflow => "balance out of range",
        }
    }
}

} // verus!
