//! The ways in which a scan fails.

use vstd::prelude::*;

verus! {

/// A failure that ends a scan. A port that does not answer is no failure: it is
/// a closed port.
#[derive(Clone, Copy, Debug, PartialEq, Eq, Structural)]
pub enum ScanError {
    /// An address was not written as a canonical dotted quad.
    AddressParseError,
    /// The work on one host ended abnormally; the whole scan is lost with it.
    TaskFailure,
}

impl ScanError {
    /// The words that describe the failure.
    pub open spec fn message_text(self) -> Seq<char> {
        match self {
            ScanError::AddressParseError => "invalid IPv4 address syntax"@,
            ScanError::TaskFailure => "a host scan task failed"@,
        }
    }

    /// The words that describe the failure.
    pub fn message(&self) -> (text: String)
        ensures
            text@ == self.message_text(),
    {
        match self {
            ScanError::AddressParseError => "invalid IPv4 address syntax".to_owned(),
            ScanError::TaskFailure => "a host scan task failed".to_owned(),
        }
    }
}

} // verus!
