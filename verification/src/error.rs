//! The errors that a search reports.
use vstd::prelude::*;

verus! {

/// Why a request was refused or a search gave up.
#[derive(Clone, Copy, Debug)]
pub enum EnginError {
    /// The request breaks the rules of the protocol.
    Uci(&'static str),
    /// The request asks for something that the search does not offer.
    Unsupported(&'static str),
    /// The search is in a state that it should never reach.
    Internal(&'static str),
}

impl EnginError {
    pub open spec fn spec_message(self) -> Seq<char> {
        match self {
            EnginError::Uci(text) => text@,
            EnginError::Unsupported(text) => text@,
            EnginError::Internal(text) => text@,
        }
    }

    /// The text of the error.
    pub fn message(&self) -> (r: &'static str)
        ensures
            r@ == self.spec_message(),
    {
        match self {
            EnginError::Uci(text) => text,
            EnginError::Unsupported(text) => text,
            EnginError::Internal(text) => text,
        }
    }
}

} // verus!
