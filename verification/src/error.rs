//! Error classes for a run.
//!
//! Only the address-book read/parse step can fail a run; every network
//! failure later in the pipeline degrades into empty values instead.
//! The payload of each variant is the offending path or the underlying
//! error rendered as text by the caller that observed it.

use vstd::prelude::*;

verus! {

/// A fatal error: the run aborts before any network activity.
pub enum CosmopingError {
    /// The address book file was found but could not be decoded.
    UnableToParseAddrBookFile(String),
    /// The address book file could not be read.
    AddrBookWasNotFound(String),
    /// The address book path does not exist.
    AddrBookPathDoesNotExist(String),
}

impl CosmopingError {
    /// The human-readable message for this error.
    pub fn message(&self) -> (r: String)
        ensures
            r@ == self.spec_message(),
    {
        match self {
            CosmopingError::UnableToParseAddrBookFile(s) => {
                let mut m = String::from_str("Unable to parse address book file: ");
                m.append(s.as_str());
                m
            },
            CosmopingError::AddrBookWasNotFound(s) => {
                let mut m = String::from_str("Address book path was not found: ");
                m.append(s.as_str());
                m
            },
            CosmopingError::AddrBookPathDoesNotExist(s) => {
                let mut m = String::from_str("Address book path does not exist: ");
                m.append(s.as_str());
                m
            },
        }
    }

    /// What `message` returns, per variant.
    pub open spec fn spec_message(&self) -> Seq<char> {
        match self {
            CosmopingError::UnableToParseAddrBookFile(s) => {
                "Unable to parse address book file: "@ + s@
            },
            CosmopingError::AddrBookWasNotFound(s) => "Address book path was not found: "@ + s@,
            CosmopingError::AddrBookPathDoesNotExist(s) => {
                "Address book path does not exist: "@ + s@
            },
        }
    }
}

} // verus!
