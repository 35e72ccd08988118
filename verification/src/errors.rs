//! Error kinds shared by the whole engine.

use vstd::prelude::*;

verus! {

/// Returned by the hash index while a hash is reserved but its chunk reference
/// has not been committed yet. It is a result, not a failure: the caller asks
/// again once the pending blob has been written.
#[derive(Clone, Copy, Debug, PartialEq, Eq)]
pub struct RetryError;

impl RetryError {
    /// Short human-readable description of the request.
    pub fn description(&self) -> (text: String)
        ensures
            text@ == "Retry request"@,
    {
        String::from_str("Retry request")
    }

    /// The name of the error, as it is printed.
    pub fn to_text(&self) -> (text: String)
        ensures
            text@ == "RetryError"@,
    {
        String::from_str("RetryError")
    }
}

/// The kinds of failure that the engine reports.
#[derive(Debug, PartialEq, Eq)]
pub enum HatError {
    /// The blob backend or an index could not read or write.
    Storage,
    /// A persisted record is malformed.
    Serialization,
    /// Signalling between the walker's master and its workers failed.
    Channel,
    /// A hash is reserved and its reference is not yet known.
    Retry,
    /// A message for the operator.
    Message(String),
    /// Stored bytes do not hash to the requested hash, or an invariant is broken.
    Corruption,
}

impl HatError {
    /// Short human-readable description of the kind; a `Message` describes itself.
    pub fn description(&self) -> (text: String)
        ensures
            text@ == self.spec_description(),
    {
        match self {
            HatError::Storage => String::from_str("Storage failure"),
            HatError::Serialization => String::from_str("Malformed record"),
            HatError::Channel => String::from_str("Worker channel failure"),
            HatError::Retry => RetryError.description(),
            HatError::Message(m) => m.clone(),
            HatError::Corruption => String::from_str("Data corruption"),
        }
    }

    pub open spec fn spec_description(&self) -> Seq<char> {
        match self {
            HatError::Storage => "Storage failure"@,
            HatError::Serialization => "Malformed record"@,
            HatError::Channel => "Worker channel failure"@,
            HatError::Retry => "Retry request"@,
            HatError::Message(m) => m@,
            HatError::Corruption => "Data corruption"@,
        }
    }
}

impl HatError {
    /// Two errors are alike when they are of the same kind and, for messages,
    /// carry the same text.
    pub open spec fn alike(&self, other: &HatError) -> bool {
        match (self, other) {
            (HatError::Storage, HatError::Storage) => true,
            (HatError::Serialization, HatError::Serialization) => true,
            (HatError::Channel, HatError::Channel) => true,
            (HatError::Retry, HatError::Retry) => true,
            (HatError::Message(a), HatError::Message(b)) => a@ == b@,
            (HatError::Corruption, HatError::Corruption) => true,
            _ => false,
        }
    }
}

impl Clone for HatError {
    fn clone(&self) -> (copy: HatError)
        ensures
            copy.alike(self),
    {
        match self {
            HatError::Storage => HatError::Storage,
            HatError::Serialization => HatError::Serialization,
            HatError::Channel => HatError::Channel,
            HatError::Retry => HatError::Retry,
            HatError::Message(m) => HatError::Message(m.clone()),
            HatError::Corruption => HatError::Corruption,
        }
    }
}

impl From<RetryError> for HatError {
    fn from(e: RetryError) -> (err: HatError) {
        HatError::Retry
    }
}

impl vstd::std_specs::convert::FromSpecImpl<RetryError> for HatError {
    open spec fn obeys_from_spec() -> bool {
        true
    }

    open spec fn from_spec(e: RetryError) -> HatError {
        HatError::Retry
    }
}

impl From<String> for HatError {
    fn from(message: String) -> (err: HatError) {
        HatError::Message(message)
    }
}

impl vstd::std_specs::convert::FromSpecImpl<String> for HatError {
    open spec fn obeys_from_spec() -> bool {
        true
    }

    open spec fn from_spec(message: String) -> HatError {
        HatError::Message(message)
    }
}

} // verus!
