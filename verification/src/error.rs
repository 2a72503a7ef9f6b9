//! The error type shared by every operation of the store.
use vstd::prelude::*;
use vstd::std_specs::convert::FromSpecImpl;

verus! {

/// `std::io::Error`, carried through unopened.
#[verifier::external_type_specification]
#[verifier::external_body]
pub struct ExIoError(std::io::Error);

/// `serde_json::Error`, carried through unopened.
#[verifier::external_type_specification]
#[verifier::external_body]
pub struct ExJsonError(serde_json::Error);

/// `glob::PatternError`, carried through unopened.
#[verifier::external_type_specification]
#[verifier::external_body]
pub struct ExPatternError(glob::PatternError);

/// Why an operation of the store failed.
#[derive(Debug)]
pub enum KvError {
    /// The file system refused an operation.
    Io(std::io::Error),
    /// A JSON string of a command could not be written or read.
    Serde(serde_json::Error),
    /// The key to remove is not in the store.
    KeyNotFound,
    /// The log holds something other than the command expected at that
    /// place: it is damaged.
    UnexpectedAction,
    /// The directory path does not make a valid search pattern.
    PatternError(glob::PatternError),
}

impl From<std::io::Error> for KvError {
    fn from(err: std::io::Error) -> (r: KvError) {
        KvError::Io(err)
    }
}

impl FromSpecImpl<std::io::Error> for KvError {
    open spec fn obeys_from_spec() -> bool {
        true
    }

    open spec fn from_spec(err: std::io::Error) -> KvError {
        KvError::Io(err)
    }
}

impl From<serde_json::Error> for KvError {
    fn from(err: serde_json::Error) -> (r: KvError) {
        KvError::Serde(err)
    }
}

impl FromSpecImpl<serde_json::Error> for KvError {
    open spec fn obeys_from_spec() -> bool {
        true
    }

    open spec fn from_spec(err: serde_json::Error) -> KvError {
        KvError::Serde(err)
    }
}

impl From<glob::PatternError> for KvError {
    fn from(err: glob::PatternError) -> (r: KvError) {
        KvError::PatternError(err)
    }
}

impl FromSpecImpl<glob::PatternError> for KvError {
    open spec fn obeys_from_spec() -> bool {
        true
    }

    open spec fn from_spec(err: glob::PatternError) -> KvError {
        KvError::PatternError(err)
    }
}

} // verus!
