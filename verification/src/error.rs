//! The store's error type.

use vstd::prelude::*;

verus! {

/// `serde_json::Error`, carried through as an opaque value.
#[verifier::external_type_specification]
#[verifier::external_body]
pub struct ExJsonError(serde_json::Error);

/// `std::io::Error`, carried through as an opaque value.
#[verifier::external_type_specification]
#[verifier::external_body]
pub struct ExIoError(std::io::Error);

/// What can go wrong in a store operation.
#[derive(Debug)]
pub enum KvError {
    /// A file operation failed.
    IoError(std::io::Error),
    /// A record could not be encoded or decoded.
    SerdeErr(serde_json::Error),
    /// A record decoded to a command of the wrong kind.
    UnexpectedCommandType,
    /// The key to remove is not in the store.
    KeyNotFound,
}

/// The result of a store operation.
pub type Result<T> = std::result::Result<T, KvError>;

impl KvError {
    /// The text shown for this error.
    pub fn message(&self) -> (text: String)
        ensures
            text@ == match *self {
                KvError::IoError(_) => "io error occurred."@,
                KvError::SerdeErr(_) => "serde error occurred."@,
                KvError::UnexpectedCommandType => "Unexpect Command Type"@,
                KvError::KeyNotFound => "Key Not Found"@,
            },
    {
        match self {
            KvError::IoError(_) => "io error occurred.".to_owned(),
            KvError::SerdeErr(_) => "serde error occurred.".to_owned(),
            KvError::UnexpectedCommandType => "Unexpect Command Type".to_owned(),
            KvError::KeyNotFound => "Key Not Found".to_owned(),
        }
    }
}

impl From<serde_json::Error> for KvError {
    fn from(error: serde_json::Error) -> (e: KvError) {
        KvError::SerdeErr(error)
    }
}

impl vstd::std_specs::convert::FromSpecImpl<serde_json::Error> for KvError {
    open spec fn obeys_from_spec() -> bool {
        true
    }

    open spec fn from_spec(error: serde_json::Error) -> KvError {
        KvError::SerdeErr(error)
    }
}

impl From<std::io::Error> for KvError {
    fn from(value: std::io::Error) -> (e: KvError) {
        KvError::IoError(value)
    }
}

impl vstd::std_specs::convert::FromSpecImpl<std::io::Error> for KvError {
    open spec fn obeys_from_spec() -> bool {
        true
    }

    open spec fn from_spec(value: std::io::Error) -> KvError {
        KvError::IoError(value)
    }
}

} // verus!
