//! The error type shared by every operation of the store.

use vstd::prelude::*;

verus! {

/// What an operation of the store can fail with.
#[derive(Clone, Debug, PartialEq)]
pub enum Error {
    /// The caller asked for the operation to be abandoned.
    Abort,
    /// The storage underneath failed; the text is its message.
    Internal(String),
    /// The caller passed a value that makes no sense.
    Value(String),
}

impl Error {
    /// The text a user is shown for this error.
    pub open spec fn text(self) -> Seq<char> {
        match self {
            Error::Abort => "Operation aborted"@,
            Error::Internal(message) => message@,
            Error::Value(message) => message@,
        }
    }

    /// Renders the error as the text a user is shown.
    pub fn to_string(&self) -> (s: String)
        ensures
            s@ == self.text(),
    {
        match self {
            Error::Abort => "Operation aborted".to_owned(),
            Error::Internal(message) => message.clone(),
            Error::Value(message) => message.clone(),
        }
    }
}

/// `std::io::Error`, the error of the storage underneath.
#[verifier::external_type_specification]
#[verifier::external_body]
pub struct ExIoError(std::io::Error);

impl From<std::io::Error> for Error {
    /// An error of the storage underneath becomes an internal error that
    /// carries its message: the text that the storage error displays as.
    fn from(value: std::io::Error) -> (e: Error)
        ensures
            e matches Error::Internal(text) && vstd::string::to_string_from_display_ensures::<
                std::io::Error,
            >(&value, text),
    {
        Error::Internal(value.to_string())
    }
}

impl vstd::std_specs::convert::FromSpecImpl<std::io::Error> for Error {
    /// The message is read from the storage error when it is converted:
    /// `from` says which text it is, and no spec function gives it.
    open spec fn obeys_from_spec() -> bool {
        false
    }

    open spec fn from_spec(v: std::io::Error) -> Error {
        arbitrary()
    }
}

} // verus!
