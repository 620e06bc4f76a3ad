//! The library's error type.

use vstd::prelude::*;
use vstd::string::StringExecFns;

verus! {

/// Errors surfaced by the public API: recoverable conditions, never programmer errors.
#[derive(Debug)]
pub enum Error {
    /// A rendering backend failed.
    Backend(String),
    /// An image could not be loaded or decoded.
    ImageLoad(String),
}

/// The human-readable description of an error: its kind, then its detail message.
pub open spec fn error_message(e: Error) -> Seq<char> {
    match e {
        Error::Backend(msg) => "backend error: "@ + msg@,
        Error::ImageLoad(msg) => "image load error: "@ + msg@,
    }
}

impl Error {
    /// The human-readable description of this error, as `Display` shows it.
    pub fn message(&self) -> (m: String)
        ensures
            m@ == error_message(*self),
    {
        match self {
            Error::Backend(msg) => String::from_str("backend error: ").concat(msg.as_str()),
            Error::ImageLoad(msg) => String::from_str("image load error: ").concat(msg.as_str()),
        }
    }
}

} // verus!
