//! Typed errors shared by every component of the library.
//!
//! All failures are returned to the caller as values; nothing in the
//! library panics or aborts on malformed input.

use vstd::prelude::*;

verus! {

/// What went wrong: a malformed input, or a call that needs prior state
/// (such as projecting before a basis was fit).
#[derive(Clone, Copy, PartialEq, Eq, Structural, Debug)]
pub enum ErrorKind {
    InvalidArgument,
    FailedPrecondition,
}

/// An error value carrying its kind and a human-readable message.
#[derive(Clone, Debug)]
pub struct ScannError {
    pub kind: ErrorKind,
    pub message: String,
}

impl ScannError {
    /// The error kind, for callers that branch on it.
    pub fn kind(&self) -> (k: ErrorKind)
        ensures
            k == self.kind,
    {
        self.kind
    }

    /// The message text.
    pub fn message(&self) -> (m: &String)
        ensures
            m@ == self.message@,
    {
        &self.message
    }
}

/// Builds an `InvalidArgument` error with the given message.
pub fn invalid_argument_error(msg: &str) -> (e: ScannError)
    ensures
        e.kind == ErrorKind::InvalidArgument,
        e.message@ == msg@,
{
    ScannError { kind: ErrorKind::InvalidArgument, message: msg.to_owned() }
}

/// Builds a `FailedPrecondition` error with the given message.
pub fn failed_precondition_error(msg: &str) -> (e: ScannError)
    ensures
        e.kind == ErrorKind::FailedPrecondition,
        e.message@ == msg@,
{
    ScannError { kind: ErrorKind::FailedPrecondition, message: msg.to_owned() }
}

} // verus!
