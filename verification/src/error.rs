//! The error taxonomy of the journal core. Every failure carries a kind that
//! callers can match on and a human-readable message; nothing is swallowed.

use vstd::prelude::*;

verus! {

/// The enumerated failure kinds of the core.
#[derive(Clone, Copy, PartialEq, Eq, Structural, Debug)]
pub enum ErrorKind {
    /// Rejected input, such as an entry body that is empty after trimming.
    Validation,
    /// No entry exists for the requested id.
    NotFound,
    /// A storage-level fault in the dual write; never partially applied.
    Storage,
    /// Stored text that no longer parses, such as a malformed date string.
    Format,
    /// A stored second count that does not map to one valid UTC instant.
    InvalidTimestamp,
}

/// A tagged error: a kind from the taxonomy plus a diagnostic message.
#[derive(Debug)]
pub struct Error {
    pub kind: ErrorKind,
    pub message: String,
}

impl Error {
    pub fn new(kind: ErrorKind, message: String) -> (r: Error)
        ensures
            r.kind == kind,
            r.message == message,
    {
        Error { kind, message }
    }

    pub fn kind(&self) -> (k: ErrorKind)
        ensures
            k == self.kind,
    {
        self.kind
    }

    pub fn message(&self) -> (m: &String)
        ensures
            m == &self.message,
    {
        &self.message
    }
}

impl Clone for Error {
    fn clone(&self) -> (r: Self)
        ensures
            r == *self,
    {
        Error { kind: self.kind, message: self.message.clone() }
    }
}

} // verus!
