use vstd::prelude::*;

verus! {

/// The kind of failure a rename operation can report.
#[derive(Clone, Copy, Debug, PartialEq, Eq, Structural)]
pub enum ErrorKind {
    /// An expected directory or file is absent from the tree.
    NotFound,
    /// A qualified name lacks the structure an operation requires.
    MalformedName,
    /// The target of a move already exists in the tree.
    Conflict,
    /// An underlying read, write or move failed; raised by callers that
    /// apply a renamed tree to durable storage, never by the engine itself.
    Io,
}

/// A failure surfaced to the caller of a rename operation.
#[derive(Debug)]
pub struct Error {
    pub kind: ErrorKind,
    pub message: String,
}

impl Error {
    pub fn new(kind: ErrorKind, message: String) -> (r: Error)
        ensures
            r.kind == kind,
            r.message@ == message@,
    {
        Error { kind, message }
    }
}

} // verus!
