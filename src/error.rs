use vstd::prelude::*;

verus! {

/// Possible error kinds.
#[derive(Debug, Clone, Copy, PartialEq, Eq, Hash, Structural)]
pub enum ErrorKind {
    /// The input does not follow the syntax of the tag.
    InvalidInput,
}

/// The error of every parse operation of this crate: its kind, and a message that
/// says which condition was not met.
#[derive(Debug, Clone, Copy, PartialEq, Eq, Hash)]
pub struct Error {
    kind: ErrorKind,
    message: &'static str,
}

/// The result of every parse operation of this crate.
pub type Result<T> = core::result::Result<T, Error>;

impl Error {
    pub closed spec fn spec_kind(&self) -> ErrorKind {
        self.kind
    }

    pub closed spec fn spec_message(&self) -> Seq<char> {
        self.message@
    }

    /// Makes an error of the given kind.
    pub fn new(kind: ErrorKind, message: &'static str) -> (r: Error)
        ensures
            r.spec_kind() == kind,
            r.spec_message() == message@,
    {
        Error { kind, message }
    }

    /// Makes an `InvalidInput` error.
    pub fn invalid_input(message: &'static str) -> (r: Error)
        ensures
            r.spec_kind() == ErrorKind::InvalidInput,
            r.spec_message() == message@,
    {
        Error { kind: ErrorKind::InvalidInput, message }
    }

    /// Returns the kind of this error.
    pub fn kind(&self) -> (r: ErrorKind)
        ensures
            r == self.spec_kind(),
    {
        self.kind
    }

    /// Returns what was wrong with the input.
    pub fn message(&self) -> (r: &'static str)
        ensures
            r@ == self.spec_message(),
    {
        self.message
    }
}

} // verus!
