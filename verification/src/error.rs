//! Errors of the repository.

use crate::id::Id;
use vstd::prelude::*;

verus! {

/// The classes of objects that a backend stores.
#[derive(Clone, Copy, Debug, PartialEq, Eq, Structural, Hash)]
pub enum FileType {
    Config,
    Key,
    Index,
    Snapshot,
    Pack,
}

/// What went wrong.
#[derive(Clone, Copy, Debug, PartialEq, Eq, Structural, Hash)]
pub enum ErrorKind {
    /// No key record opens under the password.
    AuthenticationFailed,
    /// Stored bytes fail their integrity check or cannot be decoded.
    Corrupt,
    /// An object or blob is absent.
    NotFound,
    /// An object that exists was written again.
    Conflict,
    /// The backend failed for the moment; the operation may be tried again.
    BackendTransient,
    /// The system's random source failed.
    Entropy,
    /// An argument is outside of what the operation accepts.
    Invalid,
}

/// An error together with the object that it concerns, where there is one.
#[derive(Clone, Copy, Debug, PartialEq, Eq)]
pub struct Error {
    pub kind: ErrorKind,
    pub context: Option<(FileType, Id)>,
}

impl Error {
    /// An error that concerns no single object.
    pub fn bare(kind: ErrorKind) -> (e: Error)
        ensures
            e == (Error { kind, context: None }),
    {
        Error { kind, context: None }
    }

    /// An error that concerns the object `id` of class `file_type`.
    pub fn at(kind: ErrorKind, file_type: FileType, id: Id) -> (e: Error)
        ensures
            e == (Error { kind, context: Some((file_type, id)) }),
    {
        Error { kind, context: Some((file_type, id)) }
    }

    /// The same kind of error, now said of the object `id` of class
    /// `file_type`.
    pub fn within(self, file_type: FileType, id: Id) -> (e: Error)
        ensures
            e == (Error { kind: self.kind, context: Some((file_type, id)) }),
    {
        Error { kind: self.kind, context: Some((file_type, id)) }
    }

    /// Whether trying again may help.
    pub fn is_transient(&self) -> (r: bool)
        ensures
            r == (self.kind == ErrorKind::BackendTransient),
    {
        self.kind == ErrorKind::BackendTransient
    }
}

} // verus!
