//! Errors of the library's operations.

use vstd::prelude::*;

verus! {

/// What went wrong, with a message for the user.
#[derive(Clone, Debug, PartialEq, Eq)]
pub enum LibraryError {
    /// The library root or a target directory does not exist.
    NotFound(String),
    /// A file or its metadata could not be read or written.
    Io(String),
    /// A manifest's content is not a well-formed descriptor.
    Parse(String),
    /// The data handed in breaks a rule of the library.
    Validation(String),
    /// The persistent store failed.
    Store(String),
}

impl LibraryError {
    /// The message carried by the error.
    pub fn message(&self) -> (r: String)
        ensures
            r@ == match self {
                LibraryError::NotFound(m) => m@,
                LibraryError::Io(m) => m@,
                LibraryError::Parse(m) => m@,
                LibraryError::Validation(m) => m@,
                LibraryError::Store(m) => m@,
            },
    {
        match self {
            LibraryError::NotFound(m) => m.clone(),
            LibraryError::Io(m) => m.clone(),
            LibraryError::Parse(m) => m.clone(),
            LibraryError::Validation(m) => m.clone(),
            LibraryError::Store(m) => m.clone(),
        }
    }
}

} // verus!
