//! The error taxonomy of the backend: a missing post, an underlying I/O
//! failure, and a directory entry whose name cannot be decoded as text.

use vstd::prelude::*;

verus! {

/// Errors surfaced by the post store and the view generators.
#[derive(Clone, Copy, Debug, PartialEq, Eq, Structural)]
pub enum AppError {
    /// The requested post is absent.
    NotFound,
    /// An underlying read, write or list failure.
    IoError,
    /// A directory entry's filename cannot be decoded as text.
    OsString,
}

impl AppError {
    /// The HTTP status code that this error maps to at the request boundary.
    pub fn status_code(&self) -> (r: u16)
        ensures
            r == (if self is NotFound { 404u16 } else { 500u16 }),
    {
        match self {
            AppError::NotFound => 404,
            AppError::IoError => 500,
            AppError::OsString => 500,
        }
    }

    /// The fixed message shown to a client; internal details are never leaked.
    pub fn message(&self) -> (r: &'static str)
        ensures
            self is NotFound ==> r@ == "post not found"@,
            self is IoError ==> r@ == "could not write file"@,
            self is OsString ==> r@ == "could not parse file name"@,
    {
        match self {
            AppError::NotFound => "post not found",
            AppError::IoError => "could not write file",
            AppError::OsString => "could not parse file name",
        }
    }
}

} // verus!
