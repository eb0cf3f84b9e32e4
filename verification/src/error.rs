//! The ways in which building an index page can fail.

use vstd::prelude::*;

verus! {

/// Why no index page was built.
#[derive(Clone, Copy, Debug, PartialEq, Eq, Structural)]
pub enum IndexError {
    /// A segment of the request path is not percent-encoded UTF-8.
    DecodingError,
    /// A segment of the request path would lead out of the root directory.
    PathEscape,
    /// The directory does not exist.
    NotFound,
    /// The path names a file, not a directory.
    NotADirectory,
    /// The file system refused access to the directory.
    PermissionDenied,
    /// The modification time of an entry cannot be shown as a date of four
    /// digits for the year and a time of day.
    TimeOutOfRange,
}

impl IndexError {
    /// The error in words.
    pub fn message(&self) -> (text: &'static str)
        ensures
            text@ == match *self {
                IndexError::DecodingError => "the path is not percent-encoded UTF-8"@,
                IndexError::PathEscape => "the path leaves the root directory"@,
                IndexError::NotFound => "no such directory"@,
                IndexError::NotADirectory => "not a directory"@,
                IndexError::PermissionDenied => "permission denied"@,
                IndexError::TimeOutOfRange => "a modification time is outside the calendar"@,
            },
    {
        match self {
            IndexError::DecodingError => "the path is not percent-encoded UTF-8",
            IndexError::PathEscape => "the path leaves the root directory",
            IndexError::NotFound => "no such directory",
            IndexError::NotADirectory => "not a directory",
            IndexError::PermissionDenied => "permission denied",
            IndexError::TimeOutOfRange => "a modification time is outside the calendar",
        }
    }
}

} // verus!
