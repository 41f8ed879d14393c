//! The ways in which generating the index can fail.

use vstd::prelude::*;

verus! {

/// Why the index was not generated.
#[derive(Debug, Clone, Copy, PartialEq, Eq, Structural)]
pub enum SummaryError {
    /// A directory or a file could not be read or written.
    Io,
    /// A file's name has no dot, so no extension can be told from it.
    MalformedEntry,
    /// The configuration asked for a failure.
    InjectedFailure,
}

impl SummaryError {
    /// A short description of the error.
    pub fn message(&self) -> (text: &'static str)
        ensures
            text@ == match *self {
                SummaryError::Io => "the content tree could not be read or written"@,
                SummaryError::MalformedEntry => "a file name has no extension"@,
                SummaryError::InjectedFailure => "Boom!!1!"@,
            },
    {
        match self {
            SummaryError::Io => "the content tree could not be read or written",
            SummaryError::MalformedEntry => "a file name has no extension",
            SummaryError::InjectedFailure => "Boom!!1!",
        }
    }
}

} // verus!
