//! The errors of the library.

use vstd::prelude::*;

verus! {

/// A failed read of a random-access source, with the source's own message.
#[derive(Debug, Clone, PartialEq, Eq)]
pub struct ReadError {
    pub message: String,
}

/// What can go wrong while an index is built, opened or queried.
#[derive(Debug, Clone, PartialEq, Eq)]
pub enum IndexError {
    /// The underlying source failed; the message is the source's own.
    Io(String),
    /// The file is shorter than the footer.
    OpenTooShort,
    /// The footer's sizes, or the tables they delimit, break the format's invariants.
    CorruptHeader,
    /// A compressed stream ends early, names a bit width above 32, or disagrees with
    /// the size fields around it.
    CorruptStream,
    /// Reserved for a format with a version mark; the present format has none.
    UnsupportedVersion,
    /// A count or a size does not fit the 32-bit or 64-bit field that the format gives it.
    TooLarge,
}

impl IndexError {
    /// The message of each kind of error.
    pub open spec fn spec_message(self) -> Seq<char> {
        match self {
            IndexError::Io(m) => m@,
            IndexError::OpenTooShort => "index file is shorter than its footer"@,
            IndexError::CorruptHeader => "index footer is inconsistent"@,
            IndexError::CorruptStream => "compressed stream is corrupt"@,
            IndexError::UnsupportedVersion => "index format version is not supported"@,
            IndexError::TooLarge => "index is too large for the format"@,
        }
    }

    /// A message for people.
    pub fn message(&self) -> (s: String)
        ensures
            s@ == self.spec_message(),
    {
        match self {
            IndexError::Io(m) => m.clone(),
            IndexError::OpenTooShort => "index file is shorter than its footer".to_string(),
            IndexError::CorruptHeader => "index footer is inconsistent".to_string(),
            IndexError::CorruptStream => "compressed stream is corrupt".to_string(),
            IndexError::UnsupportedVersion => "index format version is not supported".to_string(),
            IndexError::TooLarge => "index is too large for the format".to_string(),
        }
    }

    /// The error of a query or an open that a failed read ends.
    pub fn from_read(e: ReadError) -> (r: IndexError)
        ensures
            r == IndexError::Io(e.message),
    {
        IndexError::Io(e.message)
    }
}

} // verus!
