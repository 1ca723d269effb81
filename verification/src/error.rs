//! Errors of the engine's collaborators, as messages.

use vstd::prelude::*;
use vstd::string::StringExecFns;

verus! {

/// What went wrong, with the detail as text.
#[derive(Debug)]
pub enum Error {
    /// An operation that the engine does not support.
    Unsupported(String),
    /// A failure to read or write a file, with the system's message.
    Io(String),
    /// SQL that could not be parsed.
    Parse(String),
}

impl Error {
    /// The error as a message: what kind of error it is, then its detail.
    pub open spec fn message_text(&self) -> Seq<char> {
        match self {
            Error::Unsupported(detail) => "Unsupported operation: "@ + detail@,
            Error::Io(detail) => "IO error: "@ + detail@,
            Error::Parse(detail) => "Parse error: "@ + detail@,
        }
    }

    /// The error as a message.
    pub fn message(&self) -> (text: String)
        ensures
            text@ == self.message_text(),
    {
        match self {
            Error::Unsupported(detail) => {
                let mut text = String::from_str("Unsupported operation: ");
                text.append(detail.as_str());
                text
            },
            Error::Io(detail) => {
                let mut text = String::from_str("IO error: ");
                text.append(detail.as_str());
                text
            },
            Error::Parse(detail) => {
                let mut text = String::from_str("Parse error: ");
                text.append(detail.as_str());
                text
            },
        }
    }
}

} // verus!
