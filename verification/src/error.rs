//! The errors that the library reports.

use vstd::prelude::*;
use vstd::string::StringExecFns;

verus! {

/// What went wrong in the streams client.
#[derive(Debug, PartialEq, Eq)]
pub enum StreamsClientError {
    /// A record of the barrier state topic does not match its layout.
    BarrierFormat {
        /// The part of the record that does not match: the key or the value.
        part: &'static str,
        /// What is wrong with it.
        message: String,
    },
    /// A state snapshot cannot be written, read, or decoded.
    Snapshot(String),
}

/// What an error says.
pub enum ErrorView {
    BarrierFormat { part: Seq<char>, message: Seq<char> },
    Snapshot(Seq<char>),
}

impl View for StreamsClientError {
    type V = ErrorView;

    open spec fn view(&self) -> ErrorView {
        match self {
            StreamsClientError::BarrierFormat { part, message } => ErrorView::BarrierFormat {
                part: part@,
                message: message@,
            },
            StreamsClientError::Snapshot(message) => ErrorView::Snapshot(message@),
        }
    }
}

impl ErrorView {
    /// The one-line text of an error.
    pub open spec fn text(self) -> Seq<char> {
        match self {
            ErrorView::BarrierFormat { part, message } => "malformed barrier state "@ + part
                + ": "@ + message,
            ErrorView::Snapshot(message) => "state snapshot error: "@ + message,
        }
    }
}

impl StreamsClientError {
    /// The error as one line of text.
    pub fn to_string(&self) -> (text: String)
        ensures
            text@ == self@.text(),
    {
        match self {
            StreamsClientError::BarrierFormat { part, message } => {
                let mut text = String::from_str("malformed barrier state ");
                text.append(part);
                text.append(": ");
                text.append(message.as_str());
                text
            },
            StreamsClientError::Snapshot(message) => {
                let mut text = String::from_str("state snapshot error: ");
                text.append(message.as_str());
                text
            },
        }
    }
}

} // verus!
