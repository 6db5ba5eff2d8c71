//! The library's error type.
use vstd::prelude::*;

verus! {

/// Errors raised while parsing the company symbol list or processing a document.
#[derive(Debug)]
pub enum Error {
    ParserError(String),
    TokenFilterError(String),
}

impl Error {
    /// The human-readable text of the error, a kind prefix followed by the message.
    pub fn message(&self) -> (text: String)
        ensures
            text@ == match self {
                Error::ParserError(msg) => "Parser Error: "@ + msg@,
                Error::TokenFilterError(msg) => "Token Filter Error: "@ + msg@,
            },
    {
        match self {
            Error::ParserError(msg) => {
                let mut text = "Parser Error: ".to_owned();
                text.append(msg.as_str());
                text
            },
            Error::TokenFilterError(msg) => {
                let mut text = "Token Filter Error: ".to_owned();
                text.append(msg.as_str());
                text
            },
        }
    }
}

} // verus!
