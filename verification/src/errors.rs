//! The error of reading a desktop entry file.

use vstd::prelude::*;
use vstd::utf8::encode_utf8;

verus! {

/// Why a text is no desktop entry file.
#[derive(Debug, Clone, PartialEq)]
pub enum ParseError {
    /// A line or group header could not be read. Holds the text from the
    /// start of what could not be read to the end.
    InvalidLine(String),
}

impl ParseError {
    /// The bytes of the text that could not be read.
    pub open spec fn unread(self) -> Seq<u8> {
        match self {
            ParseError::InvalidLine(text) => encode_utf8(text@),
        }
    }
}

/// What reading a desktop entry file gives.
pub type ParseResult<T> = Result<T, ParseError>;

} // verus!
