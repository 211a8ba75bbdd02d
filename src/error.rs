//! The failures that encoding and decoding can report.

use vstd::prelude::*;

verus! {

/// Errors that can occur during encoding or decoding.
#[derive(Debug, Clone, Copy, PartialEq, Eq, Structural)]
pub enum Error {
    /// The cover text is empty, so there is no character to place the payload after.
    CoverTextTooShort,
    /// No correctly ordered pair of start and end markers was found.
    NoHiddenMessage,
    /// Markers are present but malformed: out of order, or a bit count that
    /// does not divide into whole bytes.
    CorruptedPayload,
    /// The payload framing is intact but the recovered bytes are not UTF-8.
    InvalidUtf8,
}

impl Error {
    /// A human-readable description of the error.
    pub fn message(&self) -> (r: &'static str)
        ensures
            *self == Error::CoverTextTooShort ==> r@ == "cover text is too short to embed the secret message"@,
            *self == Error::NoHiddenMessage ==> r@ == "no hidden message found in the text"@,
            *self == Error::CorruptedPayload ==> r@ == "the hidden message is corrupted or invalid"@,
            *self == Error::InvalidUtf8 ==> r@ == "invalid UTF-8 encountered during decoding"@,
    {
        match self {
            Error::CoverTextTooShort => "cover text is too short to embed the secret message",
            Error::NoHiddenMessage => "no hidden message found in the text",
            Error::CorruptedPayload => "the hidden message is corrupted or invalid",
            Error::InvalidUtf8 => "invalid UTF-8 encountered during decoding",
        }
    }
}

} // verus!
