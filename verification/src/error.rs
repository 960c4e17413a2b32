//! The failures that the codecs report.
use vstd::prelude::*;

verus! {

/// A bit position at or beyond the width of the integer it addresses.
#[derive(Debug, Clone, Copy, PartialEq, Eq, Structural)]
pub struct OutOfRangeBitPosition;

/// The carrier has fewer bytes than the message and its sentinel have bits.
#[derive(Debug, Clone, Copy, PartialEq, Eq, Structural)]
pub struct CapacityError;

/// Why no text could be read back.
#[derive(Debug, Clone, Copy, PartialEq, Eq, Structural)]
pub enum DecodeError {
    /// The bytes that the bits spell are not valid UTF-8.
    InvalidUtf8,
    /// The carrier ended before a sentinel was read.
    MissingSentinel,
}

impl OutOfRangeBitPosition {
    /// The error in words.
    pub fn message(&self) -> (text: String)
        ensures
            text@ == "Accessing bit that doesn't exist"@,
    {
        String::from_str("Accessing bit that doesn't exist")
    }
}

impl CapacityError {
    /// The error in words.
    pub fn message(&self) -> (text: String)
        ensures
            text@ == "File too small for given message"@,
    {
        String::from_str("File too small for given message")
    }
}

impl DecodeError {
    /// The error in words.
    pub fn message(&self) -> (text: String)
        ensures
            text@ == match *self {
                DecodeError::InvalidUtf8 => "Hidden message is not valid UTF-8"@,
                DecodeError::MissingSentinel => "No end of message found in file"@,
            },
    {
        match self {
            DecodeError::InvalidUtf8 => String::from_str("Hidden message is not valid UTF-8"),
            DecodeError::MissingSentinel => String::from_str("No end of message found in file"),
        }
    }
}

} // verus!
