//! Hides a short text in the least-significant bits of a byte carrier and
//! recovers it again.
//!
//! [`bits`] is the bit codec: single bits of a byte, and text as a sequence of
//! bits, most significant bit of each byte first. [`files::bmp`] is the
//! carrier codec: it lays such a bit sequence, closed by a sentinel byte, over
//! the lowest bit of each carrier byte and reads it back. [`error`] holds
//! the failures that both report, and [`trusted`] the contracts of the
//! functions of other crates that the codecs call.
pub mod bits;
pub mod error;
pub mod files;
pub mod trusted;
