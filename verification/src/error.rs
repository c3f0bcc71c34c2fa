//! The ways in which encoding or decoding can fail.

use vstd::prelude::*;

verus! {

/// Every failure is a function of the input alone; none is transient.
#[derive(Debug, Clone, Copy, PartialEq, Eq)]
pub enum Error {
    /// The version handed to an encoder does not fit in five bits.
    InvalidVersion(u8),
    /// The text to decode holds a byte above `0x7f`.
    NonAsciiInput,
    /// The text to decode holds an ASCII character that is neither a symbol
    /// of the alphabet nor one of its aliases.
    InvalidAlphabetSymbol,
    /// The text is too short to hold what the format asks for.
    InvalidFormat,
    /// The checksum found in the text is not the checksum of its payload.
    /// Both are read as little-endian 32-bit integers: first the one
    /// computed from the payload, then the one found in the text.
    BadChecksum(u32, u32),
    /// The buffer handed to the encoder is shorter than the longest output
    /// that the input may need.
    BufferTooSmall,
}

} // verus!
