//! Failures of the MicroCDR codec.
use vstd::prelude::*;

verus! {

/// The result of a step of the codec.
pub type Result<T> = core::result::Result<T, Error>;

/// What can go wrong while encoding into or decoding from a CDR stream.
#[derive(PartialEq, Eq, Clone, Copy, Debug, Structural)]
pub enum Error {
    /// A failure reported by a user-defined encoding.
    Custom,
    /// The buffer ends before the value does.
    BufferNotEnough,
    /// A boolean was encoded as a byte other than 0 or 1.
    InvalidBoolEncoding(u8),
    /// A length does not fit the 32-bit length field.
    NumberOutOfRange,
    /// The character is not ASCII.
    InvalidChar(char),
    /// The byte is not the encoding of an ASCII character.
    InvalidCharEncoding,
    /// The byte names no data format or no sub-message kind.
    InvalidFormat(u8),
    /// The bytes of a string are not valid UTF-8.
    InvalidUtf8Encoding,
    /// The string holds a character that is not ASCII, or has no room for its terminator.
    InvalidString,
    /// A sequence was started without saying how many elements it has.
    SequenceMustHaveLength,
}

} // verus!
