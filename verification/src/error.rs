//! The error model shared by every layer of the codec.

use crate::mon::error::ErrorKind;
use vstd::prelude::*;

verus! {

/// A failed primitive read, located within the buffer that a decode started
/// from: the primitive was entered at byte `start` and failed at byte `end`.
#[derive(Clone, Copy, Debug, PartialEq, Eq, Structural)]
pub struct ParseFailure {
    pub kind: ErrorKind,
    pub start: usize,
    pub end: usize,
}

/// A shape that the decoder cannot produce.
#[derive(Clone, Debug, PartialEq, Eq)]
pub enum DeError {
    /// The wire format has no encoding for this kind of value.
    InvalidType(&'static str),
    /// The byte that picks the variant of an enum names none of them.
    UnknownVariant(u8),
    /// A mismatch reported by the caller's value model.
    Other(String),
}

/// A value that the encoder cannot write.
#[derive(Clone, Debug, PartialEq, Eq)]
pub enum SerError {
    /// The wire format has no encoding for this kind of value.
    InvalidType(&'static str),
    /// An enum discriminant that does not fit in seven bits.
    VariantTooLarge(u32),
    /// A mismatch reported by the caller's value model.
    Other(String),
}

/// Why a read from a byte source failed.
#[derive(Clone, Copy, Debug, PartialEq, Eq, Structural)]
pub enum IoErrorKind {
    /// The source ended before the requested number of bytes was read.
    UnexpectedEof,
    /// Any other failure of the source.
    Other,
}

/// Every way an operation of this crate can fail.
#[derive(Clone, Debug, PartialEq, Eq)]
pub enum Error {
    /// A primitive could not be read from the buffer.
    Parse(ParseFailure),
    /// The byte source failed.
    Io(IoErrorKind),
    /// The byte source ended inside a frame header.
    Eof,
    /// The decoder was asked for a shape it cannot produce.
    De(DeError),
    /// The encoder was handed a value it cannot write.
    Ser(SerError),
    /// A length does not fit the integer type it has to be stored in.
    NumericRange,
    /// The tag of a frame took more bytes than the frame declares in all.
    MalformedFrame { declared_len: usize, tag_len: usize },
    /// A failure reported by the caller.
    Custom(String),
}

} // verus!
