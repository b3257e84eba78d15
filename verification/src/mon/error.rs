//! The errors of the primitive readers.

use vstd::prelude::*;

verus! {

/// Why a primitive could not be read from a buffer.
#[derive(Clone, Copy, Debug, PartialEq, Eq, Structural)]
pub enum ErrorKind {
    /// The buffer ended before the value was complete.
    UnexpectedEnd,
    /// A variable-length integer still had its continuation bit set on the
    /// last byte it may occupy. `position` is the index of that byte within
    /// the integer.
    VarNumTooLong { byte: u8, position: usize },
    /// A boolean byte was neither `0x00` nor `0x01`.
    InvalidBoolean { byte: u8 },
    /// The bytes of a string are not valid UTF-8.
    InvalidUtf8,
    /// A length does not fit the unsigned size type.
    NumericRange,
}

/// A failed primitive read: the slice the primitive was handed and the slice
/// that was left at the point of failure. `rest` is always a suffix of
/// `input`, so the failing offset is `input.len() - rest.len()`.
#[derive(Clone, Copy, Debug, PartialEq, Eq)]
pub struct Error<'a> {
    pub kind: ErrorKind,
    pub input: &'a [u8],
    pub rest: &'a [u8],
}

impl<'a> Error<'a> {
    /// How many bytes of `input` lie before the point of failure.
    pub open spec fn spec_offset(&self) -> nat {
        if self.rest@.len() <= self.input@.len() {
            (self.input@.len() - self.rest@.len()) as nat
        } else {
            0
        }
    }

    /// How many bytes of `input` lie before the point of failure.
    pub fn offset(&self) -> (n: usize)
        ensures
            n == self.spec_offset(),
    {
        if self.rest.len() <= self.input.len() {
            self.input.len() - self.rest.len()
        } else {
            0
        }
    }

    /// An error of `kind` that holds `input` alone: nothing had been taken
    /// when the read failed.
    pub fn custom_raw(input: &'a [u8], kind: ErrorKind) -> (e: Error<'a>)
        ensures
            e == (Error { kind, input, rest: input }),
    {
        Error { kind, input, rest: input }
    }

    /// The failure of a read of `input` with `kind`, nothing taken.
    pub fn custom<T>(input: &'a [u8], kind: ErrorKind) -> (r: Result<(&'a [u8], T), Error<'a>>)
        ensures
            r == Err::<(&'a [u8], T), Error<'a>>(Error { kind, input, rest: input }),
    {
        Err(Error::custom_raw(input, kind))
    }

    /// The failure with `kind` of a read that was handed `original_input`
    /// and had come to `input` when it failed.
    pub fn custom_slice<T>(original_input: &'a [u8], input: &'a [u8], kind: ErrorKind) -> (r:
        Result<(&'a [u8], T), Error<'a>>)
        ensures
            r == Err::<(&'a [u8], T), Error<'a>>(
                Error { kind, input: original_input, rest: input },
            ),
    {
        Err(Error { kind, input: original_input, rest: input })
    }

    /// The kind of the error, if the error is that the buffer ended.
    pub fn as_eof(&self) -> (r: Option<ErrorKind>)
        ensures
            r == if self.kind is UnexpectedEnd {
                Some(self.kind)
            } else {
                None
            },
    {
        match self.kind {
            ErrorKind::UnexpectedEnd => Some(ErrorKind::UnexpectedEnd),
            _ => None,
        }
    }

    /// Whether the error is that the buffer ended.
    pub fn is_eof(&self) -> (r: bool)
        ensures
            r == (self.kind is UnexpectedEnd),
    {
        self.as_eof().is_some()
    }
}

} // verus!
