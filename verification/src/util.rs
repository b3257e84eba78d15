//! A reader that counts the bytes that pass through it.

use crate::error::{Error, ParseFailure};
use crate::mon::error::{ErrorKind};
use crate::mon::primitives::varnum_fault;
use crate::source::ByteSource;
use crate::types::{VarInt, VarLong};
use crate::varnum::{
    groups_value, lemma_groups_value_bound, lemma_groups_value_push, lemma_pow128_bound,
    lemma_scan_err, lemma_scan_ok, parse_varint, parse_varlong, parse_varnum, scan_varnum,
    wrap_to_i32, wrap_to_i64, VarNumDecoder, VarNumStep, VARINT_MAX_BYTES, VARLONG_MAX_BYTES,
};
use vstd::prelude::*;

verus! {

/// Wraps a byte source and counts the bytes that are read through the
/// wrapper.
pub struct CountingRead<'a> {
    pub amt_read: usize,
    pub inner: &'a mut ByteSource,
}

impl<'a> CountingRead<'a> {
    /// The source is well formed and has given out at least the bytes
    /// counted.
    pub open spec fn wf(&self) -> bool {
        &&& self.inner.wf()
        &&& self.amt_read <= self.inner.position()
    }

    /// A counter at zero in front of `inner`.
    pub fn new(inner: &'a mut ByteSource) -> (reader: CountingRead<'a>)
        requires
            old(inner).wf(),
        ensures
            reader.wf(),
            reader.amt_read == 0,
            *reader.inner == *old(inner),
            *final(reader.inner) == *final(inner),
    {
        CountingRead { amt_read: 0, inner }
    }

    /// Reads one byte from the source and counts it. The reader stays in
    /// front of the same source: what the source is in the end is what the
    /// reader leaves of it.
    pub fn read(&mut self) -> (r: Option<u8>)
        requires
            old(self).wf(),
        ensures
            final(self).wf(),
            *final(final(self).inner) == *final(old(self).inner),
            old(self).inner.stream().len() == 0 ==> {
                &&& r is None
                &&& old(self).inner.advanced_by(final(self).inner, 0)
                &&& final(self).amt_read == old(self).amt_read
            },
            old(self).inner.stream().len() > 0 ==> {
                &&& r == Some(old(self).inner.stream()[0])
                &&& old(self).inner.advanced_by(final(self).inner, 1)
                &&& final(self).amt_read == old(self).amt_read + 1
            },
    {
        let r = self.inner.read();
        if r.is_some() {
            proof {
                self.inner.lemma_bounds();
            }
            self.amt_read = self.amt_read + 1;
        }
        r
    }
}

/// The error of a variable-length integer that could not be read from a
/// stream. A stream that ends inside the integer is reported as such; any
/// other fault is located from the first byte of the integer.
pub open spec fn stream_error(kind: ErrorKind) -> Error {
    match kind {
        ErrorKind::UnexpectedEnd => Error::Eof,
        ErrorKind::VarNumTooLong { byte, position } => Error::Parse(
            ParseFailure { kind, start: 0, end: (position + 1) as usize },
        ),
        _ => Error::Parse(ParseFailure { kind, start: 0, end: 0 }),
    }
}

/// What reading a variable-length integer of at most `limit` bytes from the
/// front of a stream gives, and the number of bytes it takes off the stream.
pub open spec fn stream_varnum(stream: Seq<u8>, limit: nat) -> (Result<nat, Error>, nat) {
    match parse_varnum(stream, limit) {
        Ok((n, v)) => (Ok(v), n),
        Err(kind) => (Err(stream_error(kind)), varnum_fault(stream, kind).end),
    }
}

/// Reads the groups of one variable-length integer of at most `limit` bytes
/// from the reader, which stays in front of the same source.
pub fn read_varnum(reader: &mut CountingRead, limit: usize) -> (r: Result<u128, Error>)
    requires
        old(reader).wf(),
        0 < limit <= VARLONG_MAX_BYTES,
    ensures
        final(reader).wf(),
        *final(final(reader).inner) == *final(old(reader).inner),
        old(reader).inner.advanced_by(
            final(reader).inner,
            stream_varnum(old(reader).inner.stream(), limit as nat).1,
        ),
        final(reader).amt_read == old(reader).amt_read + stream_varnum(
            old(reader).inner.stream(),
            limit as nat,
        ).1,
        match stream_varnum(old(reader).inner.stream(), limit as nat).0 {
            Ok(v) => r == Ok::<u128, Error>(v as u128) && v <= u128::MAX,
            Err(e) => r == Err::<u128, Error>(e),
        },
{
    let ghost stream = reader.inner.stream();
    let ghost start = *reader.inner;
    let ghost counted = reader.amt_read;
    let mut decoder = VarNumDecoder::new(limit);
    proof {
        start.lemma_advanced_by_zero();
        assert(stream.take(0) =~= Seq::<u8>::empty());
    }
    loop
        invariant
            0 < limit <= VARLONG_MAX_BYTES,
            reader.wf(),
            *final(reader.inner) == *final(old(reader).inner),
            stream == old(reader).inner.stream(),
            start == *old(reader).inner,
            counted == old(reader).amt_read,
            decoder.wf(),
            decoder.limit() == limit,
            start.advanced_by(reader.inner, decoder.count()),
            reader.amt_read == counted + decoder.count(),
            decoder.value() == groups_value(stream.take(decoder.count() as int)),
            scan_varnum(stream, 0, limit as nat) == scan_varnum(
                stream,
                decoder.count(),
                limit as nat,
            ),
        decreases limit - decoder.count(),
    {
        let ghost at = decoder.count();
        let ghost before = *reader.inner;
        proof {
            decoder.lemma_wf();
        }
        let byte = match reader.read() {
            Some(byte) => byte,
            None => {
                assert(before.stream().skip(0) =~= before.stream());
                assert(stream.len() == at);
                return Err(Error::Eof);
            },
        };
        proof {
            start.lemma_advanced_by_add(&before, reader.inner, at, 1);
            assert(stream.take(at as int + 1) =~= stream.take(at as int).push(byte));
            lemma_groups_value_push(stream.take(at as int), byte);
            lemma_groups_value_bound(stream.take(at as int + 1));
            lemma_pow128_bound(at + 1, 10);
        }
        match decoder.push(byte) {
            VarNumStep::More => {},
            VarNumStep::Done(value) => {
                return Ok(value);
            },
            VarNumStep::TooLong { byte, position } => {
                proof {
                    lemma_scan_err(
                        stream,
                        0,
                        limit as nat,
                        ErrorKind::VarNumTooLong { byte, position },
                    );
                }
                return Err(
                    Error::Parse(
                        ParseFailure {
                            kind: ErrorKind::VarNumTooLong { byte, position },
                            start: 0,
                            end: position + 1,
                        },
                    ),
                );
            },
        }
    }
}

/// A value that is read off a byte stream one byte at a time.
pub trait StreamParse {
    /// The type of the value.
    type Value;

    /// What reading one value from the front of `stream` gives, and the
    /// number of bytes it takes off the stream.
    spec fn spec_read(stream: Seq<u8>) -> (Result<Self::Value, Error>, nat);

    /// Reads one value from the reader, which stays in front of the same
    /// source.
    fn read_from(reader: &mut CountingRead) -> (r: Result<Self::Value, Error>)
        requires
            old(reader).wf(),
        ensures
            final(reader).wf(),
            *final(final(reader).inner) == *final(old(reader).inner),
            r == Self::spec_read(old(reader).inner.stream()).0,
            old(reader).inner.advanced_by(
                final(reader).inner,
                Self::spec_read(old(reader).inner.stream()).1,
            ),
            final(reader).amt_read == old(reader).amt_read + Self::spec_read(
                old(reader).inner.stream(),
            ).1,
    ;
}

/// What reading a 32-bit variable-length integer from the front of a stream
/// gives, and the number of bytes it takes off the stream.
pub open spec fn stream_varint(stream: Seq<u8>) -> (Result<i32, Error>, nat) {
    match parse_varint(stream) {
        Ok((n, v)) => (Ok(v), n),
        Err(kind) => (Err(stream_error(kind)), varnum_fault(stream, kind).end),
    }
}

/// What reading a 64-bit variable-length integer from the front of a stream
/// gives, and the number of bytes it takes off the stream.
pub open spec fn stream_varlong(stream: Seq<u8>) -> (Result<i64, Error>, nat) {
    match parse_varlong(stream) {
        Ok((n, v)) => (Ok(v), n),
        Err(kind) => (Err(stream_error(kind)), varnum_fault(stream, kind).end),
    }
}

/// What reading a length from the front of a stream gives, and the number
/// of bytes it takes off the stream. A negative length is out of range.
pub open spec fn stream_length(stream: Seq<u8>) -> (Result<usize, Error>, nat) {
    match stream_varint(stream) {
        (Ok(v), n) => if v < 0 {
            (Err(Error::NumericRange), n)
        } else {
            (Ok(v as usize), n)
        },
        (Err(e), n) => (Err(e), n),
    }
}

/// Reading a variable-length integer takes no more bytes off a stream than
/// the stream holds.
pub proof fn lemma_stream_varint_bound(stream: Seq<u8>)
    ensures
        stream_varint(stream).1 <= stream.len(),
        stream_varint(stream).1 <= VARINT_MAX_BYTES,
        stream_length(stream).1 == stream_varint(stream).1,
        stream_length(stream).0 matches Ok(v) ==> v <= i32::MAX,
{
    match scan_varnum(stream, 0, VARINT_MAX_BYTES as nat) {
        Ok(n) => {
            lemma_scan_ok(stream, 0, VARINT_MAX_BYTES as nat, n);
        },
        Err(kind) => {
            lemma_scan_err(stream, 0, VARINT_MAX_BYTES as nat, kind);
        },
    }
}

impl StreamParse for VarInt {
    type Value = i32;

    open spec fn spec_read(stream: Seq<u8>) -> (Result<i32, Error>, nat) {
        stream_varint(stream)
    }

    fn read_from(reader: &mut CountingRead) -> (r: Result<i32, Error>) {
        match read_varnum(reader, VARINT_MAX_BYTES) {
            Ok(value) => Ok(wrap_to_i32(value)),
            Err(e) => Err(e),
        }
    }
}

impl StreamParse for VarLong {
    type Value = i64;

    open spec fn spec_read(stream: Seq<u8>) -> (Result<i64, Error>, nat) {
        stream_varlong(stream)
    }

    fn read_from(reader: &mut CountingRead) -> (r: Result<i64, Error>) {
        match read_varnum(reader, VARLONG_MAX_BYTES) {
            Ok(value) => Ok(wrap_to_i64(value)),
            Err(e) => Err(e),
        }
    }
}

/// Reads a length from the reader: a 32-bit variable-length integer that
/// must not be negative. The reader stays in front of the same source.
pub fn read_length(reader: &mut CountingRead) -> (r: Result<usize, Error>)
    requires
        old(reader).wf(),
    ensures
        final(reader).wf(),
        *final(final(reader).inner) == *final(old(reader).inner),
        r == stream_length(old(reader).inner.stream()).0,
        old(reader).inner.advanced_by(
            final(reader).inner,
            stream_length(old(reader).inner.stream()).1,
        ),
        final(reader).amt_read == old(reader).amt_read + stream_length(
            old(reader).inner.stream(),
        ).1,
{
    let value = <VarInt as StreamParse>::read_from(reader)?;
    if value < 0 {
        Err(Error::NumericRange)
    } else {
        Ok(value as usize)
    }
}

/// Reads one value from `inner` and says how many bytes that took.
pub fn count_reads<P: StreamParse>(inner: &mut ByteSource) -> (r: (Result<P::Value, Error>, usize))
    requires
        old(inner).wf(),
    ensures
        final(inner).wf(),
        r.0 == P::spec_read(old(inner).stream()).0,
        r.1 == P::spec_read(old(inner).stream()).1,
        old(inner).advanced_by(final(inner), r.1 as nat),
{
    let mut this = CountingRead::new(inner);
    let result = P::read_from(&mut this);
    (result, this.amt_read)
}


} // verus!
