//! A blocking buffered byte source that is held in memory.
//!
//! The source hands out its bytes in order. An internal buffer of a fixed
//! capacity stands between the stream and its reader: bytes enter the buffer
//! only when it is empty and a read needs more, and they can be looked at
//! there before they are consumed.

use crate::error::{Error, IoErrorKind};
use vstd::prelude::*;

verus! {

/// The capacity of the buffer of a source that was made without one.
pub const DEFAULT_CAPACITY: usize = 8192;

/// The smaller of two numbers.
pub open spec fn min_nat(a: nat, b: nat) -> nat {
    if a <= b {
        a
    } else {
        b
    }
}

/// The number of buffered bytes once a read has asked for more: an empty
/// buffer is filled with as much of what is available as it can hold, and
/// one that holds anything is left alone.
pub open spec fn refilled(buffered: nat, capacity: nat, available: nat) -> nat {
    if buffered == 0 {
        min_nat(capacity, available)
    } else {
        buffered
    }
}

/// The number of buffered bytes after `n` reads of one byte each, when
/// `available` bytes were left in the stream before them.
pub open spec fn buffered_after_reads(buffered: nat, capacity: nat, available: nat, n: nat) -> nat
    decreases n,
{
    if n == 0 || available == 0 {
        buffered
    } else {
        buffered_after_reads(
            (refilled(buffered, capacity, available) - 1) as nat,
            capacity,
            (available - 1) as nat,
            (n - 1) as nat,
        )
    }
}

/// Reading `n + m` bytes is reading `n` bytes and then `m` more.
pub proof fn lemma_buffered_after_reads_add(
    buffered: nat,
    capacity: nat,
    available: nat,
    n: nat,
    m: nat,
)
    requires
        n + m <= available,
    ensures
        buffered_after_reads(buffered, capacity, available, n + m) == buffered_after_reads(
            buffered_after_reads(buffered, capacity, available, n),
            capacity,
            (available - n) as nat,
            m,
        ),
    decreases n,
{
    if n > 0 {
        lemma_buffered_after_reads_add(
            (refilled(buffered, capacity, available) - 1) as nat,
            capacity,
            (available - 1) as nat,
            (n - 1) as nat,
            m,
        );
    }
}

/// A byte stream in memory with a read buffer in front of it.
pub struct ByteSource {
    data: Vec<u8>,
    pos: usize,
    filled: usize,
    capacity: usize,
    copied: usize,
}

impl ByteSource {
    /// The buffered bytes are the next bytes of the stream, and there are
    /// no more of them than the buffer can hold.
    pub closed spec fn wf(&self) -> bool {
        &&& self.pos <= self.filled <= self.data.len()
        &&& self.filled - self.pos <= self.capacity
        &&& 0 < self.capacity
        &&& self.copied <= self.pos
    }

    /// The bytes that have not been consumed yet.
    pub closed spec fn stream(&self) -> Seq<u8> {
        self.data@.skip(self.pos as int)
    }

    /// The number of bytes consumed so far.
    pub closed spec fn position(&self) -> nat {
        self.pos as nat
    }

    /// The number of bytes that the buffer holds. They are the first bytes
    /// of `stream()`.
    pub closed spec fn buffered(&self) -> nat {
        (self.filled - self.pos) as nat
    }

    /// The most bytes the buffer can hold.
    pub closed spec fn capacity(&self) -> nat {
        self.capacity as nat
    }

    /// The number of bytes that have left the source as owned copies.
    pub closed spec fn copied(&self) -> nat {
        self.copied as nat
    }

    /// The bytes consumed so far and the bytes still to come never exceed
    /// what a length can count.
    pub proof fn lemma_bounds(&self)
        requires
            self.wf(),
        ensures
            self.position() + self.stream().len() <= usize::MAX,
            self.buffered() <= self.stream().len(),
            self.buffered() <= self.capacity(),
            self.copied() <= self.position(),
            0 < self.capacity(),
    {
    }

    /// `later` is this source after `n` bytes have been read from it one at
    /// a time.
    pub open spec fn advanced_by(&self, later: &ByteSource, n: nat) -> bool {
        &&& n <= self.stream().len()
        &&& later.stream() == self.stream().skip(n as int)
        &&& later.position() == self.position() + n
        &&& later.capacity() == self.capacity()
        &&& later.copied() == self.copied()
        &&& later.buffered() == buffered_after_reads(
            self.buffered(),
            self.capacity(),
            self.stream().len(),
            n,
        )
    }

    /// A source that has not been read from is where it was.
    pub proof fn lemma_advanced_by_zero(&self)
        ensures
            self.advanced_by(self, 0),
    {
        assert(self.stream().skip(0) =~= self.stream());
    }

    /// Reading `n` bytes and then `m` more is reading `n + m` bytes.
    pub proof fn lemma_advanced_by_add(
        &self,
        middle: &ByteSource,
        later: &ByteSource,
        n: nat,
        m: nat,
    )
        requires
            self.advanced_by(middle, n),
            middle.advanced_by(later, m),
        ensures
            self.advanced_by(later, n + m),
    {
        assert(self.stream().skip(n as int).skip(m as int) =~= self.stream().skip((n + m) as int));
        lemma_buffered_after_reads_add(
            self.buffered(),
            self.capacity(),
            self.stream().len(),
            n,
            m,
        );
    }

    /// A source over `data` with a buffer of the default capacity.
    pub fn new(data: Vec<u8>) -> (source: ByteSource)
        ensures
            source.wf(),
            source.stream() == data@,
            source.position() == 0,
            source.buffered() == 0,
            source.capacity() == DEFAULT_CAPACITY,
            source.copied() == 0,
    {
        ByteSource::with_capacity(DEFAULT_CAPACITY, data)
    }

    /// A source over `data` with a buffer of `capacity` bytes, and of one
    /// byte if `capacity` is zero.
    pub fn with_capacity(capacity: usize, data: Vec<u8>) -> (source: ByteSource)
        ensures
            source.wf(),
            source.stream() == data@,
            source.position() == 0,
            source.buffered() == 0,
            source.capacity() == if capacity == 0 {
                1
            } else {
                capacity as int
            },
            source.copied() == 0,
    {
        let capacity = if capacity == 0 {
            1
        } else {
            capacity
        };
        assert(data@.skip(0) =~= data@);
        ByteSource { data, pos: 0, filled: 0, capacity, copied: 0 }
    }

    /// The number of bytes that have left the source as owned copies.
    pub fn copied_bytes(&self) -> (n: usize)
        ensures
            n == self.copied(),
    {
        self.copied
    }

    /// The number of bytes consumed so far.
    pub fn consumed(&self) -> (n: usize)
        ensures
            n == self.position(),
    {
        self.pos
    }

    /// The number of bytes that have not been consumed yet.
    pub fn remaining(&self) -> (n: usize)
        requires
            self.wf(),
        ensures
            n == self.stream().len(),
    {
        self.data.len() - self.pos
    }

    /// The buffered bytes, without consuming them and without reading more.
    pub fn buffer(&self) -> (buf: &[u8])
        requires
            self.wf(),
        ensures
            buf@ == self.stream().take(self.buffered() as int),
    {
        let buf = &self.data[self.pos..self.filled];
        assert(buf@ =~= self.stream().take(self.buffered() as int));
        buf
    }

    /// The buffered bytes, after more have been read if the buffer was
    /// empty. The result is empty only at the end of the stream.
    pub fn fill_buf(&mut self) -> (buf: &[u8])
        requires
            old(self).wf(),
        ensures
            final(self).wf(),
            final(self).stream() == old(self).stream(),
            final(self).position() == old(self).position(),
            final(self).capacity() == old(self).capacity(),
            final(self).copied() == old(self).copied(),
            final(self).buffered() == refilled(
                old(self).buffered(),
                old(self).capacity(),
                old(self).stream().len(),
            ),
            buf@ == final(self).stream().take(final(self).buffered() as int),
    {
        if self.pos == self.filled {
            let available = self.data.len() - self.pos;
            self.filled = if available < self.capacity {
                self.data.len()
            } else {
                self.pos + self.capacity
            };
        }
        let buf = &self.data[self.pos..self.filled];
        assert(buf@ =~= self.data@.skip(self.pos as int).take(self.filled - self.pos));
        buf
    }

    /// Marks `amt` of the buffered bytes as consumed, and all of them if
    /// there are fewer.
    pub fn consume(&mut self, amt: usize)
        requires
            old(self).wf(),
        ensures
            final(self).wf(),
            final(self).capacity() == old(self).capacity(),
            final(self).copied() == old(self).copied(),
            final(self).stream() == old(self).stream().skip(
                min_nat(amt as nat, old(self).buffered()) as int,
            ),
            final(self).position() == old(self).position() + min_nat(
                amt as nat,
                old(self).buffered(),
            ),
            final(self).buffered() == old(self).buffered() - min_nat(
                amt as nat,
                old(self).buffered(),
            ),
    {
        let n = if amt < self.filled - self.pos {
            amt
        } else {
            self.filled - self.pos
        };
        assert(self.data@.skip(self.pos as int).skip(n as int) =~= self.data@.skip(self.pos + n));
        self.pos = self.pos + n;
    }

    /// Reads one byte, through the buffer. Gives nothing at the end of the
    /// stream.
    pub fn read(&mut self) -> (r: Option<u8>)
        requires
            old(self).wf(),
        ensures
            final(self).wf(),
            old(self).stream().len() == 0 ==> r is None && old(self).advanced_by(final(self), 0),
            old(self).stream().len() > 0 ==> r == Some(old(self).stream()[0]) && old(
                self,
            ).advanced_by(final(self), 1),
    {
        proof {
            reveal_with_fuel(buffered_after_reads, 2);
            assert(self.stream().skip(0) =~= self.stream());
        }
        let available = self.fill_buf().len();
        if available == 0 {
            None
        } else {
            let byte = self.data[self.pos];
            assert(self.data@.skip(self.pos as int).skip(1) =~= self.data@.skip(self.pos + 1));
            self.pos = self.pos + 1;
            Some(byte)
        }
    }

    /// Reads exactly `len` bytes into a buffer of their own. Where the
    /// stream ends first, the read fails and nothing is left of the stream.
    pub fn read_exact(&mut self, len: usize) -> (r: Result<Vec<u8>, Error>)
        requires
            old(self).wf(),
        ensures
            final(self).wf(),
            final(self).capacity() == old(self).capacity(),
            old(self).stream().len() >= len ==> {
                &&& r matches Ok(bytes)
                &&& bytes@ == old(self).stream().take(len as int)
                &&& final(self).stream() == old(self).stream().skip(len as int)
                &&& final(self).position() == old(self).position() + len
                &&& final(self).copied() == old(self).copied() + len
                &&& final(self).buffered() == if len <= old(self).buffered() {
                    old(self).buffered() - len
                } else {
                    0
                }
            },
            old(self).stream().len() < len ==> {
                &&& r == Err::<Vec<u8>, Error>(Error::Io(IoErrorKind::UnexpectedEof))
                &&& final(self).stream() == Seq::<u8>::empty()
                &&& final(self).position() == old(self).position() + old(self).stream().len()
                &&& final(self).copied() == old(self).copied()
                &&& final(self).buffered() == 0
            },
    {
        if self.data.len() - self.pos < len {
            self.pos = self.data.len();
            self.filled = self.data.len();
            assert(self.data@.skip(self.pos as int) =~= Seq::<u8>::empty());
            return Err(Error::Io(IoErrorKind::UnexpectedEof));
        }
        let mut bytes: Vec<u8> = Vec::new();
        bytes.extend_from_slice(&self.data[self.pos..self.pos + len]);
        assert(bytes@ =~= self.data@.skip(self.pos as int).take(len as int));
        assert(self.data@.skip(self.pos as int).skip(len as int) =~= self.data@.skip(
            self.pos + len,
        ));
        self.pos = self.pos + len;
        self.copied = self.copied + len;
        if self.filled < self.pos {
            self.filled = self.pos;
        }
        Ok(bytes)
    }
}

} // verus!
