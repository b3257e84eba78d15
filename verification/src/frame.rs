//! The packet framer. A frame is a length, a packet id and a payload; the
//! length counts the bytes of the id and of the payload together.

use crate::error::{Error, IoErrorKind};
use crate::source::{buffered_after_reads, refilled, ByteSource};
use crate::types::VarInt;
use crate::util::{count_reads, read_length, stream_length, stream_varint, CountingRead};
use vstd::prelude::*;

verus! {

/// The header of a frame: the id of the packet and the length of the
/// payload that follows the id.
#[derive(Clone, Copy, Debug, PartialEq, Eq, Structural)]
pub struct Packet {
    pub id: i32,
    pub length: u32,
}

/// Where the payload of a frame is taken from.
#[derive(Clone, Copy, Debug, PartialEq, Eq, Structural)]
pub enum PayloadPlan {
    /// There is no payload.
    Empty,
    /// The buffer of the source holds the whole payload: it is handed out
    /// as a view into that buffer and consumed afterwards.
    Borrowed,
    /// The payload runs past the buffer: it is read into a buffer of its
    /// own.
    Owned,
}

/// Where a payload of `payload_len` bytes is taken from when the source has
/// `buffered` bytes in its buffer.
pub open spec fn plan_for(payload_len: nat, buffered: nat) -> PayloadPlan {
    if payload_len == 0 {
        PayloadPlan::Empty
    } else if buffered >= payload_len {
        PayloadPlan::Borrowed
    } else {
        PayloadPlan::Owned
    }
}

/// Decides where a payload of `payload_len` bytes is taken from when the
/// source has `buffered` bytes in its buffer.
pub fn payload_plan(payload_len: usize, buffered: usize) -> (plan: PayloadPlan)
    ensures
        plan == plan_for(payload_len as nat, buffered as nat),
{
    if payload_len == 0 {
        PayloadPlan::Empty
    } else if buffered >= payload_len {
        PayloadPlan::Borrowed
    } else {
        PayloadPlan::Owned
    }
}

/// The length of the payload of a frame that declares `declared_len` bytes
/// and whose id took `tag_len` of them.
pub open spec fn payload_length_spec(declared_len: usize, tag_len: usize) -> Result<usize, Error> {
    if declared_len >= tag_len {
        Ok((declared_len - tag_len) as usize)
    } else {
        Err(Error::MalformedFrame { declared_len, tag_len })
    }
}

/// The length of the payload of a frame that declares `declared_len` bytes
/// and whose id took `tag_len` of them. A frame that declares fewer bytes
/// than its id took is malformed.
pub fn payload_length(declared_len: usize, tag_len: usize) -> (r: Result<usize, Error>)
    ensures
        r == payload_length_spec(declared_len, tag_len),
{
    match declared_len.checked_sub(tag_len) {
        Some(len) => Ok(len),
        None => Err(Error::MalformedFrame { declared_len, tag_len }),
    }
}

/// What reading the header of a frame from the front of a stream gives, and
/// the number of bytes it takes off the stream.
pub open spec fn parse_header(stream: Seq<u8>) -> (Result<Packet, Error>, nat) {
    match stream_length(stream) {
        (Ok(declared_len), n) => match stream_varint(stream.skip(n as int)) {
            (Ok(id), tag_len) => match payload_length_spec(declared_len, tag_len as usize) {
                Ok(len) => (Ok(Packet { id, length: len as u32 }), n + tag_len),
                Err(e) => (Err(e), n + tag_len),
            },
            (Err(e), tag_len) => (Err(e), n + tag_len),
        },
        (Err(e), n) => (Err(e), n),
    }
}

/// The number of bytes a header takes off the stream is no more than the
/// stream holds, and no more than two variable-length integers can occupy.
pub proof fn lemma_parse_header_bound(stream: Seq<u8>)
    ensures
        parse_header(stream).1 <= stream.len(),
{
    crate::util::lemma_stream_varint_bound(stream);
    let n = stream_length(stream).1;
    crate::util::lemma_stream_varint_bound(stream.skip(n as int));
}

/// Reads the header of a frame: the declared length, then the id, whose
/// bytes are counted and taken off the declared length.
pub fn read_packet_id_len(source: &mut ByteSource) -> (r: Result<Packet, Error>)
    requires
        old(source).wf(),
    ensures
        final(source).wf(),
        r == parse_header(old(source).stream()).0,
        old(source).advanced_by(final(source), parse_header(old(source).stream()).1),
{
    let ghost start = *source;
    let declared_len = {
        let mut reader = CountingRead::new(source);
        read_length(&mut reader)
    };
    let declared_len = declared_len?;
    let ghost middle = *source;
    let (packet_id, id_len) = count_reads::<VarInt>(source);
    proof {
        start.lemma_advanced_by_add(
            &middle,
            source,
            stream_length(start.stream()).1,
            id_len as nat,
        );
        crate::util::lemma_stream_varint_bound(middle.stream());
    }
    let packet_id = packet_id?;
    let length = payload_length(declared_len, id_len)?;
    Ok(Packet { id: packet_id, length: length as u32 })
}

/// What reading one frame off a source does, as far as it can be told from
/// the stream: the result of the header, the payload that the handler is
/// given if there is one, and the bytes that are taken off the stream.
pub open spec fn frame_payload(stream: Seq<u8>) -> Option<Seq<u8>> {
    match parse_header(stream) {
        (Ok(packet), n) => if stream.len() - n >= packet.length {
            Some(stream.subrange(n as int, n + packet.length))
        } else {
            None
        },
        (Err(_), _) => None,
    }
}

/// The number of bytes in the buffer of `source` once the header of its
/// next frame has been read and the buffer has been refilled if it was
/// empty.
pub open spec fn buffered_behind_header(source: &ByteSource) -> nat {
    let n = parse_header(source.stream()).1;
    refilled(
        buffered_after_reads(source.buffered(), source.capacity(), source.stream().len(), n),
        source.capacity(),
        (source.stream().len() - n) as nat,
    )
}

/// Where the payload of the next frame of `source` is taken from: the plan
/// for its length and for what the buffer holds behind the header.
pub open spec fn frame_plan(source: &ByteSource) -> PayloadPlan {
    match parse_header(source.stream()).0 {
        Ok(packet) => plan_for(packet.length as nat, buffered_behind_header(source)),
        Err(_) => PayloadPlan::Empty,
    }
}

/// A frame that declares fewer bytes than its id occupies has a malformed
/// header, whatever follows.
pub proof fn lemma_frame_underflow(stream: Seq<u8>)
    requires
        stream_length(stream).0 matches Ok(declared_len) && stream_varint(
            stream.skip(stream_length(stream).1 as int),
        ).0 is Ok && declared_len < stream_varint(stream.skip(stream_length(stream).1 as int)).1,
    ensures
        parse_header(stream).0 == Err::<Packet, Error>(
            Error::MalformedFrame {
                declared_len: stream_length(stream).0->Ok_0,
                tag_len: stream_varint(stream.skip(stream_length(stream).1 as int)).1 as usize,
            },
        ),
        frame_payload(stream) is None,
{
    crate::util::lemma_stream_varint_bound(stream.skip(stream_length(stream).1 as int));
}

/// A frame that lies in the buffer of the source from its first byte to its
/// last is handed out as a view into that buffer: nothing is copied.
pub proof fn lemma_buffered_frame_is_borrowed(source: &ByteSource)
    requires
        source.wf(),
        parse_header(source.stream()).0 matches Ok(packet) && packet.length > 0
            && source.buffered() >= parse_header(source.stream()).1 + packet.length,
    ensures
        frame_plan(source) == PayloadPlan::Borrowed,
{
    let n = parse_header(source.stream()).1;
    source.lemma_bounds();
    lemma_reads_within_buffer(
        source.buffered(),
        source.capacity(),
        source.stream().len(),
        n,
    );
}

/// While the buffer holds what is read, each read takes one byte from it and
/// nothing enters it.
pub proof fn lemma_reads_within_buffer(buffered: nat, capacity: nat, available: nat, n: nat)
    requires
        n <= buffered <= available,
    ensures
        buffered_after_reads(buffered, capacity, available, n) == buffered - n,
    decreases n,
{
    if n > 0 {
        lemma_reads_within_buffer(
            (buffered - 1) as nat,
            capacity,
            (available - 1) as nat,
            (n - 1) as nat,
        );
    }
}

/// Reads one frame off `source` and hands its id and payload to `handler`.
///
/// The payload is a view into the buffer of the source where the buffer
/// holds all of it, and a copy otherwise. The bytes of a payload that was
/// lent from the buffer are consumed once `handler` has returned, whatever
/// it returned. A header that cannot be read, or a payload that the stream
/// does not hold in full, fails the call before `handler` is run.
pub fn read_packet<F>(source: &mut ByteSource, handler: F) -> (r: Result<i32, Error>) where
    F: Fn(i32, &[u8]) -> Result<(), Error>,

    requires
        old(source).wf(),
        forall|id: i32, payload: &[u8]| call_requires(handler, (id, payload)),
    ensures
        final(source).wf(),
        final(source).capacity() == old(source).capacity(),
        match parse_header(old(source).stream()) {
            (Err(e), n) => {
                &&& r == Err::<i32, Error>(e)
                &&& old(source).advanced_by(final(source), n)
            },
            (Ok(packet), n) => match frame_payload(old(source).stream()) {
                None => {
                    &&& r == Err::<i32, Error>(Error::Io(IoErrorKind::UnexpectedEof))
                    &&& final(source).stream() == Seq::<u8>::empty()
                    &&& final(source).copied() == old(source).copied()
                    &&& final(source).buffered() == 0
                },
                Some(bytes) => {
                    &&& exists|payload: &[u8], outcome: Result<(), Error>|
                        {
                            &&& payload@ == bytes
                            &&& #[trigger] call_ensures(handler, (packet.id, payload), outcome)
                            &&& r == match outcome {
                                Ok(()) => Ok::<i32, Error>(packet.id),
                                Err(e) => Err::<i32, Error>(e),
                            }
                        }
                    &&& final(source).stream() == old(source).stream().skip(n + packet.length)
                    &&& final(source).position() == old(source).position() + n + packet.length
                    &&& final(source).copied() == old(source).copied() + if frame_plan(old(source))
                        == PayloadPlan::Owned {
                        packet.length as int
                    } else {
                        0
                    }
                    &&& final(source).buffered() == match frame_plan(old(source)) {
                        PayloadPlan::Empty => buffered_behind_header(old(source)),
                        PayloadPlan::Borrowed => (buffered_behind_header(old(source))
                            - packet.length) as nat,
                        PayloadPlan::Owned => 0,
                    }
                },
            },
        },
{
    let ghost start = *source;
    let ghost stream = source.stream();
    proof {
        lemma_parse_header_bound(stream);
    }
    let packet = read_packet_id_len(source)?;
    let ghost n = parse_header(stream).1;
    let packet_len = packet.length as usize;
    let buffered = source.fill_buf().len();
    proof {
        source.lemma_bounds();
    }
    let result = match payload_plan(packet_len, buffered) {
        PayloadPlan::Empty => {
            let empty: [u8; 0] = [];
            assert(empty@ =~= stream.subrange(n as int, n + packet.length));
            assert(stream.skip(n as int) =~= stream.skip(n + packet.length));
            handler(packet.id, empty.as_slice())
        },
        PayloadPlan::Borrowed => {
            let payload = vstd::slice::slice_subrange(source.buffer(), 0, packet_len);
            assert(payload@ =~= stream.subrange(n as int, n + packet.length));
            let result = handler(packet.id, payload);
            assert(stream.skip(n as int).skip(packet_len as int) =~= stream.skip(
                n + packet.length,
            ));
            source.consume(packet_len);
            result
        },
        PayloadPlan::Owned => {
            proof {
                if stream.len() - n >= packet_len {
                    assert(stream.skip(n as int).skip(packet_len as int) =~= stream.skip(
                        n + packet.length,
                    ));
                    assert(stream.skip(n as int).take(packet_len as int) =~= stream.subrange(
                        n as int,
                        n + packet.length,
                    ));
                }
            }
            let storage = source.read_exact(packet_len)?;
            handler(packet.id, storage.as_slice())
        },
    };
    match result {
        Ok(()) => Ok(packet.id),
        Err(e) => Err(e),
    }
}

} // verus!
