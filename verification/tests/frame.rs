use digmake::error::{Error, IoErrorKind, ParseFailure};
use digmake::mon::error::{ErrorKind};
use digmake::frame::{
    payload_length, payload_plan, read_packet, read_packet_id_len, Packet, PayloadPlan,
};
use digmake::source::ByteSource;
use digmake::types::{VarInt, VarLong};
use digmake::util::{count_reads, read_length, read_varnum, CountingRead, StreamParse};
use std::cell::RefCell;

fn frame(id: u8, payload: &[u8]) -> Vec<u8> {
    let mut bytes = vec![(payload.len() + 1) as u8, id];
    bytes.extend_from_slice(payload);
    bytes
}

#[test]
fn frame_underflow_is_malformed_and_the_handler_is_not_run() {
    // The frame declares no bytes at all, yet its id takes one.
    let mut source = ByteSource::new(vec![0x00, 0x05, 0xAA]);
    let calls = RefCell::new(0);
    let result = read_packet(&mut source, |_id, _payload| {
        *calls.borrow_mut() += 1;
        Ok(())
    });
    assert_eq!(result, Err(Error::MalformedFrame { declared_len: 0, tag_len: 1 }));
    assert_eq!(*calls.borrow(), 0);
    assert_eq!(source.consumed(), 2);

    // The frame declares two bytes, and its id takes three.
    let mut source = ByteSource::new(vec![0x02, 0xFF, 0xFF, 0x03, 0x00]);
    let calls = RefCell::new(0);
    let result = read_packet(&mut source, |_id, _payload| {
        *calls.borrow_mut() += 1;
        Ok(())
    });
    assert_eq!(result, Err(Error::MalformedFrame { declared_len: 2, tag_len: 3 }));
    assert_eq!(*calls.borrow(), 0);
}

#[test]
fn a_buffered_payload_is_lent_from_the_buffer() {
    let mut stream = frame(0x10, &[1, 2, 3, 4]);
    stream.extend_from_slice(&frame(0x11, &[5]));
    let mut source = ByteSource::with_capacity(64, stream);
    let start = source.fill_buf().as_ptr() as usize;
    let seen = RefCell::new(Vec::new());
    let result = read_packet(&mut source, |id, payload| {
        seen.borrow_mut().push((id, payload.to_vec(), payload.as_ptr() as usize));
        Ok(())
    });
    assert_eq!(result, Ok(0x10));
    assert_eq!(seen.borrow().len(), 1);
    assert_eq!(seen.borrow()[0].0, 0x10);
    assert_eq!(seen.borrow()[0].1, vec![1, 2, 3, 4]);
    // The payload handed out is the buffer itself, two bytes in.
    assert_eq!(seen.borrow()[0].2, start + 2);
    assert_eq!(source.copied_bytes(), 0);
    assert_eq!(source.consumed(), 6);

    let result = read_packet(&mut source, |id, payload| {
        seen.borrow_mut().push((id, payload.to_vec(), payload.as_ptr() as usize));
        Ok(())
    });
    assert_eq!(result, Ok(0x11));
    assert_eq!(seen.borrow()[1].1, vec![5]);
    assert_eq!(source.copied_bytes(), 0);
    assert_eq!(source.remaining(), 0);
}

#[test]
fn a_payload_that_runs_past_the_buffer_is_copied() {
    let payload: Vec<u8> = (0..20).collect();
    let mut source = ByteSource::with_capacity(8, frame(0x22, &payload));
    let seen = RefCell::new(Vec::new());
    let result = read_packet(&mut source, |id, bytes| {
        seen.borrow_mut().push((id, bytes.to_vec()));
        Ok(())
    });
    assert_eq!(result, Ok(0x22));
    assert_eq!(*seen.borrow(), vec![(0x22, payload)]);
    assert_eq!(source.copied_bytes(), 20);
    assert_eq!(source.remaining(), 0);
}

#[test]
fn an_empty_payload_is_handed_over_empty() {
    let mut source = ByteSource::new(vec![0x01, 0x00, 0x01, 0x07]);
    let seen = RefCell::new(Vec::new());
    let handler = |id: i32, bytes: &[u8]| {
        seen.borrow_mut().push((id, bytes.len()));
        Ok(())
    };
    assert_eq!(read_packet(&mut source, handler), Ok(0));
    assert_eq!(read_packet(&mut source, handler), Ok(7));
    assert_eq!(*seen.borrow(), vec![(0, 0), (7, 0)]);
    assert_eq!(source.copied_bytes(), 0);
    assert_eq!(read_packet(&mut source, handler), Err(Error::Eof));
}

#[test]
fn the_error_of_the_handler_is_returned_and_the_frame_is_consumed() {
    let mut stream = frame(0x01, &[9, 9]);
    stream.extend_from_slice(&frame(0x02, &[8]));
    let mut source = ByteSource::new(stream);
    let result = read_packet(&mut source, |_id, _payload| {
        Err(Error::Custom("unknown packet type".to_string()))
    });
    assert_eq!(result, Err(Error::Custom("unknown packet type".to_string())));
    assert_eq!(source.consumed(), 4);
    assert_eq!(read_packet(&mut source, |_id, _payload| Ok(())), Ok(0x02));
}

#[test]
fn a_payload_that_the_stream_does_not_hold_fails_the_read() {
    for capacity in [2, 64] {
        let mut source = ByteSource::with_capacity(capacity, vec![0x05, 0x01, 0xAA, 0xBB]);
        let calls = RefCell::new(0);
        let result = read_packet(&mut source, |_id, _payload| {
            *calls.borrow_mut() += 1;
            Ok(())
        });
        assert_eq!(result, Err(Error::Io(IoErrorKind::UnexpectedEof)));
        assert_eq!(*calls.borrow(), 0);
        assert_eq!(source.remaining(), 0);
        assert_eq!(source.copied_bytes(), 0);
    }
}

#[test]
fn a_header_that_cannot_be_read_fails_the_read() {
    let mut source = ByteSource::new(vec![]);
    assert_eq!(read_packet(&mut source, |_, _| Ok(())), Err(Error::Eof));
    let mut source = ByteSource::new(vec![0x03]);
    assert_eq!(read_packet(&mut source, |_, _| Ok(())), Err(Error::Eof));
    let mut source = ByteSource::new(vec![0x80, 0x80]);
    assert_eq!(read_packet(&mut source, |_, _| Ok(())), Err(Error::Eof));
    assert_eq!(source.remaining(), 0);

    let mut source = ByteSource::new(vec![0xFF, 0xFF, 0xFF, 0xFF, 0x0F, 0x00]);
    assert_eq!(read_packet(&mut source, |_, _| Ok(())), Err(Error::NumericRange));
    assert_eq!(source.consumed(), 5);

    let mut source = ByteSource::new(vec![0x80, 0x80, 0x80, 0x80, 0x80, 0x00]);
    assert_eq!(
        read_packet(&mut source, |_, _| Ok(())),
        Err(Error::Parse(ParseFailure {
            kind: ErrorKind::VarNumTooLong { byte: 0x80, position: 4 },
            start: 0,
            end: 5,
        }))
    );
    assert_eq!(source.consumed(), 5);
}

#[test]
fn the_header_gives_the_id_and_the_length_of_the_payload() {
    let mut source = ByteSource::new(vec![0x10, 0x00, 0xF2, 0x05]);
    assert_eq!(read_packet_id_len(&mut source), Ok(Packet { id: 0, length: 15 }));
    assert_eq!(source.consumed(), 2);
    let mut source = ByteSource::new(vec![0x06, 0xFF, 0xFF, 0xFF, 0xFF, 0x0F, 0x2A]);
    assert_eq!(read_packet_id_len(&mut source), Ok(Packet { id: -1, length: 1 }));
    assert_eq!(source.consumed(), 6);
}

#[test]
fn payload_length_and_plan() {
    assert_eq!(payload_length(16, 1), Ok(15));
    assert_eq!(payload_length(3, 3), Ok(0));
    assert_eq!(payload_length(2, 3), Err(Error::MalformedFrame { declared_len: 2, tag_len: 3 }));
    assert_eq!(payload_plan(0, 0), PayloadPlan::Empty);
    assert_eq!(payload_plan(0, 100), PayloadPlan::Empty);
    assert_eq!(payload_plan(5, 5), PayloadPlan::Borrowed);
    assert_eq!(payload_plan(5, 100), PayloadPlan::Borrowed);
    assert_eq!(payload_plan(5, 4), PayloadPlan::Owned);
    assert_eq!(payload_plan(5, 0), PayloadPlan::Owned);
}

#[test]
fn count_reads_counts_the_bytes_of_one_value() {
    let mut source = ByteSource::new(vec![0xF2, 0x05, 0x09, 0x80, 0x01]);
    assert_eq!(count_reads::<VarInt>(&mut source), (Ok(754), 2));
    assert_eq!(count_reads::<VarLong>(&mut source), (Ok(9), 1));
    assert_eq!(count_reads::<VarInt>(&mut source), (Ok(128), 2));
    assert_eq!(count_reads::<VarInt>(&mut source), (Err(Error::Eof), 0));
    let mut source = ByteSource::new(vec![0x80, 0x80]);
    assert_eq!(count_reads::<VarLong>(&mut source), (Err(Error::Eof), 2));
}

#[test]
fn the_counting_reader_counts_what_passes_through_it() {
    let mut source = ByteSource::with_capacity(2, vec![1, 2, 3]);
    assert_eq!(source.read(), Some(1));
    let mut reader = CountingRead::new(&mut source);
    assert_eq!(reader.amt_read, 0);
    assert_eq!(reader.read(), Some(2));
    assert_eq!(reader.read(), Some(3));
    assert_eq!(reader.read(), None);
    assert_eq!(reader.amt_read, 2);
    assert_eq!(source.consumed(), 3);

    let mut source = ByteSource::new(vec![0xAC, 0x02, 0x7F, 0xFF, 0xFF, 0xFF, 0xFF, 0x0F]);
    let mut reader = CountingRead::new(&mut source);
    assert_eq!(read_length(&mut reader), Ok(300));
    assert_eq!(read_varnum(&mut reader, 5), Ok(127));
    assert_eq!(reader.amt_read, 3);
    assert_eq!(<VarInt as StreamParse>::read_from(&mut reader), Ok(-1));
    assert_eq!(reader.amt_read, 8);
    let mut source = ByteSource::new(vec![0xFF, 0xFF, 0xFF, 0xFF, 0x0F]);
    let mut reader = CountingRead::new(&mut source);
    assert_eq!(read_length(&mut reader), Err(Error::NumericRange));
}

#[test]
fn the_source_reads_through_its_buffer() {
    let mut source = ByteSource::with_capacity(4, (0..10).collect());
    assert_eq!(source.buffer(), &[][..]);
    assert_eq!(source.fill_buf(), &[0, 1, 2, 3][..]);
    assert_eq!(source.buffer(), &[0, 1, 2, 3][..]);
    source.consume(1);
    assert_eq!(source.fill_buf(), &[1, 2, 3][..]);
    source.consume(100);
    assert_eq!(source.buffer(), &[][..]);
    assert_eq!(source.consumed(), 4);
    assert_eq!(source.read(), Some(4));
    assert_eq!(source.buffer(), &[5, 6, 7][..]);
    assert_eq!(source.read_exact(2), Ok(vec![5, 6]));
    assert_eq!(source.buffer(), &[7][..]);
    assert_eq!(source.read_exact(2), Ok(vec![7, 8]));
    assert_eq!(source.buffer(), &[][..]);
    assert_eq!(source.copied_bytes(), 4);
    assert_eq!(source.remaining(), 1);
    assert_eq!(source.read_exact(2), Err(Error::Io(IoErrorKind::UnexpectedEof)));
    assert_eq!(source.remaining(), 0);
    assert_eq!(source.read(), None);
    assert_eq!(source.fill_buf(), &[][..]);
    assert_eq!(source.read_exact(0), Ok(vec![]));

    let mut source = ByteSource::with_capacity(0, vec![1, 2]);
    assert_eq!(source.fill_buf(), &[1][..]);
}
