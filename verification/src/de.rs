//! The decoder: a cursor over a buffer with one method for each kind of
//! value, and a recursive walk that decodes a value of any shape.

use crate::error::{DeError, Error, ParseFailure};
use crate::mon::error::Error as MonError;
use crate::mon::primitives::{
    agrees, be_i128, be_i16, be_i32, be_i64, be_i8, be_u128, be_u16, be_u32, be_u64, be_u8,
    be_value, lemma_be_value_bound, lemma_pow256_widths, parse_bool, parse_length, parse_string,
    rest_bytes, short_input, Fault, Parse, ParseB,
};
use crate::shape::{view_all, Field, Shape, Value, ValueView};
use crate::types::{sign_extend, unpack_x, unpack_y, unpack_z, Position, VarInt, VarLong};
use vstd::prelude::*;
use vstd::string::StringSliceAdditionalSpecFns;
use vstd::utf8::{decode_utf8, encode_utf8_decode_utf8};

verus! {

/// A fault of a primitive that was entered at byte `at` of the buffer, as
/// the error that the decoder reports.
pub open spec fn located(fault: Fault, at: nat) -> Error {
    Error::Parse(
        ParseFailure {
            kind: fault.kind,
            start: (at + fault.start) as usize,
            end: (at + fault.end) as usize,
        },
    )
}

/// What reading an unsigned big-endian integer of `width` bytes from the
/// front of `input` gives.
pub open spec fn parse_fixed(input: Seq<u8>, width: nat) -> Result<(nat, nat), Fault> {
    if input.len() < width {
        Err(short_input())
    } else {
        Ok((width, be_value(input.take(width as int))))
    }
}

/// The value of the first byte alone is that byte.
pub proof fn lemma_be_value_one(input: Seq<u8>)
    requires
        input.len() >= 1,
    ensures
        be_value(input.take(1)) == input[0],
{
    let one = input.take(1);
    assert(one.drop_last() =~= Seq::<u8>::empty());
    assert(be_value(one.drop_last()) == 0);
}

/// The outcome of a decode: the value and the position behind it, or the
/// error and the position at which the cursor is left.
pub type Outcome = Result<(ValueView, nat), (Error, nat)>;

/// The outcome of a primitive that was entered at byte `at`, with its value
/// wrapped as `wrap` says.
pub open spec fn lift<T>(r: Result<(nat, T), Fault>, at: nat, wrap: spec_fn(T) -> ValueView)
    -> Outcome {
    match r {
        Ok((n, v)) => Ok((wrap(v), at + n)),
        Err(fault) => Err((located(fault, at), at)),
    }
}

/// The signed 8-bit integer whose two's complement field holds `v`.
pub open spec fn as_i8(v: nat) -> i8 {
    sign_extend(v as int, 0x100) as i8
}

/// The signed 16-bit integer whose two's complement field holds `v`.
pub open spec fn as_i16(v: nat) -> i16 {
    sign_extend(v as int, 0x1_0000) as i16
}

/// The signed 32-bit integer whose two's complement field holds `v`.
pub open spec fn as_i32(v: nat) -> i32 {
    sign_extend(v as int, 0x1_0000_0000) as i32
}

/// The signed 64-bit integer whose two's complement field holds `v`.
pub open spec fn as_i64(v: nat) -> i64 {
    sign_extend(v as int, 0x1_0000_0000_0000_0000) as i64
}

/// The signed 128-bit integer whose two's complement field holds `v`.
pub open spec fn as_i128(v: nat) -> i128 {
    sign_extend(v as int, 0x1_0000_0000_0000_0000_0000_0000_0000_0000int) as i128
}

/// The position that a packed 64-bit integer carries.
pub open spec fn position_of(data: nat) -> Position {
    Position {
        x: unpack_x(data as int) as i32,
        y: unpack_y(data as int) as i16,
        z: unpack_z(data as int) as i32,
    }
}

/// The same outcome with its value turned into another by `f`.
pub open spec fn map_value<A, B>(r: Result<(nat, A), Fault>, f: spec_fn(A) -> B) -> Result<
    (nat, B),
    Fault,
> {
    match r {
        Ok((n, v)) => Ok((n, f(v))),
        Err(fault) => Err(fault),
    }
}

/// The outcome of a sequence of values: their views and the position behind
/// the last of them, or the error and the position at which the cursor is
/// left.
pub type Outcomes = Result<(Seq<ValueView>, nat), (Error, nat)>;

/// What decoding a value of `shape` at byte `at` of `bytes` gives.
pub open spec fn decode_at(shape: Shape, bytes: Seq<u8>, at: nat) -> Outcome
    decreases shape, 0nat,
{
    let input = bytes.skip(at as int);
    match shape {
        Shape::Bool => lift(parse_bool(input), at, |v: bool| ValueView::Bool(v)),
        Shape::I8 => lift(parse_fixed(input, 1), at, |v: nat| ValueView::I8(as_i8(v))),
        Shape::I16 => lift(parse_fixed(input, 2), at, |v: nat| ValueView::I16(as_i16(v))),
        Shape::I32 => lift(parse_fixed(input, 4), at, |v: nat| ValueView::I32(as_i32(v))),
        Shape::I64 => lift(parse_fixed(input, 8), at, |v: nat| ValueView::I64(as_i64(v))),
        Shape::I128 => lift(parse_fixed(input, 16), at, |v: nat| ValueView::I128(as_i128(v))),
        Shape::U8 => lift(parse_fixed(input, 1), at, |v: nat| ValueView::U8(v as u8)),
        Shape::U16 => lift(parse_fixed(input, 2), at, |v: nat| ValueView::U16(v as u16)),
        Shape::U32 => lift(parse_fixed(input, 4), at, |v: nat| ValueView::U32(v as u32)),
        Shape::U64 => lift(parse_fixed(input, 8), at, |v: nat| ValueView::U64(v as u64)),
        Shape::U128 => lift(parse_fixed(input, 16), at, |v: nat| ValueView::U128(v as u128)),
        Shape::F32 => lift(parse_fixed(input, 4), at, |v: nat| ValueView::F32(v as u32)),
        Shape::F64 => lift(parse_fixed(input, 8), at, |v: nat| ValueView::F64(v as u64)),
        Shape::Char => Err((Error::De(DeError::InvalidType("char")), at)),
        Shape::Str => lift(
            parse_string(input),
            at,
            |b: Seq<u8>| ValueView::Str(decode_utf8(b)),
        ),
        Shape::Bytes => Ok((ValueView::Bytes(input), bytes.len())),
        Shape::Unit => Ok((ValueView::Unit, at)),
        Shape::VarInt => lift(
            <VarInt as Parse<i32>>::spec_parse(input),
            at,
            |v: i32| ValueView::VarInt(v),
        ),
        Shape::VarLong => lift(
            <VarLong as Parse<i64>>::spec_parse(input),
            at,
            |v: i64| ValueView::VarLong(v),
        ),
        Shape::Position => lift(
            parse_fixed(input, 8),
            at,
            |v: nat| ValueView::Position(position_of(v)),
        ),
        Shape::Option(inner) => match parse_bool(input) {
            Ok((n, present)) => if present {
                match decode_at(*inner, bytes, at + n) {
                    Ok((v, end)) => Ok((ValueView::Option(Some(Box::new(v))), end)),
                    Err(failure) => Err(failure),
                }
            } else {
                Ok((ValueView::Option(None), at + n))
            },
            Err(fault) => Err((located(fault, at), at)),
        },
        Shape::SeqDynamic(element) => match parse_length(input) {
            Ok((n, count)) => match decode_repeat(*element, bytes, at + n, count) {
                Ok((items, end)) => Ok((ValueView::SeqDynamic(items), end)),
                Err(failure) => Err(failure),
            },
            Err(fault) => Err((located(fault, at), at)),
        },
        Shape::SeqFixed(shapes) => match decode_each(shapes@, bytes, at) {
            Ok((items, end)) => Ok((ValueView::SeqFixed(items), end)),
            Err(failure) => Err(failure),
        },
        Shape::Struct { name, fields } => match decode_fields(fields@, bytes, at) {
            Ok((items, end)) => Ok((ValueView::Struct(items), end)),
            Err(failure) => Err(failure),
        },
        Shape::Enum { name, variants } => match parse_fixed(input, 1) {
            Ok((n, index)) => if index >= variants@.len() {
                Err((Error::De(DeError::UnknownVariant(index as u8)), at + n))
            } else {
                match decode_each(variants@[index as int].fields@, bytes, at + n) {
                    Ok((items, end)) => Ok(
                        (ValueView::Enum { variant: index as u32, fields: items }, end),
                    ),
                    Err(failure) => Err(failure),
                }
            },
            Err(fault) => Err((located(fault, at), at)),
        },
        Shape::Mapping => Err((Error::De(DeError::InvalidType("map")), at)),
        Shape::Any => Err((Error::De(DeError::InvalidType("any")), at)),
    }
}

/// What decoding `count` values of the shape `element`, one after the
/// other, gives.
pub open spec fn decode_repeat(element: Shape, bytes: Seq<u8>, at: nat, count: nat) -> Outcomes
    decreases element, count,
{
    if count == 0 {
        Ok((Seq::empty(), at))
    } else {
        match decode_repeat(element, bytes, at, (count - 1) as nat) {
            Ok((items, next)) => match decode_at(element, bytes, next) {
                Ok((v, end)) => Ok((items.push(v), end)),
                Err(failure) => Err(failure),
            },
            Err(failure) => Err(failure),
        }
    }
}

/// What decoding one value of each of `shapes`, one after the other,
/// gives.
pub open spec fn decode_each(shapes: Seq<Shape>, bytes: Seq<u8>, at: nat) -> Outcomes
    decreases shapes, 0nat,
{
    if shapes.len() == 0 {
        Ok((Seq::empty(), at))
    } else {
        match decode_each(shapes.drop_last(), bytes, at) {
            Ok((items, next)) => match decode_at(shapes.last(), bytes, next) {
                Ok((v, end)) => Ok((items.push(v), end)),
                Err(failure) => Err(failure),
            },
            Err(failure) => Err(failure),
        }
    }
}

/// What decoding one value for each of `fields`, one after the other,
/// gives.
pub open spec fn decode_fields(fields: Seq<Field>, bytes: Seq<u8>, at: nat) -> Outcomes
    decreases fields, 0nat,
{
    if fields.len() == 0 {
        Ok((Seq::empty(), at))
    } else {
        match decode_fields(fields.drop_last(), bytes, at) {
            Ok((items, next)) => match decode_at(fields.last().shape, bytes, next) {
                Ok((v, end)) => Ok((items.push(v), end)),
                Err(failure) => Err(failure),
            },
            Err(failure) => Err(failure),
        }
    }
}

/// Where a value among the first `n` cannot be decoded, none of the longer
/// runs can, for the same reason.
pub proof fn lemma_decode_repeat_fails(element: Shape, bytes: Seq<u8>, at: nat, n: nat, count: nat)
    requires
        n <= count,
        decode_repeat(element, bytes, at, n) is Err,
    ensures
        decode_repeat(element, bytes, at, count) == decode_repeat(element, bytes, at, n),
    decreases count - n,
{
    if n < count {
        lemma_decode_repeat_fails(element, bytes, at, n + 1, count);
    }
}

/// Where one of the first `n` shapes cannot be decoded, the whole run
/// cannot, for the same reason.
pub proof fn lemma_decode_each_fails(shapes: Seq<Shape>, bytes: Seq<u8>, at: nat, n: int)
    requires
        0 <= n <= shapes.len(),
        decode_each(shapes.take(n), bytes, at) is Err,
    ensures
        decode_each(shapes, bytes, at) == decode_each(shapes.take(n), bytes, at),
    decreases shapes.len() - n,
{
    if n < shapes.len() {
        assert(shapes.take(n + 1).drop_last() =~= shapes.take(n));
        lemma_decode_each_fails(shapes, bytes, at, n + 1);
    } else {
        assert(shapes.take(n) =~= shapes);
    }
}

/// Where one of the first `n` fields cannot be decoded, the whole struct
/// cannot, for the same reason.
pub proof fn lemma_decode_fields_fails(fields: Seq<Field>, bytes: Seq<u8>, at: nat, n: int)
    requires
        0 <= n <= fields.len(),
        decode_fields(fields.take(n), bytes, at) is Err,
    ensures
        decode_fields(fields, bytes, at) == decode_fields(fields.take(n), bytes, at),
    decreases fields.len() - n,
{
    if n < fields.len() {
        assert(fields.take(n + 1).drop_last() =~= fields.take(n));
        lemma_decode_fields_fails(fields, bytes, at, n + 1);
    } else {
        assert(fields.take(n) =~= fields);
    }
}

/// A cursor over a buffer: the buffer that the decode started from and the
/// part of it that has not been read yet.
pub struct Deserializer<'de> {
    original_input: &'de [u8],
    input: &'de [u8],
}

/// The cursor `after` is what a primitive that was expected to give
/// `expected` leaves of the cursor `before`, and `r` is what it returned: on
/// success the value, with the cursor behind it; on failure the fault,
/// located in the buffer, with the cursor where it was.
pub open spec fn stepped<T>(
    before: Deserializer,
    after: Deserializer,
    r: Result<T, Error>,
    expected: Result<(nat, T), Fault>,
) -> bool {
    &&& after.wf()
    &&& after.bytes() == before.bytes()
    &&& match expected {
        Ok((n, v)) => r == Ok::<T, Error>(v) && after.position() == before.position() + n,
        Err(fault) => r == Err::<T, Error>(located(fault, before.position()))
            && after.position() == before.position(),
    }
}

impl<'de> Deserializer<'de> {
    /// What is left to read is the end of the buffer.
    pub closed spec fn wf(&self) -> bool {
        &&& self.input@.len() <= self.original_input@.len()
        &&& self.input@ == self.original_input@.skip(
            self.original_input@.len() - self.input@.len(),
        )
    }

    /// The buffer that the decode started from.
    pub closed spec fn bytes(&self) -> Seq<u8> {
        self.original_input@
    }

    /// The number of bytes read so far.
    pub closed spec fn position(&self) -> nat {
        (self.original_input@.len() - self.input@.len()) as nat
    }

    /// The bytes that have not been read yet.
    pub open spec fn rest(&self) -> Seq<u8> {
        self.bytes().skip(self.position() as int)
    }

    /// A cursor at the start of `input`.
    pub fn new(input: &'de [u8]) -> (d: Deserializer<'de>)
        ensures
            d.wf(),
            d.bytes() == input@,
            d.position() == 0,
    {
        assert(input@.skip(0) =~= input@);
        Deserializer { original_input: input, input }
    }

    /// The number of bytes read so far.
    pub fn len_read(&self) -> (n: usize)
        requires
            self.wf(),
        ensures
            n == self.position(),
    {
        self.original_input.len() - self.input.len()
    }

    /// The bytes that have not been read yet.
    pub fn remaining(&self) -> (rest: &'de [u8])
        requires
            self.wf(),
        ensures
            rest@ == self.rest(),
    {
        self.input
    }

    /// Moves the cursor behind a value that a primitive has read from the
    /// rest of the buffer, or turns the error of the primitive into the
    /// error of the decoder and leaves the cursor where it is.
    fn update<T>(&mut self, parsed: Result<(&'de [u8], T), MonError<'de>>) -> (r: Result<
        T,
        Error,
    >)
        requires
            old(self).wf(),
            exists|expected: Result<(nat, T), Fault>| #[trigger]
                agrees(old(self).rest(), parsed, expected),
        ensures
            forall|expected: Result<(nat, T), Fault>| #[trigger]
                agrees(old(self).rest(), parsed, expected) ==> stepped(
                    *old(self),
                    *final(self),
                    r,
                    expected,
                ),
    {
        let ghost at = self.position();
        let ghost bytes = self.bytes();
        let ghost witness = choose|expected: Result<(nat, T), Fault>| #[trigger]
            agrees(old(self).rest(), parsed, expected);
        match parsed {
            Ok((rest, value)) => {
                assert forall|expected: Result<(nat, T), Fault>| #[trigger]
                    agrees(old(self).rest(), parsed, expected) implies {
                    &&& rest@.len() <= bytes.len()
                    &&& rest@ == bytes.skip(bytes.len() - rest@.len())
                    &&& expected matches Ok((n, v))
                    &&& v == value
                    &&& bytes.len() - rest@.len() == at + n
                } by {
                    let n = expected->Ok_0.0;
                    assert(bytes.skip(at as int).skip(n as int) =~= bytes.skip((at + n) as int));
                }
                self.input = rest;
                Ok(value)
            },
            Err(e) => {
                proof {
                    let fault = witness->Err_0;
                    assert(e.input@.len() == bytes.len() - at - fault.start);
                    assert(e.rest@.len() == bytes.len() - at - fault.end);
                }
                let start = self.original_input.len() - e.input.len();
                let end = self.original_input.len() - e.rest.len();
                Err(Error::Parse(ParseFailure { kind: e.kind, start, end }))
            },
        }
    }
    /// Reads one byte.
    pub fn deserialize_u8(&mut self) -> (r: Result<u8, Error>)
        requires
            old(self).wf(),
        ensures
            stepped(
                *old(self),
                *final(self),
                r,
                map_value(parse_fixed(old(self).rest(), 1), |v: nat| v as u8),
            ),
    {
        let parsed = be_u8(self.input);
        proof {
            if self.input@.len() >= 1 {
                lemma_be_value_one(self.input@);
            }
            assert(self.input@ == self.rest());
            assert(agrees(
                self.rest(),
                parsed,
                map_value(parse_fixed(self.rest(), 1), |v: nat| v as u8),
            ));
        }
        self.update(parsed)
    }

    /// Reads an unsigned 16-bit integer.
    pub fn deserialize_u16(&mut self) -> (r: Result<u16, Error>)
        requires
            old(self).wf(),
        ensures
            stepped(
                *old(self),
                *final(self),
                r,
                map_value(parse_fixed(old(self).rest(), 2), |v: nat| v as u16),
            ),
    {
        let parsed = be_u16(self.input);
        proof {
            assert(self.input@ == self.rest());
            assert(agrees(
                self.rest(),
                parsed,
                map_value(parse_fixed(self.rest(), 2), |v: nat| v as u16),
            ));
        }
        self.update(parsed)
    }

    /// Reads an unsigned 32-bit integer.
    pub fn deserialize_u32(&mut self) -> (r: Result<u32, Error>)
        requires
            old(self).wf(),
        ensures
            stepped(
                *old(self),
                *final(self),
                r,
                map_value(parse_fixed(old(self).rest(), 4), |v: nat| v as u32),
            ),
    {
        let parsed = be_u32(self.input);
        proof {
            assert(self.input@ == self.rest());
            assert(agrees(
                self.rest(),
                parsed,
                map_value(parse_fixed(self.rest(), 4), |v: nat| v as u32),
            ));
        }
        self.update(parsed)
    }

    /// Reads an unsigned 64-bit integer.
    pub fn deserialize_u64(&mut self) -> (r: Result<u64, Error>)
        requires
            old(self).wf(),
        ensures
            stepped(
                *old(self),
                *final(self),
                r,
                map_value(parse_fixed(old(self).rest(), 8), |v: nat| v as u64),
            ),
    {
        let parsed = be_u64(self.input);
        proof {
            assert(self.input@ == self.rest());
            assert(agrees(
                self.rest(),
                parsed,
                map_value(parse_fixed(self.rest(), 8), |v: nat| v as u64),
            ));
        }
        self.update(parsed)
    }

    /// Reads an unsigned 128-bit integer.
    pub fn deserialize_u128(&mut self) -> (r: Result<u128, Error>)
        requires
            old(self).wf(),
        ensures
            stepped(
                *old(self),
                *final(self),
                r,
                map_value(parse_fixed(old(self).rest(), 16), |v: nat| v as u128),
            ),
    {
        let parsed = be_u128(self.input);
        proof {
            assert(self.input@ == self.rest());
            assert(agrees(
                self.rest(),
                parsed,
                map_value(parse_fixed(self.rest(), 16), |v: nat| v as u128),
            ));
        }
        self.update(parsed)
    }

    /// Reads a signed byte.
    pub fn deserialize_i8(&mut self) -> (r: Result<i8, Error>)
        requires
            old(self).wf(),
        ensures
            stepped(
                *old(self),
                *final(self),
                r,
                map_value(parse_fixed(old(self).rest(), 1), |v: nat| as_i8(v)),
            ),
    {
        let parsed = be_i8(self.input);
        proof {
            if self.input@.len() >= 1 {
                lemma_be_value_one(self.input@);
            }
            assert(self.input@ == self.rest());
            assert(agrees(
                self.rest(),
                parsed,
                map_value(parse_fixed(self.rest(), 1), |v: nat| as_i8(v)),
            ));
        }
        self.update(parsed)
    }

    /// Reads a signed 16-bit integer.
    pub fn deserialize_i16(&mut self) -> (r: Result<i16, Error>)
        requires
            old(self).wf(),
        ensures
            stepped(
                *old(self),
                *final(self),
                r,
                map_value(parse_fixed(old(self).rest(), 2), |v: nat| as_i16(v)),
            ),
    {
        let parsed = be_i16(self.input);
        proof {
            assert(self.input@ == self.rest());
            assert(agrees(
                self.rest(),
                parsed,
                map_value(parse_fixed(self.rest(), 2), |v: nat| as_i16(v)),
            ));
        }
        self.update(parsed)
    }

    /// Reads a signed 32-bit integer.
    pub fn deserialize_i32(&mut self) -> (r: Result<i32, Error>)
        requires
            old(self).wf(),
        ensures
            stepped(
                *old(self),
                *final(self),
                r,
                map_value(parse_fixed(old(self).rest(), 4), |v: nat| as_i32(v)),
            ),
    {
        let parsed = be_i32(self.input);
        proof {
            assert(self.input@ == self.rest());
            assert(agrees(
                self.rest(),
                parsed,
                map_value(parse_fixed(self.rest(), 4), |v: nat| as_i32(v)),
            ));
        }
        self.update(parsed)
    }

    /// Reads a signed 64-bit integer.
    pub fn deserialize_i64(&mut self) -> (r: Result<i64, Error>)
        requires
            old(self).wf(),
        ensures
            stepped(
                *old(self),
                *final(self),
                r,
                map_value(parse_fixed(old(self).rest(), 8), |v: nat| as_i64(v)),
            ),
    {
        let parsed = be_i64(self.input);
        proof {
            assert(self.input@ == self.rest());
            assert(agrees(
                self.rest(),
                parsed,
                map_value(parse_fixed(self.rest(), 8), |v: nat| as_i64(v)),
            ));
        }
        self.update(parsed)
    }

    /// Reads a signed 128-bit integer.
    pub fn deserialize_i128(&mut self) -> (r: Result<i128, Error>)
        requires
            old(self).wf(),
        ensures
            stepped(
                *old(self),
                *final(self),
                r,
                map_value(parse_fixed(old(self).rest(), 16), |v: nat| as_i128(v)),
            ),
    {
        let parsed = be_i128(self.input);
        proof {
            assert(self.input@ == self.rest());
            assert(agrees(
                self.rest(),
                parsed,
                map_value(parse_fixed(self.rest(), 16), |v: nat| as_i128(v)),
            ));
        }
        self.update(parsed)
    }

    /// Reads the bit pattern of a 32-bit IEEE-754 number.
    pub fn deserialize_f32(&mut self) -> (r: Result<u32, Error>)
        requires
            old(self).wf(),
        ensures
            stepped(
                *old(self),
                *final(self),
                r,
                map_value(parse_fixed(old(self).rest(), 4), |v: nat| v as u32),
            ),
    {
        self.deserialize_u32()
    }

    /// Reads the bit pattern of a 64-bit IEEE-754 number.
    pub fn deserialize_f64(&mut self) -> (r: Result<u64, Error>)
        requires
            old(self).wf(),
        ensures
            stepped(
                *old(self),
                *final(self),
                r,
                map_value(parse_fixed(old(self).rest(), 8), |v: nat| v as u64),
            ),
    {
        self.deserialize_u64()
    }

    /// Reads a boolean: one byte, `0x00` or `0x01`.
    pub fn deserialize_bool(&mut self) -> (r: Result<bool, Error>)
        requires
            old(self).wf(),
        ensures
            stepped(*old(self), *final(self), r, parse_bool(old(self).rest())),
    {
        let parsed = <bool as Parse<bool>>::parse(self.input);
        assert(self.input@ == self.rest());
        assert(agrees(self.rest(), parsed, parse_bool(self.rest())));
        self.update(parsed)
    }

    /// Reads the tag of an optional value: a boolean that says whether the
    /// value follows.
    pub fn deserialize_option(&mut self) -> (r: Result<bool, Error>)
        requires
            old(self).wf(),
        ensures
            stepped(*old(self), *final(self), r, parse_bool(old(self).rest())),
    {
        self.deserialize_bool()
    }

    /// Reads a 32-bit variable-length integer.
    pub fn deserialize_varint(&mut self) -> (r: Result<i32, Error>)
        requires
            old(self).wf(),
        ensures
            stepped(
                *old(self),
                *final(self),
                r,
                <VarInt as Parse<i32>>::spec_parse(old(self).rest()),
            ),
    {
        let parsed = <VarInt as Parse<i32>>::parse(self.input);
        assert(self.input@ == self.rest());
        assert(agrees(self.rest(), parsed, <VarInt as Parse<i32>>::spec_parse(self.rest())));
        self.update(parsed)
    }

    /// Reads a 64-bit variable-length integer.
    pub fn deserialize_varlong(&mut self) -> (r: Result<i64, Error>)
        requires
            old(self).wf(),
        ensures
            stepped(
                *old(self),
                *final(self),
                r,
                <VarLong as Parse<i64>>::spec_parse(old(self).rest()),
            ),
    {
        let parsed = <VarLong as Parse<i64>>::parse(self.input);
        assert(self.input@ == self.rest());
        assert(agrees(self.rest(), parsed, <VarLong as Parse<i64>>::spec_parse(self.rest())));
        self.update(parsed)
    }

    /// Reads the number of elements of a sequence whose length travels with
    /// it: a variable-length integer that must not be negative.
    pub fn deserialize_seq(&mut self) -> (r: Result<usize, Error>)
        requires
            old(self).wf(),
        ensures
            stepped(
                *old(self),
                *final(self),
                r,
                map_value(parse_length(old(self).rest()), |v: nat| v as usize),
            ),
    {
        let parsed = VarInt::parse_as_usize(self.input);
        proof {
            assert(self.input@ == self.rest());
            assert(agrees(
                self.rest(),
                parsed,
                map_value(parse_length(self.rest()), |v: nat| v as usize),
            ));
        }
        self.update(parsed)
    }

    /// Reads the byte that picks the variant of an enum.
    pub fn deserialize_identifier(&mut self) -> (r: Result<u8, Error>)
        requires
            old(self).wf(),
        ensures
            stepped(
                *old(self),
                *final(self),
                r,
                map_value(parse_fixed(old(self).rest(), 1), |v: nat| v as u8),
            ),
    {
        self.deserialize_u8()
    }

    /// Reads a packed block position: one 64-bit integer.
    pub fn deserialize_position(&mut self) -> (r: Result<Position, Error>)
        requires
            old(self).wf(),
        ensures
            stepped(
                *old(self),
                *final(self),
                r,
                map_value(parse_fixed(old(self).rest(), 8), |v: nat| position_of(v)),
            ),
    {
        proof {
            if self.rest().len() >= 8 {
                lemma_be_value_bound(self.rest().take(8));
                lemma_pow256_widths();
            }
        }
        match self.deserialize_u64() {
            Ok(data) => Ok(Position::unpack(data)),
            Err(e) => Err(e),
        }
    }

    /// Reads nothing: a unit value takes no bytes.
    pub fn deserialize_unit(&mut self) -> (r: Result<(), Error>)
        ensures
            r is Ok,
            *final(self) == *old(self),
    {
        Ok(())
    }

    /// Refuses a character: the wire format has none.
    pub fn deserialize_char(&mut self) -> (r: Result<char, Error>)
        ensures
            r == Err::<char, Error>(Error::De(DeError::InvalidType("char"))),
            *final(self) == *old(self),
    {
        Err(Error::De(DeError::InvalidType("char")))
    }

    /// Refuses a map: the wire format has none.
    pub fn deserialize_map(&mut self) -> (r: Result<(), Error>)
        ensures
            r == Err::<(), Error>(Error::De(DeError::InvalidType("map"))),
            *final(self) == *old(self),
    {
        Err(Error::De(DeError::InvalidType("map")))
    }

    /// Refuses a value that describes itself: the wire format has none.
    pub fn deserialize_any(&mut self) -> (r: Result<(), Error>)
        ensures
            r == Err::<(), Error>(Error::De(DeError::InvalidType("any"))),
            *final(self) == *old(self),
    {
        Err(Error::De(DeError::InvalidType("any")))
    }
    /// Reads a string without copying it: a length, then that many bytes
    /// of UTF-8, which the result borrows from the buffer.
    pub fn deserialize_str(&mut self) -> (r: Result<&'de str, Error>)
        requires
            old(self).wf(),
        ensures
            final(self).wf(),
            final(self).bytes() == old(self).bytes(),
            match parse_string(old(self).rest()) {
                Ok((n, bytes)) => {
                    &&& r matches Ok(text)
                    &&& text.spec_bytes() == bytes
                    &&& final(self).position() == old(self).position() + n
                },
                Err(fault) => {
                    &&& r == Err::<&str, Error>(located(fault, old(self).position()))
                    &&& final(self).position() == old(self).position()
                },
            },
    {
        let parsed = <String as ParseB<str>>::parse(self.input);
        let ghost expected: Result<(nat, &str), Fault> = match parsed {
            Ok((rest, text)) => Ok((parse_string(self.input@)->Ok_0.0, text)),
            Err(e) => Err(parse_string(self.input@)->Err_0),
        };
        assert(self.input@ == self.rest());
        assert(agrees(self.rest(), parsed, expected));
        self.update(parsed)
    }

    /// Reads a string into a buffer of its own.
    pub fn deserialize_string(&mut self) -> (r: Result<String, Error>)
        requires
            old(self).wf(),
        ensures
            final(self).wf(),
            final(self).bytes() == old(self).bytes(),
            match parse_string(old(self).rest()) {
                Ok((n, bytes)) => {
                    &&& r matches Ok(text)
                    &&& text@ == decode_utf8(bytes)
                    &&& final(self).position() == old(self).position() + n
                },
                Err(fault) => {
                    &&& r == Err::<String, Error>(located(fault, old(self).position()))
                    &&& final(self).position() == old(self).position()
                },
            },
    {
        match self.deserialize_str() {
            Ok(text) => {
                proof {
                    encode_utf8_decode_utf8(text@);
                }
                Ok(text.to_owned())
            },
            Err(e) => Err(e),
        }
    }

    /// Reads a byte array without a length of its own: all the bytes that
    /// are left. The result borrows them from the buffer.
    pub fn deserialize_bytes(&mut self) -> (r: Result<&'de [u8], Error>)
        requires
            old(self).wf(),
        ensures
            final(self).wf(),
            final(self).bytes() == old(self).bytes(),
            final(self).position() == old(self).bytes().len(),
            r matches Ok(bytes) && bytes@ == old(self).rest(),
    {
        let (rest, all) = rest_bytes(self.input);
        let parsed: Result<(&'de [u8], &'de [u8]), MonError<'de>> = Ok((rest, all));
        let ghost expected: Result<(nat, &[u8]), Fault> = Ok((self.input@.len(), all));
        assert(self.input@.skip(self.input@.len() as int) =~= Seq::<u8>::empty());
        assert(self.input@ == self.rest());
        assert(agrees(self.rest(), parsed, expected));
        self.update(parsed)
    }

    /// Reads all the bytes that are left into a buffer of their own.
    pub fn deserialize_byte_buf(&mut self) -> (r: Result<Vec<u8>, Error>)
        requires
            old(self).wf(),
        ensures
            final(self).wf(),
            final(self).bytes() == old(self).bytes(),
            final(self).position() == old(self).bytes().len(),
            r matches Ok(bytes) && bytes@ == old(self).rest(),
    {
        match self.deserialize_bytes() {
            Ok(bytes) => {
                let mut owned: Vec<u8> = Vec::new();
                owned.extend_from_slice(bytes);
                assert(owned@ =~= bytes@);
                Ok(owned)
            },
            Err(e) => Err(e),
        }
    }
    /// Reads `count` values of the shape `element`, one after the other.
    pub fn deserialize_repeat(&mut self, element: &Shape, count: usize) -> (r: Result<
        Vec<Value>,
        Error,
    >)
        requires
            old(self).wf(),
        ensures
            final(self).wf(),
            final(self).bytes() == old(self).bytes(),
            match decode_repeat(*element, old(self).bytes(), old(self).position(), count as nat) {
                Ok((views, end)) => {
                    &&& r matches Ok(items)
                    &&& view_all(items@) == views
                    &&& final(self).position() == end
                },
                Err((e, at)) => r == Err::<Vec<Value>, Error>(e) && final(self).position() == at,
            },
        decreases element, 1nat,
    {
        let ghost bytes = self.bytes();
        let ghost start = self.position();
        let mut items: Vec<Value> = Vec::new();
        let mut i: usize = 0;
        while i < count
            invariant
                i <= count,
                self.wf(),
                self.bytes() == bytes,
                bytes == old(self).bytes(),
                start == old(self).position(),
                decode_repeat(*element, bytes, start, i as nat) == Ok::<
                    (Seq<ValueView>, nat),
                    (Error, nat),
                >((view_all(items@), self.position())),
            decreases count - i,
        {
            let ghost before = items@;
            match self.deserialize(element) {
                Ok(value) => {
                    items.push(value);
                    assert(items@.drop_last() =~= before);
                },
                Err(e) => {
                    proof {
                        lemma_decode_repeat_fails(
                            *element,
                            bytes,
                            start,
                            (i + 1) as nat,
                            count as nat,
                        );
                    }
                    return Err(e);
                },
            }
            i = i + 1;
        }
        Ok(items)
    }

    /// Reads one value of each of `shapes`, one after the other.
    pub fn deserialize_each(&mut self, shapes: &Vec<Shape>) -> (r: Result<Vec<Value>, Error>)
        requires
            old(self).wf(),
        ensures
            final(self).wf(),
            final(self).bytes() == old(self).bytes(),
            match decode_each(shapes@, old(self).bytes(), old(self).position()) {
                Ok((views, end)) => {
                    &&& r matches Ok(items)
                    &&& view_all(items@) == views
                    &&& final(self).position() == end
                },
                Err((e, at)) => r == Err::<Vec<Value>, Error>(e) && final(self).position() == at,
            },
        decreases shapes@, 0nat,
    {
        let ghost bytes = self.bytes();
        let ghost start = self.position();
        let mut items: Vec<Value> = Vec::new();
        let mut i: usize = 0;
        assert(shapes@.take(0) =~= Seq::<Shape>::empty());
        while i < shapes.len()
            invariant
                i <= shapes.len(),
                self.wf(),
                self.bytes() == bytes,
                bytes == old(self).bytes(),
                start == old(self).position(),
                decode_each(shapes@.take(i as int), bytes, start) == Ok::<
                    (Seq<ValueView>, nat),
                    (Error, nat),
                >((view_all(items@), self.position())),
            decreases shapes.len() - i,
        {
            let ghost before = items@;
            proof {
                assert(shapes@.take(i as int + 1).drop_last() =~= shapes@.take(i as int));
                assert(shapes@.take(i as int + 1).last() == shapes@[i as int]);
            }
            match self.deserialize(&shapes[i]) {
                Ok(value) => {
                    items.push(value);
                    assert(items@.drop_last() =~= before);
                },
                Err(e) => {
                    proof {
                        lemma_decode_each_fails(shapes@, bytes, start, i as int + 1);
                    }
                    return Err(e);
                },
            }
            i = i + 1;
        }
        assert(shapes@.take(i as int) =~= shapes@);
        Ok(items)
    }

    /// Reads one value for each of `fields`, in order of declaration.
    pub fn deserialize_fields(&mut self, fields: &Vec<Field>) -> (r: Result<Vec<Value>, Error>)
        requires
            old(self).wf(),
        ensures
            final(self).wf(),
            final(self).bytes() == old(self).bytes(),
            match decode_fields(fields@, old(self).bytes(), old(self).position()) {
                Ok((views, end)) => {
                    &&& r matches Ok(items)
                    &&& view_all(items@) == views
                    &&& final(self).position() == end
                },
                Err((e, at)) => r == Err::<Vec<Value>, Error>(e) && final(self).position() == at,
            },
        decreases fields@, 0nat,
    {
        let ghost bytes = self.bytes();
        let ghost start = self.position();
        let mut items: Vec<Value> = Vec::new();
        let mut i: usize = 0;
        assert(fields@.take(0) =~= Seq::<Field>::empty());
        while i < fields.len()
            invariant
                i <= fields.len(),
                self.wf(),
                self.bytes() == bytes,
                bytes == old(self).bytes(),
                start == old(self).position(),
                decode_fields(fields@.take(i as int), bytes, start) == Ok::<
                    (Seq<ValueView>, nat),
                    (Error, nat),
                >((view_all(items@), self.position())),
            decreases fields.len() - i,
        {
            let ghost before = items@;
            proof {
                assert(fields@.take(i as int + 1).drop_last() =~= fields@.take(i as int));
                assert(fields@.take(i as int + 1).last() == fields@[i as int]);
            }
            match self.deserialize(&fields[i].shape) {
                Ok(value) => {
                    items.push(value);
                    assert(items@.drop_last() =~= before);
                },
                Err(e) => {
                    proof {
                        lemma_decode_fields_fails(fields@, bytes, start, i as int + 1);
                    }
                    return Err(e);
                },
            }
            i = i + 1;
        }
        assert(fields@.take(i as int) =~= fields@);
        Ok(items)
    }

    /// Reads a value of any shape.
    pub fn deserialize(&mut self, shape: &Shape) -> (r: Result<Value, Error>)
        requires
            old(self).wf(),
        ensures
            final(self).wf(),
            final(self).bytes() == old(self).bytes(),
            match decode_at(*shape, old(self).bytes(), old(self).position()) {
                Ok((view, end)) => {
                    &&& r matches Ok(value)
                    &&& value@ == view
                    &&& final(self).position() == end
                },
                Err((e, at)) => r == Err::<Value, Error>(e) && final(self).position() == at,
            },
        decreases shape, 0nat,
    {
        match shape {
            Shape::Bool => match self.deserialize_bool() {
                Ok(v) => Ok(Value::Bool(v)),
                Err(e) => Err(e),
            },
            Shape::I8 => match self.deserialize_i8() {
                Ok(v) => Ok(Value::I8(v)),
                Err(e) => Err(e),
            },
            Shape::I16 => match self.deserialize_i16() {
                Ok(v) => Ok(Value::I16(v)),
                Err(e) => Err(e),
            },
            Shape::I32 => match self.deserialize_i32() {
                Ok(v) => Ok(Value::I32(v)),
                Err(e) => Err(e),
            },
            Shape::I64 => match self.deserialize_i64() {
                Ok(v) => Ok(Value::I64(v)),
                Err(e) => Err(e),
            },
            Shape::I128 => match self.deserialize_i128() {
                Ok(v) => Ok(Value::I128(v)),
                Err(e) => Err(e),
            },
            Shape::U8 => match self.deserialize_u8() {
                Ok(v) => Ok(Value::U8(v)),
                Err(e) => Err(e),
            },
            Shape::U16 => match self.deserialize_u16() {
                Ok(v) => Ok(Value::U16(v)),
                Err(e) => Err(e),
            },
            Shape::U32 => match self.deserialize_u32() {
                Ok(v) => Ok(Value::U32(v)),
                Err(e) => Err(e),
            },
            Shape::U64 => match self.deserialize_u64() {
                Ok(v) => Ok(Value::U64(v)),
                Err(e) => Err(e),
            },
            Shape::U128 => match self.deserialize_u128() {
                Ok(v) => Ok(Value::U128(v)),
                Err(e) => Err(e),
            },
            Shape::F32 => match self.deserialize_f32() {
                Ok(v) => Ok(Value::F32(v)),
                Err(e) => Err(e),
            },
            Shape::F64 => match self.deserialize_f64() {
                Ok(v) => Ok(Value::F64(v)),
                Err(e) => Err(e),
            },
            Shape::VarInt => match self.deserialize_varint() {
                Ok(v) => Ok(Value::VarInt(v)),
                Err(e) => Err(e),
            },
            Shape::VarLong => match self.deserialize_varlong() {
                Ok(v) => Ok(Value::VarLong(v)),
                Err(e) => Err(e),
            },
            Shape::Position => match self.deserialize_position() {
                Ok(v) => Ok(Value::Position(v)),
                Err(e) => Err(e),
            },
            Shape::Char => match self.deserialize_char() {
                Ok(v) => Ok(Value::Char(v)),
                Err(e) => Err(e),
            },
            Shape::Str => match self.deserialize_string() {
                Ok(v) => Ok(Value::Str(v)),
                Err(e) => Err(e),
            },
            Shape::Bytes => match self.deserialize_byte_buf() {
                Ok(v) => Ok(Value::Bytes(v)),
                Err(e) => Err(e),
            },
            Shape::Unit => Ok(Value::Unit),
            Shape::Option(inner) => match self.deserialize_option() {
                Ok(true) => match self.deserialize(inner) {
                    Ok(v) => Ok(Value::Option(Some(Box::new(v)))),
                    Err(e) => Err(e),
                },
                Ok(false) => Ok(Value::Option(None)),
                Err(e) => Err(e),
            },
            Shape::SeqDynamic(element) => match self.deserialize_seq() {
                Ok(count) => match self.deserialize_repeat(element, count) {
                    Ok(items) => Ok(Value::SeqDynamic(items)),
                    Err(e) => Err(e),
                },
                Err(e) => Err(e),
            },
            Shape::SeqFixed(shapes) => match self.deserialize_each(shapes) {
                Ok(items) => Ok(Value::SeqFixed(items)),
                Err(e) => Err(e),
            },
            Shape::Struct { name, fields } => match self.deserialize_fields(fields) {
                Ok(items) => Ok(Value::Struct(items)),
                Err(e) => Err(e),
            },
            Shape::Enum { name, variants } => match self.deserialize_identifier() {
                Ok(index) => {
                    proof {
                        lemma_be_value_bound(old(self).rest().take(1));
                        lemma_pow256_widths();
                    }
                    if index as usize >= variants.len() {
                        return Err(Error::De(DeError::UnknownVariant(index)));
                    }
                    match self.deserialize_each(&variants[index as usize].fields) {
                        Ok(fields) => Ok(Value::Enum { variant: index as u32, fields }),
                        Err(e) => Err(e),
                    }
                },
                Err(e) => Err(e),
            },
            Shape::Mapping => Err(Error::De(DeError::InvalidType("map"))),
            Shape::Any => Err(Error::De(DeError::InvalidType("any"))),
        }
    }
}

/// Decodes a value of `shape` from the front of `input`. Bytes that are
/// left behind the value are no error.
pub fn from_bytes(shape: &Shape, input: &[u8]) -> (r: Result<Value, Error>)
    ensures
        match decode_at(*shape, input@, 0) {
            Ok((view, end)) => r matches Ok(value) && value@ == view,
            Err((e, at)) => r == Err::<Value, Error>(e),
        },
{
    let mut deserializer = Deserializer::new(input);
    deserializer.deserialize(shape)
}

/// Decodes a value of `shape` from the front of `input` and gives, with the
/// outcome, the bytes that were not read: those behind the value, or those
/// from the element that failed.
pub fn from_bytes_debug<'de>(shape: &Shape, input: &'de [u8]) -> (r: (
    &'de [u8],
    Result<Value, Error>,
))
    ensures
        match decode_at(*shape, input@, 0) {
            Ok((view, end)) => {
                &&& r.1 matches Ok(value)
                &&& value@ == view
                &&& r.0@ == input@.skip(end as int)
            },
            Err((e, at)) => r.1 == Err::<Value, Error>(e) && r.0@ == input@.skip(at as int),
        },
{
    let mut deserializer = Deserializer::new(input);
    let result = deserializer.deserialize(shape);
    (deserializer.remaining(), result)
}

} // verus!
