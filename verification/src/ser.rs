//! The encoder: an output accumulator with one method for each kind of
//! value, and a scratch accumulator for sequences, whose length is not known
//! until their elements have been written.

use crate::error::{Error, SerError};
use crate::mon::primitives::{be_value, pow256};
use crate::shape::{lemma_view_all, view_all, Value, ValueView};
use crate::types::{pack_spec, twos_complement, Position};
use crate::varnum::{encode_varnum, varint_bytes, varlong_bytes};
use vstd::prelude::*;
use vstd::utf8::encode_utf8;

verus! {

/// The `width` low bytes of `v`, most significant first.
pub open spec fn be_bytes(v: nat, width: nat) -> Seq<u8>
    decreases width,
{
    if width == 0 {
        Seq::empty()
    } else {
        be_bytes(v / 256, (width - 1) as nat).push((v % 256) as u8)
    }
}

/// The bytes of each value of a sequence, one after the other. No more than
/// `limit` values are taken: one more is out of range.
pub open spec fn encode_all(values: Seq<ValueView>, limit: nat) -> Result<Seq<u8>, Error>
    decreases values, 0nat,
{
    if values.len() == 0 {
        Ok(Seq::empty())
    } else {
        match encode_all(values.drop_last(), limit) {
            Ok(bytes) => if values.len() > limit {
                Err(Error::NumericRange)
            } else {
                match encode_spec(values.last()) {
                    Ok(more) => Ok(bytes + more),
                    Err(e) => Err(e),
                }
            },
            Err(e) => Err(e),
        }
    }
}

/// The wire form of a value, or the reason it has none.
pub open spec fn encode_spec(value: ValueView) -> Result<Seq<u8>, Error>
    decreases value, 1nat,
{
    match value {
        ValueView::Bool(v) => Ok(
            seq![if v {
                1u8
            } else {
                0u8
            }],
        ),
        ValueView::I8(v) => Ok(be_bytes(twos_complement(v as int, 0x100) as nat, 1)),
        ValueView::I16(v) => Ok(be_bytes(twos_complement(v as int, 0x1_0000) as nat, 2)),
        ValueView::I32(v) => Ok(be_bytes(twos_complement(v as int, 0x1_0000_0000) as nat, 4)),
        ValueView::I64(v) => Ok(
            be_bytes(twos_complement(v as int, 0x1_0000_0000_0000_0000) as nat, 8),
        ),
        ValueView::I128(v) => Ok(
            be_bytes(
                twos_complement(v as int, 0x1_0000_0000_0000_0000_0000_0000_0000_0000int) as nat,
                16,
            ),
        ),
        ValueView::U8(v) => Ok(be_bytes(v as nat, 1)),
        ValueView::U16(v) => Ok(be_bytes(v as nat, 2)),
        ValueView::U32(v) => Ok(be_bytes(v as nat, 4)),
        ValueView::U64(v) => Ok(be_bytes(v as nat, 8)),
        ValueView::U128(v) => Ok(be_bytes(v as nat, 16)),
        ValueView::F32(bits) => Ok(be_bytes(bits as nat, 4)),
        ValueView::F64(bits) => Ok(be_bytes(bits as nat, 8)),
        ValueView::Char(_) => Err(Error::Ser(SerError::InvalidType("char"))),
        ValueView::Str(chars) => encode_str(chars),
        ValueView::Bytes(bytes) => Ok(bytes),
        ValueView::Unit => Ok(Seq::empty()),
        ValueView::VarInt(v) => Ok(varint_bytes(v)),
        ValueView::VarLong(v) => Ok(varlong_bytes(v)),
        ValueView::Position(p) => Ok(
            be_bytes(pack_spec(p.x as int, p.y as int, p.z as int) as nat, 8),
        ),
        ValueView::Option(None) => Ok(seq![0u8]),
        ValueView::Option(Some(inner)) => match encode_spec(*inner) {
            Ok(bytes) => Ok(seq![1u8] + bytes),
            Err(e) => Err(e),
        },
        ValueView::SeqDynamic(items) => match encode_all(items, i32::MAX as nat) {
            Ok(bytes) => Ok(varint_bytes(items.len() as i32) + bytes),
            Err(e) => Err(e),
        },
        ValueView::SeqFixed(items) => encode_all(items, items.len()),
        ValueView::Struct(fields) => encode_all(fields, fields.len()),
        ValueView::Enum { variant, fields } => if variant >= 128 {
            Err(Error::Ser(SerError::VariantTooLarge(variant)))
        } else {
            match encode_all(fields, fields.len()) {
                Ok(bytes) => Ok(seq![variant as u8] + bytes),
                Err(e) => Err(e),
            }
        },
        ValueView::Mapping(_) => Err(Error::Ser(SerError::InvalidType("map"))),
    }
}

/// The wire form of a string: the length of its UTF-8 bytes as a
/// variable-length integer, then the bytes. A string of more bytes than a
/// 32-bit integer can count has none.
pub open spec fn encode_str(chars: Seq<char>) -> Result<Seq<u8>, Error> {
    let bytes = encode_utf8(chars);
    if bytes.len() > i32::MAX {
        Err(Error::NumericRange)
    } else {
        Ok(varint_bytes(bytes.len() as i32) + bytes)
    }
}

/// An output accumulator: the bytes written so far. It only grows.
pub struct Serializer {
    pub output: Vec<u8>,
}

impl Serializer {
    /// An accumulator that holds nothing yet.
    pub fn new() -> (s: Serializer)
        ensures
            s.output@ == Seq::<u8>::empty(),
    {
        Serializer { output: Vec::new() }
    }

    /// Appends the `width` low bytes of `v`, most significant first.
    fn write_be(&mut self, v: u128, width: usize)
        ensures
            final(self).output@ == old(self).output@ + be_bytes(v as nat, width as nat),
        decreases width,
    {
        if width > 0 {
            self.write_be(v / 256, width - 1);
            self.output.push((v % 256) as u8);
            assert(self.output@ =~= old(self).output@ + be_bytes(v as nat, width as nat));
        } else {
            assert(self.output@ =~= old(self).output@ + be_bytes(v as nat, width as nat));
        }
    }

    /// Writes a boolean as one byte.
    pub fn serialize_bool(&mut self, v: bool)
        ensures
            encode_spec(ValueView::Bool(v)) matches Ok(bytes) && final(self).output@ == old(
                self,
            ).output@ + bytes,
    {
        self.output.push(
            if v {
                1
            } else {
                0
            },
        );
        assert(self.output@ =~= old(self).output@ + seq![if v {
            1u8
        } else {
            0u8
        }]);
    }

    /// Writes a signed byte.
    pub fn serialize_i8(&mut self, v: i8)
        ensures
            encode_spec(ValueView::I8(v)) matches Ok(bytes) && final(self).output@ == old(
                self,
            ).output@ + bytes,
    {
        let bits: u128 = if v < 0 {
            (v as i16 + 0x100) as u128
        } else {
            v as u128
        };
        self.write_be(bits, 1)
    }

    /// Writes a signed 16-bit integer, big-endian.
    pub fn serialize_i16(&mut self, v: i16)
        ensures
            encode_spec(ValueView::I16(v)) matches Ok(bytes) && final(self).output@ == old(
                self,
            ).output@ + bytes,
    {
        let bits: u128 = if v < 0 {
            (v as i32 + 0x1_0000) as u128
        } else {
            v as u128
        };
        self.write_be(bits, 2)
    }

    /// Writes a signed 32-bit integer, big-endian.
    pub fn serialize_i32(&mut self, v: i32)
        ensures
            encode_spec(ValueView::I32(v)) matches Ok(bytes) && final(self).output@ == old(
                self,
            ).output@ + bytes,
    {
        let bits: u128 = if v < 0 {
            (v as i64 + 0x1_0000_0000) as u128
        } else {
            v as u128
        };
        self.write_be(bits, 4)
    }

    /// Writes a signed 64-bit integer, big-endian.
    pub fn serialize_i64(&mut self, v: i64)
        ensures
            encode_spec(ValueView::I64(v)) matches Ok(bytes) && final(self).output@ == old(
                self,
            ).output@ + bytes,
    {
        let bits: u128 = if v < 0 {
            (v as i128 + 0x1_0000_0000_0000_0000) as u128
        } else {
            v as u128
        };
        self.write_be(bits, 8)
    }

    /// Writes a signed 128-bit integer, big-endian.
    pub fn serialize_i128(&mut self, v: i128)
        ensures
            encode_spec(ValueView::I128(v)) matches Ok(bytes) && final(self).output@ == old(
                self,
            ).output@ + bytes,
    {
        let bits: u128 = if v < 0 {
            (v - i128::MIN) as u128 + 0x8000_0000_0000_0000_0000_0000_0000_0000
        } else {
            v as u128
        };
        self.write_be(bits, 16)
    }

    /// Writes one byte.
    pub fn serialize_u8(&mut self, v: u8)
        ensures
            encode_spec(ValueView::U8(v)) matches Ok(bytes) && final(self).output@ == old(
                self,
            ).output@ + bytes,
    {
        self.write_be(v as u128, 1)
    }

    /// Writes an unsigned 16-bit integer, big-endian.
    pub fn serialize_u16(&mut self, v: u16)
        ensures
            encode_spec(ValueView::U16(v)) matches Ok(bytes) && final(self).output@ == old(
                self,
            ).output@ + bytes,
    {
        self.write_be(v as u128, 2)
    }

    /// Writes an unsigned 32-bit integer, big-endian.
    pub fn serialize_u32(&mut self, v: u32)
        ensures
            encode_spec(ValueView::U32(v)) matches Ok(bytes) && final(self).output@ == old(
                self,
            ).output@ + bytes,
    {
        self.write_be(v as u128, 4)
    }

    /// Writes an unsigned 64-bit integer, big-endian.
    pub fn serialize_u64(&mut self, v: u64)
        ensures
            encode_spec(ValueView::U64(v)) matches Ok(bytes) && final(self).output@ == old(
                self,
            ).output@ + bytes,
    {
        self.write_be(v as u128, 8)
    }

    /// Writes an unsigned 128-bit integer, big-endian.
    pub fn serialize_u128(&mut self, v: u128)
        ensures
            encode_spec(ValueView::U128(v)) matches Ok(bytes) && final(self).output@ == old(
                self,
            ).output@ + bytes,
    {
        self.write_be(v, 16)
    }

    /// Writes a 32-bit IEEE-754 number, given as its bit pattern.
    pub fn serialize_f32(&mut self, bits: u32)
        ensures
            encode_spec(ValueView::F32(bits)) matches Ok(bytes) && final(self).output@ == old(
                self,
            ).output@ + bytes,
    {
        self.write_be(bits as u128, 4)
    }

    /// Writes a 64-bit IEEE-754 number, given as its bit pattern.
    pub fn serialize_f64(&mut self, bits: u64)
        ensures
            encode_spec(ValueView::F64(bits)) matches Ok(bytes) && final(self).output@ == old(
                self,
            ).output@ + bytes,
    {
        self.write_be(bits as u128, 8)
    }

    /// Refuses a character: the wire format has none.
    pub fn serialize_char(&mut self, v: char) -> (r: Result<(), Error>)
        ensures
            r == Err::<(), Error>(Error::Ser(SerError::InvalidType("char"))),
            final(self).output@ == old(self).output@,
    {
        Err(Error::Ser(SerError::InvalidType("char")))
    }

    /// Writes a 32-bit variable-length integer.
    pub fn serialize_varint(&mut self, v: i32)
        ensures
            final(self).output@ == old(self).output@ + varint_bytes(v),
    {
        let bits: u64 = if v < 0 {
            (v as i64 + 0x1_0000_0000) as u64
        } else {
            v as u64
        };
        encode_varnum(bits, &mut self.output)
    }

    /// Writes a 64-bit variable-length integer.
    pub fn serialize_varlong(&mut self, v: i64)
        ensures
            final(self).output@ == old(self).output@ + varlong_bytes(v),
    {
        let bits: u64 = if v < 0 {
            (v as i128 + 0x1_0000_0000_0000_0000) as u64
        } else {
            v as u64
        };
        encode_varnum(bits, &mut self.output)
    }

    /// Writes a string: the length of its bytes, then the bytes.
    pub fn serialize_str(&mut self, v: &str) -> (r: Result<(), Error>)
        ensures
            match encode_str(v@) {
                Ok(bytes) => r is Ok && final(self).output@ == old(self).output@ + bytes,
                Err(e) => r == Err::<(), Error>(e) && final(self).output@ == old(self).output@,
            },
    {
        let bytes = v.as_bytes();
        if bytes.len() > i32::MAX as usize {
            return Err(Error::NumericRange);
        }
        self.serialize_varint(bytes.len() as i32);
        self.output.extend_from_slice(bytes);
        assert(self.output@ =~= old(self).output@ + (varint_bytes(bytes.len() as i32)
            + encode_utf8(v@)));
        Ok(())
    }

    /// Writes raw bytes as they are, without a length.
    pub fn serialize_bytes(&mut self, v: &[u8])
        ensures
            final(self).output@ == old(self).output@ + v@,
    {
        self.output.extend_from_slice(v);
    }

    /// Writes an absent optional value: the boolean `false`.
    pub fn serialize_none(&mut self)
        ensures
            final(self).output@ == old(self).output@ + seq![0u8],
    {
        self.serialize_bool(false)
    }

    /// Writes a present optional value: the boolean `true`, then the value.
    /// Nothing is written if the value cannot be.
    pub fn serialize_some(&mut self, value: &Value) -> (r: Result<(), Error>)
        ensures
            match encode_spec(value@) {
                Ok(bytes) => r is Ok && final(self).output@ == old(self).output@ + (seq![1u8]
                    + bytes),
                Err(e) => r == Err::<(), Error>(e) && final(self).output@ == old(self).output@,
            },
        decreases value, 2nat,
    {
        let start = self.output.len();
        self.serialize_bool(true);
        let ghost middle = self.output@;
        match self.serialize(value) {
            Ok(()) => {
                proof {
                    let bytes = encode_spec(value@)->Ok_0;
                    assert(middle + bytes =~= old(self).output@ + (seq![1u8] + bytes));
                }
                Ok(())
            },
            Err(e) => {
                self.output.truncate(start);
                assert(self.output@ =~= old(self).output@);
                Err(e)
            },
        }
    }

    /// Writes a unit value: nothing.
    pub fn serialize_unit(&mut self)
        ensures
            final(self).output@ == old(self).output@,
    {
    }

    /// Writes the index of an enum variant as one byte. An index of 128 or
    /// more does not fit.
    pub fn serialize_variant_as_u8(&mut self, variant: u32) -> (r: Result<(), Error>)
        ensures
            variant >= 128 ==> r == Err::<(), Error>(
                Error::Ser(SerError::VariantTooLarge(variant)),
            ) && final(self).output@ == old(self).output@,
            variant < 128 ==> r is Ok && final(self).output@ == old(self).output@ + seq![
                variant as u8,
            ],
    {
        if variant >= 128 {
            return Err(Error::Ser(SerError::VariantTooLarge(variant)));
        }
        let variant: u8 = variant as u8;
        self.output.push(variant);
        assert(self.output@ =~= old(self).output@ + seq![variant]);
        Ok(())
    }

    /// Writes a packed block position as one 64-bit integer.
    pub fn serialize_position(&mut self, v: &Position)
        ensures
            encode_spec(ValueView::Position(*v)) matches Ok(bytes) && final(self).output@ == old(
                self,
            ).output@ + bytes,
    {
        self.write_be(v.pack() as u128, 8)
    }

    /// Writes each of `values` in order, without a count. Nothing is
    /// written if one of them cannot be.
    pub fn serialize_all(&mut self, values: &Vec<Value>) -> (r: Result<(), Error>)
        ensures
            match encode_all(view_all(values@), values@.len()) {
                Ok(bytes) => r is Ok && final(self).output@ == old(self).output@ + bytes,
                Err(e) => r == Err::<(), Error>(e) && final(self).output@ == old(self).output@,
            },
        decreases values, 0nat,
    {
        let ghost views = view_all(values@);
        let start = self.output.len();
        let mut i: usize = 0;
        proof {
            lemma_view_all(values@);
            assert(views.take(0) =~= Seq::<ValueView>::empty());
            assert(self.output@ =~= old(self).output@ + Seq::<u8>::empty());
        }
        while i < values.len()
            invariant
                i <= values.len(),
                views == view_all(values@),
                views.len() == values@.len(),
                start == old(self).output@.len(),
                encode_all(views.take(i as int), values@.len()) matches Ok(bytes) && self.output@
                    == old(self).output@ + bytes,
            decreases values.len() - i,
        {
            let ghost done = encode_all(views.take(i as int), values@.len())->Ok_0;
            proof {
                lemma_view_all(values@);
                assert(views.take(i as int + 1).drop_last() =~= views.take(i as int));
                assert(views.take(i as int + 1).last() == values@[i as int]@);
            }
            match self.serialize(&values[i]) {
                Ok(()) => {
                    proof {
                        let more = encode_spec(values@[i as int]@)->Ok_0;
                        assert(old(self).output@ + done + more =~= old(self).output@ + (done
                            + more));
                    }
                },
                Err(e) => {
                    proof {
                        lemma_encode_all_fails(views, values@.len(), i as int + 1);
                    }
                    self.output.truncate(start);
                    assert(self.output@ =~= old(self).output@);
                    return Err(e);
                },
            }
            i = i + 1;
        }
        assert(views.take(i as int) =~= views);
        Ok(())
    }

    /// Writes a sequence whose length travels with it: the number of
    /// elements as a variable-length integer, then the elements. The
    /// elements are written to a scratch accumulator first, so nothing is
    /// written here unless all of them can be.
    #[verifier::loop_isolation(false)]
    pub fn serialize_seq(&mut self, values: &Vec<Value>) -> (r: Result<(), Error>)
        ensures
            match encode_all(view_all(values@), i32::MAX as nat) {
                Ok(bytes) => r is Ok && final(self).output@ == old(self).output@ + (varint_bytes(
                    values@.len() as i32,
                ) + bytes),
                Err(e) => r == Err::<(), Error>(e) && final(self).output@ == old(self).output@,
            },
        decreases values, 0nat,
    {
        let ghost views = view_all(values@);
        let ghost target = *final(self);
        let mut seq = VecSerializer::new(self, Some(values.len()));
        let mut i: usize = 0;
        proof {
            lemma_view_all(values@);
            assert(views.take(0) =~= Seq::<ValueView>::empty());
        }
        while i < values.len()
            invariant
                i <= values.len(),
                views == view_all(values@),
                views.len() == values@.len(),
                *seq.parent == *old(self),
                *final(seq.parent) == target,
                seq.len == i,
                encode_all(views.take(i as int), i32::MAX as nat) matches Ok(bytes)
                    && seq.serializer.output@ == bytes,
            decreases values.len() - i,
        {
            proof {
                lemma_view_all(values@);
                assert(views.take(i as int + 1).drop_last() =~= views.take(i as int));
                assert(views.take(i as int + 1).last() == values@[i as int]@);
            }
            match seq.serialize_element(&values[i]) {
                Ok(()) => {},
                Err(e) => {
                    proof {
                        lemma_encode_all_fails(views, i32::MAX as nat, i as int + 1);
                    }
                    return Err(e);
                },
            }
            i = i + 1;
        }
        assert(views.take(i as int) =~= views);
        seq.end()
    }

    /// Writes a value of any kind. Nothing is written if the value has no
    /// wire form.
    pub fn serialize(&mut self, value: &Value) -> (r: Result<(), Error>)
        ensures
            match encode_spec(value@) {
                Ok(bytes) => r is Ok && final(self).output@ == old(self).output@ + bytes,
                Err(e) => r == Err::<(), Error>(e) && final(self).output@ == old(self).output@,
            },
        decreases value, 1nat,
    {
        match value {
            Value::Bool(v) => {
                self.serialize_bool(*v);
                Ok(())
            },
            Value::I8(v) => {
                self.serialize_i8(*v);
                Ok(())
            },
            Value::I16(v) => {
                self.serialize_i16(*v);
                Ok(())
            },
            Value::I32(v) => {
                self.serialize_i32(*v);
                Ok(())
            },
            Value::I64(v) => {
                self.serialize_i64(*v);
                Ok(())
            },
            Value::I128(v) => {
                self.serialize_i128(*v);
                Ok(())
            },
            Value::U8(v) => {
                self.serialize_u8(*v);
                Ok(())
            },
            Value::U16(v) => {
                self.serialize_u16(*v);
                Ok(())
            },
            Value::U32(v) => {
                self.serialize_u32(*v);
                Ok(())
            },
            Value::U64(v) => {
                self.serialize_u64(*v);
                Ok(())
            },
            Value::U128(v) => {
                self.serialize_u128(*v);
                Ok(())
            },
            Value::F32(v) => {
                self.serialize_f32(*v);
                Ok(())
            },
            Value::F64(v) => {
                self.serialize_f64(*v);
                Ok(())
            },
            Value::Char(v) => {
                self.serialize_char(*v)
            },
            Value::Str(v) => {
                self.serialize_str(v.as_str())
            },
            Value::Bytes(v) => {
                self.serialize_bytes(v.as_slice());
                Ok(())
            },
            Value::Unit => {
                self.serialize_unit();
                assert(self.output@ =~= old(self).output@ + Seq::<u8>::empty());
                Ok(())
            },
            Value::VarInt(v) => {
                self.serialize_varint(*v);
                Ok(())
            },
            Value::VarLong(v) => {
                self.serialize_varlong(*v);
                Ok(())
            },
            Value::Position(v) => {
                self.serialize_position(v);
                Ok(())
            },
            Value::Option(None) => {
                self.serialize_none();
                Ok(())
            },
            Value::Option(Some(inner)) => self.serialize_some(inner),
            Value::SeqDynamic(items) => {
                proof {
                    lemma_view_all(items@);
                }
                self.serialize_seq(items)
            },
            Value::SeqFixed(items) => {
                proof {
                    lemma_view_all(items@);
                }
                self.serialize_all(items)
            },
            Value::Struct(fields) => {
                proof {
                    lemma_view_all(fields@);
                }
                self.serialize_all(fields)
            },
            Value::Enum { variant, fields } => {
                let start = self.output.len();
                match self.serialize_variant_as_u8(*variant) {
                    Ok(()) => {},
                    Err(e) => {
                        return Err(e);
                    },
                }
                let ghost middle = self.output@;
                proof {
                    lemma_view_all(fields@);
                }
                match self.serialize_all(fields) {
                    Ok(()) => {
                        proof {
                            let bytes = encode_all(view_all(fields@), fields@.len())->Ok_0;
                            assert(middle + bytes =~= old(self).output@ + (seq![*variant as u8]
                                + bytes));
                        }
                        Ok(())
                    },
                    Err(e) => {
                        self.output.truncate(start);
                        assert(self.output@ =~= old(self).output@);
                        Err(e)
                    },
                }
            },
            Value::Mapping(_) => {
                Err(Error::Ser(SerError::InvalidType("map")))
            },
        }
    }
}

/// The scratch accumulator of a sequence whose length travels with it. The
/// elements are written to `serializer` and counted in `len`; `end` writes
/// the count and then the elements to `parent`.
pub struct VecSerializer<'b> {
    pub parent: &'b mut Serializer,
    pub len: i32,
    pub serializer: Serializer,
}

impl<'b> VecSerializer<'b> {
    /// An empty scratch accumulator in front of `parent`. The length that
    /// the caller expects is not used: the elements are counted.
    pub fn new(parent: &'b mut Serializer, _len: Option<usize>) -> (seq: VecSerializer<'b>)
        ensures
            seq.len == 0,
            seq.serializer.output@ == Seq::<u8>::empty(),
            *seq.parent == *old(parent),
            *final(seq.parent) == *final(parent),
    {
        VecSerializer { parent, len: 0, serializer: Serializer::new() }
    }

    /// Counts one more element and writes it to the scratch accumulator.
    /// One element more than a 32-bit integer can count is out of range.
    /// The parent accumulator is not touched, and stays the parent.
    pub fn serialize_element(&mut self, value: &Value) -> (r: Result<(), Error>)
        requires
            0 <= old(self).len,
        ensures
            *final(self).parent == *old(self).parent,
            *final(final(self).parent) == *final(old(self).parent),
            old(self).len == i32::MAX ==> {
                &&& r == Err::<(), Error>(Error::NumericRange)
                &&& final(self).len == old(self).len
                &&& final(self).serializer.output@ == old(self).serializer.output@
            },
            old(self).len < i32::MAX ==> {
                &&& final(self).len == old(self).len + 1
                &&& match encode_spec(value@) {
                    Ok(bytes) => r is Ok && final(self).serializer.output@ == old(
                        self,
                    ).serializer.output@ + bytes,
                    Err(e) => r == Err::<(), Error>(e) && final(self).serializer.output@ == old(
                        self,
                    ).serializer.output@,
                }
            },
        decreases value, 2nat,
    {
        if self.len == i32::MAX {
            return Err(Error::NumericRange);
        }
        self.len = self.len + 1;
        self.serializer.serialize(value)
    }

    /// Writes the count and then the elements to the parent accumulator.
    pub fn end(self) -> (r: Result<(), Error>)
        ensures
            r is Ok,
            final(self.parent).output@ == old(self.parent).output@ + (varint_bytes(self.len)
                + self.serializer.output@),
    {
        let VecSerializer { parent, len, serializer } = self;
        let mut scratch = serializer.output;
        let ghost before = parent.output@;
        let ghost elements = scratch@;
        parent.serialize_varint(len);
        parent.output.append(&mut scratch);
        assert(parent.output@ =~= before + (varint_bytes(len) + elements));
        Ok(())
    }
}

/// A number written in `width` bytes has `width` bytes.
pub proof fn lemma_be_bytes_len(v: nat, width: nat)
    ensures
        be_bytes(v, width).len() == width,
    decreases width,
{
    if width > 0 {
        lemma_be_bytes_len(v / 256, (width - 1) as nat);
    }
}

/// A number that fits in `width` bytes is the value of the bytes it is
/// written in.
pub proof fn lemma_be_round_trip(v: nat, width: nat)
    requires
        v < pow256(width),
    ensures
        be_value(be_bytes(v, width)) == v,
    decreases width,
{
    if width > 0 {
        let bytes = be_bytes(v, width);
        assert(bytes.drop_last() =~= be_bytes(v / 256, (width - 1) as nat));
        lemma_be_round_trip(v / 256, (width - 1) as nat);
    }
}

/// Where one of the first `n` values of a sequence has no wire form, the
/// sequence has none, for the same reason.
pub proof fn lemma_encode_all_fails(values: Seq<ValueView>, limit: nat, n: int)
    requires
        0 <= n <= values.len(),
        encode_all(values.take(n), limit) is Err,
    ensures
        encode_all(values, limit) == encode_all(values.take(n), limit),
    decreases values.len() - n,
{
    if n < values.len() {
        assert(values.take(n + 1).drop_last() =~= values.take(n));
        lemma_encode_all_fails(values, limit, n + 1);
    } else {
        assert(values.take(n) =~= values);
    }
}

/// Encodes a value into a buffer of its own.
pub fn serialize(data: &Value) -> (r: Result<Vec<u8>, Error>)
    ensures
        match encode_spec(data@) {
            Ok(bytes) => r matches Ok(out) && out@ == bytes,
            Err(e) => r == Err::<Vec<u8>, Error>(e),
        },
{
    let mut ser = Serializer::new();
    match ser.serialize(data) {
        Ok(()) => {
            assert(ser.output@ =~= encode_spec(data@)->Ok_0);
            Ok(ser.output)
        },
        Err(e) => Err(e),
    }
}

} // verus!
