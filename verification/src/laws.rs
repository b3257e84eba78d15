//! What is written can be read back: a value that fits a shape decodes from
//! its own encoding to itself, wherever the encoding stands in a buffer and
//! whatever follows it.

use crate::de::{
    decode_at, decode_each, decode_fields, decode_repeat, lemma_be_value_one, parse_fixed,
    position_of,
};
use crate::error::Error;
use crate::mon::primitives::{lemma_pow256_widths, pow256, Fault};
use crate::ser::{be_bytes, encode_all, encode_spec, lemma_be_bytes_len, lemma_be_round_trip};
use crate::shape::{Field, Shape, ValueView};
use crate::types::{lemma_position_round_trip, pack_spec, sign_extend, twos_complement};
use crate::varnum::{lemma_varint_round_trip, lemma_varlong_round_trip, varint_bytes};
use vstd::prelude::*;
use vstd::utf8::{encode_utf8, encode_utf8_decode_utf8, encode_utf8_valid_utf8};

verus! {

/// The value is of the shape, and nothing about it is lost on the wire: a
/// position lies in the range of its fields, a string or a sequence is no
/// longer than its length can say, and the index of a variant fits in seven
/// bits. A byte array without a length fits no shape here, since it takes
/// whatever follows it.
pub open spec fn fits(value: ValueView, shape: Shape) -> bool
    decreases shape, 0nat,
{
    match shape {
        Shape::Bool => value is Bool,
        Shape::I8 => value is I8,
        Shape::I16 => value is I16,
        Shape::I32 => value is I32,
        Shape::I64 => value is I64,
        Shape::I128 => value is I128,
        Shape::U8 => value is U8,
        Shape::U16 => value is U16,
        Shape::U32 => value is U32,
        Shape::U64 => value is U64,
        Shape::U128 => value is U128,
        Shape::F32 => value is F32,
        Shape::F64 => value is F64,
        Shape::Str => value matches ValueView::Str(chars) && encode_utf8(chars).len() <= i32::MAX,
        Shape::Unit => value is Unit,
        Shape::VarInt => value is VarInt,
        Shape::VarLong => value is VarLong,
        Shape::Position => value matches ValueView::Position(p) && p.in_range(),
        Shape::Option(inner) => match value {
            ValueView::Option(None) => true,
            ValueView::Option(Some(v)) => fits(*v, *inner),
            _ => false,
        },
        Shape::SeqDynamic(element) => value matches ValueView::SeqDynamic(items) && items.len()
            <= i32::MAX && fit_all(items, *element),
        Shape::SeqFixed(shapes) => value matches ValueView::SeqFixed(items) && fit_each(
            items,
            shapes@,
        ),
        Shape::Struct { name, fields } => value matches ValueView::Struct(items) && fit_fields(
            items,
            fields@,
        ),
        Shape::Enum { name, variants } => value matches ValueView::Enum { variant, fields }
            && variant < 128 && variant < variants@.len() && fit_each(
            fields,
            variants@[variant as int].fields@,
        ),
        Shape::Char | Shape::Bytes | Shape::Mapping | Shape::Any => false,
    }
}

/// Every one of the values fits the shape.
pub open spec fn fit_all(values: Seq<ValueView>, shape: Shape) -> bool
    decreases shape, values.len(),
{
    values.len() == 0 || (fit_all(values.drop_last(), shape) && fits(values.last(), shape))
}

/// There are as many values as shapes, and each value fits the shape in its
/// place.
pub open spec fn fit_each(values: Seq<ValueView>, shapes: Seq<Shape>) -> bool
    decreases shapes, 0nat,
{
    values.len() == shapes.len() && (shapes.len() == 0 || (fit_each(
        values.drop_last(),
        shapes.drop_last(),
    ) && fits(values.last(), shapes.last())))
}

/// There are as many values as fields, and each value fits the shape of the
/// field in its place.
pub open spec fn fit_fields(values: Seq<ValueView>, fields: Seq<Field>) -> bool
    decreases fields, 0nat,
{
    values.len() == fields.len() && (fields.len() == 0 || (fit_fields(
        values.drop_last(),
        fields.drop_last(),
    ) && fits(values.last(), fields.last().shape)))
}

/// What stands in a buffer from the end of `before` on.
pub proof fn lemma_rest(before: Seq<u8>, bytes: Seq<u8>, after: Seq<u8>)
    ensures
        (before + bytes + after).skip(before.len() as int) == bytes + after,
        (bytes + after).take(bytes.len() as int) == bytes,
        (bytes + after).skip(bytes.len() as int) == after,
        (before + bytes + after).len() == before.len() + bytes.len() + after.len(),
{
    assert((before + bytes + after).skip(before.len() as int) =~= bytes + after);
    assert((bytes + after).take(bytes.len() as int) =~= bytes);
    assert((bytes + after).skip(bytes.len() as int) =~= after);
}

/// A number that fits in `width` bytes is read back from the bytes it is
/// written in, whatever follows them.
pub proof fn lemma_fixed_round_trip(v: nat, width: nat, after: Seq<u8>)
    requires
        v < pow256(width),
    ensures
        be_bytes(v, width).len() == width,
        parse_fixed(be_bytes(v, width) + after, width) == Ok::<(nat, nat), Fault>(
            (width, v),
        ),
{
    lemma_be_bytes_len(v, width);
    lemma_be_round_trip(v, width);
    assert((be_bytes(v, width) + after).take(width as int) =~= be_bytes(v, width));
}

/// A signed integer of a fixed width is read back from its encoding.
pub proof fn lemma_round_trip_signed(
    value: ValueView,
    shape: Shape,
    before: Seq<u8>,
    after: Seq<u8>,
)
    requires
        fits(value, shape),
        shape is I8 || shape is I16 || shape is I32 || shape is I64 || shape is I128,
    ensures
        encode_spec(value) matches Ok(bytes) && decode_at(
            shape,
            before + bytes + after,
            before.len(),
        ) == Ok::<(ValueView, nat), (Error, nat)>((value, before.len() + bytes.len())),
{
    lemma_pow256_widths();
    match shape {
        Shape::I8 => {
            let v = value->I8_0;
            let field = twos_complement(v as int, 0x100) as nat;
            lemma_fixed_round_trip(field, 1, after);
            lemma_rest(before, be_bytes(field, 1), after);
            assert(sign_extend(field as int, 0x100) == v);
        },
        Shape::I16 => {
            let v = value->I16_0;
            let field = twos_complement(v as int, 0x1_0000) as nat;
            lemma_fixed_round_trip(field, 2, after);
            lemma_rest(before, be_bytes(field, 2), after);
            assert(sign_extend(field as int, 0x1_0000) == v);
        },
        Shape::I32 => {
            let v = value->I32_0;
            let field = twos_complement(v as int, 0x1_0000_0000) as nat;
            lemma_fixed_round_trip(field, 4, after);
            lemma_rest(before, be_bytes(field, 4), after);
            assert(sign_extend(field as int, 0x1_0000_0000) == v);
        },
        Shape::I64 => {
            let v = value->I64_0;
            let field = twos_complement(v as int, 0x1_0000_0000_0000_0000) as nat;
            lemma_fixed_round_trip(field, 8, after);
            lemma_rest(before, be_bytes(field, 8), after);
            assert(sign_extend(field as int, 0x1_0000_0000_0000_0000) == v);
        },
        Shape::I128 => {
            let v = value->I128_0;
            let field = twos_complement(
                v as int,
                0x1_0000_0000_0000_0000_0000_0000_0000_0000int,
            ) as nat;
            lemma_fixed_round_trip(field, 16, after);
            lemma_rest(before, be_bytes(field, 16), after);
            assert(sign_extend(field as int, 0x1_0000_0000_0000_0000_0000_0000_0000_0000int) == v);
        },
        _ => {},
    }
}

/// An unsigned integer of a fixed width, or the bit pattern of a number, is
/// read back from its encoding.
pub proof fn lemma_round_trip_unsigned(
    value: ValueView,
    shape: Shape,
    before: Seq<u8>,
    after: Seq<u8>,
)
    requires
        fits(value, shape),
        shape is U8 || shape is U16 || shape is U32 || shape is U64 || shape is U128
            || shape is F32 || shape is F64,
    ensures
        encode_spec(value) matches Ok(bytes) && decode_at(
            shape,
            before + bytes + after,
            before.len(),
        ) == Ok::<(ValueView, nat), (Error, nat)>((value, before.len() + bytes.len())),
{
    lemma_pow256_widths();
    match shape {
        Shape::U8 => {
            let v = value->U8_0;
            lemma_fixed_round_trip(v as nat, 1, after);
            lemma_rest(before, be_bytes(v as nat, 1), after);
        },
        Shape::U16 => {
            let v = value->U16_0;
            lemma_fixed_round_trip(v as nat, 2, after);
            lemma_rest(before, be_bytes(v as nat, 2), after);
        },
        Shape::U32 => {
            let v = value->U32_0;
            lemma_fixed_round_trip(v as nat, 4, after);
            lemma_rest(before, be_bytes(v as nat, 4), after);
        },
        Shape::U64 => {
            let v = value->U64_0;
            lemma_fixed_round_trip(v as nat, 8, after);
            lemma_rest(before, be_bytes(v as nat, 8), after);
        },
        Shape::U128 => {
            let v = value->U128_0;
            lemma_fixed_round_trip(v as nat, 16, after);
            lemma_rest(before, be_bytes(v as nat, 16), after);
        },
        Shape::F32 => {
            let v = value->F32_0;
            lemma_fixed_round_trip(v as nat, 4, after);
            lemma_rest(before, be_bytes(v as nat, 4), after);
        },
        Shape::F64 => {
            let v = value->F64_0;
            lemma_fixed_round_trip(v as nat, 8, after);
            lemma_rest(before, be_bytes(v as nat, 8), after);
        },
        _ => {},
    }
}

/// A boolean, a string, a unit value, a variable-length integer or a
/// position is read back from its encoding.
pub proof fn lemma_round_trip_plain(
    value: ValueView,
    shape: Shape,
    before: Seq<u8>,
    after: Seq<u8>,
)
    requires
        fits(value, shape),
        shape is Bool || shape is Str || shape is Unit || shape is VarInt || shape is VarLong
            || shape is Position,
    ensures
        encode_spec(value) matches Ok(bytes) && decode_at(
            shape,
            before + bytes + after,
            before.len(),
        ) == Ok::<(ValueView, nat), (Error, nat)>((value, before.len() + bytes.len())),
{
    lemma_pow256_widths();
    match shape {
        Shape::Bool => {
            let v = value->Bool_0;
            let bytes = seq![if v {
                1u8
            } else {
                0u8
            }];
            lemma_rest(before, bytes, after);
            assert((bytes + after)[0] == bytes[0]);
        },
        Shape::Str => {
            let chars = value->Str_0;
            let text = encode_utf8(chars);
            let prefix = varint_bytes(text.len() as i32);
            let bytes = prefix + text;
            lemma_rest(before, bytes, after);
            lemma_varint_round_trip(text.len() as i32, text + after);
            assert(bytes + after =~= prefix + (text + after));
            assert((bytes + after).subrange(
                prefix.len() as int,
                (prefix.len() + text.len()) as int,
            ) =~= text);
            encode_utf8_valid_utf8(chars);
            encode_utf8_decode_utf8(chars);
        },
        Shape::Unit => {
            lemma_rest(before, Seq::<u8>::empty(), after);
        },
        Shape::VarInt => {
            let v = value->VarInt_0;
            lemma_varint_round_trip(v, after);
            lemma_rest(before, varint_bytes(v), after);
        },
        Shape::VarLong => {
            let v = value->VarLong_0;
            lemma_varlong_round_trip(v, after);
            lemma_rest(before, crate::varnum::varlong_bytes(v), after);
        },
        Shape::Position => {
            let p = value->Position_0;
            lemma_position_round_trip(p.x as int, p.y as int, p.z as int);
            let packed = pack_spec(p.x as int, p.y as int, p.z as int) as nat;
            lemma_fixed_round_trip(packed, 8, after);
            lemma_rest(before, be_bytes(packed, 8), after);
            assert(position_of(packed) == p);
        },
        _ => {},
    }
}

/// An optional value is read back from its encoding.
pub proof fn lemma_round_trip_option(
    value: ValueView,
    shape: Shape,
    before: Seq<u8>,
    after: Seq<u8>,
)
    requires
        fits(value, shape),
        shape is Option,
    ensures
        encode_spec(value) matches Ok(bytes) && decode_at(
            shape,
            before + bytes + after,
            before.len(),
        ) == Ok::<(ValueView, nat), (Error, nat)>((value, before.len() + bytes.len())),
    decreases shape, 0nat,
{
    match shape {
        Shape::Option(inner) => {
            match value {
                ValueView::Option(Some(v)) => {
                    let tag = seq![1u8];
                    lemma_round_trip(*v, *inner, before + tag, after);
                    let inner_bytes = encode_spec(*v)->Ok_0;
                    let bytes = tag + inner_bytes;
                    lemma_rest(before, bytes, after);
                    assert((bytes + after)[0] == 1u8);
                    assert(before + bytes + after =~= (before + tag) + inner_bytes + after);
                },
                _ => {
                    let bytes = seq![0u8];
                    lemma_rest(before, bytes, after);
                    assert((bytes + after)[0] == 0u8);
                },
            }
        },
        _ => {},
    }
}

/// A sequence whose length travels with it is read back from its encoding.
pub proof fn lemma_round_trip_seq(value: ValueView, shape: Shape, before: Seq<u8>, after: Seq<u8>)
    requires
        fits(value, shape),
        shape is SeqDynamic,
    ensures
        encode_spec(value) matches Ok(bytes) && decode_at(
            shape,
            before + bytes + after,
            before.len(),
        ) == Ok::<(ValueView, nat), (Error, nat)>((value, before.len() + bytes.len())),
    decreases shape, 0nat,
{
    match shape {
        Shape::SeqDynamic(element) => {
            let items = value->SeqDynamic_0;
            let prefix = varint_bytes(items.len() as i32);
            lemma_round_trip_repeat(items, *element, before + prefix, after, i32::MAX as nat);
            let body = encode_all(items, i32::MAX as nat)->Ok_0;
            let bytes = prefix + body;
            lemma_rest(before, bytes, after);
            lemma_varint_round_trip(items.len() as i32, body + after);
            assert(bytes + after =~= prefix + (body + after));
            assert(before + bytes + after =~= (before + prefix) + body + after);
        },
        _ => {},
    }
}

/// A sequence of a known length, or a struct, is read back from its encoding.
pub proof fn lemma_round_trip_tuple(value: ValueView, shape: Shape, before: Seq<u8>, after: Seq<u8>)
    requires
        fits(value, shape),
        shape is SeqFixed || shape is Struct,
    ensures
        encode_spec(value) matches Ok(bytes) && decode_at(
            shape,
            before + bytes + after,
            before.len(),
        ) == Ok::<(ValueView, nat), (Error, nat)>((value, before.len() + bytes.len())),
    decreases shape, 0nat,
{
    match shape {
        Shape::SeqFixed(shapes) => {
            let items = value->SeqFixed_0;
            lemma_round_trip_each(items, shapes@, before, after, items.len());
        },
        Shape::Struct { name, fields } => {
            let items = value->Struct_0;
            lemma_round_trip_fields(items, fields@, before, after, items.len());
        },
        _ => {},
    }
}

/// A variant of an enum is read back from its encoding.
pub proof fn lemma_round_trip_enum(value: ValueView, shape: Shape, before: Seq<u8>, after: Seq<u8>)
    requires
        fits(value, shape),
        shape is Enum,
    ensures
        encode_spec(value) matches Ok(bytes) && decode_at(
            shape,
            before + bytes + after,
            before.len(),
        ) == Ok::<(ValueView, nat), (Error, nat)>((value, before.len() + bytes.len())),
    decreases shape, 0nat,
{
    match shape {
        Shape::Enum { name, variants } => {
            let index = value->Enum_variant;
            let items = value->Enum_fields;
            let tag = seq![index as u8];
            lemma_round_trip_each(
                items,
                variants@[index as int].fields@,
                before + tag,
                after,
                items.len(),
            );
            let body = encode_all(items, items.len())->Ok_0;
            let bytes = tag + body;
            lemma_rest(before, bytes, after);
            lemma_be_value_one(bytes + after);
            assert((bytes + after)[0] == index as u8);
            assert(before + bytes + after =~= (before + tag) + body + after);
        },
        _ => {},
    }
}

/// A value that fits a shape has an encoding, and decoding a value of that
/// shape where the encoding stands in a buffer gives the value back and
/// stops where the encoding ends, whatever stands before and behind it.
pub proof fn lemma_round_trip(value: ValueView, shape: Shape, before: Seq<u8>, after: Seq<u8>)
    requires
        fits(value, shape),
    ensures
        encode_spec(value) matches Ok(bytes) && decode_at(
            shape,
            before + bytes + after,
            before.len(),
        ) == Ok::<(ValueView, nat), (Error, nat)>((value, before.len() + bytes.len())),
    decreases shape, 1nat,
{
    match shape {
        Shape::Option(_) => {
            lemma_round_trip_option(value, shape, before, after);
        },
        Shape::SeqDynamic(_) => {
            lemma_round_trip_seq(value, shape, before, after);
        },
        Shape::SeqFixed(_) | Shape::Struct { .. } => {
            lemma_round_trip_tuple(value, shape, before, after);
        },
        Shape::Enum { .. } => {
            lemma_round_trip_enum(value, shape, before, after);
        },
        Shape::I8 | Shape::I16 | Shape::I32 | Shape::I64 | Shape::I128 => {
            lemma_round_trip_signed(value, shape, before, after);
        },
        Shape::U8 | Shape::U16 | Shape::U32 | Shape::U64 | Shape::U128 | Shape::F32
        | Shape::F64 => {
            lemma_round_trip_unsigned(value, shape, before, after);
        },
        Shape::Bool | Shape::Str | Shape::Unit | Shape::VarInt | Shape::VarLong
        | Shape::Position => {
            lemma_round_trip_plain(value, shape, before, after);
        },
        _ => {},
    }
}

/// Values that all fit one shape have an encoding one after the other, and
/// decoding as many values of that shape where the encoding stands gives
/// them back.
pub proof fn lemma_round_trip_repeat(
    values: Seq<ValueView>,
    shape: Shape,
    before: Seq<u8>,
    after: Seq<u8>,
    limit: nat,
)
    requires
        fit_all(values, shape),
        values.len() <= limit,
    ensures
        encode_all(values, limit) matches Ok(bytes) && decode_repeat(
            shape,
            before + bytes + after,
            before.len(),
            values.len(),
        ) == Ok::<(Seq<ValueView>, nat), (Error, nat)>((values, before.len() + bytes.len())),
    decreases shape, values.len() + 2,
{
    if values.len() == 0 {
        assert(values =~= Seq::<ValueView>::empty());
        lemma_rest(before, Seq::<u8>::empty(), after);
    } else {
        let front = values.drop_last();
        let last = values.last();
        lemma_round_trip(last, shape, Seq::<u8>::empty(), Seq::<u8>::empty());
        let last_bytes = encode_spec(last)->Ok_0;
        lemma_round_trip_repeat(front, shape, before, last_bytes + after, limit);
        let front_bytes = encode_all(front, limit)->Ok_0;
        lemma_round_trip(last, shape, before + front_bytes, after);
        let bytes = front_bytes + last_bytes;
        assert(before + bytes + after =~= before + front_bytes + (last_bytes + after));
        assert(before + bytes + after =~= (before + front_bytes) + last_bytes + after);
        assert(front.push(last) =~= values);
    }
}

/// Values that fit their shapes one by one have an encoding one after the
/// other, and decoding one value of each shape where the encoding stands
/// gives them back.
pub proof fn lemma_round_trip_each(
    values: Seq<ValueView>,
    shapes: Seq<Shape>,
    before: Seq<u8>,
    after: Seq<u8>,
    limit: nat,
)
    requires
        fit_each(values, shapes),
        values.len() <= limit,
    ensures
        encode_all(values, limit) matches Ok(bytes) && decode_each(
            shapes,
            before + bytes + after,
            before.len(),
        ) == Ok::<(Seq<ValueView>, nat), (Error, nat)>((values, before.len() + bytes.len())),
    decreases shapes, 0nat,
{
    if shapes.len() == 0 {
        assert(values =~= Seq::<ValueView>::empty());
        lemma_rest(before, Seq::<u8>::empty(), after);
    } else {
        let front = values.drop_last();
        let last = values.last();
        lemma_round_trip(last, shapes.last(), Seq::<u8>::empty(), Seq::<u8>::empty());
        let last_bytes = encode_spec(last)->Ok_0;
        lemma_round_trip_each(front, shapes.drop_last(), before, last_bytes + after, limit);
        let front_bytes = encode_all(front, limit)->Ok_0;
        lemma_round_trip(last, shapes.last(), before + front_bytes, after);
        let bytes = front_bytes + last_bytes;
        assert(before + bytes + after =~= before + front_bytes + (last_bytes + after));
        assert(before + bytes + after =~= (before + front_bytes) + last_bytes + after);
        assert(front.push(last) =~= values);
    }
}

/// Values that fit the fields of a struct one by one have an encoding one
/// after the other, and decoding the fields where the encoding stands gives
/// them back.
pub proof fn lemma_round_trip_fields(
    values: Seq<ValueView>,
    fields: Seq<Field>,
    before: Seq<u8>,
    after: Seq<u8>,
    limit: nat,
)
    requires
        fit_fields(values, fields),
        values.len() <= limit,
    ensures
        encode_all(values, limit) matches Ok(bytes) && decode_fields(
            fields,
            before + bytes + after,
            before.len(),
        ) == Ok::<(Seq<ValueView>, nat), (Error, nat)>((values, before.len() + bytes.len())),
    decreases fields, 0nat,
{
    if fields.len() == 0 {
        assert(values =~= Seq::<ValueView>::empty());
        lemma_rest(before, Seq::<u8>::empty(), after);
    } else {
        let front = values.drop_last();
        let last = values.last();
        lemma_round_trip(last, fields.last().shape, Seq::<u8>::empty(), Seq::<u8>::empty());
        let last_bytes = encode_spec(last)->Ok_0;
        lemma_round_trip_fields(front, fields.drop_last(), before, last_bytes + after, limit);
        let front_bytes = encode_all(front, limit)->Ok_0;
        lemma_round_trip(last, fields.last().shape, before + front_bytes, after);
        let bytes = front_bytes + last_bytes;
        assert(before + bytes + after =~= before + front_bytes + (last_bytes + after));
        assert(before + bytes + after =~= (before + front_bytes) + last_bytes + after);
        assert(front.push(last) =~= values);
    }
}

} // verus!
