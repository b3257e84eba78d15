//! The data model of the codec: the shapes that a caller can ask for and the
//! values that they stand for.

use crate::types::Position;
use vstd::prelude::*;

verus! {

/// A named field of a struct.
#[derive(Debug, PartialEq, Eq)]
pub struct Field {
    pub name: String,
    pub shape: Shape,
}

/// A variant of an enum: a name and the shapes of its fields, none for a
/// unit variant.
#[derive(Debug, PartialEq, Eq)]
pub struct Variant {
    pub name: String,
    pub fields: Vec<Shape>,
}

/// The shape of a value on the wire. The wire carries no description of
/// itself, so the caller says what to expect.
#[derive(Debug, PartialEq, Eq)]
pub enum Shape {
    /// One byte, `0x00` or `0x01`.
    Bool,
    /// Fixed-width big-endian integers in two's complement.
    I8,
    I16,
    I32,
    I64,
    I128,
    /// Fixed-width big-endian unsigned integers.
    U8,
    U16,
    U32,
    U64,
    U128,
    /// IEEE-754 numbers, big-endian, carried as their bit patterns.
    F32,
    F64,
    /// A single character. The wire format has none.
    Char,
    /// A length as a variable-length integer, then that many bytes of UTF-8.
    Str,
    /// All the bytes that are left in the frame.
    Bytes,
    /// Nothing at all.
    Unit,
    /// A 32-bit variable-length integer.
    VarInt,
    /// A 64-bit variable-length integer.
    VarLong,
    /// A packed block position.
    Position,
    /// A boolean, then the value if the boolean is true.
    Option(Box<Shape>),
    /// A count as a variable-length integer, then that many elements.
    SeqDynamic(Box<Shape>),
    /// The elements in order, without a count.
    SeqFixed(Vec<Shape>),
    /// The fields in order of declaration, without names or tags.
    Struct { name: String, fields: Vec<Field> },
    /// One byte that picks the variant, then the fields of that variant.
    Enum { name: String, variants: Vec<Variant> },
    /// A map from keys to values. The wire format has none.
    Mapping,
    /// A value that describes itself. The wire format has none.
    Any,
}

/// A decoded value, or a value to encode.
#[derive(Debug, PartialEq, Eq)]
pub enum Value {
    Bool(bool),
    I8(i8),
    I16(i16),
    I32(i32),
    I64(i64),
    I128(i128),
    U8(u8),
    U16(u16),
    U32(u32),
    U64(u64),
    U128(u128),
    /// The bit pattern of a 32-bit IEEE-754 number.
    F32(u32),
    /// The bit pattern of a 64-bit IEEE-754 number.
    F64(u64),
    Char(char),
    Str(String),
    Bytes(Vec<u8>),
    Unit,
    VarInt(i32),
    VarLong(i64),
    Position(Position),
    Option(Option<Box<Value>>),
    /// A sequence whose length travels with it.
    SeqDynamic(Vec<Value>),
    /// A sequence whose length is known from the shape.
    SeqFixed(Vec<Value>),
    /// The fields of a struct in order of declaration.
    Struct(Vec<Value>),
    /// The index of a variant and the fields of that variant.
    Enum { variant: u32, fields: Vec<Value> },
    /// The entries of a map.
    Mapping(Vec<(Value, Value)>),
}

/// What a value is, in mathematical terms: strings are sequences of
/// characters, and sequences of values are sequences of what the values
/// are.
pub enum ValueView {
    Bool(bool),
    I8(i8),
    I16(i16),
    I32(i32),
    I64(i64),
    I128(i128),
    U8(u8),
    U16(u16),
    U32(u32),
    U64(u64),
    U128(u128),
    F32(u32),
    F64(u64),
    Char(char),
    Str(Seq<char>),
    Bytes(Seq<u8>),
    Unit,
    VarInt(i32),
    VarLong(i64),
    Position(Position),
    Option(Option<Box<ValueView>>),
    SeqDynamic(Seq<ValueView>),
    SeqFixed(Seq<ValueView>),
    Struct(Seq<ValueView>),
    Enum { variant: u32, fields: Seq<ValueView> },
    Mapping(Seq<(ValueView, ValueView)>),
}

/// What each value of a sequence is.
pub open spec fn view_all(values: Seq<Value>) -> Seq<ValueView>
    decreases values,
{
    if values.len() == 0 {
        Seq::empty()
    } else {
        view_all(values.drop_last()).push(value_view(values.last()))
    }
}

/// What each key and each value of the entries of a map is.
pub open spec fn view_entries(entries: Seq<(Value, Value)>) -> Seq<(ValueView, ValueView)>
    decreases entries,
{
    if entries.len() == 0 {
        Seq::empty()
    } else {
        view_entries(entries.drop_last()).push(
            (value_view(entries.last().0), value_view(entries.last().1)),
        )
    }
}

/// What a value is.
pub open spec fn value_view(value: Value) -> ValueView
    decreases value,
{
    match value {
        Value::Bool(v) => ValueView::Bool(v),
        Value::I8(v) => ValueView::I8(v),
        Value::I16(v) => ValueView::I16(v),
        Value::I32(v) => ValueView::I32(v),
        Value::I64(v) => ValueView::I64(v),
        Value::I128(v) => ValueView::I128(v),
        Value::U8(v) => ValueView::U8(v),
        Value::U16(v) => ValueView::U16(v),
        Value::U32(v) => ValueView::U32(v),
        Value::U64(v) => ValueView::U64(v),
        Value::U128(v) => ValueView::U128(v),
        Value::F32(v) => ValueView::F32(v),
        Value::F64(v) => ValueView::F64(v),
        Value::Char(v) => ValueView::Char(v),
        Value::Str(v) => ValueView::Str(v@),
        Value::Bytes(v) => ValueView::Bytes(v@),
        Value::Unit => ValueView::Unit,
        Value::VarInt(v) => ValueView::VarInt(v),
        Value::VarLong(v) => ValueView::VarLong(v),
        Value::Position(v) => ValueView::Position(v),
        Value::Option(None) => ValueView::Option(None),
        Value::Option(Some(v)) => ValueView::Option(Some(Box::new(value_view(*v)))),
        Value::SeqDynamic(items) => ValueView::SeqDynamic(view_all(items@)),
        Value::SeqFixed(items) => ValueView::SeqFixed(view_all(items@)),
        Value::Struct(items) => ValueView::Struct(view_all(items@)),
        Value::Enum { variant, fields } => ValueView::Enum { variant, fields: view_all(fields@) },
        Value::Mapping(entries) => ValueView::Mapping(view_entries(entries@)),
    }
}

impl View for Value {
    type V = ValueView;

    open spec fn view(&self) -> ValueView {
        value_view(*self)
    }
}

/// The views of a sequence are as many as its values, and each is the view
/// of the value in its place.
pub proof fn lemma_view_all(values: Seq<Value>)
    ensures
        view_all(values).len() == values.len(),
        forall|i: int| 0 <= i < values.len() ==> (#[trigger] view_all(values)[i]) == values[i]@,
    decreases values.len(),
{
    if values.len() > 0 {
        lemma_view_all(values.drop_last());
    }
}

} // verus!
