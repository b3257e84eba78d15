use digmake::de::{from_bytes, from_bytes_debug, Deserializer};
use digmake::error::{DeError, Error, ParseFailure, SerError};
use digmake::mon::error::{ErrorKind};
use digmake::ser::{serialize, Serializer, VecSerializer};
use digmake::shape::{Field, Shape, Value, Variant};
use digmake::types::Position;

fn field(name: &str, shape: Shape) -> Field {
    Field { name: name.to_string(), shape }
}

fn variant(name: &str, fields: Vec<Shape>) -> Variant {
    Variant { name: name.to_string(), fields }
}

fn handshake_shape() -> Shape {
    Shape::Struct {
        name: "ClientHandshake".to_string(),
        fields: vec![
            field("packet_id", Shape::U8),
            field("client_version", Shape::VarInt),
            field("server_hostname", Shape::Str),
            field("server_port", Shape::U16),
            field("next_state", Shape::VarInt),
        ],
    }
}

fn handshake_bytes() -> Vec<u8> {
    vec![
        0x00, 0xf2, 0x05, 0x09, 0x6c, 0x6f, 0x63, 0x61, 0x6c, 0x68, 0x6f, 0x73, 0x74, 0x63, 0xdd,
        0x01,
    ]
}

fn handshake_value() -> Value {
    Value::Struct(vec![
        Value::U8(0),
        Value::VarInt(754),
        Value::Str("localhost".to_string()),
        Value::U16(25565),
        Value::VarInt(1),
    ])
}

fn enum_shape() -> Shape {
    Shape::Struct {
        name: "Main".to_string(),
        fields: vec![field(
            "value",
            Shape::Enum {
                name: "Enum".to_string(),
                variants: vec![
                    variant("Empty", vec![]),
                    variant("Alfa", vec![Shape::I32]),
                    variant("Bravo", vec![Shape::Str]),
                    variant("Charlie", vec![Shape::U16, Shape::I16]),
                    variant("Delta", vec![Shape::U8, Shape::I16, Shape::VarInt]),
                    variant("TooLong", vec![Shape::I32, Shape::I32]),
                ],
            },
        )],
    }
}

fn parse_error(kind: ErrorKind, start: usize, end: usize) -> Error {
    Error::Parse(ParseFailure { kind, start, end })
}

#[test]
#[allow(non_snake_case)]
fn test_ClientHandshake() {
    let data = handshake_bytes();
    let (rest, value) = from_bytes_debug(&handshake_shape(), &data);
    assert!(rest.is_empty());
    assert_eq!(value, Ok(handshake_value()));
    assert_eq!(from_bytes(&handshake_shape(), &data), Ok(handshake_value()));
}

#[test]
fn test_enum() {
    let expected = [
        (Ok(Value::Enum { variant: 0, fields: vec![] }), 1),
        (Ok(Value::Enum { variant: 1, fields: vec![Value::I32(50336342)] }), 5),
        (Ok(Value::Enum { variant: 2, fields: vec![Value::Str("\u{0}\u{12}V".to_string())] }), 5),
        (Ok(Value::Enum { variant: 3, fields: vec![Value::U16(768), Value::I16(4694)] }), 5),
        (
            Ok(Value::Enum {
                variant: 4,
                fields: vec![Value::U8(3), Value::I16(18), Value::VarInt(86)],
            }),
            5,
        ),
        (Err(parse_error(ErrorKind::UnexpectedEnd, 5, 5)), 5),
    ];
    for (index, (outcome, read)) in expected.into_iter().enumerate() {
        let data = vec![index as u8, 0x03, 0x00, 0x12, 0x56];
        let (rest, value) = from_bytes_debug(&enum_shape(), &data);
        assert_eq!(value, outcome.map(|v| Value::Struct(vec![v])));
        assert_eq!(rest, &data[read..]);
    }
}

#[test]
fn an_unknown_variant_is_an_error() {
    let data = vec![6u8, 0x03, 0x00, 0x12, 0x56];
    let (rest, value) = from_bytes_debug(&enum_shape(), &data);
    assert_eq!(value, Err(Error::De(DeError::UnknownVariant(6))));
    assert_eq!(rest, &data[1..]);
    assert_eq!(from_bytes(&enum_shape(), &[]), Err(parse_error(ErrorKind::UnexpectedEnd, 0, 0)));
}

#[test]
fn test_optional() {
    let shape = Shape::Struct {
        name: "Packet".to_string(),
        fields: vec![field("widgets", Shape::Option(Box::new(Shape::U16)))],
    };
    let without = vec![0x00u8];
    let with = vec![0x01u8, 0x44, 0x44];
    assert_eq!(
        from_bytes_debug(&shape, &without),
        (&[][..], Ok(Value::Struct(vec![Value::Option(None)])))
    );
    assert_eq!(
        from_bytes_debug(&shape, &with),
        (&[][..], Ok(Value::Struct(vec![Value::Option(Some(Box::new(Value::U16(17476))))])))
    );
}

#[test]
fn option_of_u16() {
    let shape = Shape::Option(Box::new(Shape::U16));
    assert_eq!(from_bytes_debug(&shape, &[0x00]), (&[][..], Ok(Value::Option(None))));
    assert_eq!(
        from_bytes_debug(&shape, &[0x01, 0x44, 0x44]),
        (&[][..], Ok(Value::Option(Some(Box::new(Value::U16(17476))))))
    );
    let data = [0x02u8, 0x44, 0x44];
    assert_eq!(
        from_bytes_debug(&shape, &data),
        (&data[..], Err(parse_error(ErrorKind::InvalidBoolean { byte: 2 }, 0, 1)))
    );
    let data = [0x01u8, 0x44];
    assert_eq!(
        from_bytes_debug(&shape, &data),
        (&data[1..], Err(parse_error(ErrorKind::UnexpectedEnd, 1, 1)))
    );
}

#[test]
#[allow(non_snake_case)]
fn test_Position() {
    let data = vec![
        0b00000000, 0b00000000, 0b00000000, 0b00100000, 0b00000000, 0b00000000, 0b00000000,
        0b00000000,
    ];
    assert_eq!(
        from_bytes_debug(&Shape::Position, &data),
        (&[][..], Ok(Value::Position(Position { x: 0, y: 0, z: -33554432 })))
    );
}

#[test]
fn test_bytearry() {
    let data = vec![63, 231, 92, 12];
    assert_eq!(
        from_bytes_debug(&Shape::Bytes, &data),
        (&[][..], Ok(Value::Bytes(vec![63, 231, 92, 12])))
    );
    assert_eq!(from_bytes_debug(&Shape::Bytes, &[]), (&[][..], Ok(Value::Bytes(vec![]))));
}

#[test]
fn test_uuid() {
    let shape = Shape::Struct {
        name: "Struct".to_string(),
        fields: vec![field(
            "value",
            Shape::SeqFixed(vec![
                Shape::U8,
                Shape::U8,
                Shape::U8,
                Shape::U8,
                Shape::U8,
                Shape::U8,
                Shape::U8,
                Shape::U8,
                Shape::U8,
                Shape::U8,
                Shape::U8,
                Shape::U8,
                Shape::U8,
                Shape::U8,
                Shape::U8,
                Shape::U8,
            ]),
        )],
    };
    let data = vec![63, 231, 92, 12, 63, 231, 92, 12, 63, 231, 92, 12, 63, 231, 92, 12];
    let bytes: Vec<Value> = data.iter().map(|b| Value::U8(*b)).collect();
    assert_eq!(
        from_bytes_debug(&shape, &data),
        (&[][..], Ok(Value::Struct(vec![Value::SeqFixed(bytes)])))
    );
    let (rest, value) = from_bytes_debug(&shape, &data[..15]);
    assert_eq!(value, Err(parse_error(ErrorKind::UnexpectedEnd, 15, 15)));
    assert!(rest.is_empty());
}

#[test]
fn test_vec() {
    let shape = Shape::Struct {
        name: "Struct".to_string(),
        fields: vec![
            field("foo", Shape::SeqDynamic(Box::new(Shape::SeqFixed(vec![Shape::I8, Shape::I16])))),
            field("bar", Shape::Bytes),
        ],
    };
    let data = vec![2, 1, 2, 3, 4, 5, 6, 7, 8];
    let expected = Value::Struct(vec![
        Value::SeqDynamic(vec![
            Value::SeqFixed(vec![Value::I8(1), Value::I16(515)]),
            Value::SeqFixed(vec![Value::I8(4), Value::I16(1286)]),
        ]),
        Value::Bytes(vec![7, 8]),
    ]);
    assert_eq!(from_bytes_debug(&shape, &data), (&[][..], Ok(expected)));
}

#[test]
fn trailing_bytes_are_left_and_are_no_error() {
    let data = [0x2Au8, 0x01, 0x02];
    assert_eq!(from_bytes_debug(&Shape::U8, &data), (&data[1..], Ok(Value::U8(42))));
    assert_eq!(from_bytes(&Shape::U8, &data), Ok(Value::U8(42)));
    assert_eq!(from_bytes_debug(&Shape::Unit, &data), (&data[..], Ok(Value::Unit)));
}

#[test]
fn a_sequence_that_ends_early_is_an_unexpected_end() {
    let shape = Shape::SeqDynamic(Box::new(Shape::U16));
    let data = [0x03u8, 0x00, 0x01, 0x00, 0x02, 0x00];
    assert_eq!(
        from_bytes_debug(&shape, &data),
        (&data[5..], Err(parse_error(ErrorKind::UnexpectedEnd, 5, 5)))
    );
    let data = [0xFFu8, 0xFF, 0xFF, 0xFF, 0x0F];
    assert_eq!(
        from_bytes_debug(&shape, &data),
        (&data[..], Err(parse_error(ErrorKind::NumericRange, 0, 5)))
    );
    assert_eq!(from_bytes(&shape, &[0x00]), Ok(Value::SeqDynamic(vec![])));
}

#[test]
fn faults_are_located_in_the_buffer() {
    let shape = Shape::SeqFixed(vec![Shape::U16, Shape::Str, Shape::VarInt]);
    let data = [0x00u8, 0x01, 0x02, 0xC3, 0x28, 0x00];
    assert_eq!(
        from_bytes_debug(&shape, &data),
        (&data[2..], Err(parse_error(ErrorKind::InvalidUtf8, 3, 5)))
    );
    let data = [0x00u8, 0x01, 0x00, 0x80, 0x80, 0x80, 0x80, 0x80];
    assert_eq!(
        from_bytes_debug(&shape, &data),
        (
            &data[3..],
            Err(parse_error(ErrorKind::VarNumTooLong { byte: 0x80, position: 4 }, 3, 8))
        )
    );
}

#[test]
fn shapes_without_a_wire_form_are_refused() {
    assert_eq!(from_bytes(&Shape::Mapping, &[0x00]), Err(Error::De(DeError::InvalidType("map"))));
    assert_eq!(from_bytes(&Shape::Char, &[0x41]), Err(Error::De(DeError::InvalidType("char"))));
    assert_eq!(from_bytes(&Shape::Any, &[0x41]), Err(Error::De(DeError::InvalidType("any"))));
    assert_eq!(serialize(&Value::Mapping(vec![])), Err(Error::Ser(SerError::InvalidType("map"))));
    assert_eq!(serialize(&Value::Char('a')), Err(Error::Ser(SerError::InvalidType("char"))));
}

#[test]
fn every_primitive_has_its_shape() {
    let cases: Vec<(Shape, Vec<u8>, Value)> = vec![
        (Shape::Bool, vec![0x01], Value::Bool(true)),
        (Shape::I8, vec![0x80], Value::I8(-128)),
        (Shape::I16, vec![0xFF, 0xFE], Value::I16(-2)),
        (Shape::I32, vec![0xFF, 0xFF, 0xFF, 0x85], Value::I32(-123)),
        (Shape::I64, vec![0x80, 0, 0, 0, 0, 0, 0, 1], Value::I64(i64::MIN + 1)),
        (Shape::I128, vec![0xFF; 16], Value::I128(-1)),
        (Shape::U8, vec![0xFF], Value::U8(255)),
        (Shape::U16, vec![0x63, 0xDD], Value::U16(25565)),
        (Shape::U32, vec![0xDE, 0xAD, 0xBE, 0xEF], Value::U32(0xDEADBEEF)),
        (Shape::U64, vec![0, 0, 0, 1, 0, 0, 0, 0], Value::U64(1 << 32)),
        (Shape::U128, vec![0xFF; 16], Value::U128(u128::MAX)),
        (Shape::F32, 1.5f32.to_be_bytes().to_vec(), Value::F32(1.5f32.to_bits())),
        (Shape::F64, (-0.1f64).to_be_bytes().to_vec(), Value::F64((-0.1f64).to_bits())),
        (Shape::Str, vec![0x02, 0xC3, 0xBC], Value::Str("\u{fc}".to_string())),
        (Shape::Bytes, vec![1, 2, 3], Value::Bytes(vec![1, 2, 3])),
        (Shape::Unit, vec![], Value::Unit),
        (Shape::VarInt, vec![0xFF, 0xFF, 0xFF, 0xFF, 0x0F], Value::VarInt(-1)),
        (Shape::VarLong, vec![0x80, 0x80, 0x80, 0x80, 0x10], Value::VarLong(1 << 32)),
        (
            Shape::Position,
            vec![0x46, 0x07, 0x63, 0x2C, 0x15, 0xB4, 0x83, 0x3F],
            Value::Position(Position { x: 18357644, y: 831, z: -20882616 }),
        ),
    ];
    for (shape, bytes, value) in cases {
        assert_eq!(from_bytes_debug(&shape, &bytes), (&[][..], Ok(value)));
        let decoded = from_bytes(&shape, &bytes).unwrap();
        assert_eq!(serialize(&decoded), Ok(bytes));
    }
}

#[test]
fn encoding_mirrors_decoding() {
    assert_eq!(serialize(&handshake_value()), Ok(handshake_bytes()));
    let value = Value::Struct(vec![
        Value::SeqDynamic(vec![
            Value::SeqFixed(vec![Value::I8(1), Value::I16(515)]),
            Value::SeqFixed(vec![Value::I8(4), Value::I16(1286)]),
        ]),
        Value::Bytes(vec![7, 8]),
    ]);
    assert_eq!(serialize(&value), Ok(vec![2, 1, 2, 3, 4, 5, 6, 7, 8]));
    assert_eq!(serialize(&Value::Option(None)), Ok(vec![0x00]));
    assert_eq!(
        serialize(&Value::Option(Some(Box::new(Value::U16(17476))))),
        Ok(vec![0x01, 0x44, 0x44])
    );
    assert_eq!(serialize(&Value::SeqDynamic(vec![])), Ok(vec![0x00]));
    assert_eq!(serialize(&Value::Unit), Ok(vec![]));
}

#[test]
fn a_long_sequence_gets_a_count_of_two_bytes() {
    let items: Vec<Value> = (0..300).map(|i| Value::U8(i as u8)).collect();
    let bytes = serialize(&Value::SeqDynamic(items)).unwrap();
    assert_eq!(bytes.len(), 302);
    assert_eq!(&bytes[..2], &[0xAC, 0x02]);
    assert_eq!(bytes[2], 0);
    assert_eq!(bytes[301], 43);
    let decoded = from_bytes(&Shape::SeqDynamic(Box::new(Shape::U8)), &bytes).unwrap();
    assert_eq!(serialize(&decoded), Ok(bytes));
}

#[test]
fn enum_discriminant_bound() {
    assert_eq!(
        serialize(&Value::Enum { variant: 128, fields: vec![] }),
        Err(Error::Ser(SerError::VariantTooLarge(128)))
    );
    assert_eq!(serialize(&Value::Enum { variant: 127, fields: vec![] }), Ok(vec![0x7F]));
    assert_eq!(
        serialize(&Value::Enum { variant: 3, fields: vec![Value::U16(768), Value::I16(4694)] }),
        Ok(vec![0x03, 0x03, 0x00, 0x12, 0x56])
    );
    let mut ser = Serializer::new();
    assert_eq!(ser.serialize_variant_as_u8(127), Ok(()));
    assert_eq!(ser.serialize_variant_as_u8(128), Err(Error::Ser(SerError::VariantTooLarge(128))));
    assert_eq!(
        ser.serialize_variant_as_u8(u32::MAX),
        Err(Error::Ser(SerError::VariantTooLarge(u32::MAX)))
    );
    assert_eq!(ser.output, vec![0x7F]);
}

#[test]
fn the_first_failing_element_decides_the_error() {
    let value = Value::SeqFixed(vec![
        Value::U8(1),
        Value::Enum { variant: 300, fields: vec![] },
        Value::Char('x'),
    ]);
    assert_eq!(serialize(&value), Err(Error::Ser(SerError::VariantTooLarge(300))));
    let value = Value::SeqDynamic(vec![Value::Char('x'), Value::Mapping(vec![])]);
    assert_eq!(serialize(&value), Err(Error::Ser(SerError::InvalidType("char"))));
}

#[test]
fn serializer_methods_append() {
    let mut ser = Serializer::new();
    ser.serialize_bool(true);
    ser.serialize_bool(false);
    ser.serialize_i8(-1);
    ser.serialize_i16(-2);
    ser.serialize_i32(1);
    ser.serialize_i64(-1);
    ser.serialize_u8(7);
    ser.serialize_u16(25565);
    ser.serialize_u32(0xDEADBEEF);
    ser.serialize_u64(1);
    ser.serialize_f32(1.0f32.to_bits());
    ser.serialize_f64(1.0f64.to_bits());
    ser.serialize_varint(754);
    ser.serialize_varlong(-1);
    assert_eq!(ser.serialize_str("hi"), Ok(()));
    ser.serialize_bytes(&[9, 9]);
    ser.serialize_none();
    ser.serialize_unit();
    assert_eq!(ser.serialize_some(&Value::U8(5)), Ok(()));
    ser.serialize_position(&Position { x: 0, y: 0, z: 1 });
    assert_eq!(ser.serialize_char('c'), Err(Error::Ser(SerError::InvalidType("char"))));
    let mut expected: Vec<u8> = vec![1, 0, 0xFF, 0xFF, 0xFE, 0, 0, 0, 1];
    expected.extend_from_slice(&[0xFF; 8]);
    expected.extend_from_slice(&[7, 0x63, 0xDD, 0xDE, 0xAD, 0xBE, 0xEF]);
    expected.extend_from_slice(&[0, 0, 0, 0, 0, 0, 0, 1]);
    expected.extend_from_slice(&1.0f32.to_be_bytes());
    expected.extend_from_slice(&1.0f64.to_be_bytes());
    expected.extend_from_slice(&[0xF2, 0x05]);
    expected.extend_from_slice(&[0xFF, 0xFF, 0xFF, 0xFF, 0xFF, 0xFF, 0xFF, 0xFF, 0xFF, 0x01]);
    expected.extend_from_slice(&[2, b'h', b'i', 9, 9, 0, 1, 5]);
    expected.extend_from_slice(&[0, 0, 0, 0, 0, 0, 0x10, 0]);
    assert_eq!(ser.output, expected);
}

#[test]
fn fixed_width_integers_are_written_as_std_writes_them() {
    let mut ser = Serializer::new();
    ser.serialize_i128(-170141183460469231731687303715884105727);
    ser.serialize_u128(0x0102030405060708090A0B0C0D0E0F10);
    ser.serialize_i64(-1234567890123);
    ser.serialize_i16(i16::MIN);
    let mut expected: Vec<u8> = Vec::new();
    expected.extend_from_slice(&(-170141183460469231731687303715884105727i128).to_be_bytes());
    expected.extend_from_slice(&0x0102030405060708090A0B0C0D0E0F10u128.to_be_bytes());
    expected.extend_from_slice(&(-1234567890123i64).to_be_bytes());
    expected.extend_from_slice(&i16::MIN.to_be_bytes());
    assert_eq!(ser.output, expected);
}

#[test]
fn the_scratch_accumulator_writes_the_count_first() {
    let mut parent = Serializer::new();
    parent.serialize_u8(0xAA);
    let mut seq = VecSerializer::new(&mut parent, None);
    assert_eq!(seq.serialize_element(&Value::U16(1)), Ok(()));
    assert_eq!(seq.serialize_element(&Value::U16(2)), Ok(()));
    assert_eq!(seq.len, 2);
    assert_eq!(seq.serializer.output, vec![0, 1, 0, 2]);
    assert_eq!(seq.end(), Ok(()));
    assert_eq!(parent.output, vec![0xAA, 2, 0, 1, 0, 2]);
}

#[test]
fn the_cursor_reads_one_primitive_at_a_time() {
    let data = handshake_bytes();
    let mut de = Deserializer::new(&data);
    assert_eq!(de.len_read(), 0);
    assert_eq!(de.deserialize_u8(), Ok(0));
    assert_eq!(de.deserialize_varint(), Ok(754));
    assert_eq!(de.len_read(), 3);
    assert_eq!(de.deserialize_str(), Ok("localhost"));
    assert_eq!(de.deserialize_u16(), Ok(25565));
    assert_eq!(de.deserialize_varint(), Ok(1));
    assert_eq!(de.len_read(), 16);
    assert!(de.remaining().is_empty());
    assert_eq!(de.deserialize_u8(), Err(parse_error(ErrorKind::UnexpectedEnd, 16, 16)));
    assert_eq!(de.deserialize_unit(), Ok(()));
    assert_eq!(de.deserialize_map(), Err(Error::De(DeError::InvalidType("map"))));
    assert_eq!(de.deserialize_any(), Err(Error::De(DeError::InvalidType("any"))));
    assert_eq!(de.deserialize_char(), Err(Error::De(DeError::InvalidType("char"))));
    assert_eq!(de.len_read(), 16);
}

#[test]
fn the_cursor_does_not_move_on_a_fault() {
    let data = [0x05u8, b'a', b'b'];
    let mut de = Deserializer::new(&data);
    assert_eq!(de.deserialize_string(), Err(parse_error(ErrorKind::UnexpectedEnd, 1, 1)));
    assert_eq!(de.len_read(), 0);
    assert_eq!(de.deserialize_bool(), Err(parse_error(ErrorKind::InvalidBoolean { byte: 5 }, 0, 1)));
    assert_eq!(de.len_read(), 0);
    assert_eq!(de.deserialize_seq(), Ok(5));
    assert_eq!(de.deserialize_bytes(), Ok(&b"ab"[..]));
    assert_eq!(de.deserialize_byte_buf(), Ok(vec![]));
    assert_eq!(de.len_read(), 3);
}
