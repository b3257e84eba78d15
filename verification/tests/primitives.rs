use digmake::mon::error::{Error as MonError, ErrorKind};
use digmake::mon::primitives::{
    be_f32_bits, be_f64_bits, be_i128, be_i16, be_i32, be_i64, be_i8, be_u128, be_u16, be_u32,
    be_u64, be_u8, be_uint, rest_bytes, take, Parse, ParseB,
};
use digmake::types::{VarInt, VarLong};

type NomError<'a> = nom::error::Error<&'a [u8]>;

const SAMPLE: [u8; 20] = [
    0x00, 0x01, 0x7F, 0x80, 0xFF, 0xFE, 0x12, 0x34, 0x56, 0x78, 0x9A, 0xBC, 0xDE, 0xF0, 0x0F,
    0xF1, 0x80, 0x00, 0x00, 0x01,
];

#[test]
fn fixed_width_integers_are_big_endian() {
    assert_eq!(be_u8(&[0x2A, 0x01]), Ok((&[0x01u8][..], 42)));
    assert_eq!(be_u16(&[0x63, 0xDD]), Ok((&[][..], 25565)));
    assert_eq!(be_u32(&[0x00, 0x00, 0x01, 0x00, 0x07]), Ok((&[0x07u8][..], 256)));
    assert_eq!(be_u64(&[0, 0, 0, 0x20, 0, 0, 0, 0]), Ok((&[][..], 1u64 << 37)));
    assert_eq!(
        be_u128(&[0x80, 0, 0, 0, 0, 0, 0, 0, 0, 0, 0, 0, 0, 0, 0, 0x01]),
        Ok((&[][..], (1u128 << 127) + 1))
    );
    assert_eq!(be_i8(&[0xFF]), Ok((&[][..], -1)));
    assert_eq!(be_i8(&[0x80]), Ok((&[][..], i8::MIN)));
    assert_eq!(be_i16(&[0xFF, 0xFE]), Ok((&[][..], -2)));
    assert_eq!(be_i16(&[0x12, 0x56]), Ok((&[][..], 4694)));
    assert_eq!(be_i32(&[0x03, 0x00, 0x12, 0x56]), Ok((&[][..], 50336342)));
    assert_eq!(be_i32(&[0x80, 0x00, 0x00, 0x00]), Ok((&[][..], i32::MIN)));
    assert_eq!(be_i64(&[0xFF; 8]), Ok((&[][..], -1)));
    assert_eq!(be_i128(&[0xFF; 16]), Ok((&[][..], -1)));
    assert_eq!(
        be_i128(&[0x80, 0, 0, 0, 0, 0, 0, 0, 0, 0, 0, 0, 0, 0, 0, 0]),
        Ok((&[][..], i128::MIN))
    );
    assert_eq!(be_uint(&[0x01, 0x02, 0x03, 0x04], 3), Ok((&[0x04u8][..], 0x010203)));
    assert_eq!(be_uint(&[0x01], 0), Ok((&[0x01u8][..], 0)));
}

#[test]
fn floats_are_read_as_their_bit_patterns() {
    let one = 1.0f32.to_be_bytes();
    let (rest, bits) = be_f32_bits(&one).unwrap();
    assert!(rest.is_empty());
    assert_eq!(f32::from_bits(bits), 1.0f32);
    let value = (-2.5f64).to_be_bytes();
    let (rest, bits) = be_f64_bits(&value).unwrap();
    assert!(rest.is_empty());
    assert_eq!(f64::from_bits(bits), -2.5f64);
}

#[test]
fn fixed_width_integers_agree_with_nom() {
    for start in 0..SAMPLE.len() {
        let input = &SAMPLE[start..];
        match nom::number::complete::be_u8::<_, NomError>(input) {
            Ok((rest, v)) => assert_eq!(be_u8(input), Ok((rest, v))),
            Err(_) => assert!(be_u8(input).is_err()),
        }
        match nom::number::complete::be_u16::<_, NomError>(input) {
            Ok((rest, v)) => assert_eq!(be_u16(input), Ok((rest, v))),
            Err(_) => assert!(be_u16(input).is_err()),
        }
        match nom::number::complete::be_u32::<_, NomError>(input) {
            Ok((rest, v)) => assert_eq!(be_u32(input), Ok((rest, v))),
            Err(_) => assert!(be_u32(input).is_err()),
        }
        match nom::number::complete::be_u64::<_, NomError>(input) {
            Ok((rest, v)) => assert_eq!(be_u64(input), Ok((rest, v))),
            Err(_) => assert!(be_u64(input).is_err()),
        }
        match nom::number::complete::be_u128::<_, NomError>(input) {
            Ok((rest, v)) => assert_eq!(be_u128(input), Ok((rest, v))),
            Err(_) => assert!(be_u128(input).is_err()),
        }
        match nom::number::complete::be_i8::<_, NomError>(input) {
            Ok((rest, v)) => assert_eq!(be_i8(input), Ok((rest, v))),
            Err(_) => assert!(be_i8(input).is_err()),
        }
        match nom::number::complete::be_i16::<_, NomError>(input) {
            Ok((rest, v)) => assert_eq!(be_i16(input), Ok((rest, v))),
            Err(_) => assert!(be_i16(input).is_err()),
        }
        match nom::number::complete::be_i32::<_, NomError>(input) {
            Ok((rest, v)) => assert_eq!(be_i32(input), Ok((rest, v))),
            Err(_) => assert!(be_i32(input).is_err()),
        }
        match nom::number::complete::be_i64::<_, NomError>(input) {
            Ok((rest, v)) => assert_eq!(be_i64(input), Ok((rest, v))),
            Err(_) => assert!(be_i64(input).is_err()),
        }
        match nom::number::complete::be_i128::<_, NomError>(input) {
            Ok((rest, v)) => assert_eq!(be_i128(input), Ok((rest, v))),
            Err(_) => assert!(be_i128(input).is_err()),
        }
    }
}

#[test]
fn take_agrees_with_nom() {
    for n in 0..(SAMPLE.len() + 2) {
        match nom::bytes::complete::take::<_, _, NomError>(n)(&SAMPLE[..]) {
            Ok((rest, taken)) => assert_eq!(take(&SAMPLE, n), Ok((rest, taken))),
            Err(_) => assert!(take(&SAMPLE, n).is_err()),
        }
    }
}

#[test]
fn a_short_buffer_is_an_unexpected_end_and_nothing_is_consumed() {
    let input = [0x01u8, 0x02, 0x03];
    let expected =
        MonError { kind: ErrorKind::UnexpectedEnd, input: &input[..], rest: &input[..] };
    assert_eq!(be_u32(&input), Err(expected));
    assert_eq!(be_i64(&input), Err(expected));
    assert_eq!(take(&input, 4), Err(expected));
    assert_eq!(be_u32(&input).unwrap_err().offset(), 0);
    let empty: [u8; 0] = [];
    assert_eq!(be_u8(&empty).unwrap_err().kind, ErrorKind::UnexpectedEnd);
}

#[test]
fn rest_bytes_takes_everything() {
    let input = [63u8, 231, 92, 12];
    let (rest, all) = rest_bytes(&input);
    assert!(rest.is_empty());
    assert_eq!(all, &input[..]);
    let empty: [u8; 0] = [];
    assert_eq!(rest_bytes(&empty), (&empty[..], &empty[..]));
}

#[test]
fn booleans_are_strict() {
    assert_eq!(<bool as Parse<bool>>::parse(&[0x00, 0x07]), Ok((&[0x07u8][..], false)));
    assert_eq!(<bool as Parse<bool>>::parse(&[0x01]), Ok((&[][..], true)));
    let input = [0x02u8, 0x00];
    assert_eq!(
        <bool as Parse<bool>>::parse(&input),
        Err(MonError {
            kind: ErrorKind::InvalidBoolean { byte: 0x02 },
            input: &input[..],
            rest: &input[1..],
        })
    );
    let input = [0xFFu8];
    assert_eq!(
        <bool as Parse<bool>>::parse(&input).unwrap_err().kind,
        ErrorKind::InvalidBoolean { byte: 0xFF }
    );
    let empty: [u8; 0] = [];
    assert_eq!(
        <bool as Parse<bool>>::parse(&empty).unwrap_err().kind,
        ErrorKind::UnexpectedEnd
    );
}

#[test]
fn variable_length_integers_are_read_from_a_slice() {
    assert_eq!(<VarInt as Parse<i32>>::parse(&[0xF2, 0x05, 0x09]), Ok((&[0x09u8][..], 754)));
    assert_eq!(<VarLong as Parse<i64>>::parse(&[0x7F]), Ok((&[][..], 127)));
    assert_eq!(VarInt::max_size(), 5);
    assert_eq!(VarLong::max_size(), 10);

    let input = [0x80u8, 0x80, 0x80, 0x80, 0x80, 0x01];
    let e = <VarInt as Parse<i32>>::parse(&input).unwrap_err();
    assert_eq!(e.kind, ErrorKind::VarNumTooLong { byte: 0x80, position: 4 });
    assert_eq!(e.input, &input[..]);
    assert_eq!(e.rest, &input[5..]);
    assert_eq!(e.offset(), 5);

    let input = [0x80u8, 0x80];
    let e = <VarInt as Parse<i32>>::parse(&input).unwrap_err();
    assert_eq!(e.kind, ErrorKind::UnexpectedEnd);
    assert_eq!(e.offset(), 2);
}

#[test]
fn lengths_must_not_be_negative() {
    assert_eq!(VarInt::parse_as_usize(&[0x09, 0x6C]), Ok((&[0x6Cu8][..], 9)));
    let input = [0xFFu8, 0xFF, 0xFF, 0xFF, 0x0F, 0x00];
    let e = VarInt::parse_as_usize(&input).unwrap_err();
    assert_eq!(e.kind, ErrorKind::NumericRange);
    assert_eq!(e.input, &input[..]);
    assert_eq!(e.rest, &input[5..]);
    assert_eq!(VarLong::parse_as_usize(&[0xAC, 0x02]), Ok((&[][..], 300)));
    let input = [0xFFu8, 0xFF, 0xFF, 0xFF, 0xFF, 0xFF, 0xFF, 0xFF, 0xFF, 0x01];
    assert_eq!(VarLong::parse_as_usize(&input).unwrap_err().kind, ErrorKind::NumericRange);
}

#[test]
fn strings_are_borrowed_from_the_buffer() {
    let input = [0x09u8, b'l', b'o', b'c', b'a', b'l', b'h', b'o', b's', b't', 0x63, 0xDD];
    let (rest, text) = <String as ParseB<str>>::parse(&input).unwrap();
    assert_eq!(text, "localhost");
    assert_eq!(rest, &[0x63u8, 0xDD][..]);
    assert_eq!(text.as_bytes().as_ptr(), input[1..].as_ptr());
}

#[test]
fn strings_hold_any_utf8() {
    let text = "gr\u{fc}\u{df}e \u{4e16}\u{754c} \u{1f600}";
    let mut input = vec![text.len() as u8];
    input.extend_from_slice(text.as_bytes());
    assert_eq!(<String as ParseB<str>>::parse(&input), Ok((&[][..], text)));
    assert_eq!(<String as ParseB<str>>::parse(&[0x00, 0x41]), Ok((&[0x41u8][..], "")));
}

#[test]
fn invalid_utf8_is_an_error_that_holds_the_bytes_of_the_string() {
    let input = [0x02u8, 0xC3, 0x28, 0x41];
    let e = <String as ParseB<str>>::parse(&input).unwrap_err();
    assert_eq!(e.kind, ErrorKind::InvalidUtf8);
    assert_eq!(e.input, &input[1..]);
    assert_eq!(e.rest, &input[3..]);
    assert_eq!(e.offset(), 2);

    for bad in [&[0x01u8, 0xFF][..], &[0x03, 0xED, 0xA0, 0x80], &[0x02, 0xC0, 0x80], &[0x01, 0x80]] {
        assert_eq!(
            <String as ParseB<str>>::parse(bad).unwrap_err().kind,
            ErrorKind::InvalidUtf8
        );
    }
}

#[test]
fn a_string_that_runs_past_the_buffer_is_an_unexpected_end() {
    let input = [0x05u8, b'a', b'b'];
    let e = <String as ParseB<str>>::parse(&input).unwrap_err();
    assert_eq!(e.kind, ErrorKind::UnexpectedEnd);
    assert_eq!(e.input, &input[1..]);
    assert_eq!(e.rest, &input[1..]);

    let input = [0x80u8];
    let e = <String as ParseB<str>>::parse(&input).unwrap_err();
    assert_eq!(e.kind, ErrorKind::UnexpectedEnd);
    assert_eq!(e.input, &input[..]);

    let input = [0xFFu8, 0xFF, 0xFF, 0xFF, 0x0F];
    assert_eq!(
        <String as ParseB<str>>::parse(&input).unwrap_err().kind,
        ErrorKind::NumericRange
    );
}

#[test]
fn the_offset_of_an_error_counts_the_bytes_before_the_fault() {
    let input = [1u8, 2, 3, 4];
    let e = MonError { kind: ErrorKind::InvalidUtf8, input: &input[1..], rest: &input[3..] };
    assert_eq!(e.offset(), 2);
    let e = MonError { kind: ErrorKind::UnexpectedEnd, input: &input[..], rest: &input[..] };
    assert_eq!(e.offset(), 0);
    let e = MonError { kind: ErrorKind::UnexpectedEnd, input: &input[3..], rest: &input[..] };
    assert_eq!(e.offset(), 0);
}

#[test]
fn errors_are_made_from_the_slices_of_a_read() {
    let input = [1u8, 2, 3, 4];
    assert_eq!(
        MonError::custom_raw(&input, ErrorKind::InvalidUtf8),
        MonError { kind: ErrorKind::InvalidUtf8, input: &input[..], rest: &input[..] }
    );
    assert_eq!(
        MonError::custom::<u8>(&input[1..], ErrorKind::NumericRange),
        Err(MonError { kind: ErrorKind::NumericRange, input: &input[1..], rest: &input[1..] })
    );
    let failed = MonError::custom_slice::<bool>(
        &input,
        &input[1..],
        ErrorKind::InvalidBoolean { byte: 1 },
    );
    let e = failed.unwrap_err();
    assert_eq!(e.offset(), 1);
    assert!(!e.is_eof());
    assert_eq!(e.as_eof(), None);
    let e = MonError::custom_raw(&input[4..], ErrorKind::UnexpectedEnd);
    assert!(e.is_eof());
    assert_eq!(e.as_eof(), Some(ErrorKind::UnexpectedEnd));
}
