//! The primitive readers: each takes the current slice of a buffer and gives
//! back the slice that is left together with the value, or an error that
//! holds the slice it was handed and the slice at the point of failure.

use crate::mon::error::{Error, ErrorKind};
use crate::types::{sign_extend, VarInt, VarLong};
use crate::varnum::{
    decode_varint, decode_varlong, lemma_scan_err, lemma_scan_ok, parse_varint, parse_varlong,
    scan_varnum, varint_to_usize, varlong_to_usize, VARINT_MAX_BYTES, VARLONG_MAX_BYTES,
};
use vstd::prelude::*;
use vstd::string::StringSliceAdditionalSpecFns;
use vstd::utf8::valid_utf8;

verus! {

/// `256` to the power `n`.
pub open spec fn pow256(n: nat) -> nat
    decreases n,
{
    if n == 0 {
        1
    } else {
        256 * pow256((n - 1) as nat)
    }
}

/// The number that `bytes` spell in base 256, most significant byte first.
pub open spec fn be_value(bytes: Seq<u8>) -> nat
    decreases bytes.len(),
{
    if bytes.len() == 0 {
        0
    } else {
        256 * be_value(bytes.drop_last()) + bytes.last() as nat
    }
}

/// A read of `n` bytes went well: `rest` is `input` without its first `n`
/// bytes.
pub open spec fn consumed(input: Seq<u8>, n: nat, rest: Seq<u8>) -> bool {
    n <= input.len() && rest == input.skip(n as int)
}

/// Where and why a read fails: the primitive that failed was entered at
/// byte `start` of the input and gave up at byte `end`.
pub struct Fault {
    pub kind: ErrorKind,
    pub start: nat,
    pub end: nat,
}

/// The error `e` reports `fault` on `input`: it holds the slice that the
/// failing primitive was handed and the slice at the point of failure.
pub open spec fn failed(input: Seq<u8>, fault: Fault, e: Error) -> bool {
    &&& fault.start <= fault.end <= input.len()
    &&& e.kind == fault.kind
    &&& e.input@ == input.skip(fault.start as int)
    &&& e.rest@ == input.skip(fault.end as int)
}

/// The fault of a primitive that found the input too short on entry.
pub open spec fn short_input() -> Fault {
    Fault { kind: ErrorKind::UnexpectedEnd, start: 0, end: 0 }
}

/// The result `r` of a read of `input` is the one that `expected` calls
/// for: the same value and the rest after the same number of bytes, or an
/// error that reports the same fault.
pub open spec fn agrees<T>(
    input: Seq<u8>,
    r: Result<(&[u8], T), Error>,
    expected: Result<(nat, T), Fault>,
) -> bool {
    match r {
        Ok((rest, v)) => expected matches Ok((n, w)) && w == v && consumed(input, n, rest@),
        Err(e) => expected matches Err(fault) && failed(input, fault, e),
    }
}

/// A number of `n` bytes is below `256` to the power `n`.
pub proof fn lemma_be_value_bound(bytes: Seq<u8>)
    ensures
        be_value(bytes) < pow256(bytes.len()),
    decreases bytes.len(),
{
    if bytes.len() > 0 {
        lemma_be_value_bound(bytes.drop_last());
    }
}

/// The powers of `256` at the widths of the fixed-width integers.
pub proof fn lemma_pow256_widths()
    ensures
        pow256(1) == 0x100,
        pow256(2) == 0x1_0000,
        pow256(4) == 0x1_0000_0000,
        pow256(8) == 0x1_0000_0000_0000_0000,
        pow256(15) == 0x100_0000_0000_0000_0000_0000_0000_0000,
        pow256(16) == 0x1_0000_0000_0000_0000_0000_0000_0000_0000int,
{
    reveal_with_fuel(pow256, 17);
}

/// The powers of `256` grow.
pub proof fn lemma_pow256_monotonic(n: nat, m: nat)
    requires
        n <= m,
    ensures
        0 < pow256(n) <= pow256(m),
    decreases m - n,
{
    if n < m {
        lemma_pow256_monotonic(n, (m - 1) as nat);
    } else {
        lemma_pow256_positive(n);
    }
}

/// Every power of `256` is positive.
pub proof fn lemma_pow256_positive(n: nat)
    ensures
        0 < pow256(n),
    decreases n,
{
    if n > 0 {
        lemma_pow256_positive((n - 1) as nat);
    }
}

/// Splits off the first `n` bytes. Fails, consuming nothing, when fewer
/// than `n` bytes are left.
pub fn take<'a>(input: &'a [u8], n: usize) -> (r: Result<(&'a [u8], &'a [u8]), Error<'a>>)
    ensures
        r matches Ok((rest, taken)) ==> consumed(input@, n as nat, rest@) && taken@ == input@.take(
            n as int,
        ),
        r matches Err(e) ==> input.len() < n && failed(input@, short_input(), e),
{
    if input.len() < n {
        assert(input@.skip(0) =~= input@);
        Err(Error { kind: ErrorKind::UnexpectedEnd, input, rest: input })
    } else {
        Ok((&input[n..input.len()], &input[0..n]))
    }
}

/// Takes every byte that is left. This is how a byte array without a length
/// prefix is read: it runs to the end of the frame.
pub fn rest_bytes<'a>(input: &'a [u8]) -> (r: (&'a [u8], &'a [u8]))
    ensures
        r.0@ == Seq::<u8>::empty(),
        r.1@ == input@,
{
    let n = input.len();
    assert(input@.subrange(0, n as int) =~= input@);
    (&input[n..n], &input[0..n])
}

/// Reads an unsigned big-endian integer of `width` bytes.
pub fn be_uint<'a>(input: &'a [u8], width: usize) -> (r: Result<(&'a [u8], u128), Error<'a>>)
    requires
        width <= 16,
    ensures
        r matches Ok((rest, v)) ==> consumed(input@, width as nat, rest@) && v == be_value(
            input@.take(width as int),
        ),
        r matches Err(e) ==> input.len() < width && failed(input@, short_input(), e),
{
    let (rest, bytes) = take(input, width)?;
    let mut acc: u128 = 0;
    let mut i: usize = 0;
    assert(bytes@.take(0) =~= Seq::<u8>::empty());
    while i < width
        invariant
            i <= width <= 16,
            bytes@.len() == width,
            acc == be_value(bytes@.take(i as int)),
        decreases width - i,
    {
        proof {
            let longer = bytes@.take(i as int + 1);
            assert(longer.drop_last() =~= bytes@.take(i as int));
            lemma_be_value_bound(bytes@.take(i as int));
            lemma_pow256_monotonic(i as nat, 15);
            lemma_pow256_widths();
        }
        acc = acc * 256 + bytes[i] as u128;
        i = i + 1;
    }
    assert(bytes@.take(width as int) =~= bytes@);
    Ok((rest, acc))
}

/// Reads one byte.
pub fn be_u8<'a>(input: &'a [u8]) -> (r: Result<(&'a [u8], u8), Error<'a>>)
    ensures
        r matches Ok((rest, v)) ==> consumed(input@, 1, rest@) && v == input@[0],
        r matches Err(e) ==> input.len() < 1 && failed(input@, short_input(), e),
{
    let (rest, bytes) = take(input, 1)?;
    Ok((rest, bytes[0]))
}

/// Reads an unsigned 16-bit big-endian integer.
pub fn be_u16<'a>(input: &'a [u8]) -> (r: Result<(&'a [u8], u16), Error<'a>>)
    ensures
        r matches Ok((rest, v)) ==> consumed(input@, 2, rest@) && v == be_value(input@.take(2)),
        r matches Err(e) ==> input.len() < 2 && failed(input@, short_input(), e),
{
    let (rest, v) = be_uint(input, 2)?;
    proof {
        lemma_be_value_bound(input@.take(2));
        lemma_pow256_widths();
    }
    Ok((rest, v as u16))
}

/// Reads an unsigned 32-bit big-endian integer.
pub fn be_u32<'a>(input: &'a [u8]) -> (r: Result<(&'a [u8], u32), Error<'a>>)
    ensures
        r matches Ok((rest, v)) ==> consumed(input@, 4, rest@) && v == be_value(input@.take(4)),
        r matches Err(e) ==> input.len() < 4 && failed(input@, short_input(), e),
{
    let (rest, v) = be_uint(input, 4)?;
    proof {
        lemma_be_value_bound(input@.take(4));
        lemma_pow256_widths();
    }
    Ok((rest, v as u32))
}

/// Reads an unsigned 64-bit big-endian integer.
pub fn be_u64<'a>(input: &'a [u8]) -> (r: Result<(&'a [u8], u64), Error<'a>>)
    ensures
        r matches Ok((rest, v)) ==> consumed(input@, 8, rest@) && v == be_value(input@.take(8)),
        r matches Err(e) ==> input.len() < 8 && failed(input@, short_input(), e),
{
    let (rest, v) = be_uint(input, 8)?;
    proof {
        lemma_be_value_bound(input@.take(8));
        lemma_pow256_widths();
    }
    Ok((rest, v as u64))
}

/// Reads an unsigned 128-bit big-endian integer.
pub fn be_u128<'a>(input: &'a [u8]) -> (r: Result<(&'a [u8], u128), Error<'a>>)
    ensures
        r matches Ok((rest, v)) ==> consumed(input@, 16, rest@) && v == be_value(input@.take(16)),
        r matches Err(e) ==> input.len() < 16 && failed(input@, short_input(), e),
{
    be_uint(input, 16)
}

/// Reads a signed byte in two's complement.
pub fn be_i8<'a>(input: &'a [u8]) -> (r: Result<(&'a [u8], i8), Error<'a>>)
    ensures
        r matches Ok((rest, v)) ==> consumed(input@, 1, rest@) && v == sign_extend(
            input@[0] as int,
            0x100,
        ),
        r matches Err(e) ==> input.len() < 1 && failed(input@, short_input(), e),
{
    let (rest, v) = be_u8(input)?;
    let s: i8 = if v >= 0x80 {
        (v as i16 - 0x100) as i8
    } else {
        v as i8
    };
    Ok((rest, s))
}

/// Reads a signed 16-bit big-endian integer in two's complement.
pub fn be_i16<'a>(input: &'a [u8]) -> (r: Result<(&'a [u8], i16), Error<'a>>)
    ensures
        r matches Ok((rest, v)) ==> consumed(input@, 2, rest@) && v == sign_extend(
            be_value(input@.take(2)) as int,
            0x1_0000,
        ),
        r matches Err(e) ==> input.len() < 2 && failed(input@, short_input(), e),
{
    let (rest, v) = be_u16(input)?;
    let s: i16 = if v >= 0x8000 {
        (v as i32 - 0x1_0000) as i16
    } else {
        v as i16
    };
    Ok((rest, s))
}

/// Reads a signed 32-bit big-endian integer in two's complement.
pub fn be_i32<'a>(input: &'a [u8]) -> (r: Result<(&'a [u8], i32), Error<'a>>)
    ensures
        r matches Ok((rest, v)) ==> consumed(input@, 4, rest@) && v == sign_extend(
            be_value(input@.take(4)) as int,
            0x1_0000_0000,
        ),
        r matches Err(e) ==> input.len() < 4 && failed(input@, short_input(), e),
{
    let (rest, v) = be_u32(input)?;
    let s: i32 = if v >= 0x8000_0000 {
        (v as i64 - 0x1_0000_0000) as i32
    } else {
        v as i32
    };
    Ok((rest, s))
}

/// Reads a signed 64-bit big-endian integer in two's complement.
pub fn be_i64<'a>(input: &'a [u8]) -> (r: Result<(&'a [u8], i64), Error<'a>>)
    ensures
        r matches Ok((rest, v)) ==> consumed(input@, 8, rest@) && v == sign_extend(
            be_value(input@.take(8)) as int,
            0x1_0000_0000_0000_0000,
        ),
        r matches Err(e) ==> input.len() < 8 && failed(input@, short_input(), e),
{
    let (rest, v) = be_u64(input)?;
    let s: i64 = if v >= 0x8000_0000_0000_0000 {
        (v as i128 - 0x1_0000_0000_0000_0000) as i64
    } else {
        v as i64
    };
    Ok((rest, s))
}

/// Reads a signed 128-bit big-endian integer in two's complement.
pub fn be_i128<'a>(input: &'a [u8]) -> (r: Result<(&'a [u8], i128), Error<'a>>)
    ensures
        r matches Ok((rest, v)) ==> consumed(input@, 16, rest@) && v == sign_extend(
            be_value(input@.take(16)) as int,
            0x1_0000_0000_0000_0000_0000_0000_0000_0000int,
        ),
        r matches Err(e) ==> input.len() < 16 && failed(input@, short_input(), e),
{
    let (rest, v) = be_u128(input)?;
    let s: i128 = if v >= 0x8000_0000_0000_0000_0000_0000_0000_0000 {
        (v - 0x8000_0000_0000_0000_0000_0000_0000_0000) as i128 + i128::MIN
    } else {
        v as i128
    };
    Ok((rest, s))
}

/// Reads the bit pattern of a 32-bit IEEE-754 number. The caller turns the
/// bits into a number.
pub fn be_f32_bits<'a>(input: &'a [u8]) -> (r: Result<(&'a [u8], u32), Error<'a>>)
    ensures
        r matches Ok((rest, v)) ==> consumed(input@, 4, rest@) && v == be_value(input@.take(4)),
        r matches Err(e) ==> input.len() < 4 && failed(input@, short_input(), e),
{
    be_u32(input)
}

/// Reads the bit pattern of a 64-bit IEEE-754 number. The caller turns the
/// bits into a number.
pub fn be_f64_bits<'a>(input: &'a [u8]) -> (r: Result<(&'a [u8], u64), Error<'a>>)
    ensures
        r matches Ok((rest, v)) ==> consumed(input@, 8, rest@) && v == be_value(input@.take(8)),
        r matches Err(e) ==> input.len() < 8 && failed(input@, short_input(), e),
{
    be_u64(input)
}

/// A type whose values are read from the front of a buffer.
pub trait Parse<T> {
    /// What `parse` makes of `input`: the number of bytes read and the
    /// value, or the fault.
    spec fn spec_parse(input: Seq<u8>) -> Result<(nat, T), Fault>;

    /// Reads one value from the front of `input`.
    fn parse<'a>(input: &'a [u8]) -> (r: Result<(&'a [u8], T), Error<'a>>)
        ensures
            agrees(input@, r, Self::spec_parse(input@)),
    ;
}

/// A type whose values are read from the front of a buffer without a copy:
/// the value borrows the bytes it was read from.
pub trait ParseB<T: ?Sized> {
    /// What `parse` makes of `input`: the number of bytes read and the bytes
    /// that the value is made of, or the fault.
    spec fn spec_parse(input: Seq<u8>) -> Result<(nat, Seq<u8>), Fault>;

    /// The bytes that a value is made of.
    spec fn bytes_of(value: &T) -> Seq<u8>;

    /// Reads one value from the front of `input`.
    fn parse<'a>(input: &'a [u8]) -> (r: Result<(&'a [u8], &'a T), Error<'a>>)
        ensures
            match r {
                Ok((rest, v)) => Self::spec_parse(input@) matches Ok((n, bytes)) && bytes
                    == Self::bytes_of(v) && consumed(input@, n, rest@),
                Err(e) => Self::spec_parse(input@) matches Err(fault) && failed(input@, fault, e),
            },
    ;
}

/// Where reading a variable-length integer from `input` fails with `kind`:
/// behind the byte that asked for too much, or at the end of the input.
pub open spec fn varnum_fault(input: Seq<u8>, kind: ErrorKind) -> Fault {
    match kind {
        ErrorKind::VarNumTooLong { byte, position } => Fault {
            kind,
            start: 0,
            end: (position + 1) as nat,
        },
        _ => Fault { kind, start: 0, end: input.len() },
    }
}

/// What reading a length from `input` gives: a 32-bit variable-length
/// integer that must not be negative.
pub open spec fn parse_length(input: Seq<u8>) -> Result<(nat, nat), Fault> {
    match parse_varint(input) {
        Ok((n, v)) => if v < 0 {
            Err(Fault { kind: ErrorKind::NumericRange, start: 0, end: n })
        } else {
            Ok((n, v as nat))
        },
        Err(kind) => Err(varnum_fault(input, kind)),
    }
}

/// What reading a length from `input` gives: a 64-bit variable-length
/// integer that must fit the unsigned size type.
pub open spec fn parse_long_length(input: Seq<u8>) -> Result<(nat, nat), Fault> {
    match parse_varlong(input) {
        Ok((n, v)) => if v < 0 || v > usize::MAX {
            Err(Fault { kind: ErrorKind::NumericRange, start: 0, end: n })
        } else {
            Ok((n, v as nat))
        },
        Err(kind) => Err(varnum_fault(input, kind)),
    }
}

/// What reading a boolean from `input` gives.
pub open spec fn parse_bool(input: Seq<u8>) -> Result<(nat, bool), Fault> {
    if input.len() == 0 {
        Err(short_input())
    } else if input[0] == 0 {
        Ok((1, false))
    } else if input[0] == 1 {
        Ok((1, true))
    } else {
        Err(Fault { kind: ErrorKind::InvalidBoolean { byte: input[0] }, start: 0, end: 1 })
    }
}

/// What reading a string from `input` gives: a length, then that many
/// bytes, which must be valid UTF-8. A fault in the bytes of the string is
/// reported from where they start.
pub open spec fn parse_string(input: Seq<u8>) -> Result<(nat, Seq<u8>), Fault> {
    match parse_length(input) {
        Ok((n, len)) => {
            let content = input.subrange(n as int, (n + len) as int);
            if input.len() - n < len {
                Err(Fault { kind: ErrorKind::UnexpectedEnd, start: n, end: n })
            } else if !valid_utf8(content) {
                Err(Fault { kind: ErrorKind::InvalidUtf8, start: n, end: n + len })
            } else {
                Ok((n + len, content))
            }
        },
        Err(fault) => Err(fault),
    }
}

/// Builds the error of a variable-length integer that failed with `kind`.
fn varnum_error<'a>(input: &'a [u8], kind: ErrorKind, limit: usize) -> (e: Error<'a>)
    requires
        0 < limit <= VARLONG_MAX_BYTES,
        scan_varnum(input@, 0, limit as nat) == Err::<nat, ErrorKind>(kind),
    ensures
        failed(input@, varnum_fault(input@, kind), e),
{
    proof {
        lemma_scan_err(input@, 0, limit as nat, kind);
        assert(input@.skip(0) =~= input@);
    }
    let end = match kind {
        ErrorKind::VarNumTooLong { byte, position } => position + 1,
        _ => input.len(),
    };
    Error { kind, input, rest: &input[end..input.len()] }
}

impl Parse<i32> for VarInt {
    open spec fn spec_parse(input: Seq<u8>) -> Result<(nat, i32), Fault> {
        match parse_varint(input) {
            Ok((n, v)) => Ok((n, v)),
            Err(kind) => Err(varnum_fault(input, kind)),
        }
    }

    fn parse<'a>(input: &'a [u8]) -> (r: Result<(&'a [u8], i32), Error<'a>>) {
        match decode_varint(input) {
            Ok((n, v)) => {
                proof {
                    lemma_scan_ok(input@, 0, VARINT_MAX_BYTES as nat, n as nat);
                }
                Ok((&input[n..input.len()], v))
            },
            Err(kind) => Err(varnum_error(input, kind, VARINT_MAX_BYTES)),
        }
    }
}

impl Parse<i64> for VarLong {
    open spec fn spec_parse(input: Seq<u8>) -> Result<(nat, i64), Fault> {
        match parse_varlong(input) {
            Ok((n, v)) => Ok((n, v)),
            Err(kind) => Err(varnum_fault(input, kind)),
        }
    }

    fn parse<'a>(input: &'a [u8]) -> (r: Result<(&'a [u8], i64), Error<'a>>) {
        match decode_varlong(input) {
            Ok((n, v)) => {
                proof {
                    lemma_scan_ok(input@, 0, VARLONG_MAX_BYTES as nat, n as nat);
                }
                Ok((&input[n..input.len()], v))
            },
            Err(kind) => Err(varnum_error(input, kind, VARLONG_MAX_BYTES)),
        }
    }
}

impl VarInt {
    /// The most bytes the integer may occupy on the wire.
    pub fn max_size() -> (n: usize)
        ensures
            n == VARINT_MAX_BYTES,
    {
        VARINT_MAX_BYTES
    }

    /// Reads a length: a variable-length integer that must not be negative.
    pub fn parse_as_usize<'a>(input: &'a [u8]) -> (r: Result<(&'a [u8], usize), Error<'a>>)
        ensures
            match r {
                Ok((rest, v)) => parse_length(input@) matches Ok((n, w)) && w == v && consumed(
                    input@,
                    n,
                    rest@,
                ),
                Err(e) => parse_length(input@) matches Err(fault) && failed(input@, fault, e),
            },
    {
        let (rest, num) = <VarInt as Parse<i32>>::parse(input)?;
        match varint_to_usize(num) {
            Some(len) => Ok((rest, len)),
            None => {
                assert(input@.skip(0) =~= input@);
                Err(Error { kind: ErrorKind::NumericRange, input, rest })
            },
        }
    }
}

impl VarLong {
    /// The most bytes the integer may occupy on the wire.
    pub fn max_size() -> (n: usize)
        ensures
            n == VARLONG_MAX_BYTES,
    {
        VARLONG_MAX_BYTES
    }

    /// Reads a length: a variable-length integer that must fit the unsigned
    /// size type.
    pub fn parse_as_usize<'a>(input: &'a [u8]) -> (r: Result<(&'a [u8], usize), Error<'a>>)
        ensures
            match r {
                Ok((rest, v)) => parse_long_length(input@) matches Ok((n, w)) && w == v
                    && consumed(input@, n, rest@),
                Err(e) => parse_long_length(input@) matches Err(fault) && failed(input@, fault, e),
            },
    {
        let (rest, num) = <VarLong as Parse<i64>>::parse(input)?;
        match varlong_to_usize(num) {
            Some(len) => Ok((rest, len)),
            None => {
                assert(input@.skip(0) =~= input@);
                Err(Error { kind: ErrorKind::NumericRange, input, rest })
            },
        }
    }
}

impl Parse<bool> for bool {
    open spec fn spec_parse(input: Seq<u8>) -> Result<(nat, bool), Fault> {
        parse_bool(input)
    }

    fn parse<'a>(input: &'a [u8]) -> (r: Result<(&'a [u8], bool), Error<'a>>) {
        let (rest, byte) = take(input, 1)?;
        assert(input@.skip(0) =~= input@);
        match byte[0] {
            0x00 => Ok((rest, false)),
            0x01 => Ok((rest, true)),
            invalid => Err(
                Error { kind: ErrorKind::InvalidBoolean { byte: invalid }, input, rest },
            ),
        }
    }
}

/// `core::str::from_utf8`, which checks that a slice of bytes is UTF-8 and
/// hands the same bytes back as a string slice. The contract takes from its
/// documentation that the call succeeds exactly on valid UTF-8 and that the
/// string is made of the bytes it was given.
#[verifier::external_body]
fn str_from_utf8<'a>(bytes: &'a [u8]) -> (r: Option<&'a str>)
    ensures
        r is Some <==> valid_utf8(bytes@),
        r matches Some(s) ==> s.spec_bytes() == bytes@,
{
    match core::str::from_utf8(bytes) {
        Ok(s) => Some(s),
        Err(_) => None,
    }
}

impl ParseB<str> for String {
    open spec fn spec_parse(input: Seq<u8>) -> Result<(nat, Seq<u8>), Fault> {
        parse_string(input)
    }

    open spec fn bytes_of(value: &str) -> Seq<u8> {
        value.spec_bytes()
    }

    fn parse<'a>(input: &'a [u8]) -> (r: Result<(&'a [u8], &'a str), Error<'a>>) {
        let (content_input, len) = VarInt::parse_as_usize(input)?;
        let ghost n = (input@.len() - content_input@.len()) as nat;
        match take(content_input, len) {
            Ok((rest, data)) => {
                assert(data@ =~= input@.subrange(n as int, (n + len) as int));
                assert(rest@ =~= input@.skip((n + len) as int));
                match str_from_utf8(data) {
                    Some(text) => Ok((rest, text)),
                    None => Err(
                        Error {
                            kind: ErrorKind::InvalidUtf8,
                            input: content_input,
                            rest,
                        },
                    ),
                }
            },
            Err(e) => {
                assert(e.input@ =~= input@.skip(n as int));
                assert(e.rest@ =~= input@.skip(n as int));
                Err(e)
            },
        }
    }
}


} // verus!
