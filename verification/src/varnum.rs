//! Variable-length integers: seven bits of the value in each byte, the least
//! significant group first, the top bit of a byte set while more bytes
//! follow.

use crate::mon::error::ErrorKind;
use vstd::prelude::*;

verus! {

/// The most bytes a 32-bit variable-length integer may occupy.
pub const VARINT_MAX_BYTES: usize = 5;

/// The most bytes a 64-bit variable-length integer may occupy.
pub const VARLONG_MAX_BYTES: usize = 10;

/// `128` to the power `n`: the weight of the group at index `n`.
pub open spec fn pow128(n: nat) -> nat
    decreases n,
{
    if n == 0 {
        1
    } else {
        128 * pow128((n - 1) as nat)
    }
}

/// The seven value bits of a byte.
pub open spec fn group(byte: u8) -> nat {
    (byte % 128) as nat
}

/// The number whose base-128 digits, least significant first, are the
/// groups of `bytes`.
pub open spec fn groups_value(bytes: Seq<u8>) -> nat
    decreases bytes.len(),
{
    if bytes.len() == 0 {
        0
    } else {
        group(bytes[0]) + 128 * groups_value(bytes.skip(1))
    }
}

/// Walks `bytes` from index `at` to the first byte without a continuation
/// bit and gives the number of bytes up to and including it. The walk fails
/// where the buffer ends first, or where the byte at index `limit - 1` still
/// asks for more.
pub open spec fn scan_varnum(bytes: Seq<u8>, at: nat, limit: nat) -> Result<nat, ErrorKind>
    decreases limit - at,
{
    if at >= bytes.len() {
        Err(ErrorKind::UnexpectedEnd)
    } else if bytes[at as int] < 128 {
        Ok(at + 1)
    } else if at + 1 >= limit {
        Err(ErrorKind::VarNumTooLong { byte: bytes[at as int], position: at as usize })
    } else {
        scan_varnum(bytes, at + 1, limit)
    }
}

/// What reading one variable-length integer of at most `limit` bytes from
/// the front of `bytes` gives: the number of bytes read and the value of
/// their groups, not yet cut to a width.
pub open spec fn parse_varnum(bytes: Seq<u8>, limit: nat) -> Result<(nat, nat), ErrorKind> {
    match scan_varnum(bytes, 0, limit) {
        Ok(n) => Ok((n, groups_value(bytes.take(n as int)))),
        Err(e) => Err(e),
    }
}

/// The bytes of the shortest encoding of `v`.
pub open spec fn encode_groups(v: nat) -> Seq<u8>
    decreases v,
{
    if v < 128 {
        seq![v as u8]
    } else {
        seq![(128 + v % 128) as u8] + encode_groups(v / 128)
    }
}

/// The bit pattern of a 32-bit integer, read as an unsigned number.
pub open spec fn i32_bits(v: i32) -> nat {
    if v < 0 {
        (v + 0x1_0000_0000) as nat
    } else {
        v as nat
    }
}

/// The bit pattern of a 64-bit integer, read as an unsigned number.
pub open spec fn i64_bits(v: i64) -> nat {
    if v < 0 {
        (v + 0x1_0000_0000_0000_0000) as nat
    } else {
        v as nat
    }
}

/// The 32-bit integer whose bit pattern is the low 32 bits of `v`.
pub open spec fn wrap_i32(v: nat) -> i32 {
    let low = v % 0x1_0000_0000;
    if low >= 0x8000_0000 {
        (low - 0x1_0000_0000) as i32
    } else {
        low as i32
    }
}

/// The 64-bit integer whose bit pattern is the low 64 bits of `v`.
pub open spec fn wrap_i64(v: nat) -> i64 {
    let low = v % 0x1_0000_0000_0000_0000;
    if low >= 0x8000_0000_0000_0000 {
        (low - 0x1_0000_0000_0000_0000) as i64
    } else {
        low as i64
    }
}

/// The wire form of a 32-bit variable-length integer.
pub open spec fn varint_bytes(v: i32) -> Seq<u8> {
    encode_groups(i32_bits(v))
}

/// The wire form of a 64-bit variable-length integer.
pub open spec fn varlong_bytes(v: i64) -> Seq<u8> {
    encode_groups(i64_bits(v))
}

/// What reading a 32-bit variable-length integer from the front of `bytes`
/// gives: the number of bytes read and the value.
pub open spec fn parse_varint(bytes: Seq<u8>) -> Result<(nat, i32), ErrorKind> {
    match parse_varnum(bytes, VARINT_MAX_BYTES as nat) {
        Ok((n, v)) => Ok((n, wrap_i32(v))),
        Err(e) => Err(e),
    }
}

/// What reading a 64-bit variable-length integer from the front of `bytes`
/// gives: the number of bytes read and the value.
pub open spec fn parse_varlong(bytes: Seq<u8>) -> Result<(nat, i64), ErrorKind> {
    match parse_varnum(bytes, VARLONG_MAX_BYTES as nat) {
        Ok((n, v)) => Ok((n, wrap_i64(v))),
        Err(e) => Err(e),
    }
}

/// What reading a length from the front of `bytes` gives: a 32-bit
/// variable-length integer that must not be negative.
pub open spec fn parse_varint_usize(bytes: Seq<u8>) -> Result<(nat, nat), ErrorKind> {
    match parse_varint(bytes) {
        Ok((n, v)) => if v < 0 {
            Err(ErrorKind::NumericRange)
        } else {
            Ok((n, v as nat))
        },
        Err(e) => Err(e),
    }
}

/// What reading a length from the front of `bytes` gives: a 64-bit
/// variable-length integer that must fit the unsigned size type.
pub open spec fn parse_varlong_usize(bytes: Seq<u8>) -> Result<(nat, nat), ErrorKind> {
    match parse_varlong(bytes) {
        Ok((n, v)) => if v < 0 || v > usize::MAX {
            Err(ErrorKind::NumericRange)
        } else {
            Ok((n, v as nat))
        },
        Err(e) => Err(e),
    }
}

/// The state of a variable-length integer that is being read one byte at a
/// time: how many bytes have been taken, their value so far, and the weight
/// of the next group.
pub struct VarNumDecoder {
    limit: usize,
    count: usize,
    value: u128,
    scale: u128,
}

/// What a decoder says of the byte it was just given.
#[derive(Clone, Copy, Debug, PartialEq, Eq, Structural)]
pub enum VarNumStep {
    /// The integer goes on: hand over the next byte.
    More,
    /// The byte was the last one; the groups read have this value.
    Done(u128),
    /// The byte was the last one allowed and still asked for more.
    TooLong { byte: u8, position: usize },
}

impl VarNumDecoder {
    /// The decoder can take another byte.
    pub closed spec fn wf(&self) -> bool {
        &&& 0 < self.limit <= VARLONG_MAX_BYTES
        &&& self.count < self.limit
        &&& self.scale == pow128(self.count as nat)
        &&& self.value < self.scale
    }

    /// The most bytes the integer may occupy.
    pub closed spec fn limit(&self) -> nat {
        self.limit as nat
    }

    /// The number of bytes taken so far.
    pub closed spec fn count(&self) -> nat {
        self.count as nat
    }

    /// The value of the groups taken so far.
    pub closed spec fn value(&self) -> nat {
        self.value as nat
    }

    /// A decoder that can take another byte has taken fewer bytes than the
    /// integer may occupy, and their value is below the weight of the next
    /// group.
    pub proof fn lemma_wf(&self)
        requires
            self.wf(),
        ensures
            self.count() < self.limit() <= VARLONG_MAX_BYTES,
            self.value() < pow128(self.count()),
    {
    }

    /// A decoder that has read nothing yet.
    pub fn new(limit: usize) -> (d: VarNumDecoder)
        requires
            0 < limit <= VARLONG_MAX_BYTES,
        ensures
            d.wf(),
            d.limit() == limit,
            d.count() == 0,
            d.value() == 0,
    {
        VarNumDecoder { limit, count: 0, value: 0, scale: 1 }
    }

    /// The number of bytes taken so far.
    pub fn bytes_read(&self) -> (n: usize)
        ensures
            n == self.count(),
    {
        self.count
    }

    /// Takes the next byte of the integer.
    pub fn push(&mut self, byte: u8) -> (step: VarNumStep)
        requires
            old(self).wf(),
        ensures
            final(self).limit() == old(self).limit(),
            step == decoder_step(old(self).limit(), old(self).count(), old(self).value(), byte),
            step is More ==> {
                &&& final(self).wf()
                &&& final(self).count() == old(self).count() + 1
                &&& final(self).value() == old(self).value() + group(byte) * pow128(
                    old(self).count(),
                )
            },
            !(step is More) ==> {
                &&& final(self).count() == old(self).count()
                &&& final(self).value() == old(self).value()
            },
    {
        proof {
            lemma_pow128_bound(self.count as nat, 9);
        }
        let low: u128 = (byte % 128) as u128;
        assert(low * self.scale <= 127 * self.scale) by (nonlinear_arith)
            requires
                low <= 127,
        ;
        let total: u128 = self.value + low * self.scale;
        if byte < 128 {
            VarNumStep::Done(total)
        } else if self.count + 1 >= self.limit {
            VarNumStep::TooLong { byte, position: self.count }
        } else {
            self.value = total;
            self.scale = self.scale * 128;
            self.count = self.count + 1;
            VarNumStep::More
        }
    }
}

/// What a decoder that has taken `count` bytes worth `value` says of the
/// next byte.
pub open spec fn decoder_step(limit: nat, count: nat, value: nat, byte: u8) -> VarNumStep {
    if byte < 128 {
        VarNumStep::Done((value + group(byte) * pow128(count)) as u128)
    } else if count + 1 >= limit {
        VarNumStep::TooLong { byte, position: count as usize }
    } else {
        VarNumStep::More
    }
}

/// The weights of the groups grow, and the weight of the tenth group is
/// `2^63`.
pub proof fn lemma_pow128_bound(n: nat, m: nat)
    requires
        n <= m <= 10,
    ensures
        0 < pow128(n) <= pow128(m),
        pow128(5) == 0x8_0000_0000,
        pow128(9) == 0x8000_0000_0000_0000,
        pow128(10) == 0x40_0000_0000_0000_0000,
    decreases m - n,
{
    reveal_with_fuel(pow128, 11);
    if n < m {
        lemma_pow128_bound(n + 1, m);
    }
}

/// A number read from `n` groups is below the weight of the group that
/// would follow.
pub proof fn lemma_groups_value_bound(bytes: Seq<u8>)
    ensures
        groups_value(bytes) < pow128(bytes.len()),
    decreases bytes.len(),
{
    if bytes.len() > 0 {
        lemma_groups_value_bound(bytes.skip(1));
    }
}

/// Appending a byte adds its group at the weight of its index.
pub proof fn lemma_groups_value_push(bytes: Seq<u8>, byte: u8)
    ensures
        groups_value(bytes.push(byte)) == groups_value(bytes) + group(byte) * pow128(bytes.len()),
    decreases bytes.len(),
{
    let longer = bytes.push(byte);
    if bytes.len() == 0 {
        assert(longer.skip(1) =~= Seq::<u8>::empty());
        assert(groups_value(longer.skip(1)) == 0);
        assert(group(byte) * pow128(0) == group(byte)) by (nonlinear_arith)
            requires
                pow128(0) == 1,
        ;
    } else {
        assert(longer.skip(1) =~= bytes.skip(1).push(byte));
        lemma_groups_value_push(bytes.skip(1), byte);
        let rest = groups_value(bytes.skip(1));
        let g = group(byte);
        let p = pow128(bytes.skip(1).len());
        assert(pow128(bytes.len()) == 128 * p);
        assert(128 * (rest + g * p) == 128 * rest + g * (128 * p)) by (nonlinear_arith);
        assert(longer[0] == bytes[0]);
    }
}

/// The shortest encoding of a number below the weight of group `k` has at
/// most `k` bytes.
pub proof fn lemma_encode_groups_len(v: nat, k: nat)
    requires
        0 < k,
        v < pow128(k),
    ensures
        0 < encode_groups(v).len() <= k,
    decreases v,
{
    if v >= 128 {
        reveal_with_fuel(pow128, 2);
        lemma_encode_groups_len(v / 128, (k - 1) as nat);
    }
}

/// An encoding that stands at index `at` of a buffer is walked to its end,
/// whatever follows it, if it ends within the limit.
pub proof fn lemma_scan_encoded(before: Seq<u8>, v: nat, after: Seq<u8>, limit: nat)
    requires
        before.len() + encode_groups(v).len() <= limit,
    ensures
        scan_varnum(before + encode_groups(v) + after, before.len(), limit) == Ok::<
            nat,
            ErrorKind,
        >(before.len() + encode_groups(v).len()),
    decreases v,
{
    let bytes = before + encode_groups(v) + after;
    let at = before.len() as int;
    assert(bytes[at] == encode_groups(v)[0]);
    if v >= 128 {
        let first = (128 + v % 128) as u8;
        assert(before.push(first) + encode_groups(v / 128) + after =~= bytes);
        lemma_scan_encoded(before.push(first), v / 128, after, limit);
    }
}

/// The groups of the shortest encoding of `v` have the value `v`.
pub proof fn lemma_groups_value_encoded(v: nat)
    ensures
        groups_value(encode_groups(v)) == v,
    decreases v,
{
    let bytes = encode_groups(v);
    if v < 128 {
        assert(bytes.skip(1) =~= Seq::<u8>::empty());
        assert(groups_value(bytes.skip(1)) == 0);
    } else {
        assert(bytes.skip(1) =~= encode_groups(v / 128));
        lemma_groups_value_encoded(v / 128);
    }
}

/// Reading back the shortest encoding of `v` gives `v` and stops where the
/// encoding ends, whatever follows it.
pub proof fn lemma_parse_encoded(v: nat, after: Seq<u8>, limit: nat)
    requires
        encode_groups(v).len() <= limit,
    ensures
        parse_varnum(encode_groups(v) + after, limit) == Ok::<(nat, nat), ErrorKind>(
            (encode_groups(v).len(), v),
        ),
{
    let bytes = encode_groups(v) + after;
    lemma_scan_encoded(Seq::<u8>::empty(), v, after, limit);
    assert(Seq::<u8>::empty() + encode_groups(v) + after =~= bytes);
    assert(bytes.take(encode_groups(v).len() as int) =~= encode_groups(v));
    lemma_groups_value_encoded(v);
}

/// A 32-bit integer is what the low 32 bits of its bit pattern stand for.
pub proof fn lemma_wrap_i32_bits(v: i32)
    ensures
        i32_bits(v) < 0x1_0000_0000,
        wrap_i32(i32_bits(v)) == v,
{
}

/// A 64-bit integer is what the low 64 bits of its bit pattern stand for.
pub proof fn lemma_wrap_i64_bits(v: i64)
    ensures
        i64_bits(v) < 0x1_0000_0000_0000_0000,
        wrap_i64(i64_bits(v)) == v,
{
}

/// Every 32-bit integer has an encoding of one to five bytes, and reading
/// that encoding back gives the integer and leaves whatever followed it.
pub proof fn lemma_varint_round_trip(v: i32, after: Seq<u8>)
    ensures
        0 < varint_bytes(v).len() <= VARINT_MAX_BYTES,
        parse_varint(varint_bytes(v) + after) == Ok::<(nat, i32), ErrorKind>(
            (varint_bytes(v).len(), v),
        ),
{
    lemma_wrap_i32_bits(v);
    lemma_pow128_bound(5, 5);
    lemma_encode_groups_len(i32_bits(v), 5);
    lemma_parse_encoded(i32_bits(v), after, 5);
}

/// Every 64-bit integer has an encoding of one to ten bytes, and reading
/// that encoding back gives the integer and leaves whatever followed it.
pub proof fn lemma_varlong_round_trip(v: i64, after: Seq<u8>)
    ensures
        0 < varlong_bytes(v).len() <= VARLONG_MAX_BYTES,
        parse_varlong(varlong_bytes(v) + after) == Ok::<(nat, i64), ErrorKind>(
            (varlong_bytes(v).len(), v),
        ),
{
    lemma_wrap_i64_bits(v);
    lemma_pow128_bound(10, 10);
    lemma_encode_groups_len(i64_bits(v), 10);
    lemma_parse_encoded(i64_bits(v), after, 10);
}

/// A successful walk ends on the first byte without a continuation bit, and
/// that byte lies within the limit and within the buffer.
pub proof fn lemma_scan_ok(bytes: Seq<u8>, at: nat, limit: nat, n: nat)
    requires
        scan_varnum(bytes, at, limit) == Ok::<nat, ErrorKind>(n),
    ensures
        at < n <= bytes.len(),
        at < limit ==> n <= limit,
        bytes[n - 1] < 128,
        forall|i: int| at <= i < n - 1 ==> bytes[i] >= 128,
    decreases limit - at,
{
    if at < bytes.len() && bytes[at as int] >= 128 && at + 1 < limit {
        lemma_scan_ok(bytes, at + 1, limit, n);
    }
}

/// A failed walk either ran off the end of a buffer that is shorter than
/// the limit, or stopped on the byte at index `limit - 1`.
pub proof fn lemma_scan_err(bytes: Seq<u8>, at: nat, limit: nat, e: ErrorKind)
    requires
        at < limit <= VARLONG_MAX_BYTES,
        scan_varnum(bytes, at, limit) == Err::<nat, ErrorKind>(e),
    ensures
        e is UnexpectedEnd || e is VarNumTooLong,
        e is UnexpectedEnd ==> bytes.len() < limit,
        e matches ErrorKind::VarNumTooLong { byte, position } ==> {
            &&& position == limit - 1
            &&& limit <= bytes.len()
            &&& byte == bytes[limit - 1]
        },
        forall|i: int| at <= i < bytes.len() && i < limit ==> bytes[i] >= 128,
    decreases limit - at,
{
    if at < bytes.len() && bytes[at as int] >= 128 && at + 1 < limit {
        lemma_scan_err(bytes, at + 1, limit, e);
    }
}

/// Reads one variable-length integer of at most `limit` bytes from the front
/// of `buf` and gives the number of bytes read and the value of their
/// groups.
pub fn decode_varnum(buf: &[u8], limit: usize) -> (r: Result<(usize, u128), ErrorKind>)
    requires
        0 < limit <= VARLONG_MAX_BYTES,
    ensures
        r matches Ok((n, v)) ==> parse_varnum(buf@, limit as nat) == Ok::<
            (nat, nat),
            ErrorKind,
        >((n as nat, v as nat)),
        r matches Err(e) ==> parse_varnum(buf@, limit as nat) == Err::<(nat, nat), ErrorKind>(
            e,
        ),
{
    let mut decoder = VarNumDecoder::new(limit);
    let mut at: usize = 0;
    assert(buf@.take(0) =~= Seq::<u8>::empty());
    loop
        invariant
            decoder.wf(),
            decoder.limit() == limit,
            decoder.count() == at,
            at <= buf.len(),
            decoder.value() == groups_value(buf@.take(at as int)),
            scan_varnum(buf@, 0, limit as nat) == scan_varnum(buf@, at as nat, limit as nat),
        decreases limit - at,
    {
        if at >= buf.len() {
            return Err(ErrorKind::UnexpectedEnd);
        }
        let byte = buf[at];
        proof {
            assert(buf@.take(at as int + 1) =~= buf@.take(at as int).push(byte));
            lemma_groups_value_push(buf@.take(at as int), byte);
            lemma_groups_value_bound(buf@.take(at as int + 1));
            lemma_pow128_bound((at + 1) as nat, 10);
        }
        match decoder.push(byte) {
            VarNumStep::More => {
                at = at + 1;
            },
            VarNumStep::Done(value) => {
                return Ok((at + 1, value));
            },
            VarNumStep::TooLong { byte, position } => {
                return Err(ErrorKind::VarNumTooLong { byte, position });
            },
        }
    }
}

/// Reads a 32-bit variable-length integer from the front of `buf` and gives
/// the number of bytes read and the value. Bits of the fifth byte that lie
/// beyond bit 31 are dropped.
pub fn decode_varint(buf: &[u8]) -> (r: Result<(usize, i32), ErrorKind>)
    ensures
        r matches Ok((n, v)) ==> parse_varint(buf@) == Ok::<(nat, i32), ErrorKind>(
            (n as nat, v),
        ),
        r matches Err(e) ==> parse_varint(buf@) == Err::<(nat, i32), ErrorKind>(e),
{
    match decode_varnum(buf, VARINT_MAX_BYTES) {
        Ok((n, value)) => Ok((n, wrap_to_i32(value))),
        Err(e) => Err(e),
    }
}

/// Reads a 64-bit variable-length integer from the front of `buf` and gives
/// the number of bytes read and the value. Bits of the tenth byte that lie
/// beyond bit 63 are dropped.
pub fn decode_varlong(buf: &[u8]) -> (r: Result<(usize, i64), ErrorKind>)
    ensures
        r matches Ok((n, v)) ==> parse_varlong(buf@) == Ok::<(nat, i64), ErrorKind>(
            (n as nat, v),
        ),
        r matches Err(e) ==> parse_varlong(buf@) == Err::<(nat, i64), ErrorKind>(e),
{
    match decode_varnum(buf, VARLONG_MAX_BYTES) {
        Ok((n, value)) => Ok((n, wrap_to_i64(value))),
        Err(e) => Err(e),
    }
}

/// Reads a length from the front of `buf`: a 32-bit variable-length integer
/// that must not be negative.
pub fn decode_as_usize(buf: &[u8]) -> (r: Result<(usize, usize), ErrorKind>)
    ensures
        r matches Ok((n, v)) ==> parse_varint_usize(buf@) == Ok::<(nat, nat), ErrorKind>(
            (n as nat, v as nat),
        ),
        r matches Err(e) ==> parse_varint_usize(buf@) == Err::<(nat, nat), ErrorKind>(e),
{
    match decode_varint(buf) {
        Ok((n, value)) => match varint_to_usize(value) {
            Some(len) => Ok((n, len)),
            None => Err(ErrorKind::NumericRange),
        },
        Err(e) => Err(e),
    }
}

/// Reads a length from the front of `buf`: a 64-bit variable-length integer
/// that must fit the unsigned size type.
pub fn decode_long_as_usize(buf: &[u8]) -> (r: Result<(usize, usize), ErrorKind>)
    ensures
        r matches Ok((n, v)) ==> parse_varlong_usize(buf@) == Ok::<(nat, nat), ErrorKind>(
            (n as nat, v as nat),
        ),
        r matches Err(e) ==> parse_varlong_usize(buf@) == Err::<(nat, nat), ErrorKind>(e),
{
    match decode_varlong(buf) {
        Ok((n, value)) => match varlong_to_usize(value) {
            Some(len) => Ok((n, len)),
            None => Err(ErrorKind::NumericRange),
        },
        Err(e) => Err(e),
    }
}

/// The 32-bit integer whose bit pattern is the low 32 bits of `value`.
pub fn wrap_to_i32(value: u128) -> (v: i32)
    ensures
        v == wrap_i32(value as nat),
{
    let low: u128 = value % 0x1_0000_0000;
    if low >= 0x8000_0000 {
        (low as i64 - 0x1_0000_0000) as i32
    } else {
        low as i32
    }
}

/// The 64-bit integer whose bit pattern is the low 64 bits of `value`.
pub fn wrap_to_i64(value: u128) -> (v: i64)
    ensures
        v == wrap_i64(value as nat),
{
    let low: u128 = value % 0x1_0000_0000_0000_0000;
    if low >= 0x8000_0000_0000_0000 {
        (low as i128 - 0x1_0000_0000_0000_0000) as i64
    } else {
        low as i64
    }
}

/// A 32-bit integer as a length, unless it is negative.
pub fn varint_to_usize(value: i32) -> (r: Option<usize>)
    ensures
        r matches Some(n) ==> value >= 0 && n == value,
        r is None ==> value < 0,
{
    if value < 0 {
        None
    } else {
        Some(value as usize)
    }
}

/// A 64-bit integer as a length, unless it is negative or too large for the
/// unsigned size type.
pub fn varlong_to_usize(value: i64) -> (r: Option<usize>)
    ensures
        r matches Some(n) ==> 0 <= value <= usize::MAX && n == value,
        r is None ==> value < 0 || value > usize::MAX,
{
    if value < 0 || value as u64 > usize::MAX as u64 {
        None
    } else {
        Some(value as usize)
    }
}

/// Appends the shortest encoding of `v` to `out`.
pub fn encode_varnum(v: u64, out: &mut Vec<u8>)
    ensures
        final(out)@ == old(out)@ + encode_groups(v as nat),
{
    let ghost before = out@;
    let mut val: u64 = v;
    loop
        invariant_except_break
            before + encode_groups(v as nat) == out@ + encode_groups(val as nat),
        ensures
            out@ == before + encode_groups(v as nat),
        decreases val,
    {
        let ghost prev = val;
        let low: u8 = (val & 0x7f) as u8;
        val = val >> 7;
        assert(prev & 0x7f == prev % 128) by (bit_vector);
        assert(prev >> 7 == prev / 128) by (bit_vector);
        if val != 0 {
            assert(low < 128 ==> low | 0x80 == low + 128) by (bit_vector);
            out.push(low | 0x80);
            assert(out@ + encode_groups(val as nat) =~= before + encode_groups(v as nat));
        } else {
            out.push(low);
            assert(out@ =~= before + encode_groups(v as nat));
            break;
        }
    }
}

/// The wire form of a 32-bit variable-length integer: one to five bytes.
pub fn encode_varint(v: i32) -> (out: Vec<u8>)
    ensures
        out@ == varint_bytes(v),
        0 < out.len() <= VARINT_MAX_BYTES,
{
    let bits: u32 = v as u32;
    assert(bits == i32_bits(v)) by {
        assert((v as u32) as int == if v < 0 {
            v + 0x1_0000_0000
        } else {
            v as int
        }) by (bit_vector);
    }
    let mut out: Vec<u8> = Vec::new();
    encode_varnum(bits as u64, &mut out);
    proof {
        lemma_varint_round_trip(v, Seq::<u8>::empty());
    }
    out
}

/// The wire form of a 64-bit variable-length integer: one to ten bytes.
pub fn encode_varlong(v: i64) -> (out: Vec<u8>)
    ensures
        out@ == varlong_bytes(v),
        0 < out.len() <= VARLONG_MAX_BYTES,
{
    let bits: u64 = v as u64;
    assert(bits == i64_bits(v)) by {
        assert((v as u64) as int == if v < 0 {
            v + 0x1_0000_0000_0000_0000
        } else {
            v as int
        }) by (bit_vector);
    }
    let mut out: Vec<u8> = Vec::new();
    encode_varnum(bits, &mut out);
    proof {
        lemma_varlong_round_trip(v, Seq::<u8>::empty());
    }
    out
}


} // verus!
