//! Value types with a wire shape of their own: the two variable-length
//! integers and the packed block position.

use vstd::prelude::*;

verus! {

/// A 32-bit integer that travels as one to five bytes.
#[derive(Clone, Copy, Debug, PartialEq, Eq, Structural)]
pub struct VarInt(pub i32);

/// A 64-bit integer that travels as one to ten bytes.
#[derive(Clone, Copy, Debug, PartialEq, Eq, Structural)]
pub struct VarLong(pub i64);

/// A block position. On the wire it is one 64-bit integer: `x` in the top
/// 26 bits, `z` in the next 26 and `y` in the low 12, each in two's
/// complement.
#[derive(Clone, Copy, Debug, PartialEq, Eq, Structural)]
pub struct Position {
    pub x: i32,
    pub y: i16,
    pub z: i32,
}

/// The value of a two's complement field that holds `field` in a width of
/// `modulus` distinct values.
pub open spec fn sign_extend(field: int, modulus: int) -> int {
    if 2 * field >= modulus {
        field - modulus
    } else {
        field
    }
}

/// The field that holds `value` in two's complement in a width of
/// `modulus` distinct values.
pub open spec fn twos_complement(value: int, modulus: int) -> int {
    if value < 0 {
        value + modulus
    } else {
        value
    }
}

/// The 64-bit integer that carries the three coordinates.
pub open spec fn pack_spec(x: int, y: int, z: int) -> int {
    (x % 0x400_0000) * 0x40_0000_0000 + (z % 0x400_0000) * 0x1000 + (y % 0x1000)
}

/// The `x` coordinate carried by a packed position.
pub open spec fn unpack_x(data: int) -> int {
    sign_extend(data / 0x40_0000_0000, 0x400_0000)
}

/// The `y` coordinate carried by a packed position.
pub open spec fn unpack_y(data: int) -> int {
    sign_extend(data % 0x1000, 0x1000)
}

/// The `z` coordinate carried by a packed position.
pub open spec fn unpack_z(data: int) -> int {
    sign_extend((data / 0x1000) % 0x400_0000, 0x400_0000)
}

impl Position {
    /// Every coordinate lies in the range that its field can carry.
    pub open spec fn in_range(&self) -> bool {
        &&& -0x200_0000 <= self.x < 0x200_0000
        &&& -0x800 <= self.y < 0x800
        &&& -0x200_0000 <= self.z < 0x200_0000
    }

    /// Packs the coordinates into their 64-bit wire form. A coordinate
    /// outside its field's range keeps only its low bits.
    pub fn pack(&self) -> (data: u64)
        ensures
            data == pack_spec(self.x as int, self.y as int, self.z as int),
    {
        let x: u64 = ((self.x as i64) & 0x3FF_FFFF) as u64;
        let y: u64 = ((self.y as i64) & 0xFFF) as u64;
        let z: u64 = ((self.z as i64) & 0x3FF_FFFF) as u64;
        let sx: i32 = self.x;
        let sy: i16 = self.y;
        let sz: i32 = self.z;
        assert(((sx as i64) & 0x3FF_FFFF) as u64 == (sx as int) % 0x400_0000) by (bit_vector);
        assert(((sz as i64) & 0x3FF_FFFF) as u64 == (sz as int) % 0x400_0000) by (bit_vector);
        assert(((sy as i64) & 0xFFF) as u64 == (sy as int) % 0x1000) by (bit_vector);
        assert(x < 0x400_0000 && y < 0x1000 && z < 0x400_0000 ==> ((x << 38) | (z << 12) | y)
            == x * 0x40_0000_0000 + z * 0x1000 + y) by (bit_vector);
        (x << 38) | (z << 12) | y
    }

    /// Unpacks the three coordinates from their 64-bit wire form.
    pub fn unpack(data: u64) -> (p: Position)
        ensures
            p.x == unpack_x(data as int),
            p.y == unpack_y(data as int),
            p.z == unpack_z(data as int),
            p.in_range(),
    {
        let xf: u64 = data >> 38;
        let yf: u64 = data & 0xFFF;
        let zf: u64 = (data << 26) >> 38;
        assert(data >> 38 == data / 0x40_0000_0000) by (bit_vector);
        assert(data & 0xFFF == data % 0x1000) by (bit_vector);
        assert((data << 26) >> 38 == (data / 0x1000) % 0x400_0000) by (bit_vector);
        let x: i32 = if xf >= 0x200_0000 {
            (xf as i64 - 0x400_0000) as i32
        } else {
            xf as i32
        };
        let y: i16 = if yf >= 0x800 {
            (yf as i64 - 0x1000) as i16
        } else {
            yf as i16
        };
        let z: i32 = if zf >= 0x200_0000 {
            (zf as i64 - 0x400_0000) as i32
        } else {
            zf as i32
        };
        Position { x, y, z }
    }
}

/// Packing and then unpacking gives back every coordinate that lies in the
/// range of its field.
pub proof fn lemma_position_round_trip(x: int, y: int, z: int)
    requires
        -0x200_0000 <= x < 0x200_0000,
        -0x800 <= y < 0x800,
        -0x200_0000 <= z < 0x200_0000,
    ensures
        0 <= pack_spec(x, y, z) < 0x1_0000_0000_0000_0000,
        unpack_x(pack_spec(x, y, z)) == x,
        unpack_y(pack_spec(x, y, z)) == y,
        unpack_z(pack_spec(x, y, z)) == z,
{
    let xf = x % 0x400_0000;
    let yf = y % 0x1000;
    let zf = z % 0x400_0000;
    let d = pack_spec(x, y, z);
    assert(d == xf * 0x40_0000_0000 + (zf * 0x1000 + yf));
    assert(d / 0x1000 == xf * 0x400_0000 + zf);
    assert(d % 0x1000 == yf);
    assert((d / 0x1000) % 0x400_0000 == zf);
    assert(d / 0x40_0000_0000 == xf);
}

} // verus!
