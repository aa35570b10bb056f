//! Block positions in one word.
use vstd::prelude::*;
use crate::wire;

verus! {

/// A block position in one word: twenty-six bits of x, as many of z, twelve of y.
pub open spec fn packed(x: int, y: int, z: int) -> i64 {
    wire::i64_of_bits(((x % 0x400_0000) * 0x40_0000_0000 + (z % 0x400_0000) * 0x1000 + y % 0x1000) as u64)
}

/// The number that a field of a word stands for, by the size of the field.
pub open spec fn signed(field: int, size: int) -> int {
    if field >= size / 2 {
        field - size
    } else {
        field
    }
}

/// The x, y and z of a packed position.
pub open spec fn unpacked(position: i64) -> (int, int, int) {
    let bits = wire::bits_of_i64(position) as int;
    (
        signed(bits / 0x40_0000_0000, 0x400_0000),
        signed(bits % 0x1000, 0x1000),
        signed(bits / 0x1000 % 0x400_0000, 0x400_0000),
    )
}

fn low_bits(value: i64, size: u64) -> (res: u64)
    requires
        size == 0x400_0000 || size == 0x1000,
    ensures
        res == value as int % size as int,
{
    wire::i64_to_bits(value) % size
}

pub fn pack_block_position(x: i64, y: i64, z: i64) -> (res: i64)
    ensures
        res == packed(x as int, y as int, z as int),
{
    let a: u64 = low_bits(x, 0x400_0000);
    let b: u64 = low_bits(z, 0x400_0000);
    let c: u64 = low_bits(y, 0x1000);
    wire::i64_from_bits(a * 0x40_0000_0000 + b * 0x1000 + c)
}

fn from_field(field: u64, size: i32) -> (res: i32)
    requires
        size == 0x400_0000 || size == 0x1000,
        field < size,
    ensures
        res == signed(field as int, size as int),
{
    if field as i32 >= size / 2 {
        field as i32 - size
    } else {
        field as i32
    }
}

pub fn unpack_block_position(position: i64) -> (res: (i32, i32, i32))
    ensures
        unpacked(position) == (res.0 as int, res.1 as int, res.2 as int),
{
    let bits: u64 = wire::i64_to_bits(position);
    (
        from_field(bits / 0x40_0000_0000, 0x400_0000),
        from_field(bits % 0x1000, 0x1000),
        from_field(bits / 0x1000 % 0x400_0000, 0x400_0000),
    )
}

/// A position that a word can hold comes back as it was packed.
pub proof fn packed_positions_come_back(x: int, y: int, z: int)
    requires
        -0x200_0000 <= x < 0x200_0000,
        -0x800 <= y < 0x800,
        -0x200_0000 <= z < 0x200_0000,
    ensures
        unpacked(packed(x, y, z)) == (x, y, z),
{
    let a = x % 0x400_0000;
    let b = z % 0x400_0000;
    let c = y % 0x1000;
    let word = a * 0x40_0000_0000 + b * 0x1000 + c;
    assert(wire::bits_of_i64(wire::i64_of_bits(word as u64)) == word);
    assert(word / 0x40_0000_0000 == a);
    assert(word / 0x1000 == a * 0x400_0000 + b);
    assert(word / 0x1000 % 0x400_0000 == b);
    assert(word % 0x1000 == c);
}

/// Every position is the one that its coordinates are packed to.
pub proof fn unpacked_positions_come_back(position: i64)
    ensures
        ({
            let (x, y, z) = unpacked(position);
            packed(x, y, z) == position && -0x200_0000 <= x < 0x200_0000 && -0x800 <= y < 0x800 && -0x200_0000 <= z
                < 0x200_0000
        }),
{
    let (x, y, z) = unpacked(position);
    let bits = wire::bits_of_i64(position) as int;
    let a = bits / 0x40_0000_0000;
    let b = bits / 0x1000 % 0x400_0000;
    let c = bits % 0x1000;
    assert(x % 0x400_0000 == a);
    assert(z % 0x400_0000 == b);
    assert(y % 0x1000 == c);
    assert(a * 0x40_0000_0000 + b * 0x1000 + c == bits);
    assert(wire::i64_of_bits(wire::bits_of_i64(position)) == position);
}

} // verus!
