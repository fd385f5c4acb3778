//! Morton (Z-order) indices.
//!
//! A Morton index interleaves the bits of the coordinates: bit `i` of the first
//! coordinate is bit `2 * i` (in two dimensions) or bit `3 * i` (in three) of the
//! index, and the other coordinates follow it. The masks are those of CesiumJS'
//! `MortonOrder`.

use vstd::prelude::*;

verus! {

/// Bit `i` of `value`, counted from the least significant.
pub open spec fn bit(value: u32, i: u32) -> bool {
    (value >> i) & 1 == 1
}

/// `index` holds the bits of `x` and `y` in turn.
pub open spec fn interleaves_2d(index: u32, x: u32, y: u32) -> bool {
    forall|i: u32|
        i < 16 ==> {
            &&& bit(index, (2 * i) as u32) == #[trigger] bit(x, i)
            &&& bit(index, (2 * i + 1) as u32) == bit(y, i)
        }
}

/// The low 30 bits of `index` hold the bits of `x`, `y` and `z` in turn.
pub open spec fn interleaves_3d(index: u32, x: u32, y: u32, z: u32) -> bool {
    forall|i: u32|
        i < 10 ==> {
            &&& bit(index, (3 * i) as u32) == #[trigger] bit(x, i)
            &&& bit(index, (3 * i + 1) as u32) == bit(y, i)
            &&& bit(index, (3 * i + 2) as u32) == bit(z, i)
        }
}

/// The sixteen bits of a coordinate that a two-dimensional index holds. A
/// coordinate below 2^16 is kept; of a larger one, bits 16 to 23 are added to bits
/// 8 to 15 without carry, and the rest is dropped.
pub open spec fn addressable_2d(value: u32) -> u32 {
    (value & 0xff) | ((((value >> 8) ^ (value >> 16)) & 0xff) << 8)
}

/// The ten bits of a coordinate that a three-dimensional index holds. A coordinate
/// below 2^10 is kept; of a larger one, bits 24 and 25 are added to bits 8 and 9
/// without carry, and the rest is dropped.
pub open spec fn addressable_3d(value: u32) -> u32 {
    (value & 0xff) | ((((value >> 8) ^ (value >> 24)) & 3) << 8)
}

/// The bits of `value` moved apart, one zero bit between each two.
pub open spec fn spread_by_one(value: u32) -> u32 {
    let a = (value ^ (value << 8)) & 0x00ff_00ff;
    let b = (a ^ (a << 4)) & 0x0f0f_0f0f;
    let c = (b ^ (b << 2)) & 0x3333_3333;
    (c ^ (c << 1)) & 0x5555_5555
}

/// The bits of `value` moved apart, two zero bits between each two.
pub open spec fn spread_by_two(value: u32) -> u32 {
    let a = (value ^ (value << 16)) & 0x0300_00ff;
    let b = (a ^ (a << 8)) & 0x0300_f00f;
    let c = (b ^ (b << 4)) & 0x030c_30c3;
    (c ^ (c << 2)) & 0x0924_9249
}

/// Every second bit of `value`, moved together.
pub open spec fn gather_by_one(value: u32) -> u32 {
    let a = value & 0x5555_5555;
    let b = (a ^ (a >> 1)) & 0x3333_3333;
    let c = (b ^ (b >> 2)) & 0x0f0f_0f0f;
    let d = (c ^ (c >> 4)) & 0x00ff_00ff;
    (d ^ (d >> 8)) & 0x0000_ffff
}

/// Every third bit of `value`, moved together.
pub open spec fn gather_by_two(value: u32) -> u32 {
    let a = value & 0x0924_9249;
    let b = (a ^ (a >> 2)) & 0x030c_30c3;
    let c = (b ^ (b >> 4)) & 0x0300_f00f;
    let d = (c ^ (c >> 8)) & 0xff00_00ff;
    (d ^ (d >> 16)) & 0x0000_03ff
}

/// The two-dimensional index of a pair of coordinates.
pub open spec fn index_2d(x: u32, y: u32) -> u32 {
    spread_by_one(x) | (spread_by_one(y) << 1)
}

/// The three-dimensional index of a triple of coordinates.
pub open spec fn index_3d(x: u32, y: u32, z: u32) -> u32 {
    spread_by_two(x) | (spread_by_two(y) << 1) | (spread_by_two(z) << 2)
}

proof fn lemma_index_2d_bit(x: u32, y: u32, i: u32)
    by (bit_vector)
    requires
        i < 16,
    ensures
        bit(index_2d(x, y), (2 * i) as u32) == bit(addressable_2d(x), i),
        bit(index_2d(x, y), (2 * i + 1) as u32) == bit(addressable_2d(y), i),
{
}

proof fn lemma_index_3d_bit(x: u32, y: u32, z: u32, i: u32)
    by (bit_vector)
    requires
        i < 10,
    ensures
        bit(index_3d(x, y, z), (3 * i) as u32) == bit(addressable_3d(x), i),
        bit(index_3d(x, y, z), (3 * i + 1) as u32) == bit(addressable_3d(y), i),
        bit(index_3d(x, y, z), (3 * i + 2) as u32) == bit(addressable_3d(z), i),
{
}

proof fn lemma_gather_by_one_bit(index: u32, i: u32)
    by (bit_vector)
    requires
        i < 16,
    ensures
        bit(gather_by_one(index), i) == bit(index, (2 * i) as u32),
        bit(gather_by_one(index >> 1), i) == bit(index, (2 * i + 1) as u32),
{
}

proof fn lemma_gather_by_two_bit(index: u32, i: u32)
    by (bit_vector)
    requires
        i < 10,
    ensures
        bit(gather_by_two(index), i) == bit(index, (3 * i) as u32),
        bit(gather_by_two(index >> 1), i) == bit(index, (3 * i + 1) as u32),
        bit(gather_by_two(index >> 2), i) == bit(index, (3 * i + 2) as u32),
{
}

fn insert_one_spacing(value: u32) -> (out: u32)
    ensures
        out == spread_by_one(value),
{
    let mut value: u32 = value;
    value = (value ^ (value << 8)) & 0x00ff_00ff;
    value = (value ^ (value << 4)) & 0x0f0f_0f0f;
    value = (value ^ (value << 2)) & 0x3333_3333;
    value = (value ^ (value << 1)) & 0x5555_5555;
    value
}

fn insert_two_spacing(value: u32) -> (out: u32)
    ensures
        out == spread_by_two(value),
{
    let mut value: u32 = value;
    value = (value ^ (value << 16)) & 0x0300_00ff;
    value = (value ^ (value << 8)) & 0x0300_f00f;
    value = (value ^ (value << 4)) & 0x030c_30c3;
    value = (value ^ (value << 2)) & 0x0924_9249;
    value
}

fn remove_one_spacing(value: u32) -> (out: u32)
    ensures
        out == gather_by_one(value),
{
    let mut value: u32 = value & 0x5555_5555;
    value = (value ^ (value >> 1)) & 0x3333_3333;
    value = (value ^ (value >> 2)) & 0x0f0f_0f0f;
    value = (value ^ (value >> 4)) & 0x00ff_00ff;
    value = (value ^ (value >> 8)) & 0x0000_ffff;
    value
}

fn remove_two_spacing(value: u32) -> (out: u32)
    ensures
        out == gather_by_two(value),
{
    let mut value: u32 = value & 0x0924_9249;
    value = (value ^ (value >> 2)) & 0x030c_30c3;
    value = (value ^ (value >> 4)) & 0x0300_f00f;
    value = (value ^ (value >> 8)) & 0xff00_00ff;
    value = (value ^ (value >> 16)) & 0x0000_03ff;
    value
}

/// Interleaves two coordinates into a 32-bit Morton index.
pub fn morton_2d(x: u32, y: u32) -> (index: u32)
    ensures
        index == index_2d(x, y),
        interleaves_2d(index, addressable_2d(x), addressable_2d(y)),
        x < 0x1_0000 && y < 0x1_0000 ==> interleaves_2d(index, x, y),
{
    let index: u32 = insert_one_spacing(x) | (insert_one_spacing(y) << 1);
    proof {
        law_index_2d_interleaves(x, y);
    }
    index
}

/// Interleaves three coordinates into a 30-bit Morton index.
pub fn morton_3d(x: u32, y: u32, z: u32) -> (index: u32)
    ensures
        index == index_3d(x, y, z),
        index < 0x4000_0000,
        interleaves_3d(index, addressable_3d(x), addressable_3d(y), addressable_3d(z)),
        x < 0x400 && y < 0x400 && z < 0x400 ==> interleaves_3d(index, x, y, z),
{
    let index: u32 = insert_two_spacing(x) | (insert_two_spacing(y) << 1) | (insert_two_spacing(z)
        << 2);
    proof {
        law_index_3d_interleaves(x, y, z);
    }
    index
}

/// The coordinates that a two-dimensional Morton index holds.
pub fn decode_2d(morton: u32) -> (xy: (u32, u32))
    ensures
        xy == (gather_by_one(morton), gather_by_one(morton >> 1)),
        interleaves_2d(morton, xy.0, xy.1),
        xy.0 < 0x1_0000,
        xy.1 < 0x1_0000,
{
    proof {
        law_gathered_coordinates_interleave_2d(morton);
    }
    (remove_one_spacing(morton), remove_one_spacing(morton >> 1))
}

/// The coordinates that the low 30 bits of a three-dimensional Morton index hold.
pub fn decode_3d(morton: u32) -> (xyz: (u32, u32, u32))
    ensures
        xyz == (gather_by_two(morton), gather_by_two(morton >> 1), gather_by_two(morton >> 2)),
        interleaves_3d(morton, xyz.0, xyz.1, xyz.2),
        xyz.0 < 0x400,
        xyz.1 < 0x400,
        xyz.2 < 0x400,
{
    proof {
        law_gathered_coordinates_interleave_3d(morton);
    }
    (remove_two_spacing(morton), remove_two_spacing(morton >> 1), remove_two_spacing(morton >> 2))
}

/// The two-dimensional index holds the bits of its coordinates in turn.
pub proof fn law_index_2d_interleaves(x: u32, y: u32)
    ensures
        interleaves_2d(index_2d(x, y), addressable_2d(x), addressable_2d(y)),
        x < 0x1_0000 ==> addressable_2d(x) == x,
        y < 0x1_0000 ==> addressable_2d(y) == y,
{
    assert forall|i: u32| i < 16 implies {
        &&& bit(index_2d(x, y), (2 * i) as u32) == #[trigger] bit(addressable_2d(x), i)
        &&& bit(index_2d(x, y), (2 * i + 1) as u32) == bit(addressable_2d(y), i)
    } by {
        lemma_index_2d_bit(x, y, i);
    }
    assert(x < 0x1_0000 ==> addressable_2d(x) == x) by (bit_vector);
    assert(y < 0x1_0000 ==> addressable_2d(y) == y) by (bit_vector);
}

/// The three-dimensional index holds the bits of its coordinates in turn, and
/// nothing else.
pub proof fn law_index_3d_interleaves(x: u32, y: u32, z: u32)
    ensures
        interleaves_3d(
            index_3d(x, y, z),
            addressable_3d(x),
            addressable_3d(y),
            addressable_3d(z),
        ),
        index_3d(x, y, z) < 0x4000_0000,
        x < 0x400 ==> addressable_3d(x) == x,
        y < 0x400 ==> addressable_3d(y) == y,
        z < 0x400 ==> addressable_3d(z) == z,
{
    assert forall|i: u32| i < 10 implies {
        &&& bit(index_3d(x, y, z), (3 * i) as u32) == #[trigger] bit(addressable_3d(x), i)
        &&& bit(index_3d(x, y, z), (3 * i + 1) as u32) == bit(addressable_3d(y), i)
        &&& bit(index_3d(x, y, z), (3 * i + 2) as u32) == bit(addressable_3d(z), i)
    } by {
        lemma_index_3d_bit(x, y, z, i);
    }
    assert(index_3d(x, y, z) < 0x4000_0000) by (bit_vector);
    assert(x < 0x400 ==> addressable_3d(x) == x) by (bit_vector);
    assert(y < 0x400 ==> addressable_3d(y) == y) by (bit_vector);
    assert(z < 0x400 ==> addressable_3d(z) == z) by (bit_vector);
}

/// Every second bit, from the first and from the second on, are coordinates whose
/// interleaving the index is.
pub proof fn law_gathered_coordinates_interleave_2d(index: u32)
    ensures
        interleaves_2d(index, gather_by_one(index), gather_by_one(index >> 1)),
        gather_by_one(index) < 0x1_0000,
        gather_by_one(index >> 1) < 0x1_0000,
{
    assert forall|i: u32| i < 16 implies {
        &&& bit(index, (2 * i) as u32) == #[trigger] bit(gather_by_one(index), i)
        &&& bit(index, (2 * i + 1) as u32) == bit(gather_by_one(index >> 1), i)
    } by {
        lemma_gather_by_one_bit(index, i);
    }
    assert(gather_by_one(index) < 0x1_0000 && gather_by_one(index >> 1) < 0x1_0000)
        by (bit_vector);
}

/// Every third bit, from the first, the second and the third on, are coordinates
/// whose interleaving the low 30 bits of the index are.
pub proof fn law_gathered_coordinates_interleave_3d(index: u32)
    ensures
        interleaves_3d(
            index,
            gather_by_two(index),
            gather_by_two(index >> 1),
            gather_by_two(index >> 2),
        ),
        gather_by_two(index) < 0x400,
        gather_by_two(index >> 1) < 0x400,
        gather_by_two(index >> 2) < 0x400,
{
    assert forall|i: u32| i < 10 implies {
        &&& bit(index, (3 * i) as u32) == #[trigger] bit(gather_by_two(index), i)
        &&& bit(index, (3 * i + 1) as u32) == bit(gather_by_two(index >> 1), i)
        &&& bit(index, (3 * i + 2) as u32) == bit(gather_by_two(index >> 2), i)
    } by {
        lemma_gather_by_two_bit(index, i);
    }
    assert(gather_by_two(index) < 0x400 && gather_by_two(index >> 1) < 0x400 && gather_by_two(
        index >> 2,
    ) < 0x400) by (bit_vector);
}

/// Decoding undoes encoding, for coordinates that two dimensions can address.
pub proof fn law_round_trip_2d(x: u32, y: u32)
    by (bit_vector)
    requires
        x < 0x1_0000,
        y < 0x1_0000,
    ensures
        gather_by_one(index_2d(x, y)) == x,
        gather_by_one(index_2d(x, y) >> 1) == y,
{
}

/// Encoding undoes decoding, for every two-dimensional index.
pub proof fn law_round_trip_index_2d(index: u32)
    by (bit_vector)
    ensures
        index_2d(gather_by_one(index), gather_by_one(index >> 1)) == index,
{
}

/// Decoding undoes encoding, for coordinates that three dimensions can address.
pub proof fn law_round_trip_3d(x: u32, y: u32, z: u32)
    by (bit_vector)
    requires
        x < 0x400,
        y < 0x400,
        z < 0x400,
    ensures
        gather_by_two(index_3d(x, y, z)) == x,
        gather_by_two(index_3d(x, y, z) >> 1) == y,
        gather_by_two(index_3d(x, y, z) >> 2) == z,
{
}

/// Encoding undoes decoding, for every index of 30 bits.
pub proof fn law_round_trip_index_3d(index: u32)
    by (bit_vector)
    requires
        index < 0x4000_0000,
    ensures
        index_3d(gather_by_two(index), gather_by_two(index >> 1), gather_by_two(index >> 2))
            == index,
{
}

/// A level of a quadtree is a square: the indices below 4^levels hold coordinates
/// below 2^levels.
pub proof fn lemma_gathered_below_2d(index: u32, levels: u32)
    by (bit_vector)
    requires
        levels <= 15,
        index < 1u32 << (2 * levels),
    ensures
        gather_by_one(index) < 1u32 << levels,
        gather_by_one(index >> 1) < 1u32 << levels,
{
}

/// A level of an octree is a cube: the indices below 8^levels hold coordinates
/// below 2^levels.
pub proof fn lemma_gathered_below_3d(index: u32, levels: u32)
    by (bit_vector)
    requires
        levels <= 9,
        index < 1u32 << (3 * levels),
    ensures
        gather_by_two(index) < 1u32 << levels,
        gather_by_two(index >> 1) < 1u32 << levels,
        gather_by_two(index >> 2) < 1u32 << levels,
{
}

/// The coordinates of a tile's child are those of the tile, doubled, plus the corner.
pub proof fn lemma_gathered_child_2d(index: u32, corner: u32)
    requires
        index < 0x1000_0000,
        corner < 4,
    ensures
        gather_by_one((4 * index + corner) as u32) == 2 * gather_by_one(index) + corner % 2,
        gather_by_one(((4 * index + corner) as u32) >> 1) == 2 * gather_by_one(index >> 1) + corner
            / 2,
{
    let child: u32 = (4 * index + corner) as u32;
    assert(gather_by_one(child) == 2 * gather_by_one(index) + corner % 2 && gather_by_one(
        child >> 1,
    ) == 2 * gather_by_one(index >> 1) + corner / 2) by (bit_vector)
        requires
            index < 0x1000_0000,
            corner < 4,
            child == 4 * index + corner,
    ;
}

/// The coordinates of a tile's child are those of the tile, doubled, plus the corner.
pub proof fn lemma_gathered_child_3d(index: u32, corner: u32)
    requires
        index < 0x0800_0000,
        corner < 8,
    ensures
        gather_by_two((8 * index + corner) as u32) == 2 * gather_by_two(index) + corner % 2,
        gather_by_two(((8 * index + corner) as u32) >> 1) == 2 * gather_by_two(index >> 1) + corner
            / 2 % 2,
        gather_by_two(((8 * index + corner) as u32) >> 2) == 2 * gather_by_two(index >> 2) + corner
            / 4,
{
    let child: u32 = (8 * index + corner) as u32;
    assert(gather_by_two(child) == 2 * gather_by_two(index) + corner % 2 && gather_by_two(
        child >> 1,
    ) == 2 * gather_by_two(index >> 1) + corner / 2 % 2 && gather_by_two(child >> 2) == 2
        * gather_by_two(index >> 2) + corner / 4) by (bit_vector)
        requires
            index < 0x0800_0000,
            corner < 8,
            child == 8 * index + corner,
    ;
}

/// The first index is that of the origin.
pub proof fn lemma_gathered_origin()
    ensures
        gather_by_one(0) == 0,
        gather_by_one(0u32 >> 1) == 0,
        gather_by_two(0) == 0,
        gather_by_two(0u32 >> 1) == 0,
        gather_by_two(0u32 >> 2) == 0,
{
    assert(gather_by_one(0) == 0 && gather_by_one(0u32 >> 1) == 0 && gather_by_two(0) == 0
        && gather_by_two(0u32 >> 1) == 0 && gather_by_two(0u32 >> 2) == 0) by (bit_vector);
}

/// Which bits of a coordinate an index holds. In two dimensions bits 0 to 7 are held as they
/// are, and bits 8 to 15 with the bit eight places up added without carry; in three dimensions
/// bits 0 to 7 as they are, and bits 8 and 9 with the bit sixteen places up. Nothing above is
/// held.
pub proof fn law_large_coordinates_fold(value: u32, i: u32)
    ensures
        i < 8 ==> bit(addressable_2d(value), i) == bit(value, i),
        8 <= i < 16 ==> bit(addressable_2d(value), i) == (bit(value, i) != bit(
            value,
            (i + 8) as u32,
        )),
        addressable_2d(value) < 0x1_0000,
        i < 8 ==> bit(addressable_3d(value), i) == bit(value, i),
        8 <= i < 10 ==> bit(addressable_3d(value), i) == (bit(value, i) != bit(
            value,
            (i + 16) as u32,
        )),
        addressable_3d(value) < 0x400,
{
    if i < 16 {
        let near: u32 = (i + 8) as u32;
        let far: u32 = (i + 16) as u32;
        assert((i < 8 ==> bit(addressable_2d(value), i) == bit(value, i) && bit(
            addressable_3d(value),
            i,
        ) == bit(value, i)) && (8 <= i ==> bit(addressable_2d(value), i) == (bit(value, i) != bit(
            value,
            near,
        ))) && (8 <= i && i < 10 ==> bit(addressable_3d(value), i) == (bit(value, i) != bit(
            value,
            far,
        )))) by (bit_vector)
            requires
                i < 16,
                near == i + 8,
                far == i + 16,
        ;
    }
    assert(addressable_2d(value) < 0x1_0000 && addressable_3d(value) < 0x400) by (bit_vector);
}

} // verus!
