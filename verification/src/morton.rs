//! Morton (Z-order) keys: each coordinate is normalized into a 10-bit cell
//! index, and the three cell indices are interleaved bit by bit into one
//! 30-bit key.

use vstd::prelude::*;

use crate::{COORD_LIMIT, WORLD_LIMIT};

verus! {

/// The low ten bits of `v` spread out so that bit `k` lands on bit `3k`.
pub open spec fn spread10(v: u32) -> u32 {
    let a = v & 0x3FF;
    let b = (a | (a << 16)) & 0xFF0000FF;
    let c = (b | (b << 8)) & 0x0F00F00F;
    let d = (c | (c << 4)) & 0xC30C30C3;
    (d | (d << 2)) & 0x49249249
}

/// `spread10` places bit `k` of its input on bit `3k` of its result, for
/// each of the ten input bits, and sets no other bit.
pub proof fn lemma_spread10_bits(v: u32)
    ensures
        forall|k: int|
            0 <= k < 10 ==> ((#[trigger] (spread10(v) >> (3 * k as u32))) & 1) == ((v >> k as u32)
                & 1),
        spread10(v) & 0x49249249 == spread10(v),
        spread10(v) <= 0x09249249,
{
    let r = spread10(v);
    assert({
        let a = v & 0x3FF;
        let b = (a | (a << 16)) & 0xFF0000FF;
        let c = (b | (b << 8)) & 0x0F00F00F;
        let d = (c | (c << 4)) & 0xC30C30C3;
        let r = (d | (d << 2)) & 0x49249249;
        &&& ((r >> 0) & 1) == ((v >> 0) & 1)
        &&& ((r >> 3) & 1) == ((v >> 1) & 1)
        &&& ((r >> 6) & 1) == ((v >> 2) & 1)
        &&& ((r >> 9) & 1) == ((v >> 3) & 1)
        &&& ((r >> 12) & 1) == ((v >> 4) & 1)
        &&& ((r >> 15) & 1) == ((v >> 5) & 1)
        &&& ((r >> 18) & 1) == ((v >> 6) & 1)
        &&& ((r >> 21) & 1) == ((v >> 7) & 1)
        &&& ((r >> 24) & 1) == ((v >> 8) & 1)
        &&& ((r >> 27) & 1) == ((v >> 9) & 1)
        &&& r & 0x49249249 == r
        &&& r <= 0x09249249
    }) by (bit_vector);
    assert forall|k: int| 0 <= k < 10 implies ((#[trigger] (r >> (3 * k as u32))) & 1) == ((v
        >> k as u32) & 1) by {
        if k == 0 {
            assert(3 * k as u32 == 0u32 && k as u32 == 0u32);
        } else if k == 1 {
            assert(3 * k as u32 == 3u32 && k as u32 == 1u32);
        } else if k == 2 {
            assert(3 * k as u32 == 6u32 && k as u32 == 2u32);
        } else if k == 3 {
            assert(3 * k as u32 == 9u32 && k as u32 == 3u32);
        } else if k == 4 {
            assert(3 * k as u32 == 12u32 && k as u32 == 4u32);
        } else if k == 5 {
            assert(3 * k as u32 == 15u32 && k as u32 == 5u32);
        } else if k == 6 {
            assert(3 * k as u32 == 18u32 && k as u32 == 6u32);
        } else if k == 7 {
            assert(3 * k as u32 == 21u32 && k as u32 == 7u32);
        } else if k == 8 {
            assert(3 * k as u32 == 24u32 && k as u32 == 8u32);
        } else {
            assert(3 * k as u32 == 27u32 && k as u32 == 9u32);
        }
    }
}

/// Spread the low ten bits of `v` with two zero bits between consecutive
/// bits, by the usual shift-and-mask ladder.
pub fn expand_bits(v: u32) -> (r: u32)
    ensures
        r == spread10(v),
{
    let a = v & 0x3FF;
    let b = (a | (a << 16)) & 0xFF0000FF;
    let c = (b | (b << 8)) & 0x0F00F00F;
    let d = (c | (c << 4)) & 0xC30C30C3;
    (d | (d << 2)) & 0x49249249
}

/// The 10-bit cell index of a coordinate: the position is shifted by half
/// the world size, clamped into `[0, world_size]`, and scaled to `[0, 1023]`
/// (rounding down).
pub open spec fn quantize_spec(pos: int, world_size: int) -> int {
    let shifted = pos + world_size / 2;
    if shifted <= 0 {
        0
    } else if shifted >= world_size {
        1023
    } else {
        (shifted * 1023) / world_size
    }
}

/// The quantized cell index stays inside the ten-bit range.
pub proof fn lemma_quantize_bounds(pos: int, world_size: int)
    requires
        world_size >= 1,
    ensures
        0 <= quantize_spec(pos, world_size) <= 1023,
{
    let shifted = pos + world_size / 2;
    if 0 < shifted < world_size {
        assert(0 <= (shifted * 1023) / world_size <= 1023) by (nonlinear_arith)
            requires
                world_size >= 1,
                0 < shifted < world_size,
        ;
    }
}

/// Quantize one coordinate into its 10-bit cell index.
pub fn quantize_axis(pos: i64, world_size: i64) -> (q: u32)
    requires
        -COORD_LIMIT <= pos <= COORD_LIMIT,
        1 <= world_size <= WORLD_LIMIT,
    ensures
        q == quantize_spec(pos as int, world_size as int),
        q <= 1023,
{
    proof {
        lemma_quantize_bounds(pos as int, world_size as int);
    }
    let shifted = pos + world_size / 2;
    if shifted <= 0 {
        0
    } else if shifted >= world_size {
        1023
    } else {
        proof {
            assert(0 <= (shifted * 1023) / (world_size as int) <= 1023) by (nonlinear_arith)
                requires
                    world_size >= 1,
                    0 < shifted < world_size,
            ;
            assert(shifted * 1023 <= WORLD_LIMIT * 1023) by (nonlinear_arith)
                requires
                    0 < shifted <= WORLD_LIMIT,
            ;
        }
        ((shifted * 1023) / world_size) as u32
    }
}

/// The 30-bit Morton key of a quantized cell: the x bits on positions
/// `3k`, the y bits on `3k+1`, the z bits on `3k+2`.
pub open spec fn morton_spec(x: int, y: int, z: int, world_size: int) -> u32 {
    let qx = quantize_spec(x, world_size) as u32;
    let qy = quantize_spec(y, world_size) as u32;
    let qz = quantize_spec(z, world_size) as u32;
    spread10(qx) | (spread10(qy) << 1) | (spread10(qz) << 2)
}

/// Any Morton key fits in 30 bits.
pub proof fn lemma_morton_bound(x: int, y: int, z: int, world_size: int)
    ensures
        morton_spec(x, y, z, world_size) < 0x40000000,
{
    let qx = quantize_spec(x, world_size) as u32;
    let qy = quantize_spec(y, world_size) as u32;
    let qz = quantize_spec(z, world_size) as u32;
    lemma_spread10_bits(qx);
    lemma_spread10_bits(qy);
    lemma_spread10_bits(qz);
    let sx = spread10(qx);
    let sy = spread10(qy);
    let sz = spread10(qz);
    assert(sx <= 0x09249249 && sy <= 0x09249249 && sz <= 0x09249249 ==> (sx | (sy << 1) | (sz
        << 2)) < 0x40000000) by (bit_vector);
}

/// Compute the Morton key of a position inside a cubical world volume of
/// the given extent centered at the origin.
pub fn calculate_morton_code(x: i64, y: i64, z: i64, world_size: i64) -> (code: u32)
    requires
        -COORD_LIMIT <= x <= COORD_LIMIT,
        -COORD_LIMIT <= y <= COORD_LIMIT,
        -COORD_LIMIT <= z <= COORD_LIMIT,
        1 <= world_size <= WORLD_LIMIT,
    ensures
        code == morton_spec(x as int, y as int, z as int, world_size as int),
        code < 0x40000000,
{
    let qx = quantize_axis(x, world_size);
    let qy = quantize_axis(y, world_size);
    let qz = quantize_axis(z, world_size);
    let sx = expand_bits(qx);
    let sy = expand_bits(qy);
    let sz = expand_bits(qz);
    proof {
        lemma_morton_bound(x as int, y as int, z as int, world_size as int);
        lemma_spread10_bits(qx);
        lemma_spread10_bits(qy);
        lemma_spread10_bits(qz);
        assert(sy <= 0x09249249 ==> (sy << 1) == sy * 2) by (bit_vector);
        assert(sz <= 0x09249249 ==> (sz << 2) == sz * 4) by (bit_vector);
    }
    sx | (sy << 1) | (sz << 2)
}

} // verus!
