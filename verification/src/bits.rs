//! Bit-level helpers for 32-bit tag masks.

use vstd::prelude::*;

verus! {

/// True when bit `i` of the mask `m` is set.
pub open spec fn mask_bit(m: u32, i: u8) -> bool {
    (m >> (i as u32)) & 1u32 == 1u32
}

/// The mask whose low `n` bits are set, for `1 <= n <= 32`.
pub open spec fn low_mask(n: u8) -> u32 {
    if n >= 32 {
        0xffff_ffffu32
    } else {
        ((1u32 << (n as u32)) - 1) as u32
    }
}

/// Setting one bit by `|` leaves every other bit unchanged.
pub proof fn lemma_or_single_bit(x: u32, d: u8, j: u8)
    requires
        d < 32,
        j < 32,
    ensures
        mask_bit(x | (1u32 << (d as u32)), j) == (j == d || mask_bit(x, j)),
{
    assert(((x | (1u32 << (d as u32))) >> (j as u32)) & 1u32 == 1u32 <==> (j == d || (x >> (
    j as u32)) & 1u32 == 1u32)) by (bit_vector)
        requires
            d < 32,
            j < 32,
    ;
}

/// Clearing one bit by `& !` leaves every other bit unchanged.
pub proof fn lemma_clear_single_bit(x: u32, d: u8, j: u8)
    requires
        d < 32,
        j < 32,
    ensures
        mask_bit(x & !(1u32 << (d as u32)), j) == (j != d && mask_bit(x, j)),
{
    assert(((x & !(1u32 << (d as u32))) >> (j as u32)) & 1u32 == 1u32 <==> (j != d && (x >> (
    j as u32)) & 1u32 == 1u32)) by (bit_vector)
        requires
            d < 32,
            j < 32,
    ;
}

/// The zero mask has no bit set.
pub proof fn lemma_zero_bit(j: u8)
    requires
        j < 32,
    ensures
        !mask_bit(0u32, j),
{
    assert((0u32 >> (j as u32)) & 1u32 != 1u32) by (bit_vector)
        requires
            j < 32,
    ;
}

/// Two masks that agree on all 32 bits are equal.
pub proof fn lemma_mask_ext(x: u32, y: u32)
    requires
        forall|j: u8| j < 32 ==> mask_bit(x, j) == mask_bit(y, j),
    ensures
        x == y,
{
    assert forall|j: u32| j < 32 implies (#[trigger] (x >> j)) & 1u32 == (y >> j) & 1u32 by {
        assert(mask_bit(x, j as u8) == mask_bit(y, j as u8));
        assert(j as u8 as u32 == j);
        assert(((x >> j) & 1u32 == 1u32 <==> (y >> j) & 1u32 == 1u32) ==> ((x >> j) & 1u32 == ((y
            >> j) & 1u32))) by (bit_vector);
    }
    assert(x == y) by (bit_vector)
        requires
            (x >> 0u32) & 1u32 == (y >> 0u32) & 1u32,
            (x >> 1u32) & 1u32 == (y >> 1u32) & 1u32,
            (x >> 2u32) & 1u32 == (y >> 2u32) & 1u32,
            (x >> 3u32) & 1u32 == (y >> 3u32) & 1u32,
            (x >> 4u32) & 1u32 == (y >> 4u32) & 1u32,
            (x >> 5u32) & 1u32 == (y >> 5u32) & 1u32,
            (x >> 6u32) & 1u32 == (y >> 6u32) & 1u32,
            (x >> 7u32) & 1u32 == (y >> 7u32) & 1u32,
            (x >> 8u32) & 1u32 == (y >> 8u32) & 1u32,
            (x >> 9u32) & 1u32 == (y >> 9u32) & 1u32,
            (x >> 10u32) & 1u32 == (y >> 10u32) & 1u32,
            (x >> 11u32) & 1u32 == (y >> 11u32) & 1u32,
            (x >> 12u32) & 1u32 == (y >> 12u32) & 1u32,
            (x >> 13u32) & 1u32 == (y >> 13u32) & 1u32,
            (x >> 14u32) & 1u32 == (y >> 14u32) & 1u32,
            (x >> 15u32) & 1u32 == (y >> 15u32) & 1u32,
            (x >> 16u32) & 1u32 == (y >> 16u32) & 1u32,
            (x >> 17u32) & 1u32 == (y >> 17u32) & 1u32,
            (x >> 18u32) & 1u32 == (y >> 18u32) & 1u32,
            (x >> 19u32) & 1u32 == (y >> 19u32) & 1u32,
            (x >> 20u32) & 1u32 == (y >> 20u32) & 1u32,
            (x >> 21u32) & 1u32 == (y >> 21u32) & 1u32,
            (x >> 22u32) & 1u32 == (y >> 22u32) & 1u32,
            (x >> 23u32) & 1u32 == (y >> 23u32) & 1u32,
            (x >> 24u32) & 1u32 == (y >> 24u32) & 1u32,
            (x >> 25u32) & 1u32 == (y >> 25u32) & 1u32,
            (x >> 26u32) & 1u32 == (y >> 26u32) & 1u32,
            (x >> 27u32) & 1u32 == (y >> 27u32) & 1u32,
            (x >> 28u32) & 1u32 == (y >> 28u32) & 1u32,
            (x >> 29u32) & 1u32 == (y >> 29u32) & 1u32,
            (x >> 30u32) & 1u32 == (y >> 30u32) & 1u32,
            (x >> 31u32) & 1u32 == (y >> 31u32) & 1u32,
    ;
}

} // verus!
