//! Bit-level facts about the bytes of an allocation bitmap.

use vstd::prelude::*;

verus! {

/// Whether bit `b` (0 = least significant) of `byte` is set.
pub open spec fn bit_is_set(byte: u8, b: int) -> bool {
    (byte >> (b as u8)) & 1u8 == 1u8
}

pub proof fn lemma_bit_set_or(x: u8, b: u8, c: u8)
    requires
        b < 8,
        c < 8,
    ensures
        bit_is_set(x | (1u8 << b), c as int) == (c == b || bit_is_set(x, c as int)),
{
    assert((((x | (1u8 << b)) >> c) & 1u8 == 1u8) == (c == b || ((x >> c) & 1u8 == 1u8)))
        by (bit_vector)
        requires
            b < 8,
            c < 8,
    ;
}

pub proof fn lemma_bit_clear_and(x: u8, b: u8, c: u8)
    requires
        b < 8,
        c < 8,
    ensures
        bit_is_set(x & !(1u8 << b), c as int) == (c != b && bit_is_set(x, c as int)),
{
    assert((((x & !(1u8 << b)) >> c) & 1u8 == 1u8) == (c != b && ((x >> c) & 1u8 == 1u8)))
        by (bit_vector)
        requires
            b < 8,
            c < 8,
    ;
}

pub proof fn lemma_full_byte(c: u8)
    requires
        c < 8,
    ensures
        bit_is_set(0xffu8, c as int),
{
    assert((0xffu8 >> c) & 1u8 == 1u8) by (bit_vector)
        requires
            c < 8,
    ;
}

pub proof fn lemma_bit_test(x: u8, c: u8)
    requires
        c < 8,
    ensures
        bit_is_set(x, c as int) == ((x >> c) & 1 != 0),
{
    assert(((x >> c) & 1u8 == 1u8) == ((x >> c) & 1u8 != 0u8)) by (bit_vector);
}

} // verus!
