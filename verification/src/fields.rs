//! The three bit fields of a single-precision IEEE-754 pattern.
//!
//! A 32-bit pattern splits into one sign bit, eight exponent bits and
//! twenty-three mantissa bits; the three fields partition the pattern
//! exactly.  Bit sequences are indexed most-significant first, matching the
//! order in which the accessors hand them out.

use vstd::prelude::*;

verus! {

/// Total width of a single-precision pattern.
pub const WIDTH: u32 = 32;

/// Width of the exponent field.
pub const EXPONENT_BITS: u32 = 8;

/// Bias of the exponent field.
pub const EXPONENT_BIAS: u32 = 127;

/// Width of the stored mantissa field.
pub const MANTISSA_BITS: u32 = 23;

/// True iff the most significant bit of the pattern is set.
pub open spec fn sign_of(bits: u32) -> bool {
    bits >> 31u32 == 1u32
}

/// The eight exponent bits, as an unsigned field value below 256.
pub open spec fn exponent_field(bits: u32) -> u32 {
    (bits >> 23u32) & 0xffu32
}

/// The twenty-three mantissa bits, as an unsigned field value below 2^23.
pub open spec fn mantissa_field(bits: u32) -> u32 {
    bits & 0x7fffffu32
}

/// Exponent bit `i`, most-significant first, for `0 <= i < 8`.
pub open spec fn exponent_bit(bits: u32, i: int) -> bool
    recommends
        0 <= i < 8,
{
    (bits >> ((30 - i) as u32)) & 1u32 == 1u32
}

/// Mantissa bit `i`, most-significant first, for `0 <= i < 23`.
pub open spec fn mantissa_bit(bits: u32, i: int) -> bool
    recommends
        0 <= i < 23,
{
    (bits >> ((22 - i) as u32)) & 1u32 == 1u32
}

/// The exponent field stays below 2^8 and the mantissa field below 2^23.
pub proof fn lemma_field_bounds(bits: u32)
    ensures
        exponent_field(bits) < 256,
        mantissa_field(bits) < 0x800000,
{
    assert((bits >> 23u32) & 0xffu32 < 256) by (bit_vector);
    assert(bits & 0x7fffffu32 < 0x800000) by (bit_vector);
}

/// The sign bit together with the thirty-one field bits determines the whole
/// pattern: two patterns that agree on the sign, on every exponent bit and on
/// every mantissa bit are the same pattern.  Recombining a decomposition
/// therefore reconstructs the exact original bit pattern.
pub proof fn lemma_bits_determined(a: u32, b: u32)
    requires
        sign_of(a) == sign_of(b),
        forall|i: int| 0 <= i < 8 ==> exponent_bit(a, i) == exponent_bit(b, i),
        forall|i: int| 0 <= i < 23 ==> mantissa_bit(a, i) == mantissa_bit(b, i),
    ensures
        a == b,
{
    assert(exponent_bit(a, 0) == exponent_bit(b, 0));
    assert(exponent_bit(a, 1) == exponent_bit(b, 1));
    assert(exponent_bit(a, 2) == exponent_bit(b, 2));
    assert(exponent_bit(a, 3) == exponent_bit(b, 3));
    assert(exponent_bit(a, 4) == exponent_bit(b, 4));
    assert(exponent_bit(a, 5) == exponent_bit(b, 5));
    assert(exponent_bit(a, 6) == exponent_bit(b, 6));
    assert(exponent_bit(a, 7) == exponent_bit(b, 7));
    assert(mantissa_bit(a, 0) == mantissa_bit(b, 0));
    assert(mantissa_bit(a, 1) == mantissa_bit(b, 1));
    assert(mantissa_bit(a, 2) == mantissa_bit(b, 2));
    assert(mantissa_bit(a, 3) == mantissa_bit(b, 3));
    assert(mantissa_bit(a, 4) == mantissa_bit(b, 4));
    assert(mantissa_bit(a, 5) == mantissa_bit(b, 5));
    assert(mantissa_bit(a, 6) == mantissa_bit(b, 6));
    assert(mantissa_bit(a, 7) == mantissa_bit(b, 7));
    assert(mantissa_bit(a, 8) == mantissa_bit(b, 8));
    assert(mantissa_bit(a, 9) == mantissa_bit(b, 9));
    assert(mantissa_bit(a, 10) == mantissa_bit(b, 10));
    assert(mantissa_bit(a, 11) == mantissa_bit(b, 11));
    assert(mantissa_bit(a, 12) == mantissa_bit(b, 12));
    assert(mantissa_bit(a, 13) == mantissa_bit(b, 13));
    assert(mantissa_bit(a, 14) == mantissa_bit(b, 14));
    assert(mantissa_bit(a, 15) == mantissa_bit(b, 15));
    assert(mantissa_bit(a, 16) == mantissa_bit(b, 16));
    assert(mantissa_bit(a, 17) == mantissa_bit(b, 17));
    assert(mantissa_bit(a, 18) == mantissa_bit(b, 18));
    assert(mantissa_bit(a, 19) == mantissa_bit(b, 19));
    assert(mantissa_bit(a, 20) == mantissa_bit(b, 20));
    assert(mantissa_bit(a, 21) == mantissa_bit(b, 21));
    assert(mantissa_bit(a, 22) == mantissa_bit(b, 22));
    assert(a == b) by (bit_vector)
        requires
            (a >> 31u32) == 1u32 <==> (b >> 31u32) == 1u32,
            ((a >> 30u32) & 1u32 == 1u32) == ((b >> 30u32) & 1u32 == 1u32),
            ((a >> 29u32) & 1u32 == 1u32) == ((b >> 29u32) & 1u32 == 1u32),
            ((a >> 28u32) & 1u32 == 1u32) == ((b >> 28u32) & 1u32 == 1u32),
            ((a >> 27u32) & 1u32 == 1u32) == ((b >> 27u32) & 1u32 == 1u32),
            ((a >> 26u32) & 1u32 == 1u32) == ((b >> 26u32) & 1u32 == 1u32),
            ((a >> 25u32) & 1u32 == 1u32) == ((b >> 25u32) & 1u32 == 1u32),
            ((a >> 24u32) & 1u32 == 1u32) == ((b >> 24u32) & 1u32 == 1u32),
            ((a >> 23u32) & 1u32 == 1u32) == ((b >> 23u32) & 1u32 == 1u32),
            ((a >> 22u32) & 1u32 == 1u32) == ((b >> 22u32) & 1u32 == 1u32),
            ((a >> 21u32) & 1u32 == 1u32) == ((b >> 21u32) & 1u32 == 1u32),
            ((a >> 20u32) & 1u32 == 1u32) == ((b >> 20u32) & 1u32 == 1u32),
            ((a >> 19u32) & 1u32 == 1u32) == ((b >> 19u32) & 1u32 == 1u32),
            ((a >> 18u32) & 1u32 == 1u32) == ((b >> 18u32) & 1u32 == 1u32),
            ((a >> 17u32) & 1u32 == 1u32) == ((b >> 17u32) & 1u32 == 1u32),
            ((a >> 16u32) & 1u32 == 1u32) == ((b >> 16u32) & 1u32 == 1u32),
            ((a >> 15u32) & 1u32 == 1u32) == ((b >> 15u32) & 1u32 == 1u32),
            ((a >> 14u32) & 1u32 == 1u32) == ((b >> 14u32) & 1u32 == 1u32),
            ((a >> 13u32) & 1u32 == 1u32) == ((b >> 13u32) & 1u32 == 1u32),
            ((a >> 12u32) & 1u32 == 1u32) == ((b >> 12u32) & 1u32 == 1u32),
            ((a >> 11u32) & 1u32 == 1u32) == ((b >> 11u32) & 1u32 == 1u32),
            ((a >> 10u32) & 1u32 == 1u32) == ((b >> 10u32) & 1u32 == 1u32),
            ((a >> 9u32) & 1u32 == 1u32) == ((b >> 9u32) & 1u32 == 1u32),
            ((a >> 8u32) & 1u32 == 1u32) == ((b >> 8u32) & 1u32 == 1u32),
            ((a >> 7u32) & 1u32 == 1u32) == ((b >> 7u32) & 1u32 == 1u32),
            ((a >> 6u32) & 1u32 == 1u32) == ((b >> 6u32) & 1u32 == 1u32),
            ((a >> 5u32) & 1u32 == 1u32) == ((b >> 5u32) & 1u32 == 1u32),
            ((a >> 4u32) & 1u32 == 1u32) == ((b >> 4u32) & 1u32 == 1u32),
            ((a >> 3u32) & 1u32 == 1u32) == ((b >> 3u32) & 1u32 == 1u32),
            ((a >> 2u32) & 1u32 == 1u32) == ((b >> 2u32) & 1u32 == 1u32),
            ((a >> 1u32) & 1u32 == 1u32) == ((b >> 1u32) & 1u32 == 1u32),
            ((a >> 0u32) & 1u32 == 1u32) == ((b >> 0u32) & 1u32 == 1u32),
    ;
}

} // verus!
