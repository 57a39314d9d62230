//! A single-precision value with tolerance-based equality and a matching,
//! bit-derived hash code.
//!
//! [`ApproxFloat`] wraps the 32-bit IEEE-754 pattern of a single-precision
//! value.  Equality is not bit-exact: two values are equal when they differ
//! by at most the tolerance `0.00001` (see [`crate::tolerance`]).  The hash
//! code is derived from the sign, exponent and mantissa fields, with every
//! mantissa bit whose place value falls below the tolerance cleared, so that
//! values within tolerance usually receive the same code.
//!
//! The pairing is a best effort, not a guarantee: the clearing threshold is
//! computed per value from that value's own exponent field, so two values on
//! opposite sides of a power-of-two boundary can compare equal and still
//! hash apart.  That silent-breakage mode is part of the design and is kept.

use vstd::arithmetic::power2::{lemma2_to64, lemma_pow2_unfold, pow2};
use vstd::bits::lemma_u32_shl_is_mul;
use vstd::prelude::*;
use vstd::string::StringExecFns;

use crate::fields::{
    exponent_bit, exponent_field, lemma_bits_determined, lemma_field_bounds, mantissa_bit,
    mantissa_field, sign_of,
};
use crate::tolerance::{
    is_finite_bits, scaled_value, tolerance_scaled, within_tol, within_tolerance,
    TOLERANCE_SIGNIFICAND,
};

verus! {

/// Partial sums of the exponent reconstruction: the first `n` exponent bits,
/// bit `i` of the sequence (most-significant first) contributing `2^i`.
pub open spec fn exp_acc(bits: u32, n: nat) -> int
    decreases n,
{
    if n == 0 {
        0
    } else {
        exp_acc(bits, (n - 1) as nat) + if exponent_bit(bits, n - 1) {
            pow2((n - 1) as nat) as int
        } else {
            0
        }
    }
}

/// The exponent that the hash derivation reconstructs from the exponent-bit
/// sequence, less the bias of 127.  Bit `i` of the sequence, most-significant
/// field bit first, contributes `2^i`; this reading of the sequence is the
/// design's documented behaviour and is kept as it stands.
pub open spec fn raw_exponent(bits: u32) -> int {
    exp_acc(bits, 8) - 127
}

/// Whether mantissa bit `i` survives the tolerance cut.  Relative to the
/// implicit leading mantissa bit, whose place value is `2^raw_exponent`, bit
/// `i` carries place value `2^(raw_exponent - i)`.  The tolerance `0.00001`
/// lies strictly between `2^(-17)` and `2^(-16)`, so the place value meets
/// the tolerance exactly when `raw_exponent - i >= -16`.  A bit whose place
/// value falls below the tolerance cannot decide the equality and is
/// cleared before hashing.
pub open spec fn significant_mantissa_bit(bits: u32, i: int) -> bool {
    mantissa_bit(bits, i) && raw_exponent(bits) - i >= -16
}

/// Partial sums of the truncated mantissa: the first `n` surviving mantissa
/// bits at their field place values (bit `i` contributes `2^(22 - i)`).
pub open spec fn trunc_acc(bits: u32, n: nat) -> int
    decreases n,
{
    if n == 0 {
        0
    } else {
        trunc_acc(bits, (n - 1) as nat) + if significant_mantissa_bit(bits, n - 1) {
            pow2((23 - n) as nat) as int
        } else {
            0
        }
    }
}

/// The mantissa field with every insignificant bit cleared.
pub open spec fn truncated_mantissa(bits: u32) -> int {
    trunc_acc(bits, 23)
}

/// The hash code of a pattern: the sign bit, the exponent field and the
/// truncated mantissa, packed as `sign * 2^31 + exponent * 2^23 + mantissa`.
/// The two zero patterns are sign-agnostic: positive and negative zero both
/// hash to 0, matching their equality.
pub open spec fn spec_hash(bits: u32) -> int {
    if exponent_field(bits) == 0 && mantissa_field(bits) == 0 {
        0
    } else {
        (if sign_of(bits) {
            0x80000000int
        } else {
            0int
        }) + exponent_field(bits) * 0x800000 + truncated_mantissa(bits)
    }
}

/// The character a bit renders as.
pub open spec fn bit_char(b: bool) -> char {
    if b {
        '1'
    } else {
        '0'
    }
}

/// The diagnostic rendering: `0b`, then the sign bit, the eight exponent
/// bits and the twenty-three mantissa bits, one character each.
pub open spec fn spec_bin_string(bits: u32) -> Seq<char> {
    Seq::new(
        34,
        |i: int|
            if i == 0 {
                '0'
            } else if i == 1 {
                'b'
            } else if i == 2 {
                bit_char(sign_of(bits))
            } else if i < 11 {
                bit_char(exponent_bit(bits, i - 3))
            } else {
                bit_char(mantissa_bit(bits, i - 11))
            },
    )
}

proof fn lemma_exp_acc_bound(bits: u32, n: nat)
    ensures
        0 <= exp_acc(bits, n) < pow2(n),
    decreases n,
{
    vstd::arithmetic::power2::lemma_pow2_pos(n);
    if n > 0 {
        lemma_exp_acc_bound(bits, (n - 1) as nat);
        lemma_pow2_unfold(n);
    }
}

proof fn lemma_trunc_acc_bound(bits: u32, n: nat)
    requires
        n <= 23,
    ensures
        0 <= trunc_acc(bits, n) <= pow2(23) - pow2((23 - n) as nat),
    decreases n,
{
    lemma2_to64();
    if n > 0 {
        lemma_trunc_acc_bound(bits, (n - 1) as nat);
        lemma_pow2_unfold((23 - (n - 1)) as nat);
    }
}

/// A single-precision value, held as its IEEE-754 bit pattern, under
/// tolerance-based equality and the matching bit-derived hash code.  The
/// value is immutable once built; the bit fields are recomputed from the
/// pattern on every access, never cached.
#[derive(Clone, Copy, Debug)]
pub struct ApproxFloat {
    bits: u32,
}

impl View for ApproxFloat {
    type V = u32;

    closed spec fn view(&self) -> u32 {
        self.bits
    }
}

impl ApproxFloat {
    /// Wraps the 32-bit IEEE-754 pattern of a single-precision value,
    /// unchanged.  Total: every pattern is accepted, NaNs and infinities
    /// included.
    pub fn new(bits: u32) -> (r: ApproxFloat)
        ensures
            r@ == bits,
    {
        ApproxFloat { bits }
    }

    /// The wrapped bit pattern.
    pub fn to_bits(&self) -> (r: u32)
        ensures
            r == self@,
    {
        self.bits
    }

    /// True iff the most significant bit of the pattern is set.
    pub fn sign_bit(&self) -> (r: bool)
        ensures
            r == sign_of(self@),
    {
        (self.bits >> 31) == 1
    }

    /// The eight exponent bits, most-significant first.
    pub fn exponent_bits(&self) -> (r: Vec<bool>)
        ensures
            r@.len() == 8,
            forall|i: int| 0 <= i < 8 ==> r@[i] == exponent_bit(self@, i),
    {
        let mut r: Vec<bool> = Vec::new();
        let mut i: u32 = 0;
        while i < 8
            invariant
                i <= 8,
                r@.len() == i as nat,
                forall|j: int| 0 <= j < i ==> r@[j] == exponent_bit(self.bits, j),
            decreases 8 - i,
        {
            let bit: bool = (self.bits >> (30 - i)) & 1 == 1;
            r.push(bit);
            i = i + 1;
        }
        r
    }

    /// The twenty-three mantissa bits, most-significant first.
    pub fn mantissa_bits(&self) -> (r: Vec<bool>)
        ensures
            r@.len() == 23,
            forall|i: int| 0 <= i < 23 ==> r@[i] == mantissa_bit(self@, i),
    {
        let mut r: Vec<bool> = Vec::new();
        let mut i: u32 = 0;
        while i < 23
            invariant
                i <= 23,
                r@.len() == i as nat,
                forall|j: int| 0 <= j < i ==> r@[j] == mantissa_bit(self.bits, j),
            decreases 23 - i,
        {
            let bit: bool = (self.bits >> (22 - i)) & 1 == 1;
            r.push(bit);
            i = i + 1;
        }
        r
    }

    /// Tolerance-based equality: true exactly when both patterns denote
    /// finite values at most `0.00001` apart.  Symmetric and reflexive on
    /// finite values, but not transitive; a NaN or infinite operand never
    /// compares equal, not even to itself.
    pub fn equals(&self, other: &ApproxFloat) -> (r: bool)
        ensures
            r == within_tolerance(self@, other@),
    {
        within_tol(self.bits, other.bits)
    }
}

/// Reconstructs the exponent the hash derivation works with: the
/// exponent-bit sequence read with bit `i` contributing `2^i`, less the
/// bias.
fn raw_exp(bits: u32) -> (r: i32)
    ensures
        r as int == raw_exponent(bits),
        -127 <= r as int <= 128,
{
    let mut acc: u32 = 0;
    let mut i: u32 = 0;
    proof {
        lemma2_to64();
    }
    while i < 8
        invariant
            i <= 8,
            acc as int == exp_acc(bits, i as nat),
            acc < 256,
        decreases 8 - i,
    {
        proof {
            lemma_exp_acc_bound(bits, i as nat);
            lemma_exp_acc_bound(bits, (i + 1) as nat);
            lemma2_to64();
            vstd::arithmetic::power2::lemma_pow2_strictly_increases(i as nat, 8);
            lemma_u32_shl_is_mul(1u32, i);
        }
        if (bits >> (30 - i)) & 1 == 1 {
            acc = acc + (1u32 << i);
        }
        i = i + 1;
    }
    proof {
        lemma_exp_acc_bound(bits, 8);
        lemma2_to64();
    }
    (acc as i32) - 127
}

/// The effect of OR-ing in a single set bit: position `s` becomes set,
/// every other position, the top bit included, keeps its value.
proof fn lemma_or_sets_bit(x: u32, s: u32, t: u32)
    requires
        s < 32,
        t < 32,
    ensures
        ((x | (1u32 << s)) >> s) & 1u32 == 1u32,
        s != t ==> ((x | (1u32 << s)) >> t) & 1u32 == (x >> t) & 1u32,
        s < 31 ==> ((x | (1u32 << s)) >> 31u32) == (x >> 31u32),
{
    assert(((x | (1u32 << s)) >> s) & 1u32 == 1u32) by (bit_vector)
        requires
            s < 32,
    ;
    assert(s != t ==> ((x | (1u32 << s)) >> t) & 1u32 == (x >> t) & 1u32) by (bit_vector)
        requires
            s < 32,
            t < 32,
    ;
    assert(s < 31 ==> ((x | (1u32 << s)) >> 31u32) == (x >> 31u32)) by (bit_vector)
        requires
            s < 32,
    ;
}

impl ApproxFloat {
    /// The mantissa bits after the tolerance cut, most-significant first:
    /// bit `i` survives exactly when it is set and its place value still
    /// meets the tolerance.  This is the pure pattern-to-pattern bucketing
    /// step of the hash derivation, usable on its own, independent of any
    /// container.
    pub fn significant_mantissa_bits(&self) -> (r: Vec<bool>)
        ensures
            r@.len() == 23,
            forall|i: int| 0 <= i < 23 ==> r@[i] == significant_mantissa_bit(self@, i),
    {
        let raw: i32 = raw_exp(self.bits);
        let mut r: Vec<bool> = Vec::new();
        let mut i: u32 = 0;
        while i < 23
            invariant
                i <= 23,
                r@.len() == i as nat,
                raw as int == raw_exponent(self.bits),
                -127 <= raw as int <= 128,
                forall|j: int| 0 <= j < i ==> r@[j] == significant_mantissa_bit(self.bits, j),
            decreases 23 - i,
        {
            let keep: bool = ((self.bits >> (22 - i)) & 1 == 1) && raw - (i as i32) >= -16;
            r.push(keep);
            i = i + 1;
        }
        r
    }

    /// The hash code, packed as `sign * 2^31 + exponent * 2^23 + truncated
    /// mantissa`.  The sign is suppressed for the two zero patterns, so
    /// positive and negative zero hash alike; the exponent field is fed
    /// whole, never fuzzed; the mantissa is fed after the tolerance cut.
    pub fn hash(&self) -> (h: u32)
        ensures
            h as int == spec_hash(self@),
    {
        let e: u32 = (self.bits >> 23) & 0xff;
        let f: u32 = self.bits & 0x7fffff;
        if e == 0 && f == 0 {
            return 0;
        }
        proof {
            lemma_field_bounds(self.bits);
            lemma2_to64();
        }
        let raw: i32 = raw_exp(self.bits);
        let mut trunc: u32 = 0;
        let mut j: u32 = 0;
        while j < 23
            invariant
                j <= 23,
                trunc as int == trunc_acc(self.bits, j as nat),
                raw as int == raw_exponent(self.bits),
                -127 <= raw as int <= 128,
            decreases 23 - j,
        {
            proof {
                lemma_trunc_acc_bound(self.bits, j as nat);
                lemma_trunc_acc_bound(self.bits, (j + 1) as nat);
                lemma2_to64();
                lemma_pow2_unfold((23 - j) as nat);
                vstd::arithmetic::power2::lemma_pow2_strictly_increases((22 - j) as nat, 23);
                lemma_u32_shl_is_mul(1u32, (22 - j) as u32);
            }
            let keep: bool = ((self.bits >> (22 - j)) & 1 == 1) && raw - (j as i32) >= -16;
            if keep {
                trunc = trunc + (1u32 << (22 - j));
            }
            j = j + 1;
        }
        proof {
            lemma_trunc_acc_bound(self.bits, 23);
            lemma2_to64();
            lemma_field_bounds(self.bits);
        }
        let sign_part: u32 = if (self.bits >> 31) == 1 {
            0x80000000
        } else {
            0
        };
        sign_part + e * 0x800000 + trunc
    }

    /// Rebuilds a pattern from a decomposition: the resulting pattern has
    /// the given sign bit, the given exponent bits and the given mantissa
    /// bits, most-significant first.
    pub fn from_parts(sign: bool, exponent: &Vec<bool>, mantissa: &Vec<bool>) -> (r: ApproxFloat)
        requires
            exponent@.len() == 8,
            mantissa@.len() == 23,
        ensures
            sign_of(r@) == sign,
            forall|i: int| 0 <= i < 8 ==> exponent_bit(r@, i) == exponent@[i],
            forall|i: int| 0 <= i < 23 ==> mantissa_bit(r@, i) == mantissa@[i],
    {
        let mut bits: u32 = if sign {
            0x80000000
        } else {
            0
        };
        proof {
            assert(0x80000000u32 >> 31u32 == 1u32) by (bit_vector);
            assert(0u32 >> 31u32 == 0u32) by (bit_vector);
            assert(forall|t: u32|
                t < 31 ==> #[trigger] ((0x80000000u32 >> t) & 1u32) == 0u32) by (bit_vector);
            assert(forall|t: u32| t < 31 ==> #[trigger] ((0u32 >> t) & 1u32) == 0u32)
                by (bit_vector);
        }
        let mut i: usize = 0;
        while i < 8
            invariant
                i <= 8,
                exponent@.len() == 8,
                mantissa@.len() == 23,
                sign_of(bits) == sign,
                forall|j: int| 0 <= j < i ==> exponent_bit(bits, j) == exponent@[j],
                forall|j: int| i <= j < 8 ==> !exponent_bit(bits, j),
                forall|j: int| 0 <= j < 23 ==> !mantissa_bit(bits, j),
            decreases 8 - i,
        {
            if exponent[i] {
                let s: u32 = 30 - (i as u32);
                let ghost prev: u32 = bits;
                bits = bits | (1u32 << s);
                proof {
                    lemma_or_sets_bit(prev, s, s);
                    assert forall|t: u32| t < 32 && t != s implies ((prev | (1u32 << s)) >> t)
                        & 1u32 == (prev >> t) & 1u32 by {
                        lemma_or_sets_bit(prev, s, t);
                    };
                    assert forall|j: int| 0 <= j < 8 && j != i implies exponent_bit(bits, j)
                        == exponent_bit(prev, j) by {
                        assert(((prev | (1u32 << s)) >> ((30 - j) as u32)) & 1u32 == (prev >> ((30
                            - j) as u32)) & 1u32);
                    };
                    assert forall|j: int| 0 <= j < 23 implies mantissa_bit(bits, j)
                        == mantissa_bit(prev, j) by {
                        assert(((prev | (1u32 << s)) >> ((22 - j) as u32)) & 1u32 == (prev >> ((22
                            - j) as u32)) & 1u32);
                    };
                }
            }
            i = i + 1;
        }
        let mut j: usize = 0;
        while j < 23
            invariant
                j <= 23,
                exponent@.len() == 8,
                mantissa@.len() == 23,
                sign_of(bits) == sign,
                forall|t: int| 0 <= t < 8 ==> exponent_bit(bits, t) == exponent@[t],
                forall|t: int| 0 <= t < j ==> mantissa_bit(bits, t) == mantissa@[t],
                forall|t: int| j <= t < 23 ==> !mantissa_bit(bits, t),
            decreases 23 - j,
        {
            if mantissa[j] {
                let s: u32 = 22 - (j as u32);
                let ghost prev: u32 = bits;
                bits = bits | (1u32 << s);
                proof {
                    lemma_or_sets_bit(prev, s, s);
                    assert forall|t: u32| t < 32 && t != s implies ((prev | (1u32 << s)) >> t)
                        & 1u32 == (prev >> t) & 1u32 by {
                        lemma_or_sets_bit(prev, s, t);
                    };
                    assert forall|t: int| 0 <= t < 8 implies exponent_bit(bits, t)
                        == exponent_bit(prev, t) by {
                        assert(((prev | (1u32 << s)) >> ((30 - t) as u32)) & 1u32 == (prev >> ((30
                            - t) as u32)) & 1u32);
                    };
                    assert forall|t: int| 0 <= t < 23 && t != j implies mantissa_bit(bits, t)
                        == mantissa_bit(prev, t) by {
                        assert(((prev | (1u32 << s)) >> ((22 - t) as u32)) & 1u32 == (prev >> ((22
                            - t) as u32)) & 1u32);
                    };
                }
            }
            j = j + 1;
        }
        ApproxFloat { bits }
    }

    /// Renders the pattern as a binary literal: `0b`, then the sign bit,
    /// the eight exponent bits and the twenty-three mantissa bits, one
    /// `'0'` or `'1'` character each.  Diagnostic only.
    pub fn to_bin_str(&self) -> (s: String)
        ensures
            s@ == spec_bin_string(self@),
    {
        let mut s: String = String::new();
        s.append("0b");
        if self.sign_bit() {
            s.append("1");
        } else {
            s.append("0");
        }
        proof {
            reveal_strlit("0b");
            reveal_strlit("0");
            reveal_strlit("1");
            assert(s@ =~= spec_bin_string(self.bits).subrange(0, 3));
        }
        let mut i: u32 = 0;
        while i < 8
            invariant
                i <= 8,
                s@ == spec_bin_string(self.bits).subrange(0, 3 + i as int),
            decreases 8 - i,
        {
            if (self.bits >> (30 - i)) & 1 == 1 {
                s.append("1");
            } else {
                s.append("0");
            }
            proof {
                reveal_strlit("0");
                reveal_strlit("1");
                assert(s@ =~= spec_bin_string(self.bits).subrange(0, 3 + (i + 1)));
            }
            i = i + 1;
        }
        let mut j: u32 = 0;
        while j < 23
            invariant
                j <= 23,
                s@ == spec_bin_string(self.bits).subrange(0, 11 + j as int),
            decreases 23 - j,
        {
            if (self.bits >> (22 - j)) & 1 == 1 {
                s.append("1");
            } else {
                s.append("0");
            }
            proof {
                reveal_strlit("0");
                reveal_strlit("1");
                assert(s@ =~= spec_bin_string(self.bits).subrange(0, 11 + (j + 1)));
            }
            j = j + 1;
        }
        proof {
            assert(s@ =~= spec_bin_string(self.bits));
        }
        s
    }

    /// The round trip: decomposing a value into its sign, exponent and
    /// mantissa bits and recombining them reconstructs the exact original
    /// bit pattern.
    pub fn recombined(&self) -> (r: ApproxFloat)
        ensures
            r@ == self@,
    {
        let r = ApproxFloat::from_parts(
            self.sign_bit(),
            &self.exponent_bits(),
            &self.mantissa_bits(),
        );
        proof {
            lemma_bits_determined(r@, self@);
        }
        r
    }
}

/// Equality is symmetric: the two operands contribute only through the
/// absolute difference of their values, in either order.
pub proof fn lemma_equals_symmetric(a: u32, b: u32)
    ensures
        within_tolerance(a, b) == within_tolerance(b, a),
{
}

/// Equality is reflexive on every finite pattern: a value is within
/// tolerance of itself.  (It fails on non-finite patterns, which never
/// compare equal, so those stay outside this law.)
pub proof fn lemma_equals_reflexive(a: u32)
    requires
        is_finite_bits(a),
    ensures
        within_tolerance(a, a),
{
    vstd::arithmetic::power2::lemma_pow2_pos(109);
    assert(TOLERANCE_SIGNIFICAND * pow2(109) >= 0) by (nonlinear_arith)
        requires
            pow2(109) > 0,
    ;
}

/// Close values are equal: two finite values no further apart than half the
/// tolerance lie strictly inside the tolerance, so they always compare
/// equal.  (Distances are measured in units of `2^(-149)`, like the values.)
pub proof fn lemma_half_tolerance_equal(a: u32, b: u32)
    requires
        is_finite_bits(a),
        is_finite_bits(b),
        2 * vstd::math::abs(scaled_value(a) - scaled_value(b)) <= tolerance_scaled(),
    ensures
        within_tolerance(a, b),
{
    vstd::arithmetic::power2::lemma_pow2_pos(109);
    assert(TOLERANCE_SIGNIFICAND * pow2(109) >= 0) by (nonlinear_arith)
        requires
            pow2(109) > 0,
    ;
}

/// Far values are unequal: two values at least twice the tolerance apart lie
/// strictly outside the tolerance, so they never compare equal.
pub proof fn lemma_double_tolerance_unequal(a: u32, b: u32)
    requires
        vstd::math::abs(scaled_value(a) - scaled_value(b)) >= 2 * tolerance_scaled(),
    ensures
        !within_tolerance(a, b),
{
    vstd::arithmetic::power2::lemma_pow2_pos(109);
    assert(TOLERANCE_SIGNIFICAND * pow2(109) > 0) by (nonlinear_arith)
        requires
            pow2(109) > 0,
    ;
}

} // verus!

