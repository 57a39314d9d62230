//! The tolerance-based equality, decided exactly on bit patterns.
//!
//! Two finite single-precision values are equal when their absolute
//! difference is at most the tolerance `0.00001`.  Every finite
//! single-precision value is an integer multiple of `2^(-149)`, so the
//! comparison is carried out exactly, over integers, in units of `2^(-149)`:
//! a pattern with sign `s`, exponent field `e` and mantissa field `f`
//! denotes `(-1)^s * m * 2^(E - 149)` with significand `m = f + 2^23` and
//! `E = e - 1` for normal patterns (`e > 0`), and `m = f`, `E = 0` for
//! subnormal ones.
//!
//! A non-finite operand (infinity or NaN) never compares equal, not even to
//! itself: a difference that involves such a value is never within the
//! tolerance.

use vstd::arithmetic::power2::{
    lemma2_to64, lemma2_to64_rest, lemma_pow2_adds, lemma_pow2_pos, lemma_pow2_strictly_increases,
    lemma_pow2_unfold, pow2,
};
use vstd::math::abs;
use vstd::prelude::*;

use crate::fields::{exponent_field, lemma_field_bounds, mantissa_field, sign_of};

verus! {

/// The equality tolerance is `0.00001`, read as the nearest single-precision
/// value: its bit pattern is `0x3727C5AC`, which denotes
/// `10995116 * 2^(-40)`.
pub const TOLERANCE_SIGNIFICAND: u64 = 10995116;

/// The tolerance in units of `2^(-149)`: `10995116 * 2^(-40) * 2^149`.
pub open spec fn tolerance_scaled() -> int {
    TOLERANCE_SIGNIFICAND * pow2(109)
}

/// The significand of a pattern: the mantissa field, with the implicit
/// leading bit added for normal patterns.
pub open spec fn significand(bits: u32) -> int {
    if exponent_field(bits) == 0 {
        mantissa_field(bits) as int
    } else {
        mantissa_field(bits) + 0x800000
    }
}

/// The power of two that scales the significand, in units of `2^(-149)`.
/// Subnormal patterns (exponent field 0) use the same scale as exponent
/// field 1.
pub open spec fn scale_exponent(bits: u32) -> nat {
    if exponent_field(bits) == 0 {
        0
    } else {
        (exponent_field(bits) - 1) as nat
    }
}

/// The magnitude of the denoted value, in units of `2^(-149)`.
pub open spec fn scaled_magnitude(bits: u32) -> int {
    significand(bits) * pow2(scale_exponent(bits))
}

/// The denoted value, in units of `2^(-149)`.
pub open spec fn scaled_value(bits: u32) -> int {
    if sign_of(bits) {
        -scaled_magnitude(bits)
    } else {
        scaled_magnitude(bits)
    }
}

/// A pattern is finite unless its exponent field is all ones (those patterns
/// are the infinities and NaNs).
pub open spec fn is_finite_bits(bits: u32) -> bool {
    exponent_field(bits) != 255
}

/// Tolerance-based equality of two patterns: both denote finite values, and
/// the values differ by at most the tolerance.
pub open spec fn within_tolerance(a: u32, b: u32) -> bool {
    &&& is_finite_bits(a)
    &&& is_finite_bits(b)
    &&& abs(scaled_value(a) - scaled_value(b)) <= tolerance_scaled()
}

/// `|±ma*2^ea ∓ mb*2^eb|`: the distance between the two magnitudes when the
/// signs agree, their sum when the signs differ.
pub open spec fn magnitude_gap(ma: int, ea: nat, mb: int, eb: nat, opposite: bool) -> int {
    if opposite {
        ma * pow2(ea) + mb * pow2(eb)
    } else {
        abs(ma * pow2(ea) - mb * pow2(eb)) as int
    }
}

proof fn lemma_pow2_le(e1: nat, e2: nat)
    requires
        e1 <= e2,
    ensures
        pow2(e1) <= pow2(e2),
{
    if e1 < e2 {
        lemma_pow2_strictly_increases(e1, e2);
    }
}

/// `2^n` as a `u64`.
fn pow2_u64(n: u32) -> (r: u64)
    requires
        n < 64,
    ensures
        r as nat == pow2(n as nat),
{
    let mut r: u64 = 1;
    let mut i: u32 = 0;
    proof {
        lemma2_to64();
    }
    while i < n
        invariant
            i <= n < 64,
            r as nat == pow2(i as nat),
        decreases n - i,
    {
        proof {
            lemma_pow2_strictly_increases(i as nat, 63);
            lemma2_to64();
            lemma2_to64_rest();
            lemma_pow2_unfold((i + 1) as nat);
        }
        r = r * 2;
        i = i + 1;
    }
    r
}

/// `2^n` as a `u128`.
fn pow2_u128(n: u32) -> (r: u128)
    requires
        n < 128,
    ensures
        r as nat == pow2(n as nat),
{
    let mut r: u128 = 1;
    let mut i: u32 = 0;
    proof {
        lemma2_to64();
    }
    while i < n
        invariant
            i <= n < 128,
            r as nat == pow2(i as nat),
        decreases n - i,
    {
        proof {
            lemma_pow2_strictly_increases(i as nat, 127);
            lemma2_to64();
            lemma2_to64_rest();
            lemma_pow2_adds(63, 64);
            lemma_pow2_unfold((i + 1) as nat);
        }
        r = r * 2;
        i = i + 1;
    }
    r
}

/// Decides whether a single magnitude `m * 2^e` (in units of `2^(-149)`)
/// stays within the tolerance.
fn mag_leq_tol(m: u64, e: u32) -> (r: bool)
    requires
        m < 0x4000000,
        e <= 253,
    ensures
        r == (m * pow2(e as nat) <= tolerance_scaled()),
{
    proof {
        lemma2_to64();
        lemma_pow2_pos(e as nat);
        lemma_pow2_pos(109);
    }
    if m == 0 {
        proof {
            assert(TOLERANCE_SIGNIFICAND * pow2(109) >= 0) by (nonlinear_arith)
                requires
                    pow2(109) > 0,
            ;
        }
        true
    } else if e >= 134 {
        proof {
            lemma_pow2_strictly_increases(133, e as nat);
            lemma_pow2_adds(24, 109);
            assert(TOLERANCE_SIGNIFICAND * pow2(109) < pow2(24) * pow2(109)) by (nonlinear_arith)
                requires
                    pow2(109) > 0,
                    TOLERANCE_SIGNIFICAND < pow2(24),
                    pow2(24) == 0x1000000,
            ;
            assert(m * pow2(e as nat) >= pow2(e as nat)) by (nonlinear_arith)
                requires
                    m >= 1,
                    pow2(e as nat) > 0,
            ;
        }
        false
    } else if e >= 109 {
        let d: u32 = e - 109;
        let p: u64 = pow2_u64(d);
        proof {
            lemma_pow2_adds(d as nat, 109);
            lemma_pow2_le(d as nat, 24);
            assert(m * p < 0x4000000u64 * 0x1000000) by (nonlinear_arith)
                requires
                    m < 0x4000000,
                    p <= 0x1000000,
            ;
            assert(m * pow2(e as nat) == (m * p) * pow2(109)) by (nonlinear_arith)
                requires
                    pow2(e as nat) == p * pow2(109),
            ;
            assert(((m * p) * pow2(109) <= TOLERANCE_SIGNIFICAND * pow2(109)) == (m * p
                <= TOLERANCE_SIGNIFICAND)) by (nonlinear_arith)
                requires
                    pow2(109) > 0,
            ;
        }
        let lhs: u64 = m * p;
        lhs <= TOLERANCE_SIGNIFICAND
    } else {
        let d: u32 = 109 - e;
        if d >= 26 {
            proof {
                lemma_pow2_adds(d as nat, e as nat);
                lemma_pow2_le(26, d as nat);
                assert(m * pow2(e as nat) <= (TOLERANCE_SIGNIFICAND * pow2(d as nat)) * pow2(
                    e as nat,
                )) by (nonlinear_arith)
                    requires
                        m < 0x4000000,
                        pow2(d as nat) >= 0x4000000,
                        TOLERANCE_SIGNIFICAND >= 0x800000,
                        pow2(e as nat) > 0,
                ;
                assert((TOLERANCE_SIGNIFICAND * pow2(d as nat)) * pow2(e as nat)
                    == TOLERANCE_SIGNIFICAND * pow2(109)) by (nonlinear_arith)
                    requires
                        pow2(d as nat) * pow2(e as nat) == pow2(109),
                ;
            }
            true
        } else {
            let p: u64 = pow2_u64(d);
            proof {
                lemma_pow2_adds(d as nat, e as nat);
                lemma_pow2_le(d as nat, 25);
                assert(TOLERANCE_SIGNIFICAND * p < 0x1000000u64 * 0x2000000) by (nonlinear_arith)
                    requires
                        TOLERANCE_SIGNIFICAND < 0x1000000,
                        p <= 0x2000000,
                ;
                assert((TOLERANCE_SIGNIFICAND * p) * pow2(e as nat) == TOLERANCE_SIGNIFICAND
                    * pow2(109)) by (nonlinear_arith)
                    requires
                        p * pow2(e as nat) == pow2(109),
                ;
                assert((m * pow2(e as nat) <= (TOLERANCE_SIGNIFICAND * p) * pow2(e as nat)) == (m
                    <= TOLERANCE_SIGNIFICAND * p)) by (nonlinear_arith)
                    requires
                        pow2(e as nat) > 0,
                ;
            }
            let rhs: u64 = TOLERANCE_SIGNIFICAND * p;
            m <= rhs
        }
    }
}

/// Decides whether the gap between two non-zero magnitudes `ma * 2^ea` and
/// `mb * 2^eb` (their distance when the signs agree, their sum when they
/// differ) stays within the tolerance.  The caller orders the arguments so
/// that `ea >= eb`; a magnitude with a positive scale exponent comes from a
/// normal pattern, so its significand carries the implicit leading bit.
fn gap_leq_tol(ma: u64, ea: u32, mb: u64, eb: u32, opposite: bool) -> (r: bool)
    requires
        1 <= ma < 0x1000000,
        1 <= mb < 0x1000000,
        eb <= ea <= 253,
        ea >= 1 ==> ma >= 0x800000,
        eb >= 1 ==> mb >= 0x800000,
    ensures
        r == (magnitude_gap(ma as int, ea as nat, mb as int, eb as nat, opposite)
            <= tolerance_scaled()),
{
    let g: u32 = ea - eb;
    let ghost pea: int = pow2(ea as nat) as int;
    let ghost peb: int = pow2(eb as nat) as int;
    let ghost gap: int = magnitude_gap(ma as int, ea as nat, mb as int, eb as nat, opposite);
    proof {
        lemma2_to64();
        lemma2_to64_rest();
        lemma_pow2_pos(ea as nat);
        lemma_pow2_pos(eb as nat);
        lemma_pow2_pos(109);
    }
    if g == 0 {
        let d: u64 = if opposite {
            ma + mb
        } else if ma >= mb {
            ma - mb
        } else {
            mb - ma
        };
        proof {
            assert(pea == peb);
            assert((ma + mb) * peb == ma * peb + mb * peb) by (nonlinear_arith);
            assert((ma - mb) * peb == ma * peb - mb * peb) by (nonlinear_arith);
            assert((mb - ma) * peb == mb * peb - ma * peb) by (nonlinear_arith);
            assert(ma >= mb ==> (ma - mb) * peb >= 0) by (nonlinear_arith)
                requires
                    peb > 0,
            ;
            assert(ma < mb ==> (mb - ma) * peb >= 0) by (nonlinear_arith)
                requires
                    peb > 0,
            ;
            assert(gap == d * pow2(eb as nat));
        }
        mag_leq_tol(d, eb)
    } else if g == 1 {
        let big: u64 = 2 * ma;
        let d: u64 = if opposite {
            big + mb
        } else if big >= mb {
            big - mb
        } else {
            mb - big
        };
        proof {
            lemma_pow2_unfold(ea as nat);
            assert(pea == 2 * peb);
            assert(ma * pea == big * peb) by (nonlinear_arith)
                requires
                    pea == 2 * peb,
                    big == 2 * ma,
            ;
            assert((big + mb) * peb == big * peb + mb * peb) by (nonlinear_arith);
            assert((big - mb) * peb == big * peb - mb * peb) by (nonlinear_arith);
            assert((mb - big) * peb == mb * peb - big * peb) by (nonlinear_arith);
            assert(big >= mb ==> (big - mb) * peb >= 0) by (nonlinear_arith)
                requires
                    peb > 0,
            ;
            assert(big < mb ==> (mb - big) * peb >= 0) by (nonlinear_arith)
                requires
                    peb > 0,
            ;
            assert(gap == d * pow2(eb as nat));
        }
        mag_leq_tol(d, eb)
    } else if ea >= 111 {
        // The larger magnitude alone is at least 2^(23 + ea) >= 2^134, and
        // the smaller one is below 2^(24 + eb) <= 2^(22 + ea), so the gap
        // exceeds 2^(22 + ea) >= 2^133 > tolerance.
        proof {
            lemma_pow2_adds(23, ea as nat);
            lemma_pow2_adds(22, ea as nat);
            lemma_pow2_adds(24, eb as nat);
            lemma_pow2_adds(24, 109);
            lemma_pow2_le((24 + eb) as nat, (22 + ea) as nat);
            lemma_pow2_le(133, (22 + ea) as nat);
            lemma_pow2_le(109, (22 + ea) as nat);
            lemma_pow2_unfold((23 + ea) as nat);
            assert(ma * pea >= 0x800000 * pea) by (nonlinear_arith)
                requires
                    ma >= 0x800000,
                    pea > 0,
            ;
            assert(mb * peb < 0x1000000 * peb) by (nonlinear_arith)
                requires
                    mb < 0x1000000,
                    peb > 0,
            ;
            assert(mb * peb >= 0) by (nonlinear_arith)
                requires
                    mb >= 0,
                    peb > 0,
            ;
            assert(0x800000 * pea == pow2((23 + ea) as nat));
            assert(0x1000000 * peb == pow2((24 + eb) as nat));
            assert(TOLERANCE_SIGNIFICAND * pow2(109) < 0x1000000 * pow2(109)) by (nonlinear_arith)
                requires
                    pow2(109) > 0,
                    TOLERANCE_SIGNIFICAND < 0x1000000,
            ;
            assert(0x1000000 * pow2(109) == pow2(133)) by {
                lemma_pow2_adds(24, 109);
                lemma2_to64();
            };
            // gap >= A - B > 2^(23+ea) - 2^(22+ea) = 2^(22+ea) >= 2^133 > tolerance
            assert(gap > tolerance_scaled());
        }
        false
    } else {
        // 2 <= g, ea <= 110, so eb <= 108; compare X = ma*2^g -/+ mb against
        // the tolerance rescaled to base 2^eb: Mt * 2^k with k = 109 - eb.
        let k: u32 = 109 - eb;
        let ghost pg: int = pow2(g as nat) as int;
        let ghost pk: int = pow2(k as nat) as int;
        let ghost x: int = if opposite {
            ma * pg + mb
        } else {
            ma * pg - mb
        };
        proof {
            lemma_pow2_pos(g as nat);
            lemma_pow2_pos(k as nat);
            lemma_pow2_adds(g as nat, eb as nat);
            lemma_pow2_adds(k as nat, eb as nat);
            lemma_pow2_le(2, g as nat);
            assert(ma * pea == (ma * pg) * peb) by (nonlinear_arith)
                requires
                    pea == pg * peb,
            ;
            assert(ma * pg >= 0x800000 * 4) by (nonlinear_arith)
                requires
                    ma >= 0x800000,
                    pg >= 4,
            ;
            assert((ma * pg - mb) * peb == (ma * pg) * peb - mb * peb) by (nonlinear_arith);
            assert((ma * pg + mb) * peb == (ma * pg) * peb + mb * peb) by (nonlinear_arith);
            assert(x * peb >= 0) by (nonlinear_arith)
                requires
                    x >= 0,
                    peb > 0,
            ;
            // gap == x * 2^eb, tolerance == (Mt * 2^k) * 2^eb
            assert(gap == x * peb);
            assert(TOLERANCE_SIGNIFICAND * pow2(109) == (TOLERANCE_SIGNIFICAND * pk) * peb)
                by (nonlinear_arith)
                requires
                    pow2(109) == pk * peb,
            ;
            assert((x * peb <= (TOLERANCE_SIGNIFICAND * pk) * peb) == (x <= TOLERANCE_SIGNIFICAND
                * pk)) by (nonlinear_arith)
                requires
                    peb > 0,
            ;
            assert((gap <= tolerance_scaled()) == (x <= TOLERANCE_SIGNIFICAND * pk));
        }
        if !opposite {
            if g >= k + 2 {
                // X >= 2^(23+g) - 2^(22+g) = 2^(22+g) >= 2^(24+k) > Mt * 2^k.
                proof {
                    lemma_pow2_adds(23, g as nat);
                    lemma_pow2_adds(22, g as nat);
                    lemma_pow2_adds(24, k as nat);
                    lemma_pow2_unfold((23 + g) as nat);
                    lemma_pow2_le(24, (22 + g) as nat);
                    lemma_pow2_le((24 + k) as nat, (22 + g) as nat);
                    assert(ma * pg >= 0x800000 * pg) by (nonlinear_arith)
                        requires
                            ma >= 0x800000,
                            pg > 0,
                    ;
                    assert(0x800000 * pg == pow2((23 + g) as nat));
                    assert(TOLERANCE_SIGNIFICAND * pk < 0x1000000 * pk) by (nonlinear_arith)
                        requires
                            TOLERANCE_SIGNIFICAND < 0x1000000,
                            pk > 0,
                    ;
                    assert(0x1000000 * pk == pow2((24 + k) as nat));
                    assert(x > TOLERANCE_SIGNIFICAND * pk);
                }
                false
            } else if k >= g + 1 {
                // X < 2^(24+g) <= 2^(23+k) <= Mt * 2^k.
                proof {
                    lemma_pow2_adds(24, g as nat);
                    lemma_pow2_adds(23, k as nat);
                    lemma_pow2_le((24 + g) as nat, (23 + k) as nat);
                    assert(ma * pg < 0x1000000 * pg) by (nonlinear_arith)
                        requires
                            ma < 0x1000000,
                            pg > 0,
                    ;
                    assert(0x1000000 * pg == pow2((24 + g) as nat));
                    assert(0x800000 * pk == pow2((23 + k) as nat));
                    assert(0x800000 * pk <= TOLERANCE_SIGNIFICAND * pk) by (nonlinear_arith)
                        requires
                            TOLERANCE_SIGNIFICAND >= 0x800000,
                            pk > 0,
                    ;
                    assert(x <= TOLERANCE_SIGNIFICAND * pk);
                }
                true
            } else if g <= 41 {
                // Both sides fit in 128 bits: compare them outright.
                let pge: u128 = pow2_u128(g);
                let pke: u128 = pow2_u128(k);
                proof {
                    lemma_pow2_le(g as nat, 41);
                    lemma_pow2_le(k as nat, 41);
                    assert((ma as u128) * pge < 0x1000000u128 * 0x20000000000) by (nonlinear_arith)
                        requires
                            ma < 0x1000000,
                            pge <= 0x20000000000,
                    ;
                    assert((TOLERANCE_SIGNIFICAND as u128) * pke < 0x1000000u128 * 0x20000000000)
                        by (nonlinear_arith)
                        requires
                            TOLERANCE_SIGNIFICAND < 0x1000000,
                            pke <= 0x20000000000,
                    ;
                }
                let lhs: u128 = (ma as u128) * pge - (mb as u128);
                let rhs: u128 = (TOLERANCE_SIGNIFICAND as u128) * pke;
                lhs <= rhs
            } else {
                // g >= 42 and k is g or g - 1: rescale to base 2^k, where the
                // leftover significand decides, because 2^k exceeds mb.
                let pgk: u64 = pow2_u64(g - k);
                proof {
                    lemma_pow2_le((g - k) as nat, 1);
                    assert(ma * pgk <= 0x1000000u64 * 2) by (nonlinear_arith)
                        requires
                            ma < 0x1000000,
                            pgk <= 2,
                    ;
                }
                let alpha: u64 = ma * pgk;
                proof {
                    lemma_pow2_adds((g - k) as nat, k as nat);
                    lemma_pow2_le(41, k as nat);
                    assert(ma * pg == alpha * pk) by (nonlinear_arith)
                        requires
                            pg == pow2((g - k) as nat) * pk,
                            alpha == ma * pow2((g - k) as nat),
                    ;
                    assert(alpha <= TOLERANCE_SIGNIFICAND ==> alpha * pk <= TOLERANCE_SIGNIFICAND
                        * pk) by (nonlinear_arith)
                        requires
                            pk > 0,
                    ;
                    assert(alpha > TOLERANCE_SIGNIFICAND ==> alpha * pk >= (TOLERANCE_SIGNIFICAND
                        + 1) * pk) by (nonlinear_arith)
                        requires
                            pk > 0,
                    ;
                    assert((TOLERANCE_SIGNIFICAND + 1) * pk == TOLERANCE_SIGNIFICAND * pk + pk)
                        by (nonlinear_arith);
                    assert(pk >= pow2(41));
                }
                alpha <= TOLERANCE_SIGNIFICAND
            }
        } else {
            if g >= k + 1 {
                // X >= 2^(23+g) >= 2^(24+k) > Mt * 2^k.
                proof {
                    lemma_pow2_adds(23, g as nat);
                    lemma_pow2_adds(24, k as nat);
                    lemma_pow2_le((24 + k) as nat, (23 + g) as nat);
                    assert(ma * pg >= 0x800000 * pg) by (nonlinear_arith)
                        requires
                            ma >= 0x800000,
                            pg > 0,
                    ;
                    assert(0x800000 * pg == pow2((23 + g) as nat));
                    assert(TOLERANCE_SIGNIFICAND * pk < 0x1000000 * pk) by (nonlinear_arith)
                        requires
                            TOLERANCE_SIGNIFICAND < 0x1000000,
                            pk > 0,
                    ;
                    assert(0x1000000 * pk == pow2((24 + k) as nat));
                    assert(x > TOLERANCE_SIGNIFICAND * pk);
                }
                false
            } else if k >= g + 2 {
                // X < 2^(24+g) + 2^24 <= 2^(25+g) <= 2^(23+k) <= Mt * 2^k.
                proof {
                    lemma_pow2_adds(24, g as nat);
                    lemma_pow2_adds(25, g as nat);
                    lemma_pow2_adds(23, k as nat);
                    lemma_pow2_unfold((25 + g) as nat);
                    lemma_pow2_le(24, (24 + g) as nat);
                    lemma_pow2_le((25 + g) as nat, (23 + k) as nat);
                    assert(ma * pg < 0x1000000 * pg) by (nonlinear_arith)
                        requires
                            ma < 0x1000000,
                            pg > 0,
                    ;
                    assert(0x1000000 * pg == pow2((24 + g) as nat));
                    assert(0x800000 * pk == pow2((23 + k) as nat));
                    assert(0x800000 * pk <= TOLERANCE_SIGNIFICAND * pk) by (nonlinear_arith)
                        requires
                            TOLERANCE_SIGNIFICAND >= 0x800000,
                            pk > 0,
                    ;
                    assert(x <= TOLERANCE_SIGNIFICAND * pk);
                }
                true
            } else if g <= 41 {
                // Both sides fit in 128 bits: compare them outright.
                let pge: u128 = pow2_u128(g);
                let pke: u128 = pow2_u128(k);
                proof {
                    lemma_pow2_le(g as nat, 41);
                    lemma_pow2_le(k as nat, 42);
                    assert((ma as u128) * pge < 0x1000000u128 * 0x20000000000) by (nonlinear_arith)
                        requires
                            ma < 0x1000000,
                            pge <= 0x20000000000,
                    ;
                    assert((TOLERANCE_SIGNIFICAND as u128) * pke < 0x1000000u128 * 0x40000000000)
                        by (nonlinear_arith)
                        requires
                            TOLERANCE_SIGNIFICAND < 0x1000000,
                            pke <= 0x40000000000,
                    ;
                }
                let lhs: u128 = (ma as u128) * pge + (mb as u128);
                let rhs: u128 = (TOLERANCE_SIGNIFICAND as u128) * pke;
                lhs <= rhs
            } else {
                // g >= 42 and k is g or g + 1: rescale to base 2^g, where the
                // leftover significand decides, because 2^g exceeds mb.
                let pkg: u64 = pow2_u64(k - g);
                proof {
                    lemma_pow2_le((k - g) as nat, 1);
                    assert(TOLERANCE_SIGNIFICAND * pkg <= 0x1000000u64 * 2) by (nonlinear_arith)
                        requires
                            TOLERANCE_SIGNIFICAND < 0x1000000,
                            pkg <= 2,
                    ;
                }
                let beta: u64 = TOLERANCE_SIGNIFICAND * pkg;
                proof {
                    lemma_pow2_adds((k - g) as nat, g as nat);
                    lemma_pow2_le(42, g as nat);
                    assert(TOLERANCE_SIGNIFICAND * pk == beta * pg) by (nonlinear_arith)
                        requires
                            pk == pow2((k - g) as nat) * pg,
                            beta == TOLERANCE_SIGNIFICAND * pow2((k - g) as nat),
                    ;
                    assert(ma < beta ==> ma * pg <= (beta - 1) * pg) by (nonlinear_arith)
                        requires
                            pg > 0,
                    ;
                    assert((beta - 1) * pg == beta * pg - pg) by (nonlinear_arith);
                    assert(ma >= beta ==> ma * pg >= beta * pg) by (nonlinear_arith)
                        requires
                            pg > 0,
                    ;
                    assert(pg >= pow2(42));
                }
                ma < beta
            }
        }
    }
}

/// Decides tolerance-based equality of two bit patterns: the result is true
/// exactly when both patterns are finite and the values they denote differ
/// by at most the tolerance `0.00001`.
pub fn within_tol(a: u32, b: u32) -> (r: bool)
    ensures
        r == within_tolerance(a, b),
{
    let ef_a: u32 = (a >> 23) & 0xff;
    let ef_b: u32 = (b >> 23) & 0xff;
    if ef_a == 255 || ef_b == 255 {
        return false;
    }
    proof {
        lemma_field_bounds(a);
        lemma_field_bounds(b);
        lemma_pow2_pos(scale_exponent(a));
        lemma_pow2_pos(scale_exponent(b));
        lemma_pow2_pos(109);
    }
    let fa: u32 = a & 0x7fffff;
    let fb: u32 = b & 0x7fffff;
    let ma: u64 = if ef_a == 0 {
        fa as u64
    } else {
        (fa + 0x800000) as u64
    };
    let mb: u64 = if ef_b == 0 {
        fb as u64
    } else {
        (fb + 0x800000) as u64
    };
    let ea: u32 = if ef_a == 0 {
        0
    } else {
        ef_a - 1
    };
    let eb: u32 = if ef_b == 0 {
        0
    } else {
        ef_b - 1
    };
    let sa: bool = (a >> 31) == 1;
    let sb: bool = (b >> 31) == 1;
    let ghost pa: int = pow2(ea as nat) as int;
    let ghost pb: int = pow2(eb as nat) as int;
    proof {
        assert(ma as int == significand(a));
        assert(mb as int == significand(b));
        assert(ea as nat == scale_exponent(a));
        assert(eb as nat == scale_exponent(b));
        assert(scaled_magnitude(a) == ma * pa);
        assert(scaled_magnitude(b) == mb * pb);
        assert(ma * pa >= 0) by (nonlinear_arith)
            requires
                ma >= 0,
                pa > 0,
        ;
        assert(mb * pb >= 0) by (nonlinear_arith)
            requires
                mb >= 0,
                pb > 0,
        ;
        assert(ma == 0 ==> ma * pa == 0) by (nonlinear_arith);
        assert(mb == 0 ==> mb * pb == 0) by (nonlinear_arith);
    }
    if ma == 0 && mb == 0 {
        // Both operands denote zero (positive or negative): the gap is zero.
        proof {
            assert(TOLERANCE_SIGNIFICAND * pow2(109) >= 0) by (nonlinear_arith)
                requires
                    pow2(109) > 0,
            ;
        }
        true
    } else if ma == 0 {
        let r = mag_leq_tol(mb, eb);
        proof {
            assert(abs(scaled_value(a) - scaled_value(b)) == mb * pow2(eb as nat));
        }
        r
    } else if mb == 0 {
        let r = mag_leq_tol(ma, ea);
        proof {
            assert(abs(scaled_value(a) - scaled_value(b)) == ma * pow2(ea as nat));
        }
        r
    } else {
        let opposite: bool = sa != sb;
        let r = if ea >= eb {
            gap_leq_tol(ma, ea, mb, eb, opposite)
        } else {
            gap_leq_tol(mb, eb, ma, ea, opposite)
        };
        proof {
            assert(abs(scaled_value(a) - scaled_value(b)) == magnitude_gap(
                ma as int,
                ea as nat,
                mb as int,
                eb as nat,
                opposite,
            ));
            assert(magnitude_gap(mb as int, eb as nat, ma as int, ea as nat, opposite)
                == magnitude_gap(ma as int, ea as nat, mb as int, eb as nat, opposite));
        }
        r
    }
}

} // verus!
