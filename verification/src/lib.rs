//! Tolerance-based equality and bit-derived hashing for single-precision
//! IEEE-754 values.
//!
//! The central type, [`approx::ApproxFloat`], wraps the 32-bit pattern of a
//! single-precision value and replaces bit-exact equality with a fixed
//! tolerance: two values are equal when their absolute difference is at most
//! `0.00001`.  A matching hash code is derived from the sign, exponent and
//! mantissa fields of the pattern, with mantissa bits whose place value falls
//! below the tolerance zeroed out, so that values within tolerance usually
//! collide into the same code.
//!
//! The scheme is deliberately imperfect: the equality is not transitive, and
//! two equal values whose exponent fields differ can still hash apart.  Both
//! limitations are part of the design and are kept, not repaired.

pub mod approx;
pub mod fields;
pub mod tolerance;
