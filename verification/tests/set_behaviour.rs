//! The wrapper in a hash set: tolerance equality and the bit-derived hash
//! code working together as key contract of a `HashSet`.

use std::collections::HashSet;
use std::hash::{Hash, Hasher};

use approx_float::approx::ApproxFloat;

const F32_ERROR_TOLERANCE: f32 = 0.00001;

#[derive(Debug, Copy, Clone)]
struct F32Wrapper {
    inner: f32,
}

impl F32Wrapper {
    fn new(val: f32) -> Self {
        F32Wrapper { inner: val }
    }

    fn approx(&self) -> ApproxFloat {
        ApproxFloat::new(self.inner.to_bits())
    }
}

impl PartialEq for F32Wrapper {
    fn eq(&self, other: &Self) -> bool {
        self.approx().equals(&other.approx())
    }
}

impl Eq for F32Wrapper {}

impl Hash for F32Wrapper {
    fn hash<H: Hasher>(&self, state: &mut H) {
        let a = self.approx();
        // Positive and negative zero are the same value.
        if self.inner != 0.0 {
            a.sign_bit().hash(state);
        }
        a.exponent_bits().hash(state);
        a.significant_mantissa_bits().hash(state);
    }
}

#[test]
fn it_treats_pos_and_neg_zero_the_same() {
    let pos_zero = F32Wrapper::new(0.0);
    let neg_zero = F32Wrapper::new(-0.0);

    let mut set = HashSet::new();
    set.insert(pos_zero);
    set.insert(neg_zero);

    assert!(set.len() == 1);
}

#[test]
fn it_treats_close_pos_numbers_as_the_same_1() {
    let num_1 = F32Wrapper::new(42.0);
    let num_2 = F32Wrapper::new(42.0 - F32_ERROR_TOLERANCE / 2.0);

    let mut set = HashSet::new();
    set.insert(num_1);
    set.insert(num_2);

    assert!(set.len() == 1);
}

#[test]
fn it_treats_close_pos_numbers_as_the_same_2() {
    let num_1 = F32Wrapper::new(42.0);
    let num_2 = F32Wrapper::new(42.0 + F32_ERROR_TOLERANCE / 2.0);

    let mut set = HashSet::new();
    set.insert(num_1);
    set.insert(num_2);

    assert!(set.len() == 1);
}

#[test]
fn it_treats_close_neg_numbers_as_the_same_2() {
    let num_1 = F32Wrapper::new(-42.0);
    let num_2 = F32Wrapper::new(-42.0 - F32_ERROR_TOLERANCE / 2.0);

    let mut set = HashSet::new();
    set.insert(num_1);
    set.insert(num_2);

    assert!(set.len() == 1);
}

#[test]
fn it_treats_close_neg_numbers_as_the_same_1() {
    let num_1 = F32Wrapper::new(-42.0);
    let num_2 = F32Wrapper::new(-42.0 + F32_ERROR_TOLERANCE / 2.0);

    let mut set = HashSet::new();
    set.insert(num_1);
    set.insert(num_2);

    assert!(set.len() == 1);
}

#[test]
fn it_treats_non_close_pos_numbers_as_different_1() {
    let num_1 = F32Wrapper::new(42.0);
    let num_2 = F32Wrapper::new(42.0 - F32_ERROR_TOLERANCE * 2.0);

    let mut set = HashSet::new();
    set.insert(num_1);
    set.insert(num_2);

    assert!(set.len() == 2);
}

#[test]
fn it_treats_non_close_neg_numbers_as_different_2() {
    let num_1 = F32Wrapper::new(-42.0);
    let num_2 = F32Wrapper::new(-42.0 + F32_ERROR_TOLERANCE * 2.0);

    let mut set = HashSet::new();
    set.insert(num_1);
    set.insert(num_2);

    assert!(set.len() == 2);
}

#[test]
fn it_treats_non_close_neg_numbers_as_different_1() {
    let num_1 = F32Wrapper::new(-42.0);
    let num_2 = F32Wrapper::new(-42.0 - F32_ERROR_TOLERANCE * 2.0);

    let mut set = HashSet::new();
    set.insert(num_1);
    set.insert(num_2);

    assert!(set.len() == 2);
}

#[test]
fn it_treats_non_close_pos_numbers_as_different_2() {
    let num_1 = F32Wrapper::new(42.0);
    let num_2 = F32Wrapper::new(42.0 + F32_ERROR_TOLERANCE * 2.0);

    let mut set = HashSet::new();
    set.insert(num_1);
    set.insert(num_2);

    assert!(set.len() == 2);
}

#[test]
fn scenario_insert_clear_insert() {
    let mut floats = HashSet::new();

    let f1 = F32Wrapper::new(42.0);
    let f2 = F32Wrapper::new(42.0 + 0.00002);
    floats.insert(f1);
    floats.insert(f2);
    assert_eq!(floats.len(), 2);

    floats.clear();
    assert_eq!(floats.len(), 0);

    let f3 = F32Wrapper::new(42.0);
    let f4 = F32Wrapper::new(42.0 + 0.000005);
    floats.insert(f3);
    floats.insert(f4);
    assert_eq!(floats.len(), 1);
}

#[test]
fn hash_equality_tension() {
    // Distinct beyond the tolerance: two entries, correctly.
    let mut set = HashSet::new();
    set.insert(F32Wrapper::new(42.0));
    set.insert(F32Wrapper::new(42.0 + 2.0 * F32_ERROR_TOLERANCE));
    assert_eq!(set.len(), 2);

    // Within the tolerance, same exponent field: one entry, the common case.
    let mut set = HashSet::new();
    set.insert(F32Wrapper::new(42.0));
    set.insert(F32Wrapper::new(42.0 + F32_ERROR_TOLERANCE / 2.0));
    assert_eq!(set.len(), 1);

    // Within the tolerance, but straddling a power-of-two boundary: the
    // exponent fields differ, the hashes differ, and the set keeps both
    // entries although the values compare equal.  The defect is part of the
    // design.
    let a = F32Wrapper::new(1.999998);
    let b = F32Wrapper::new(2.000003);
    assert!(a == b);
    let mut set = HashSet::new();
    set.insert(a);
    set.insert(b);
    assert_eq!(set.len(), 2);
}
