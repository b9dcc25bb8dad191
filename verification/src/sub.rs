//! Subtraction: addition of the negated subtrahend.

use crate::add::add_spec;
use crate::neg::neg_spec;
use crate::SoftFloat16;
use vstd::prelude::*;

verus! {

/// The correctly rounded difference of the values of two canonical
/// patterns: the sum with the sign of the subtrahend flipped.
pub open spec fn sub_spec(a: u16, b: u16) -> u16 {
    add_spec(a, neg_spec(b))
}

impl SoftFloat16 {
    /// Subtraction, rounded to nearest with ties to even.
    pub fn sub(v0: Self, v1: Self) -> (r: Self)
        ensures
            r.bits() == sub_spec(v0.bits(), v1.bits()),
    {
        Self::add(v0, Self::neg(v1))
    }
}

} // verus!
