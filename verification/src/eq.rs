//! IEEE equality: NaN compares unequal to everything, the two zeros
//! compare equal, everything else compares by bit pattern.

use crate::model::{is_nan, lemma_split_bits, lemma_xmag_order, xval};
use crate::SoftFloat16;
use vstd::prelude::*;

verus! {

/// Equality of the values two patterns denote: false on any NaN, true for
/// the two zeros, otherwise agreement of the extended values.
pub open spec fn eq_spec(a: u16, b: u16) -> bool {
    !is_nan(a) && !is_nan(b) && xval(a) == xval(b)
}

impl vstd::std_specs::cmp::PartialEqSpecImpl for SoftFloat16 {
    open spec fn obeys_eq_spec() -> bool {
        true
    }

    open spec fn eq_spec(&self, other: &SoftFloat16) -> bool {
        eq_spec(self.bits(), other.bits())
    }
}

impl PartialEq for SoftFloat16 {
    /// Value equality; `NaN != NaN`, `+0 == -0`.
    fn eq(&self, other: &Self) -> (r: bool) {
        let (sign0, exponent0, significand0) = (
            Self::sign(*self),
            Self::exponent(*self),
            Self::significand(*self),
        );
        let (sign1, exponent1, significand1) = (
            Self::sign(*other),
            Self::exponent(*other),
            Self::significand(*other),
        );
        proof {
            lemma_split_bits(self.0);
            lemma_split_bits(other.0);
            if !(exponent0 == 0x1f && significand0 != 0) && !(exponent1 == 0x1f && significand1
                != 0) {
                lemma_xmag_order(self.0, other.0);
            }
        }
        if (exponent0 == 0x1f && significand0 != 0) || (exponent1 == 0x1f && significand1 != 0) {
            false
        } else if exponent0 == 0 && significand0 == 0 && exponent1 == 0 && significand1 == 0 {
            true
        } else {
            sign0 == sign1 && exponent0 == exponent1 && significand0 == significand1
        }
    }
}

} // verus!
