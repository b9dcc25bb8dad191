//! IEEE partial order: NaN is unordered, zeros are equal, signs order
//! first, magnitudes order within a sign.

use crate::model::{is_nan, is_zero, lemma_split_bits, lemma_xmag_order, sign_of, xval};
use crate::SoftFloat16;
use core::cmp::Ordering;
use vstd::prelude::*;

verus! {

/// Ordering of the values two patterns denote: `None` on any NaN,
/// otherwise the order of the extended values.
pub open spec fn cmp_spec(a: u16, b: u16) -> Option<Ordering> {
    if is_nan(a) || is_nan(b) {
        None
    } else if xval(a) < xval(b) {
        Some(Ordering::Less)
    } else if xval(a) == xval(b) {
        Some(Ordering::Equal)
    } else {
        Some(Ordering::Greater)
    }
}

/// The order is total on non-NaN patterns and agrees with equality: any
/// NaN is unordered, otherwise exactly one of less, equal and greater
/// holds, and equality holds exactly on equal extended values.
pub proof fn lemma_order_total(a: u16, b: u16)
    ensures
        !is_nan(a) ==> crate::eq::eq_spec(a, a),
        crate::eq::eq_spec(crate::model::POS_ZERO_BITS, crate::model::NEG_ZERO_BITS),
        !crate::eq::eq_spec(crate::model::NAN_BITS, crate::model::NAN_BITS),
        (is_nan(a) || is_nan(b)) <==> cmp_spec(a, b) == None::<Ordering>,
        !is_nan(a) && !is_nan(b) ==> (cmp_spec(a, b) == Some(Ordering::Less) || cmp_spec(a, b)
            == Some(Ordering::Equal) || cmp_spec(a, b) == Some(Ordering::Greater)),
        cmp_spec(a, b) == Some(Ordering::Equal) <==> crate::eq::eq_spec(a, b),
        cmp_spec(a, b) == Some(Ordering::Less) <==> cmp_spec(b, a) == Some(Ordering::Greater),
{
}

impl vstd::std_specs::cmp::PartialOrdSpecImpl for SoftFloat16 {
    open spec fn obeys_partial_cmp_spec() -> bool {
        true
    }

    open spec fn partial_cmp_spec(&self, other: &SoftFloat16) -> Option<Ordering> {
        cmp_spec(self.bits(), other.bits())
    }
}

impl PartialOrd for SoftFloat16 {
    /// Value ordering; any NaN operand is unordered, `+0 == -0`.
    fn partial_cmp(&self, other: &Self) -> (r: Option<Ordering>) {
        let (sign0, exponent0, significand0) = (
            Self::sign(*self),
            Self::exponent(*self),
            Self::significand(*self),
        );
        let (sign1, exponent1, significand1) = (
            Self::sign(*other),
            Self::exponent(*other),
            Self::significand(*other),
        );
        proof {
            lemma_split_bits(self.0);
            lemma_split_bits(other.0);
            if !(exponent0 == 0x1f && significand0 != 0) && !(exponent1 == 0x1f && significand1
                != 0) {
                lemma_xmag_order(self.0, other.0);
                lemma_xmag_order(other.0, self.0);
            }
        }
        if (exponent0 == 0x1f && significand0 != 0) || (exponent1 == 0x1f && significand1 != 0) {
            None
        } else if (exponent0 == 0 && significand0 == 0) && (exponent1 == 0 && significand1 == 0) {
            Some(Ordering::Equal)
        } else if sign0 == 0 && sign1 == 1 {
            proof {
                assert(is_zero(self.0) && is_zero(other.0) ==> false);
            }
            Some(Ordering::Greater)
        } else if sign0 == 1 && sign1 == 0 {
            Some(Ordering::Less)
        } else {
            let self_bits_abs = self.0 % 0x8000;
            let other_bits_abs = other.0 % 0x8000;
            proof {
                assert(sign0 == sign1);
                lemma_abs_bits(self.0);
                lemma_abs_bits(other.0);
            }
            if sign0 == 0 {
                if self_bits_abs < other_bits_abs {
                    Some(Ordering::Less)
                } else if self_bits_abs == other_bits_abs {
                    Some(Ordering::Equal)
                } else {
                    Some(Ordering::Greater)
                }
            } else {
                if other_bits_abs < self_bits_abs {
                    Some(Ordering::Less)
                } else if self_bits_abs == other_bits_abs {
                    Some(Ordering::Equal)
                } else {
                    Some(Ordering::Greater)
                }
            }
        }
    }
}

/// The sign-stripped bits are the exponent and significand fields packed
/// together.
proof fn lemma_abs_bits(b: u16)
    ensures
        b % 0x8000 == exp_of_int(b) * 0x400 + crate::model::frac_of(b),
{
    lemma_split_bits(b);
    assert(0 <= crate::model::exp_of(b) * 0x400 + crate::model::frac_of(b) < 0x8000)
        by (nonlinear_arith)
        requires
            crate::model::exp_of(b) <= 31,
            crate::model::frac_of(b) <= 1023,
    ;
    vstd::arithmetic::div_mod::lemma_fundamental_div_mod_converse(
        b as int,
        0x8000,
        sign_of(b) as int,
        crate::model::exp_of(b) * 0x400 + crate::model::frac_of(b),
    );
}

/// The exponent field as an integer, for packing arithmetic.
spec fn exp_of_int(b: u16) -> int {
    crate::model::exp_of(b) as int
}

} // verus!
