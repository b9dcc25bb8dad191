//! Sign negation.

use crate::model::{
    exp_of, frac_of, is_nan, lemma_pack_fields, lemma_split_bits, sign_of, NAN_BITS,
};
use crate::SoftFloat16;
use vstd::prelude::*;

verus! {

/// The pattern with the sign flipped; NaN stays the canonical NaN.
pub open spec fn neg_spec(b: u16) -> u16 {
    if is_nan(b) {
        NAN_BITS
    } else if b >= 0x8000 {
        (b - 0x8000) as u16
    } else {
        (b + 0x8000) as u16
    }
}

/// Negation is an involution on every canonical pattern, and fixes NaN.
pub proof fn lemma_neg_involutive(b: u16)
    requires
        crate::model::canonical(b),
    ensures
        neg_spec(neg_spec(b)) == b,
        neg_spec(crate::model::NAN_BITS) == crate::model::NAN_BITS,
{
    lemma_split_bits(b);
    if !is_nan(b) {
        if b >= 0x8000 {
            lemma_pack_fields(0, exp_of(b), frac_of(b));
            assert((b - 0x8000) as u16 == (0 * 0x8000 + exp_of(b) * 0x400 + frac_of(b)) as u16);
            let h = (b - 0x8000) as u16;
            lemma_split_bits(h);
        } else {
            lemma_pack_fields(1, exp_of(b), frac_of(b));
            assert((b + 0x8000) as u16 == (1 * 0x8000 + exp_of(b) * 0x400 + frac_of(b)) as u16);
            let h = (b + 0x8000) as u16;
            lemma_split_bits(h);
        }
    }
}

impl SoftFloat16 {
    /// Negation: toggles the sign bit of everything but NaN.
    pub fn neg(v: Self) -> (r: Self)
        ensures
            r.bits() == neg_spec(v.bits()),
    {
        proof {
            use_type_invariant(&v);
            lemma_split_bits(v.0);
        }
        let exponent = Self::exponent(v);
        let significand = Self::significand(v);
        if exponent == 0x1f && significand != 0 {
            v
        } else if v.0 >= 0x8000 {
            proof {
                assert(sign_of(v.0) == 1);
                lemma_pack_fields(0, exp_of(v.0), frac_of(v.0));
                assert((v.0 - 0x8000) as u16 == (0 * 0x8000 + exp_of(v.0) * 0x400 + frac_of(
                    v.0,
                )) as u16);
                assert(!is_nan((v.0 - 0x8000) as u16));
            }
            SoftFloat16(v.0 - 0x8000)
        } else {
            proof {
                assert(sign_of(v.0) == 0);
                lemma_pack_fields(1, exp_of(v.0), frac_of(v.0));
                assert((v.0 + 0x8000) as u16 == (1 * 0x8000 + exp_of(v.0) * 0x400 + frac_of(
                    v.0,
                )) as u16);
                assert(!is_nan((v.0 + 0x8000) as u16));
            }
            SoftFloat16(v.0 + 0x8000)
        }
    }
}

} // verus!
