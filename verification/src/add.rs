//! The additive pipeline: alignment, signed-magnitude add or subtract,
//! and a single correctly rounded result.

use crate::model::{
    is_inf, is_nan, is_zero, lemma_mag24_bounds, lemma_pow2_mul, lemma_split_bits,
    lemma_xmag_order, mag24, sign_of, sval, NAN_BITS, NEG_ZERO_BITS, POS_ZERO_BITS,
};
use crate::rounding::{lemma_exact_faithful, lemma_round_pos_small, round_signed, shl64};
use crate::SoftFloat16;
use vstd::arithmetic::power2::{lemma_pow2_strictly_increases, pow2};
use vstd::prelude::*;

verus! {

/// The correctly rounded sum of the values of two canonical patterns.
pub open spec fn add_spec(a: u16, b: u16) -> u16 {
    if is_nan(a) || is_nan(b) {
        NAN_BITS
    } else if is_inf(a) && is_inf(b) {
        if sign_of(a) == sign_of(b) {
            a
        } else {
            NAN_BITS
        }
    } else if is_inf(a) {
        a
    } else if is_inf(b) {
        b
    } else if is_zero(a) && is_zero(b) {
        if sign_of(a) == 1 && sign_of(b) == 1 {
            NEG_ZERO_BITS
        } else {
            POS_ZERO_BITS
        }
    } else if is_zero(a) {
        b
    } else if is_zero(b) {
        a
    } else {
        let t = sval(a) + sval(b);
        round_signed(t < 0, if t < 0 {
            -t
        } else {
            t
        }, 1)
    }
}

/// The sign-of-zero rules for addition: sums of zeros are positive unless
/// both operands are negative zeros, and a finite value plus its own
/// negation cancels exactly to `+0`.
pub proof fn lemma_add_signed_zero(x: u16)
    requires
        crate::model::is_finite(x),
        crate::model::canonical(x),
    ensures
        add_spec(POS_ZERO_BITS, POS_ZERO_BITS) == POS_ZERO_BITS,
        add_spec(POS_ZERO_BITS, NEG_ZERO_BITS) == POS_ZERO_BITS,
        add_spec(NEG_ZERO_BITS, POS_ZERO_BITS) == POS_ZERO_BITS,
        add_spec(NEG_ZERO_BITS, NEG_ZERO_BITS) == NEG_ZERO_BITS,
        add_spec(x, crate::neg::neg_spec(x)) == POS_ZERO_BITS,
{
    lemma_split_bits(x);
    let nx = crate::neg::neg_spec(x);
    if x >= 0x8000 {
        crate::model::lemma_pack_fields(0, crate::model::exp_of(x), crate::model::frac_of(x));
        assert(nx == (0 * 0x8000 + crate::model::exp_of(x) * 0x400 + crate::model::frac_of(
            x,
        )) as u16);
    } else {
        crate::model::lemma_pack_fields(1, crate::model::exp_of(x), crate::model::frac_of(x));
        assert(nx == (1 * 0x8000 + crate::model::exp_of(x) * 0x400 + crate::model::frac_of(
            x,
        )) as u16);
    }
    if !is_zero(x) {
        assert(sval(x) + sval(nx) == 0);
        lemma_round_pos_small(0, 1);
    }
}

impl SoftFloat16 {
    /// Addition, rounded to nearest with ties to even; exact cancellation
    /// gives `+0`, overflow the signed infinity.
    #[verifier::rlimit(100)]
    pub fn add(v0: Self, v1: Self) -> (r: Self)
        ensures
            r.bits() == add_spec(v0.bits(), v1.bits()),
    {
        proof {
            use_type_invariant(&v0);
            use_type_invariant(&v1);
            lemma_split_bits(v0.0);
            lemma_split_bits(v1.0);
            vstd::arithmetic::power2::lemma2_to64();
        }
        let (sign0, exponent0, significand0) = (
            Self::sign(v0),
            Self::exponent(v0),
            Self::significand(v0),
        );
        let (sign1, exponent1, significand1) = (
            Self::sign(v1),
            Self::exponent(v1),
            Self::significand(v1),
        );
        if (exponent0 == 0x1f && significand0 != 0) || (exponent1 == 0x1f && significand1 != 0) {
            return Self::from_bits(NAN_BITS);
        }
        if exponent0 == 0x1f && exponent1 == 0x1f {
            return if sign0 == sign1 {
                v0
            } else {
                Self::from_bits(NAN_BITS)
            };
        }
        if exponent0 == 0x1f {
            return v0;
        }
        if exponent1 == 0x1f {
            return v1;
        }
        if (exponent0 == 0 && significand0 == 0) && (exponent1 == 0 && significand1 == 0) {
            return if sign0 == 1 && sign1 == 1 {
                Self::from_bits(NEG_ZERO_BITS)
            } else {
                Self::from_bits(POS_ZERO_BITS)
            };
        }
        if exponent0 == 0 && significand0 == 0 {
            return v1;
        }
        if exponent1 == 0 && significand1 == 0 {
            return v0;
        }
        proof {
            lemma_mag24_bounds(v0.0);
            lemma_mag24_bounds(v1.0);
        }
        // exact cancellation of equal magnitudes with opposite signs
        if sign0 != sign1 && exponent0 == exponent1 && significand0 == significand1 {
            proof {
                assert(sval(v0.0) + sval(v1.0) == 0);
                lemma_round_pos_small(0, 1);
            }
            return Self::from_bits(POS_ZERO_BITS);
        }
        // expand: effective exponent in [1, 30], significand with implicit bit
        let (e0, s0) = if exponent0 == 0 {
            (1u16, significand0)
        } else {
            (exponent0, significand0 + 0x400)
        };
        let (e1, s1) = if exponent1 == 0 {
            (1u16, significand1)
        } else {
            (exponent1, significand1 + 0x400)
        };
        proof {
            assert(s0 * pow2(0) == s0 && s1 * pow2(0) == s1) by (nonlinear_arith)
                requires
                    pow2(0) == 1,
            ;
            assert(mag24(v0.0) == s0 * pow2((e0 - 1) as nat));
            assert(mag24(v1.0) == s1 * pow2((e1 - 1) as nat));
        }
        // operand a takes the larger-or-equal exponent
        let (sa, ea, sfa, sb, eb, sfb) = if e0 >= e1 {
            (sign0, e0, s0, sign1, e1, s1)
        } else {
            (sign1, e1, s1, sign0, e0, s0)
        };
        let ghost ma: int = sfa * pow2((ea - 1) as nat);
        let ghost mb: int = sfb * pow2((eb - 1) as nat);
        let ghost t: int = sval(v0.0) + sval(v1.0);
        proof {
            assert(ma >= 1 && mb >= 1);
            assert(t == (if sa == 1 {
                -ma
            } else {
                ma
            }) + (if sb == 1 {
                -mb
            } else {
                mb
            }));
            // distinct magnitudes whenever the signs differ
            if sa != sb && ma == mb {
                lemma_xmag_order(v0.0, v1.0);
                assert(exponent0 as int * 0x400 + significand0 as int == exponent1 as int * 0x400
                    + significand1 as int);
                assert(exponent0 == exponent1 && significand0 == significand1)
                    by (nonlinear_arith)
                    requires
                        exponent0 as int * 0x400 + significand0 as int == exponent1 as int * 0x400
                            + significand1 as int,
                        significand0 < 0x400,
                        significand1 < 0x400,
                ;
                assert(false);
            }
        }
        // align exactly: everything in units of 2^(eb - 1) / 8
        let shift: u16 = ea - eb;
        proof {
            assert(pow2((3 + shift) as nat) <= pow2(32)) by {
                if 3 + shift < 32 {
                    lemma_pow2_strictly_increases((3 + shift) as nat, 32);
                }
            }
            assert(sfa as int * pow2((3 + shift) as nat) < 0x1_0000_0000_0000_0000)
                by (nonlinear_arith)
                requires
                    sfa <= 0x7ff,
                    pow2((3 + shift) as nat) <= pow2(32),
                    pow2(32) == 0x1_0000_0000,
            ;
        }
        let hi: u64 = shl64(sfa as u64, 3 + shift);
        let lo: u64 = (sfb as u64) * 8;
        proof {
            lemma_pow2_mul((3 + shift) as nat, (eb - 1) as nat);
            lemma_pow2_mul((ea - 1) as nat, 3);
            assert(ma * 8 == hi * pow2((eb - 1) as nat)) by (nonlinear_arith)
                requires
                    hi == sfa * pow2((3 + shift) as nat),
                    ma == sfa * pow2((ea - 1) as nat),
                    pow2((3 + shift) as nat) * pow2((eb - 1) as nat) == pow2(
                        (3 + shift) as nat + (eb - 1) as nat,
                    ),
                    pow2((ea - 1) as nat) * pow2(3) == pow2((ea - 1) as nat + 3),
                    (3 + shift) as nat + (eb - 1) as nat == (ea - 1) as nat + 3,
                    pow2(3) == 8,
            ;
            assert(mb * 8 == lo * pow2((eb - 1) as nat)) by (nonlinear_arith)
                requires
                    lo == sfb * 8,
                    mb == sfb * pow2((eb - 1) as nat),
            ;
        }
        proof {
            assert(hi <= 0x7ff * 0x1_0000_0000) by (nonlinear_arith)
                requires
                    hi == sfa * pow2((3 + shift) as nat),
                    sfa <= 0x7ff,
                    pow2((3 + shift) as nat) <= pow2(32),
                    pow2(32) == 0x1_0000_0000,
            ;
        }
        // add magnitudes on equal signs, subtract the smaller otherwise
        let (sgn, m): (u16, u64) = if sa == sb {
            (sa, hi + lo)
        } else if hi >= lo {
            (sa, hi - lo)
        } else {
            (sb, lo - hi)
        };
        let ghost n: int = if t < 0 {
            -t
        } else {
            t
        };
        proof {
            vstd::arithmetic::power2::lemma_pow2_pos((eb - 1) as nat);
            assert(hi >= lo <==> ma >= mb) by (nonlinear_arith)
                requires
                    ma * 8 == hi * pow2((eb - 1) as nat),
                    mb * 8 == lo * pow2((eb - 1) as nat),
                    pow2((eb - 1) as nat) >= 1,
            ;
            assert(hi == lo <==> ma == mb) by (nonlinear_arith)
                requires
                    ma * 8 == hi * pow2((eb - 1) as nat),
                    mb * 8 == lo * pow2((eb - 1) as nat),
                    pow2((eb - 1) as nat) >= 1,
            ;
            assert(m >= 1);
            let p = pow2((eb - 1) as nat) as int;
            if sa == sb {
                assert(n == ma + mb && (sgn == 1 <==> t < 0));
                assert(n * 8 == m * p) by (nonlinear_arith)
                    requires
                        n == ma + mb,
                        ma * 8 == hi * p,
                        mb * 8 == lo * p,
                        m == hi + lo,
                ;
            } else if hi >= lo {
                assert(ma > mb);
                assert(n == ma - mb && (sgn == 1 <==> t < 0));
                assert(n * 8 == m * p) by (nonlinear_arith)
                    requires
                        n == ma - mb,
                        ma * 8 == hi * p,
                        mb * 8 == lo * p,
                        m == hi - lo,
                ;
            } else {
                assert(mb > ma);
                assert(n == mb - ma && (sgn == 1 <==> t < 0));
                assert(n * 8 == m * p) by (nonlinear_arith)
                    requires
                        n == mb - ma,
                        ma * 8 == hi * p,
                        mb * 8 == lo * p,
                        m == lo - hi,
                ;
            }
        }
        let k: i32 = eb as i32 - 4;
        proof {
            if k >= 0 {
                lemma_pow2_mul(k as nat, 3);
                assert(n == m * (1 * pow2(k as nat))) by (nonlinear_arith)
                    requires
                        n * 8 == m * pow2((eb - 1) as nat),
                        pow2(k as nat) * pow2(3) == pow2(k as nat + 3),
                        k as nat + 3 == (eb - 1) as nat,
                        pow2(3) == 8,
                ;
            } else {
                lemma_pow2_mul((-k) as nat, (eb - 1) as nat);
                assert(n * pow2((-k) as nat) == m * 1) by (nonlinear_arith)
                    requires
                        n * 8 == m * pow2((eb - 1) as nat),
                        pow2((-k) as nat) * pow2((eb - 1) as nat) == pow2(3),
                        pow2(3) == 8,
                        pow2((eb - 1) as nat) >= 1,
                ;
            }
            lemma_exact_faithful(m as int, k as int, n, 1);
            // the sum is far below the overflow cap of the model
            lemma_pow2_mul(12, 29);
            lemma_pow2_strictly_increases(41, 170);
            assert(n < pow2(170)) by (nonlinear_arith)
                requires
                    n <= 2 * (2047 * pow2(29)),
                    pow2(12) * pow2(29) == pow2(41),
                    pow2(12) == 0x1000,
                    pow2(41) < pow2(170),
                    pow2(29) >= 1,
            ;
        }
        let out = crate::rounding::round_finite(sgn, m, k, false, Ghost(n), Ghost(1int));
        Self::from_bits(out)
    }
}

} // verus!
