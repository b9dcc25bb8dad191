//! Rounding to an integral value, ties to even.

use crate::model::{
    exp_of, frac_of, lemma_pow2_mul, lemma_split_bits, mag24, sign_of, NEG_ZERO_BITS,
    POS_ZERO_BITS,
};
use crate::rounding::{enc_mag, lemma_enc_mag_id, lemma_enc_normal, lemma_scale_equiv, rdiv_even};
use crate::SoftFloat16;
use vstd::arithmetic::power2::{lemma_pow2_strictly_increases, pow2};
use vstd::prelude::*;

verus! {

/// Round to the nearest integral value of the same format, ties to even.
pub trait RoundTiesEven: Sized {
    /// The nearest integral value; the sign of a zero result follows the
    /// input.
    fn round_ties_even(v: Self) -> Self;
}

/// The integral binary16 value nearest to the value of a canonical
/// pattern: NaN and the infinities pass through, a zero result keeps the
/// input's sign.
pub open spec fn round_even_spec(b: u16) -> u16 {
    if exp_of(b) == 31 {
        b
    } else {
        let q = rdiv_even(mag24(b), pow2(24) as int);
        if q == 0 {
            if sign_of(b) == 1 {
                NEG_ZERO_BITS
            } else {
                POS_ZERO_BITS
            }
        } else {
            ((if sign_of(b) == 1 {
                0x8000int
            } else {
                0int
            }) + enc_mag(q * pow2(24) as int)) as u16
        }
    }
}

impl RoundTiesEven for SoftFloat16 {
    #[verifier::rlimit(60)]
    fn round_ties_even(v: Self) -> (r: Self)
        ensures
            r.bits() == round_even_spec(v.bits()),
    {
        proof {
            use_type_invariant(&v);
            lemma_split_bits(v.0);
            vstd::arithmetic::power2::lemma2_to64();
        }
        let (sign, exponent, significand) = (
            Self::sign(v),
            Self::exponent(v),
            Self::significand(v),
        );
        if exponent == 0x1f {
            return v;
        }
        let ghost mg = mag24(v.0);
        if exponent < 14 {
            // the magnitude is below one half: round to the signed zero
            proof {
                if exponent >= 1 {
                    if exponent - 1 < 12 {
                        lemma_pow2_strictly_increases((exponent - 1) as nat, 12);
                    }
                    assert(mg < 0x800000) by (nonlinear_arith)
                        requires
                            mg == (0x400 + frac_of(v.0)) * pow2((exponent - 1) as nat),
                            frac_of(v.0) < 0x400,
                            pow2((exponent - 1) as nat) <= pow2(12),
                            pow2(12) == 0x1000,
                    ;
                }
                vstd::arithmetic::div_mod::lemma_basic_div(mg, pow2(24) as int);
                vstd::arithmetic::div_mod::lemma_small_mod(mg as nat, pow2(24));
                assert(rdiv_even(mg, pow2(24) as int) == 0);
            }
            return if sign == 1 {
                Self::from_bits(NEG_ZERO_BITS)
            } else {
                Self::from_bits(POS_ZERO_BITS)
            };
        }
        if exponent >= 25 {
            // the spacing is at least one: the value is already integral
            proof {
                let q0 = (0x400 + frac_of(v.0)) * pow2((exponent - 25) as nat);
                lemma_pow2_mul((exponent - 25) as nat, 24);
                assert(mg == q0 * pow2(24)) by (nonlinear_arith)
                    requires
                        mg == (0x400 + frac_of(v.0)) * pow2((exponent - 1) as nat),
                        q0 == (0x400 + frac_of(v.0)) * pow2((exponent - 25) as nat),
                        pow2((exponent - 25) as nat) * pow2(24) == pow2((exponent - 1) as nat),
                ;
                vstd::arithmetic::power2::lemma_pow2_pos((exponent - 25) as nat);
                vstd::arithmetic::power2::lemma_pow2_pos(24);
                assert(q0 >= 1) by (nonlinear_arith)
                    requires
                        q0 == (0x400 + frac_of(v.0)) * pow2((exponent - 25) as nat),
                        pow2((exponent - 25) as nat) >= 1,
                ;
                vstd::arithmetic::div_mod::lemma_fundamental_div_mod_converse(
                    mg,
                    pow2(24) as int,
                    q0,
                    0,
                );
                assert(rdiv_even(mg, pow2(24) as int) == q0);
                assert(q0 * pow2(24) == mg);
                lemma_enc_mag_id(v.0);
            }
            return v;
        }
        // one ulp of the integral part spans 2^shift significand steps
        let shift = 25 - exponent;
        let sig = significand + 0x400;
        let mut p: u16 = 1;
        let mut i: u16 = 0;
        while i < shift
            invariant
                p == pow2(i as nat),
                i <= shift <= 11,
            decreases shift - i,
        {
            proof {
                if i as nat <= 10 {
                    if (i as nat) < 10 {
                        lemma_pow2_strictly_increases(i as nat, 10);
                    }
                    assert(pow2(10) == 0x400) by {
                        vstd::arithmetic::power2::lemma2_to64();
                    }
                }
                lemma_pow2_mul(i as nat, 1);
                assert(pow2(1) == 2) by {
                    vstd::arithmetic::power2::lemma2_to64();
                }
            }
            p = p * 2;
            i = i + 1;
        }
        let integer = sig / p;
        let fraction = sig % p;
        let half = p / 2;
        let up: u16 = if fraction > half || (fraction == half && integer % 2 == 1) {
            1
        } else {
            0
        };
        proof {
            vstd::arithmetic::div_mod::lemma_fundamental_div_mod(sig as int, p as int);
            assert((integer + up) * p <= sig + p) by (nonlinear_arith)
                requires
                    sig == p * integer + fraction,
                    0 <= fraction,
                    up == 0 || up == 1,
                    p >= 1,
            ;
        }
        let w = (integer + up) * p;
        proof {
            // the fraction mag / 2^24 equals sig / 2^shift
            lemma_pow2_mul((exponent - 1) as nat, shift as nat);
            assert(mg * p == sig * pow2(24)) by (nonlinear_arith)
                requires
                    mg == sig * pow2((exponent - 1) as nat),
                    p == pow2(shift as nat),
                    pow2((exponent - 1) as nat) * pow2(shift as nat) == pow2(24),
            ;
            vstd::arithmetic::power2::lemma_pow2_pos(24);
            lemma_scale_equiv(mg, pow2(24) as int, sig as int, p as int);
            // the halved quantum turns the doubled-remainder tests into
            // comparisons against `half`
            assert(p == 2 * half) by {
                vstd::arithmetic::power2::lemma_pow2_unfold(shift as nat);
            }
            assert(rdiv_even(mg, pow2(24) as int) == integer + up);
            // the rounded integral part, scaled back, is the result magnitude
            assert((integer + up) * pow2(24) as int == w * pow2((exponent - 1) as nat))
                by (nonlinear_arith)
                requires
                    w == (integer + up) * p,
                    p == pow2(shift as nat),
                    pow2((exponent - 1) as nat) * pow2(shift as nat) == pow2(24),
            ;
            // the window of possible results
            vstd::arithmetic::div_mod::lemma_fundamental_div_mod(sig as int, p as int);
            assert(integer * p <= sig < (integer + 1) * p) by (nonlinear_arith)
                requires
                    sig == p * integer + fraction,
                    0 <= fraction < p,
            ;
            if shift == 11 {
                vstd::arithmetic::div_mod::lemma_basic_div(sig as int, p as int);
                assert(integer == 0);
                assert(w == 0 || w == 0x800);
            } else {
                let c = pow2((11 - shift) as nat) as int;
                let c2 = pow2((10 - shift) as nat) as int;
                lemma_pow2_mul(shift as nat, (11 - shift) as nat);
                lemma_pow2_mul(shift as nat, (10 - shift) as nat);
                assert(c * p == 0x800 && c2 * p == 0x400) by (nonlinear_arith)
                    requires
                        p == pow2(shift as nat),
                        pow2(shift as nat) * pow2((11 - shift) as nat) == pow2(11),
                        pow2(shift as nat) * pow2((10 - shift) as nat) == pow2(10),
                        c == pow2((11 - shift) as nat),
                        c2 == pow2((10 - shift) as nat),
                        pow2(10) == 0x400,
                        pow2(11) == 0x800,
                ;
                assert(0x400 <= w <= 0x800) by (nonlinear_arith)
                    requires
                        w == (integer + up) * p,
                        integer * p <= sig < (integer + 1) * p,
                        0x400 <= sig <= 0x7ff,
                        up == 0 || up == 1,
                        1 <= p,
                        c * p == 0x800,
                        c2 * p == 0x400,
                ;
            }
        }
        if w == 0 {
            return if sign == 1 {
                Self::from_bits(NEG_ZERO_BITS)
            } else {
                Self::from_bits(POS_ZERO_BITS)
            };
        }
        if w <= 0x7ff {
            proof {
                lemma_enc_normal(w as int, exponent as int);
            }
            Self::from_bits(sign * 0x8000 + exponent * 0x400 + (w - 0x400))
        } else {
            proof {
                lemma_pow2_mul((exponent - 1) as nat, 1);
                assert(w * pow2((exponent - 1) as nat) == 0x400 * pow2(exponent as nat))
                    by (nonlinear_arith)
                    requires
                        w == 0x800,
                        pow2((exponent - 1) as nat) * pow2(1) == pow2(exponent as nat),
                        pow2(1) == 2,
                ;
                lemma_enc_normal(0x400, exponent as int + 1);
            }
            Self::from_bits(sign * 0x8000 + (exponent + 1) * 0x400)
        }
    }
}

} // verus!
