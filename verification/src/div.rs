//! The division pipeline: a 14-bit truncated quotient with a sticky
//! remainder, rounded once.

use crate::model::{
    d_a, d_b, is_inf, is_nan, is_zero, lemma_decomp_pow, lemma_mag24_bounds, lemma_pow2_mul,
    lemma_split_bits, mag24, sign_of, NAN_BITS, NEG_INF_BITS, NEG_ZERO_BITS, POS_INF_BITS,
    POS_ZERO_BITS,
};
use crate::rounding::{faithful, round_signed, scale_den, scale_num};
use crate::soft_float16::norm_expand;
use crate::SoftFloat16;
use vstd::arithmetic::power2::{lemma_pow2_pos, lemma_pow2_strictly_increases, pow2};
use vstd::prelude::*;

verus! {

/// The correctly rounded quotient of the values of two canonical patterns.
pub open spec fn div_spec(a: u16, b: u16) -> u16 {
    if is_nan(a) || is_nan(b) {
        NAN_BITS
    } else if is_zero(a) && is_zero(b) {
        NAN_BITS
    } else if is_inf(a) && is_inf(b) {
        NAN_BITS
    } else {
        let neg = sign_of(a) != sign_of(b);
        if is_zero(a) || is_inf(b) {
            if neg {
                NEG_ZERO_BITS
            } else {
                POS_ZERO_BITS
            }
        } else if is_zero(b) || is_inf(a) {
            if neg {
                NEG_INF_BITS
            } else {
                POS_INF_BITS
            }
        } else {
            round_signed(neg, mag24(a) * pow2(24), mag24(b))
        }
    }
}

impl SoftFloat16 {
    /// Division, rounded to nearest with ties to even; `0/0` and `inf/inf`
    /// give NaN, division of a finite non-zero value by zero the signed
    /// infinity.
    #[verifier::rlimit(100)]
    pub fn div(v0: Self, v1: Self) -> (r: Self)
        ensures
            r.bits() == div_spec(v0.bits(), v1.bits()),
    {
        proof {
            use_type_invariant(&v0);
            use_type_invariant(&v1);
            lemma_split_bits(v0.0);
            lemma_split_bits(v1.0);
            vstd::arithmetic::power2::lemma2_to64();
        }
        let (sign0, exponent0, significand0) = (
            Self::sign(v0),
            Self::exponent(v0),
            Self::significand(v0),
        );
        let (sign1, exponent1, significand1) = (
            Self::sign(v1),
            Self::exponent(v1),
            Self::significand(v1),
        );
        if (exponent0 == 0x1f && significand0 != 0) || (exponent1 == 0x1f && significand1 != 0) {
            return Self::from_bits(NAN_BITS);
        }
        let zero0 = exponent0 == 0 && significand0 == 0;
        let zero1 = exponent1 == 0 && significand1 == 0;
        let inf0 = exponent0 == 0x1f && significand0 == 0;
        let inf1 = exponent1 == 0x1f && significand1 == 0;
        if zero0 && zero1 {
            return Self::from_bits(NAN_BITS);
        }
        if inf0 && inf1 {
            return Self::from_bits(NAN_BITS);
        }
        let neg = sign0 != sign1;
        if zero0 || inf1 {
            return if neg {
                Self::from_bits(NEG_ZERO_BITS)
            } else {
                Self::from_bits(POS_ZERO_BITS)
            };
        }
        if zero1 || inf0 {
            return if neg {
                Self::from_bits(NEG_INF_BITS)
            } else {
                Self::from_bits(POS_INF_BITS)
            };
        }
        // both finite and non-zero
        let (ea, sa) = norm_expand(exponent0, significand0);
        let (eb, sb) = norm_expand(exponent1, significand1);
        // pre-scale the dividend so the quotient lands in [2^13, 2^14)
        let (num, pre): (u64, i32) = if sa >= sb {
            (sa as u64, 0)
        } else {
            ((sa as u64) * 2, 1)
        };
        let nm: u64 = num * 0x2000;
        let q: u64 = nm / (sb as u64);
        let rem: u64 = nm % (sb as u64);
        let k: i32 = ea - eb - pre + 11;
        let ghost n: int = mag24(v0.0) * pow2(24);
        let ghost d: int = mag24(v1.0);
        proof {
            lemma_mag24_bounds(v0.0);
            lemma_mag24_bounds(v1.0);
            lemma_decomp_pow(mag24(v0.0), sa as int, ea as int);
            lemma_decomp_pow(mag24(v1.0), sb as int, eb as int);
            let a0 = d_a(ea as int);
            let b0 = d_b(ea as int);
            let a1 = d_a(eb as int);
            let b1 = d_b(eb as int);
            // the reduced fraction nm / sb is the scaled quotient
            let kk: int = k as int;
            let nn = scale_num(n, kk);
            let dd = scale_den(d, kk);
            let mg0 = mag24(v0.0);
            let mg1 = mag24(v1.0);
            lemma_pow2_pos(a0);
            lemma_pow2_pos(a1);
            assert(nm == sa * pow2((13 + pre) as nat)) by (nonlinear_arith)
                requires
                    pre == 0 ==> num == sa,
                    pre == 1 ==> num == sa * 2,
                    nm == num * 0x2000,
                    pow2(13) == 0x2000,
                    pow2(14) == 0x4000,
                    pre == 0 || pre == 1,
                    pow2((13 + pre) as nat) == if pre == 1 {
                        pow2(14)
                    } else {
                        pow2(13)
                    },
            ;
            let ke: nat = if kk >= 0 {
                kk as nat
            } else {
                0
            };
            let kn: nat = if kk >= 0 {
                0
            } else {
                (-kk) as nat
            };
            // exponent balance of the two cross products
            assert(b0 + 24 + kn + a1 == b1 + (13 + pre) as nat + ke + a0);
            // (I): scale the first decomposition by sb * 2^(24 + kn)
            lemma_pow2_mul(a0, 24 + kn);
            lemma_pow2_mul(b0, 24 + kn);
            assert((mg0 * sb) * pow2(a0 + (24 + kn)) == (sa * sb) * pow2(b0 + (24 + kn)))
                by (nonlinear_arith)
                requires
                    mg0 * pow2(a0) == sa * pow2(b0),
                    pow2(a0) * pow2(24 + kn) == pow2(a0 + (24 + kn)),
                    pow2(b0) * pow2(24 + kn) == pow2(b0 + (24 + kn)),
            ;
            // (II): scale the second decomposition by sa * 2^(13 + pre + ke)
            lemma_pow2_mul(a1, (13 + pre) as nat + ke);
            lemma_pow2_mul(b1, (13 + pre) as nat + ke);
            assert((sa * mg1) * pow2(a1 + ((13 + pre) as nat + ke)) == (sa * sb) * pow2(
                b1 + ((13 + pre) as nat + ke),
            )) by (nonlinear_arith)
                requires
                    mg1 * pow2(a1) == sb * pow2(b1),
                    pow2(a1) * pow2((13 + pre) as nat + ke) == pow2(a1 + ((13 + pre) as nat + ke)),
                    pow2(b1) * pow2((13 + pre) as nat + ke) == pow2(b1 + ((13 + pre) as nat + ke)),
            ;
            // line both up over the common factor 2^(a0 + a1)
            lemma_pow2_mul(a0 + (24 + kn), a1);
            lemma_pow2_mul(a1 + ((13 + pre) as nat + ke), a0);
            assert(b0 + (24 + kn) + a1 == b1 + ((13 + pre) as nat + ke) + a0);
            lemma_pow2_mul(b0 + (24 + kn), a1);
            lemma_pow2_mul(b1 + ((13 + pre) as nat + ke), a0);
            assert((mg0 * sb) * pow2(a0 + (24 + kn)) * pow2(a1) == (sa * mg1) * pow2(
                a1 + ((13 + pre) as nat + ke),
            ) * pow2(a0)) by (nonlinear_arith)
                requires
                    (mg0 * sb) * pow2(a0 + (24 + kn)) == (sa * sb) * pow2(b0 + (24 + kn)),
                    (sa * mg1) * pow2(a1 + ((13 + pre) as nat + ke)) == (sa * sb) * pow2(
                        b1 + ((13 + pre) as nat + ke),
                    ),
                    pow2(b0 + (24 + kn)) * pow2(a1) == pow2(b0 + (24 + kn) + a1),
                    pow2(b1 + ((13 + pre) as nat + ke)) * pow2(a0) == pow2(
                        b1 + ((13 + pre) as nat + ke) + a0,
                    ),
                    pow2(b0 + (24 + kn) + a1) == pow2(b1 + ((13 + pre) as nat + ke) + a0),
            ;
            // cancel the common power
            lemma_pow2_mul(24 + kn, a0);
            lemma_pow2_mul((13 + pre) as nat + ke, a1);
            lemma_pow2_mul(a0, a1);
            assert((mg0 * sb) * pow2(24 + kn) * (pow2(a0) * pow2(a1)) == (sa * mg1) * pow2(
                (13 + pre) as nat + ke,
            ) * (pow2(a0) * pow2(a1))) by (nonlinear_arith)
                requires
                    (mg0 * sb) * pow2(a0 + (24 + kn)) * pow2(a1) == (sa * mg1) * pow2(
                        a1 + ((13 + pre) as nat + ke),
                    ) * pow2(a0),
                    pow2(a0) * pow2(24 + kn) == pow2(a0 + (24 + kn)),
                    pow2(a1) * pow2((13 + pre) as nat + ke) == pow2(a1 + ((13 + pre) as nat + ke)),
            ;
            assert((mg0 * sb) * pow2(24 + kn) == (sa * mg1) * pow2((13 + pre) as nat + ke))
                by (nonlinear_arith)
                requires
                    (mg0 * sb) * pow2(24 + kn) * (pow2(a0) * pow2(a1)) == (sa * mg1) * pow2(
                        (13 + pre) as nat + ke,
                    ) * (pow2(a0) * pow2(a1)),
                    pow2(a0) * pow2(a1) >= 1,
            ;
            // which is exactly the cross product of the two fractions
            lemma_pow2_mul(24, kn);
            lemma_pow2_mul((13 + pre) as nat, ke);
            assert(nn * (sb as int) == (nm as int) * dd) by (nonlinear_arith)
                requires
                    (mg0 * sb) * pow2(24 + kn) == (sa * mg1) * pow2((13 + pre) as nat + ke),
                    pow2(24) * pow2(kn) == pow2(24 + kn),
                    pow2((13 + pre) as nat) * pow2(ke) == pow2((13 + pre) as nat + ke),
                    nm == sa * pow2((13 + pre) as nat),
                    n == mg0 * pow2(24),
                    d == mg1,
                    kk >= 0 ==> (nn == n && dd == d * pow2(ke) && kn == 0 && pow2(kn) == 1),
                    kk < 0 ==> (dd == d && nn == n * pow2(kn) && ke == 0 && pow2(ke) == 1),
            ;
            // hence the executable quotient and remainder are faithful
            lemma_pow2_pos(kk as nat);
            lemma_pow2_pos((-kk) as nat);
            assert(nn >= 0) by (nonlinear_arith)
                requires
                    n >= 0,
                    kk < 0 ==> nn == n * pow2((-kk) as nat),
                    kk >= 0 ==> nn == n,
                    pow2((-kk) as nat) >= 1,
            ;
            assert(dd >= 1) by (nonlinear_arith)
                requires
                    d >= 1,
                    kk >= 0 ==> dd == d * pow2(kk as nat),
                    kk < 0 ==> dd == d,
                    pow2(kk as nat) >= 1,
            ;
            crate::rounding::lemma_scale_equiv(nn, dd, nm as int, sb as int);
            assert(q == nn / dd && (rem != 0 <==> nn % dd != 0));
            assert(faithful(q as int, rem != 0, kk, n, d));
            // quotient bounds from the pre-scaling
            assert(sb as u64 * 0x2000 <= nm && nm < sb as u64 * 0x4000) by (nonlinear_arith)
                requires
                    nm == num * 0x2000,
                    sb <= num,
                    num < 2 * (sb as u64),
            ;
            vstd::arithmetic::div_mod::lemma_fundamental_div_mod(nm as int, sb as int);
            assert(0x2000 <= q < 0x4000) by {
                assert(q >= 0x2000) by (nonlinear_arith)
                    requires
                        nm == (sb as u64) * q + rem,
                        rem < sb,
                        sb as u64 * 0x2000 <= nm,
                        sb >= 1,
                ;
                assert(q < 0x4000) by (nonlinear_arith)
                    requires
                        nm == (sb as u64) * q + rem,
                        rem >= 0,
                        nm < sb as u64 * 0x4000,
                        sb >= 1,
                ;
            }
            // overall bounds for the rounding routine
            lemma_pow2_mul(11, 29);
            lemma_pow2_mul(40, 24);
            lemma_pow2_strictly_increases(64, 170);
            assert(n >= 1 && n < pow2(170)) by (nonlinear_arith)
                requires
                    n == mag24(v0.0) * pow2(24),
                    1 <= mag24(v0.0) <= 2047 * pow2(29),
                    2047 < pow2(11),
                    pow2(11) * pow2(29) == pow2(40),
                    pow2(40) * pow2(24) == pow2(64),
                    pow2(64) < pow2(170),
                    pow2(24) >= 1,
                    pow2(29) >= 1,
                    pow2(11) >= 1,
            ;
        }
        let sgn: u16 = if neg {
            1
        } else {
            0
        };
        let out = crate::rounding::round_finite(sgn, q, k, rem != 0, Ghost(n), Ghost(d));
        Self::from_bits(out)
    }
}

} // verus!
