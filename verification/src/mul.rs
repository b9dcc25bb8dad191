//! The multiplicative pipeline: an exact 22-bit product, rounded once.

use crate::model::{
    decomp, is_inf, is_nan, is_zero, lemma_mag24_bounds, lemma_pow2_mul, lemma_split_bits, mag24,
    sign_of, NAN_BITS, NEG_INF_BITS, NEG_ZERO_BITS, POS_INF_BITS, POS_ZERO_BITS,
};
use crate::rounding::{faithful, lemma_exact_faithful, round_signed};
use crate::soft_float16::norm_expand;
use crate::SoftFloat16;
use vstd::arithmetic::power2::{lemma_pow2_pos, lemma_pow2_strictly_increases, pow2};
use vstd::prelude::*;

verus! {

/// The correctly rounded product of the values of two canonical patterns.
pub open spec fn mul_spec(a: u16, b: u16) -> u16 {
    if is_nan(a) || is_nan(b) {
        NAN_BITS
    } else if (is_zero(a) && is_inf(b)) || (is_inf(a) && is_zero(b)) {
        NAN_BITS
    } else {
        let neg = sign_of(a) != sign_of(b);
        if is_inf(a) || is_inf(b) {
            if neg {
                NEG_INF_BITS
            } else {
                POS_INF_BITS
            }
        } else if is_zero(a) || is_zero(b) {
            if neg {
                NEG_ZERO_BITS
            } else {
                POS_ZERO_BITS
            }
        } else {
            round_signed(neg, mag24(a) * mag24(b), pow2(24) as int)
        }
    }
}

/// Decompositions multiply: the product of the magnitudes decomposes into
/// the product of the significands at the combined exponent.
pub proof fn lemma_prod_decomp(mag0: int, s0: int, e0: int, mag1: int, s1: int, e1: int)
    requires
        decomp(mag0, s0, e0),
        decomp(mag1, s1, e1),
    ensures
        decomp(mag0 * mag1, s0 * s1, e0 + e1 - 1),
{
    crate::model::lemma_decomp_pow(mag0, s0, e0);
    crate::model::lemma_decomp_pow(mag1, s1, e1);
    let a0 = crate::model::d_a(e0);
    let b0 = crate::model::d_b(e0);
    let a1 = crate::model::d_a(e1);
    let b1 = crate::model::d_b(e1);
    lemma_pow2_mul(a0, a1);
    lemma_pow2_mul(b0, b1);
    assert((mag0 * mag1) * pow2(a0 + a1) == (s0 * s1) * pow2(b0 + b1)) by (nonlinear_arith)
        requires
            mag0 * pow2(a0) == s0 * pow2(b0),
            mag1 * pow2(a1) == s1 * pow2(b1),
            pow2(a0) * pow2(a1) == pow2(a0 + a1),
            pow2(b0) * pow2(b1) == pow2(b0 + b1),
    ;
    crate::model::lemma_pow_ident_decomp(
        mag0 * mag1,
        s0 * s1,
        a0 + a1,
        b0 + b1,
        e0 + e1 - 1,
    );
}

/// Two normalized decompositions multiply to a faithful window for the
/// product at scale `2^(e0 + e1 - 26)` over the denominator `2^24`.
pub proof fn lemma_mul_faithful(mag0: int, s0: int, e0: int, mag1: int, s1: int, e1: int)
    requires
        decomp(mag0, s0, e0),
        decomp(mag1, s1, e1),
        mag0 >= 1,
        mag1 >= 1,
        s0 >= 1,
        s1 >= 1,
        -9 <= e0 <= 30,
        -9 <= e1 <= 30,
    ensures
        faithful(s0 * s1, false, e0 + e1 - 26, mag0 * mag1, pow2(24) as int),
{
    vstd::arithmetic::power2::lemma2_to64();
    let a0: nat = if e0 >= 1 {
        0
    } else {
        (1 - e0) as nat
    };
    let b0: nat = if e0 >= 1 {
        (e0 - 1) as nat
    } else {
        0
    };
    let a1: nat = if e1 >= 1 {
        0
    } else {
        (1 - e1) as nat
    };
    let b1: nat = if e1 >= 1 {
        (e1 - 1) as nat
    } else {
        0
    };
    assert(mag0 * pow2(a0) == s0 * pow2(b0)) by (nonlinear_arith)
        requires
            pow2(0) == 1,
            e0 >= 1 ==> (a0 == 0 && b0 == e0 - 1 && mag0 == s0 * pow2(b0)),
            e0 < 1 ==> (b0 == 0 && a0 == 1 - e0 && mag0 * pow2(a0) == s0),
    ;
    assert(mag1 * pow2(a1) == s1 * pow2(b1)) by (nonlinear_arith)
        requires
            pow2(0) == 1,
            e1 >= 1 ==> (a1 == 0 && b1 == e1 - 1 && mag1 == s1 * pow2(b1)),
            e1 < 1 ==> (b1 == 0 && a1 == 1 - e1 && mag1 * pow2(a1) == s1),
    ;
    let aa = a0 + a1;
    let bb = b0 + b1;
    lemma_pow2_mul(a0, a1);
    lemma_pow2_mul(b0, b1);
    let nn = mag0 * mag1;
    let mm = s0 * s1;
    assert(nn * pow2(aa) == mm * pow2(bb)) by (nonlinear_arith)
        requires
            mag0 * pow2(a0) == s0 * pow2(b0),
            mag1 * pow2(a1) == s1 * pow2(b1),
            pow2(a0) * pow2(a1) == pow2(aa),
            pow2(b0) * pow2(b1) == pow2(bb),
            nn == mag0 * mag1,
            mm == s0 * s1,
    ;
    let k = e0 + e1 - 26;
    assert(bb == aa + 24 + k);
    lemma_pow2_pos(aa);
    lemma_pow2_pos(bb);
    assert(nn >= 1) by (nonlinear_arith)
        requires
            mag0 >= 1,
            mag1 >= 1,
            nn == mag0 * mag1,
    ;
    assert(mm >= 1) by (nonlinear_arith)
        requires
            s0 >= 1,
            s1 >= 1,
            mm == s0 * s1,
    ;
    if k >= 0 {
        lemma_pow2_mul(aa, (24 + k) as nat);
        lemma_pow2_mul(24, k as nat);
        assert(nn == mm * (pow2(24) as int * pow2(k as nat))) by (nonlinear_arith)
            requires
                nn * pow2(aa) == mm * pow2(bb),
                pow2(aa) * pow2((24 + k) as nat) == pow2(bb),
                pow2(24) * pow2(k as nat) == pow2((24 + k) as nat),
                pow2(aa) >= 1,
        ;
        lemma_exact_faithful(mm, k, nn, pow2(24) as int);
    } else {
        lemma_pow2_mul(bb, (-k) as nat);
        lemma_pow2_mul(aa, 24);
        assert(nn * pow2((-k) as nat) == mm * pow2(24)) by (nonlinear_arith)
            requires
                nn * pow2(aa) == mm * pow2(bb),
                pow2(bb) * pow2((-k) as nat) == pow2(bb + (-k) as nat),
                pow2(aa) * pow2(24) == pow2(aa + 24),
                bb + (-k) as nat == aa + 24,
                pow2(aa) >= 1,
                pow2(bb) >= 1,
        ;
        lemma_exact_faithful(mm, k, nn, pow2(24) as int);
    }
}

impl SoftFloat16 {
    /// Multiplication, rounded to nearest with ties to even; zero times an
    /// infinity gives NaN.
    #[verifier::rlimit(100)]
    pub fn mul(v0: Self, v1: Self) -> (r: Self)
        ensures
            r.bits() == mul_spec(v0.bits(), v1.bits()),
    {
        proof {
            use_type_invariant(&v0);
            use_type_invariant(&v1);
            lemma_split_bits(v0.0);
            lemma_split_bits(v1.0);
            vstd::arithmetic::power2::lemma2_to64();
        }
        let (sign0, exponent0, significand0) = (
            Self::sign(v0),
            Self::exponent(v0),
            Self::significand(v0),
        );
        let (sign1, exponent1, significand1) = (
            Self::sign(v1),
            Self::exponent(v1),
            Self::significand(v1),
        );
        if (exponent0 == 0x1f && significand0 != 0) || (exponent1 == 0x1f && significand1 != 0) {
            return Self::from_bits(NAN_BITS);
        }
        let zero0 = exponent0 == 0 && significand0 == 0;
        let zero1 = exponent1 == 0 && significand1 == 0;
        let inf0 = exponent0 == 0x1f && significand0 == 0;
        let inf1 = exponent1 == 0x1f && significand1 == 0;
        if (zero0 && inf1) || (inf0 && zero1) {
            return Self::from_bits(NAN_BITS);
        }
        let neg = sign0 != sign1;
        if inf0 || inf1 {
            return if neg {
                Self::from_bits(NEG_INF_BITS)
            } else {
                Self::from_bits(POS_INF_BITS)
            };
        }
        if zero0 || zero1 {
            return if neg {
                Self::from_bits(NEG_ZERO_BITS)
            } else {
                Self::from_bits(POS_ZERO_BITS)
            };
        }
        // both finite and non-zero: take the exact 22-bit product
        let (ea, sa) = norm_expand(exponent0, significand0);
        let (eb, sb) = norm_expand(exponent1, significand1);
        proof {
            assert(sa as int * sb as int <= 0x7ff * 0x7ff) by (nonlinear_arith)
                requires
                    sa <= 0x7ff,
                    sb <= 0x7ff,
            ;
        }
        let m: u64 = (sa as u64) * (sb as u64);
        let k: i32 = ea + eb - 26;
        let ghost n: int = mag24(v0.0) * mag24(v1.0);
        proof {
            lemma_mag24_bounds(v0.0);
            lemma_mag24_bounds(v1.0);
            lemma_mul_faithful(
                mag24(v0.0),
                sa as int,
                ea as int,
                mag24(v1.0),
                sb as int,
                eb as int,
            );
            assert(m >= 1 && n >= 1) by (nonlinear_arith)
                requires
                    m == sa * sb,
                    sa >= 1,
                    sb >= 1,
                    n == mag24(v0.0) * mag24(v1.0),
                    mag24(v0.0) >= 1,
                    mag24(v1.0) >= 1,
            ;
            lemma_pow2_mul(11, 29);
            lemma_pow2_mul(40, 40);
            lemma_pow2_strictly_increases(80, 170);
            assert(n < pow2(170)) by (nonlinear_arith)
                requires
                    n == mag24(v0.0) * mag24(v1.0),
                    0 <= mag24(v0.0) <= 2047 * pow2(29),
                    0 <= mag24(v1.0) <= 2047 * pow2(29),
                    2047 < pow2(11),
                    pow2(11) * pow2(29) == pow2(40),
                    pow2(40) * pow2(40) == pow2(80),
                    pow2(80) < pow2(170),
                    pow2(29) >= 1,
                    pow2(40) >= 1,
                    pow2(11) >= 1,
            ;
            vstd::arithmetic::power2::lemma_pow2_pos(24);
        }
        let sgn: u16 = if neg {
            1
        } else {
            0
        };
        let out = crate::rounding::round_finite(sgn, m, k, false, Ghost(n), Ghost(pow2(24) as int));
        Self::from_bits(out)
    }
}

} // verus!
