//! Conversions between binary16 and binary32 bit patterns and 32-bit
//! integers.
//!
//! Binary32 values appear only as their `u32` bit patterns; a binary32
//! value is modelled, like a binary16 one, by an exact scaled integer
//! (units of 2^-149, the smallest binary32 subnormal).

use crate::model::{
    exp_of, frac_of, is_inf, is_nan, is_zero, lemma_pack_fields, lemma_pow2_mul, lemma_split_bits, mag24,
    sign_of, NAN_BITS, POS_ZERO_BITS,
};
use crate::rounding::{lemma_exact_faithful, rdiv_even, round_signed};
use crate::SoftFloat16;
use vstd::arithmetic::power2::{lemma_pow2_strictly_increases, pow2};
use vstd::prelude::*;

verus! {

/// Sign field of a binary32 bit pattern.
pub open spec fn sign32_of(x: u32) -> u32 {
    x / 0x8000_0000
}

/// Biased exponent field of a binary32 bit pattern, in [0, 255].
pub open spec fn exp32_of(x: u32) -> u32 {
    (x / 0x80_0000) % 0x100
}

/// Stored significand field of a binary32 bit pattern.
pub open spec fn frac32_of(x: u32) -> u32 {
    x % 0x80_0000
}

/// Magnitude of a finite binary32 pattern, in units of 2^-149.
pub open spec fn mag149(x: u32) -> int {
    if exp32_of(x) == 0 {
        frac32_of(x) as int
    } else {
        (0x80_0000 + frac32_of(x)) * pow2((exp32_of(x) - 1) as nat)
    }
}

/// A binary32 bit pattern is the weighted sum of its three fields.
pub proof fn lemma_split_bits32(x: u32)
    ensures
        x == sign32_of(x) * 0x8000_0000 + exp32_of(x) * 0x80_0000 + frac32_of(x),
        sign32_of(x) <= 1,
        exp32_of(x) <= 255,
        frac32_of(x) < 0x80_0000,
{
    assert(x == (x / 0x8000_0000) * 0x8000_0000 + ((x / 0x80_0000) % 0x100) * 0x80_0000 + x
        % 0x80_0000 && x / 0x8000_0000 <= 1 && (x / 0x80_0000) % 0x100 <= 255 && x % 0x80_0000
        < 0x80_0000) by (bit_vector);
}

/// The binary16 pattern nearest to the value of a binary32 pattern: NaNs
/// collapse to the canonical NaN, infinities keep their sign, every finite
/// value is rounded to nearest with ties to even.
pub open spec fn from_f32_spec(x: u32) -> u16 {
    if exp32_of(x) == 0xff && frac32_of(x) != 0 {
        NAN_BITS
    } else if exp32_of(x) == 0xff {
        (sign32_of(x) * 0x8000 + 0x7c00) as u16
    } else {
        round_signed(sign32_of(x) == 1, mag149(x), pow2(125) as int)
    }
}

/// The binary32 pattern with the same value as a binary16 pattern (the
/// format is strictly wider, so the conversion is exact); the canonical
/// NaN maps to the canonical binary32 quiet NaN.
pub open spec fn to_f32_spec(b: u16) -> u32 {
    if is_nan(b) {
        0x7fc0_0000
    } else if is_inf(b) {
        (sign_of(b) * 0x8000_0000 + 0x7f80_0000) as u32
    } else if exp_of(b) >= 1 {
        (sign_of(b) * 0x8000_0000 + (exp_of(b) + 112) * 0x80_0000 + frac_of(b) * 0x2000) as u32
    } else if frac_of(b) == 0 {
        (sign_of(b) * 0x8000_0000) as u32
    } else {
        let l = crate::model::lg(frac_of(b) as nat) as int;
        (sign_of(b) * 0x8000_0000 + (l + 103) * 0x80_0000 + (frac_of(b) - pow2(l as nat)) * pow2(
            (23 - l) as nat,
        )) as u32
    }
}

/// The binary16 pattern nearest to a 32-bit integer: exact up to 2048,
/// rounded to nearest with ties to even up to 65504, saturating to the
/// signed infinity beyond.
pub open spec fn from_i32_spec(v: int) -> u16 {
    if v == 0 {
        POS_ZERO_BITS
    } else {
        round_signed(v < 0, (if v < 0 {
            -v
        } else {
            v
        }) * pow2(24) as int, 1)
    }
}

/// The 32-bit integer nearest to the value of a binary16 pattern, ties to
/// even; NaN and the infinities map to the smallest integer.
pub open spec fn to_i32_spec(b: u16) -> int {
    if exp_of(b) == 31 {
        -0x8000_0000
    } else {
        let q = rdiv_even(mag24(b), pow2(24) as int);
        if sign_of(b) == 1 {
            -q
        } else {
            q
        }
    }
}

/// Field extraction inverts field packing for binary32 patterns.
pub proof fn lemma_pack_fields32(s: u32, e: u32, f: u32)
    requires
        s <= 1,
        e <= 255,
        f < 0x80_0000,
    ensures
        sign32_of((s * 0x8000_0000 + e * 0x80_0000 + f) as u32) == s,
        exp32_of((s * 0x8000_0000 + e * 0x80_0000 + f) as u32) == e,
        frac32_of((s * 0x8000_0000 + e * 0x80_0000 + f) as u32) == f,
{
    let x: u32 = (s * 0x8000_0000 + e * 0x80_0000 + f) as u32;
    assert(x / 0x8000_0000 == s && (x / 0x80_0000) % 0x100 == e && x % 0x80_0000 == f)
        by (bit_vector)
        requires
            s <= 1,
            e <= 255,
            f < 0x80_0000,
            x == s * 0x8000_0000 + e * 0x80_0000 + f,
    ;
}

/// Widening a binary16 value to binary32 and narrowing it back returns the
/// original pattern.
pub proof fn lemma_f32_round_trip(b: u16)
    requires
        crate::model::canonical(b),
    ensures
        from_f32_spec(to_f32_spec(b)) == b,
{
    lemma_split_bits(b);
    vstd::arithmetic::power2::lemma2_to64();
    let s = sign_of(b) as u32;
    let e = exp_of(b) as u32;
    let f = frac_of(b) as u32;
    if is_nan(b) {
        assert(exp32_of(0x7fc0_0000) == 0xff && frac32_of(0x7fc0_0000) != 0);
    } else if is_inf(b) {
        lemma_pack_fields32(s, 0xff, 0);
        assert(to_f32_spec(b) == (s * 0x8000_0000 + 0xff * 0x80_0000 + 0) as u32);
    } else if is_zero(b) {
        lemma_pack_fields32(s, 0, 0);
        assert(to_f32_spec(b) == (s * 0x8000_0000 + 0 * 0x80_0000 + 0) as u32);
        vstd::arithmetic::power2::lemma_pow2_pos(125);
        crate::rounding::lemma_round_pos_small(0, pow2(125) as int);
    } else {
        let x = to_f32_spec(b);
        vstd::arithmetic::power2::lemma_pow2_pos(125);
        if e >= 1 {
            lemma_pack_fields32(s, (e + 112) as u32, (f * 0x2000) as u32);
            assert(x == (s * 0x8000_0000 + (e + 112) * 0x80_0000 + f * 0x2000) as u32);
            lemma_pow2_mul(13, (e + 111) as nat);
            lemma_pow2_mul((e - 1) as nat, 125);
            assert(mag149(x) == mag24(b) * pow2(125)) by (nonlinear_arith)
                requires
                    mag149(x) == (0x80_0000 + f * 0x2000) * pow2((e + 111) as nat),
                    mag24(b) == (0x400 + f) * pow2((e - 1) as nat),
                    pow2(13) * pow2((e + 111) as nat) == pow2((e + 124) as nat),
                    pow2((e - 1) as nat) * pow2(125) == pow2((e + 124) as nat),
                    pow2(13) == 0x2000,
            ;
        } else {
            let l = crate::model::lg(f as nat) as int;
            crate::model::lemma_lg_bounds(f as nat);
            assert(l <= 9) by {
                if crate::model::lg(f as nat) > 9 {
                    vstd::arithmetic::power2::lemma_pow2_strictly_increases(
                        10,
                        crate::model::lg(f as nat),
                    );
                    assert(f >= pow2(10));
                }
            }
            lemma_pow2_mul(l as nat, (23 - l) as nat);
            assert((f - pow2(l as nat)) * pow2((23 - l) as nat) < pow2(23)) by (nonlinear_arith)
                requires
                    0 <= f - pow2(l as nat) < pow2(l as nat),
                    pow2(l as nat) * pow2((23 - l) as nat) == pow2(23),
                    pow2((23 - l) as nat) >= 1,
            ;
            lemma_pack_fields32(s, (l + 103) as u32, ((f - pow2(l as nat)) * pow2(
                (23 - l) as nat,
            )) as u32);
            assert(x == (s * 0x8000_0000 + (l + 103) * 0x80_0000 + (f - pow2(l as nat)) * pow2(
                (23 - l) as nat,
            )) as u32);
            lemma_pow2_mul((23 - l) as nat, (l + 102) as nat);
            assert(mag149(x) == mag24(b) * pow2(125)) by (nonlinear_arith)
                requires
                    mag149(x) == (0x80_0000 + (f - pow2(l as nat)) * pow2((23 - l) as nat)) * pow2(
                        (l + 102) as nat,
                    ),
                    mag24(b) == f,
                    pow2(l as nat) * pow2((23 - l) as nat) == pow2(23),
                    pow2((23 - l) as nat) * pow2((l + 102) as nat) == pow2(125),
                    pow2(23) == 0x80_0000,
            ;
        }
        crate::rounding::lemma_round_exact(b, pow2(125) as int);
        crate::rounding::lemma_enc_mag_id(b);
        assert(from_f32_spec(x) == round_signed(s == 1, mag24(b) * pow2(125), pow2(125) as int));
    }
}

impl SoftFloat16 {
    /// Conversion from a 32-bit signed integer, rounded to nearest with
    /// ties to even and saturating to the signed infinity.
    pub fn from_i32(value: i32) -> (r: Self)
        ensures
            r.bits() == from_i32_spec(value as int),
    {
        proof {
            vstd::arithmetic::power2::lemma2_to64();
        }
        if value == 0 {
            return Self::from_bits(POS_ZERO_BITS);
        }
        let sgn: u16 = if value < 0 {
            1
        } else {
            0
        };
        let mag: u64 = if value < 0 {
            (-(value as i64)) as u64
        } else {
            value as u64
        };
        let ghost n: int = (if (value as int) < 0 {
            -(value as int)
        } else {
            value as int
        }) * pow2(24);
        proof {
            assert(mag >= 1);
            assert(n == mag * (1 * pow2(24))) by (nonlinear_arith)
                requires
                    n == mag * pow2(24),
            ;
            lemma_exact_faithful(mag as int, 24, n, 1);
            lemma_pow2_mul(31, 24);
            lemma_pow2_strictly_increases(55, 170);
            assert(n < pow2(170)) by (nonlinear_arith)
                requires
                    n == mag * pow2(24),
                    mag <= pow2(31),
                    pow2(31) * pow2(24) == pow2(55),
                    pow2(55) < pow2(170),
                    pow2(24) >= 1,
            ;
        }
        let out = crate::rounding::round_finite(sgn, mag, 24, false, Ghost(n), Ghost(1int));
        Self::from_bits(out)
    }

    /// Conversion from a binary32 bit pattern, rounded to nearest with
    /// ties to even; every binary32 NaN collapses to the canonical NaN.
    pub fn from_f32_bits(x: u32) -> (r: Self)
        ensures
            r.bits() == from_f32_spec(x),
    {
        proof {
            lemma_split_bits32(x);
            vstd::arithmetic::power2::lemma2_to64();
        }
        let s32 = (x / 0x8000_0000) as u16;
        let e32 = (x / 0x80_0000) % 0x100;
        let f32v = x % 0x80_0000;
        if e32 == 0xff {
            if f32v != 0 {
                return Self::from_bits(NAN_BITS);
            }
            proof {
                lemma_pack_fields(s32, 0x1f, 0);
            }
            return Self::from_bits(s32 * 0x8000 + 0x7c00);
        }
        if e32 == 0 {
            // binary32 zeros and subnormals sit far below the smallest
            // binary16 subnormal: round to the signed zero
            proof {
                lemma_pow2_strictly_increases(24, 125);
                assert(2 * mag149(x) < pow2(125)) by (nonlinear_arith)
                    requires
                        mag149(x) == frac32_of(x),
                        frac32_of(x) < 0x80_0000,
                        pow2(24) == 0x100_0000,
                        pow2(24) < pow2(125),
                ;
                crate::rounding::lemma_round_pos_small(mag149(x), pow2(125) as int);
                vstd::arithmetic::power2::lemma_pow2_pos(125);
                lemma_pack_fields(s32, 0, 0);
            }
            return Self::from_bits(s32 * 0x8000);
        }
        if e32 >= 143 {
            // the magnitude is at least 2^16: overflow to the signed infinity
            proof {
                lemma_pow2_mul(23, (e32 - 1) as nat);
                lemma_pow2_mul(40, 125);
                assert(pow2((23 + (e32 - 1)) as nat) >= pow2(165)) by {
                    if 23 + e32 - 1 > 165 {
                        lemma_pow2_strictly_increases(165, (23 + (e32 - 1)) as nat);
                    }
                }
                vstd::arithmetic::power2::lemma_pow2_pos((e32 - 1) as nat);
                vstd::arithmetic::power2::lemma_pow2_pos(125);
                assert(mag149(x) >= pow2(40) * pow2(125) as int) by (nonlinear_arith)
                    requires
                        mag149(x) == (0x80_0000 + frac32_of(x)) * pow2((e32 - 1) as nat),
                        frac32_of(x) >= 0,
                        pow2(23) * pow2((e32 - 1) as nat) == pow2((23 + (e32 - 1)) as nat),
                        pow2((23 + (e32 - 1)) as nat) >= pow2(165),
                        pow2(40) * pow2(125) == pow2(165),
                        pow2(23) == 0x80_0000,
                        pow2((e32 - 1) as nat) >= 1,
                ;
                crate::rounding::lemma_round_pos_big(mag149(x), pow2(125) as int);
                lemma_pack_fields(s32, 0x1f, 0);
            }
            return Self::from_bits(s32 * 0x8000 + 0x7c00);
        }
        // a normal binary32 value that may reach the binary16 range
        let m: u64 = (0x80_0000 + f32v) as u64;
        let k: i32 = e32 as i32 - 126;
        let ghost n: int = mag149(x);
        proof {
            vstd::arithmetic::power2::lemma_pow2_pos(125);
            vstd::arithmetic::power2::lemma_pow2_pos((e32 - 1) as nat);
            if k >= 0 {
                lemma_pow2_mul(125, k as nat);
                assert(n == m * (pow2(125) as int * pow2(k as nat))) by (nonlinear_arith)
                    requires
                        n == m * pow2((e32 - 1) as nat),
                        pow2(125) * pow2(k as nat) == pow2((e32 - 1) as nat),
                ;
            } else {
                lemma_pow2_mul((e32 - 1) as nat, (-k) as nat);
                assert(n * pow2((-k) as nat) == m * pow2(125)) by (nonlinear_arith)
                    requires
                        n == m * pow2((e32 - 1) as nat),
                        pow2((e32 - 1) as nat) * pow2((-k) as nat) == pow2(125),
                ;
            }
            lemma_exact_faithful(m as int, k as int, n, pow2(125) as int);
            assert(pow2((e32 - 1) as nat) <= pow2(141)) by {
                if e32 - 1 < 141 {
                    lemma_pow2_strictly_increases((e32 - 1) as nat, 141);
                }
            }
            lemma_pow2_mul(24, 141);
            lemma_pow2_strictly_increases(165, 170);
            assert(n < pow2(170)) by (nonlinear_arith)
                requires
                    n == m * pow2((e32 - 1) as nat),
                    m < pow2(24),
                    pow2((e32 - 1) as nat) <= pow2(141),
                    pow2(24) * pow2(141) == pow2(165),
                    pow2(165) < pow2(170),
                    pow2((e32 - 1) as nat) >= 1,
                    pow2(24) >= 1,
            ;
            assert(n >= 1) by (nonlinear_arith)
                requires
                    n == m * pow2((e32 - 1) as nat),
                    m >= 1,
                    pow2((e32 - 1) as nat) >= 1,
            ;
        }
        let out = crate::rounding::round_finite(s32, m, k, false, Ghost(n), Ghost(pow2(125) as int));
        Self::from_bits(out)
    }

    /// Conversion to the binary32 pattern with the same value; binary32 is
    /// strictly wider, so no rounding is involved.
    pub fn to_f32_bits(v: Self) -> (r: u32)
        ensures
            r == to_f32_spec(v.bits()),
    {
        proof {
            use_type_invariant(&v);
            lemma_split_bits(v.0);
            vstd::arithmetic::power2::lemma2_to64();
        }
        let (sign, exponent, significand) = (
            Self::sign(v),
            Self::exponent(v),
            Self::significand(v),
        );
        let s32 = sign as u32;
        if exponent == 0x1f && significand != 0 {
            return 0x7fc0_0000;
        }
        if exponent == 0x1f {
            return s32 * 0x8000_0000 + 0x7f80_0000;
        }
        if exponent >= 1 {
            return s32 * 0x8000_0000 + (exponent as u32 + 112) * 0x80_0000 + (significand as u32)
                * 0x2000;
        }
        if significand == 0 {
            return s32 * 0x8000_0000;
        }
        // subnormal: place the leading significand bit at the implicit
        // position of a binary32 normal
        let l = 15 - Self::clz(significand);
        proof {
            crate::model::lemma_lg_bounds(significand as nat);
            assert(l <= 9) by {
                if crate::model::lg(significand as nat) > 9 {
                    lemma_pow2_strictly_increases(10, crate::model::lg(significand as nat));
                    assert(significand >= pow2(10));
                }
            }
            assert(1 * pow2(l as nat) == pow2(l as nat)) by (nonlinear_arith);
        }
        let pl = crate::rounding::shl64(1, l);
        let fr: u64 = significand as u64 - pl;
        proof {
            assert(fr < pow2(l as nat));
            lemma_pow2_mul(l as nat, (23 - l) as nat);
            assert(fr * pow2((23 - l) as nat) < pow2(23)) by (nonlinear_arith)
                requires
                    fr < pow2(l as nat),
                    pow2(l as nat) * pow2((23 - l) as nat) == pow2(23),
                    pow2((23 - l) as nat) >= 1,
            ;
            vstd::arithmetic::power2::lemma_pow2_pos((23 - l) as nat);
            lemma_pow2_strictly_increases(23, 64);
        }
        let sh = crate::rounding::shl64(fr, 23 - l);
        s32 * 0x8000_0000 + (l as u32 + 103) * 0x80_0000 + (sh as u32)
    }

    /// Conversion to a 32-bit signed integer, rounded to nearest with ties
    /// to even; NaN and the infinities give the smallest integer.
    #[verifier::rlimit(60)]
    pub fn to_i32(v: Self) -> (r: i32)
        ensures
            r as int == to_i32_spec(v.bits()),
    {
        proof {
            use_type_invariant(&v);
            lemma_split_bits(v.0);
            vstd::arithmetic::power2::lemma2_to64();
        }
        let (sign, exponent, significand) = (
            Self::sign(v),
            Self::exponent(v),
            Self::significand(v),
        );
        if exponent == 0x1f {
            // NaN and the infinities: the largest-magnitude negative integer
            return -0x8000_0000;
        }
        let ghost mg = mag24(v.0);
        let q: u16;
        if exponent < 14 {
            // the magnitude is below one half
            proof {
                if exponent >= 1 {
                    if exponent - 1 < 12 {
                        lemma_pow2_strictly_increases((exponent - 1) as nat, 12);
                    }
                    assert(mg < 0x800000) by (nonlinear_arith)
                        requires
                            mg == (0x400 + frac_of(v.0)) * pow2((exponent - 1) as nat),
                            frac_of(v.0) < 0x400,
                            pow2((exponent - 1) as nat) <= pow2(12),
                            pow2(12) == 0x1000,
                    ;
                }
                vstd::arithmetic::div_mod::lemma_basic_div(mg, pow2(24) as int);
                vstd::arithmetic::div_mod::lemma_small_mod(mg as nat, pow2(24));
            }
            q = 0;
        } else if exponent >= 25 {
            // the value is already integral
            let sig = significand + 0x400;
            proof {
                assert(sig * pow2(0) == sig) by (nonlinear_arith)
                    requires
                        pow2(0) == 1,
                ;
            }
            let mut w: u16 = sig;
            let mut i: u16 = 25;
            while i < exponent
                invariant
                    25 <= i <= exponent <= 30,
                    w == sig * pow2((i - 25) as nat),
                    sig <= 0x7ff,
                decreases exponent - i,
            {
                proof {
                    vstd::arithmetic::power2::lemma2_to64();
                    lemma_pow2_mul((i - 25) as nat, 1);
                    assert(pow2((i - 24) as nat) <= pow2(5)) by {
                        if i - 24 < 5 {
                            lemma_pow2_strictly_increases((i - 24) as nat, 5);
                        }
                    }
                    assert(w * 2 == sig * pow2((i - 24) as nat) && w * 2 <= 0x7ff * 32)
                        by (nonlinear_arith)
                        requires
                            w == sig * pow2((i - 25) as nat),
                            pow2((i - 25) as nat) * pow2(1) == pow2((i - 24) as nat),
                            pow2(1) == 2,
                            pow2((i - 24) as nat) <= pow2(5),
                            pow2(5) == 32,
                            sig <= 0x7ff,
                    ;
                }
                w = w * 2;
                i = i + 1;
            }
            proof {
                lemma_pow2_mul((exponent - 25) as nat, 24);
                assert(mg == w * pow2(24)) by (nonlinear_arith)
                    requires
                        mg == sig * pow2((exponent - 1) as nat),
                        w == sig * pow2((exponent - 25) as nat),
                        pow2((exponent - 25) as nat) * pow2(24) == pow2((exponent - 1) as nat),
                ;
                vstd::arithmetic::power2::lemma_pow2_pos((exponent - 25) as nat);
                assert(w >= 1) by (nonlinear_arith)
                    requires
                        w == sig * pow2((exponent - 25) as nat),
                        sig >= 0x400,
                        pow2((exponent - 25) as nat) >= 1,
                ;
                vstd::arithmetic::div_mod::lemma_fundamental_div_mod_converse(
                    mg,
                    pow2(24) as int,
                    w as int,
                    0,
                );
            }
            q = w;
        } else {
            // 2^shift significand steps per unit
            let shift = 25 - exponent;
            let sig = significand + 0x400;
            let mut p: u16 = 1;
            let mut i: u16 = 0;
            while i < shift
                invariant
                    p == pow2(i as nat),
                    i <= shift <= 11,
                decreases shift - i,
            {
                proof {
                    vstd::arithmetic::power2::lemma2_to64();
                    if (i as nat) < 10 {
                        lemma_pow2_strictly_increases(i as nat, 10);
                    }
                    lemma_pow2_mul(i as nat, 1);
                }
                p = p * 2;
                i = i + 1;
            }
            let integer = sig / p;
            let fraction = sig % p;
            let half = p / 2;
            let up: u16 = if fraction > half || (fraction == half && integer % 2 == 1) {
                1
            } else {
                0
            };
            proof {
                lemma_pow2_mul((exponent - 1) as nat, shift as nat);
                assert(mg * p == sig * pow2(24)) by (nonlinear_arith)
                    requires
                        mg == sig * pow2((exponent - 1) as nat),
                        p == pow2(shift as nat),
                        pow2((exponent - 1) as nat) * pow2(shift as nat) == pow2(24),
                ;
                vstd::arithmetic::power2::lemma_pow2_pos(24);
                crate::rounding::lemma_scale_equiv(mg, pow2(24) as int, sig as int, p as int);
                assert(p == 2 * half) by {
                    vstd::arithmetic::power2::lemma_pow2_unfold(shift as nat);
                }
                assert(rdiv_even(mg, pow2(24) as int) == integer + up);
            }
            q = integer + up;
        }
        if sign == 1 {
            -(q as i32)
        } else {
            q as i32
        }
    }
}

} // verus!
