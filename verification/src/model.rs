//! Mathematical model of the binary16 encoding.
//!
//! A finite binary16 value is a multiple of 2^-24 (the smallest subnormal),
//! so every finite value is modelled exactly as a signed integer counting
//! multiples of 2^-24.  All contracts of the arithmetic operations are stated
//! over this model.

use vstd::arithmetic::power2::{
    lemma_pow2_adds, lemma_pow2_pos, lemma_pow2_strictly_increases, lemma_pow2_unfold, pow2,
};
use vstd::prelude::*;

verus! {

/// Bit pattern of the canonical quiet NaN.
pub const NAN_BITS: u16 = 0x7e00;

/// Bit pattern of positive infinity.
pub const POS_INF_BITS: u16 = 0x7c00;

/// Bit pattern of negative infinity.
pub const NEG_INF_BITS: u16 = 0xfc00;

/// Bit pattern of positive zero.
pub const POS_ZERO_BITS: u16 = 0x0000;

/// Bit pattern of negative zero.
pub const NEG_ZERO_BITS: u16 = 0x8000;

/// Sign field of a binary16 bit pattern: 0 or 1.
pub open spec fn sign_of(b: u16) -> u16 {
    b / 0x8000
}

/// Biased exponent field of a binary16 bit pattern, in [0, 31].
pub open spec fn exp_of(b: u16) -> u16 {
    (b / 0x400) % 0x20
}

/// Stored significand field of a binary16 bit pattern, in [0, 1023].
pub open spec fn frac_of(b: u16) -> u16 {
    b % 0x400
}

/// The pattern encodes a NaN (any payload).
pub open spec fn is_nan(b: u16) -> bool {
    exp_of(b) == 31 && frac_of(b) != 0
}

/// The pattern encodes a signed infinity.
pub open spec fn is_inf(b: u16) -> bool {
    exp_of(b) == 31 && frac_of(b) == 0
}

/// The pattern encodes a signed zero.
pub open spec fn is_zero(b: u16) -> bool {
    exp_of(b) == 0 && frac_of(b) == 0
}

/// The pattern encodes a finite value (zero, subnormal or normal).
pub open spec fn is_finite(b: u16) -> bool {
    exp_of(b) != 31
}

/// Every NaN is stored as the canonical quiet NaN.
pub open spec fn canonical(b: u16) -> bool {
    is_nan(b) ==> b == NAN_BITS
}

/// Magnitude encoded by an exponent and a significand field, in units of
/// 2^-24: a subnormal is worth its significand, a normal carries the
/// implicit leading one.
pub open spec fn field_mag(e: u16, f: u16) -> int {
    if e == 0 {
        f as int
    } else {
        (0x400 + f) * pow2((e - 1) as nat)
    }
}

/// Magnitude of a finite value, in units of 2^-24.
pub open spec fn mag24(b: u16) -> int {
    field_mag(exp_of(b), frac_of(b))
}

/// Signed value of a finite pattern, in units of 2^-24.
pub open spec fn sval(b: u16) -> int {
    if sign_of(b) == 1 {
        -mag24(b)
    } else {
        mag24(b)
    }
}

/// `sf * 2^(e - 1)` equals the magnitude `mag`, with the exponent allowed
/// to run below one for normalized subnormals.
pub open spec fn decomp(mag: int, sf: int, e: int) -> bool {
    if e >= 1 {
        mag == sf * pow2((e - 1) as nat)
    } else {
        mag * pow2((1 - e) as nat) == sf
    }
}

/// A power-of-two identity with a common factor yields a decomposition.
pub proof fn lemma_pow_ident_decomp(x: int, y: int, aa: nat, bb: nat, u: int)
    requires
        x * pow2(aa) == y * pow2(bb),
        bb - aa == u - 1,
    ensures
        decomp(x, y, u),
{
    lemma_pow2_pos(aa);
    lemma_pow2_pos(bb);
    if u >= 1 {
        lemma_pow2_mul(aa, (u - 1) as nat);
        assert(x == y * pow2((u - 1) as nat)) by (nonlinear_arith)
            requires
                x * pow2(aa) == y * pow2(bb),
                pow2(aa) * pow2((u - 1) as nat) == pow2(bb),
                pow2(aa) >= 1,
    ;
    } else {
        lemma_pow2_mul(bb, (1 - u) as nat);
        assert(x * pow2((1 - u) as nat) == y) by (nonlinear_arith)
            requires
                x * pow2(aa) == y * pow2(bb),
                pow2(bb) * pow2((1 - u) as nat) == pow2(aa),
                pow2(bb) >= 1,
    ;
    }
}

/// Decompositions at a common exponent add and subtract componentwise.
pub proof fn lemma_decomp_linear(x1: int, y1: int, x2: int, y2: int, u: int)
    requires
        decomp(x1, y1, u),
        decomp(x2, y2, u),
    ensures
        decomp(x1 + x2, y1 + y2, u),
        decomp(x1 - x2, y1 - y2, u),
{
    if u >= 1 {
        assert((x1 + x2 == (y1 + y2) * pow2((u - 1) as nat)) && (x1 - x2 == (y1 - y2) * pow2(
            (u - 1) as nat,
        ))) by (nonlinear_arith)
            requires
                x1 == y1 * pow2((u - 1) as nat),
                x2 == y2 * pow2((u - 1) as nat),
        ;
    } else {
        assert(((x1 + x2) * pow2((1 - u) as nat) == y1 + y2) && ((x1 - x2) * pow2((1 - u) as nat)
            == y1 - y2)) by (nonlinear_arith)
            requires
                x1 * pow2((1 - u) as nat) == y1,
                x2 * pow2((1 - u) as nat) == y2,
        ;
    }
}

/// Decompositions at a common exponent preserve order and equality.
pub proof fn lemma_decomp_cmp(x1: int, y1: int, x2: int, y2: int, u: int)
    requires
        decomp(x1, y1, u),
        decomp(x2, y2, u),
    ensures
        x1 < x2 <==> y1 < y2,
        x1 == x2 <==> y1 == y2,
{
    lemma_pow2_pos((u - 1) as nat);
    lemma_pow2_pos((1 - u) as nat);
    if u >= 1 {
        assert((x1 < x2 <==> y1 < y2) && (x1 == x2 <==> y1 == y2)) by (nonlinear_arith)
            requires
                x1 == y1 * pow2((u - 1) as nat),
                x2 == y2 * pow2((u - 1) as nat),
                pow2((u - 1) as nat) >= 1,
        ;
    } else {
        assert((x1 < x2 <==> y1 < y2) && (x1 == x2 <==> y1 == y2)) by (nonlinear_arith)
            requires
                x1 * pow2((1 - u) as nat) == y1,
                x2 * pow2((1 - u) as nat) == y2,
                pow2((1 - u) as nat) >= 1,
        ;
    }
}

/// Scaling the small side of a decomposition lowers the exponent.
pub proof fn lemma_decomp_shift(x: int, y: int, u: int, j: nat)
    requires
        decomp(x, y, u),
    ensures
        decomp(x, y * pow2(j), u - j),
{
    lemma_pow2_pos(j);
    if u >= 1 {
        if u - j >= 1 {
            lemma_pow2_mul((u - 1 - j) as nat, j);
            assert(x == (y * pow2(j)) * pow2((u - j - 1) as nat)) by (nonlinear_arith)
                requires
                    x == y * pow2((u - 1) as nat),
                    pow2((u - 1 - j) as nat) * pow2(j) == pow2((u - 1) as nat),
            ;
        } else {
            lemma_pow2_mul((u - 1) as nat, (1 - (u - j)) as nat);
            assert(x * pow2((1 - (u - j)) as nat) == y * pow2(j)) by (nonlinear_arith)
                requires
                    x == y * pow2((u - 1) as nat),
                    pow2((u - 1) as nat) * pow2((1 - (u - j)) as nat) == pow2(j),
            ;
        }
    } else {
        lemma_pow2_mul((1 - u) as nat, j);
        assert(x * pow2((1 - (u - j)) as nat) == y * pow2(j)) by (nonlinear_arith)
            requires
                x * pow2((1 - u) as nat) == y,
                pow2((1 - u) as nat) * pow2(j) == pow2((1 - (u - j)) as nat),
        ;
    }
}

/// A bound on the significand side of a decomposition bounds the
/// magnitude side.
pub proof fn lemma_decomp_bound(x: int, y: int, u: int, c: nat)
    requires
        decomp(x, y, u),
        0 <= y < pow2(c),
        0 <= x,
        c + u - 1 >= 0,
    ensures
        x < pow2((c + u - 1) as nat),
{
    lemma_pow2_pos(c);
    if u >= 1 {
        lemma_pow2_mul(c, (u - 1) as nat);
        assert(x < pow2((c + u - 1) as nat)) by (nonlinear_arith)
            requires
                x == y * pow2((u - 1) as nat),
                y < pow2(c),
                pow2(c) * pow2((u - 1) as nat) == pow2((c + u - 1) as nat),
                pow2((u - 1) as nat) >= 1,
        ;
    } else {
        lemma_pow2_mul((c + u - 1) as nat, (1 - u) as nat);
        assert(x < pow2((c + u - 1) as nat)) by (nonlinear_arith)
            requires
                x * pow2((1 - u) as nat) == y,
                y < pow2(c),
                pow2((c + u - 1) as nat) * pow2((1 - u) as nat) == pow2(c),
                pow2((1 - u) as nat) >= 1,
        ;
    }
}

/// Power of two carried on the magnitude side of a decomposition.
pub open spec fn d_a(e: int) -> nat {
    if e >= 1 {
        0
    } else {
        (1 - e) as nat
    }
}

/// Power of two carried on the significand side of a decomposition.
pub open spec fn d_b(e: int) -> nat {
    if e >= 1 {
        (e - 1) as nat
    } else {
        0
    }
}

/// A decomposition as a single power-of-two identity.
pub proof fn lemma_decomp_pow(mag: int, s: int, e: int)
    requires
        decomp(mag, s, e),
    ensures
        mag * pow2(d_a(e)) == s * pow2(d_b(e)),
        d_b(e) - d_a(e) == e - 1,
{
    assert(pow2(0) == 1) by {
        vstd::arithmetic::power2::lemma2_to64();
    }
    assert(mag * pow2(d_a(e)) == s * pow2(d_b(e))) by (nonlinear_arith)
        requires
            pow2(0) == 1,
            e >= 1 ==> (d_a(e) == 0 && d_b(e) == e - 1 && mag == s * pow2(d_b(e))),
            e < 1 ==> (d_b(e) == 0 && d_a(e) == 1 - e && mag * pow2(d_a(e)) == s),
    ;
}

/// Floor of the base-2 logarithm; 0 for inputs below 2.
pub open spec fn lg(n: nat) -> nat
    decreases n,
{
    if n < 2 {
        0
    } else {
        1 + lg(n / 2)
    }
}

/// `lg` is exactly characterized by the enclosing pair of powers of two.
pub proof fn lemma_lg_bounds(n: nat)
    requires
        n >= 1,
    ensures
        pow2(lg(n)) <= n < pow2(lg(n) + 1),
    decreases n,
{
    if n < 2 {
        lemma_pow2_unfold(1);
        assert(pow2(0) == 1) by {
            vstd::arithmetic::power2::lemma2_to64();
        }
    } else {
        lemma_lg_bounds(n / 2);
        lemma_pow2_unfold(lg(n));
        lemma_pow2_unfold(lg(n) + 1);
    }
}

/// Conversely, the enclosing pair of powers of two determines `lg`.
pub proof fn lemma_lg_from_bounds(n: nat, e: nat)
    requires
        pow2(e) <= n < pow2(e + 1),
    ensures
        lg(n) == e,
    decreases e,
{
    lemma_pow2_pos(e);
    if e == 0 {
        lemma_pow2_unfold(1);
        assert(pow2(0) == 1) by {
            vstd::arithmetic::power2::lemma2_to64();
        }
    } else {
        lemma_pow2_unfold(e);
        lemma_pow2_unfold(e + 1);
        lemma_lg_from_bounds(n / 2, (e - 1) as nat);
    }
}

/// `pow2` values of consecutive exponents multiply up correctly; convenience
/// wrapper used all over the arithmetic proofs.
pub proof fn lemma_pow2_mul(a: nat, b: nat)
    ensures
        pow2(a) * pow2(b) == pow2(a + b),
        pow2(a) >= 1,
        pow2(b) >= 1,
{
    lemma_pow2_adds(a, b);
    lemma_pow2_pos(a);
    lemma_pow2_pos(b);
}

/// Magnitude of a non-NaN pattern on an extended scale: infinities sit at
/// 2^50, beyond every finite magnitude.
pub open spec fn xmag(b: u16) -> int {
    if is_inf(b) {
        pow2(50) as int
    } else {
        mag24(b)
    }
}

/// Signed extended value of a non-NaN pattern; both zeros map to 0.
pub open spec fn xval(b: u16) -> int {
    if sign_of(b) == 1 {
        -xmag(b)
    } else {
        xmag(b)
    }
}

/// Comparing non-NaN patterns by their sign-stripped bits is comparing
/// their extended magnitudes.
pub proof fn lemma_xmag_order(a: u16, b: u16)
    requires
        !is_nan(a),
        !is_nan(b),
    ensures
        (exp_of(a) * 0x400 + frac_of(a) < exp_of(b) * 0x400 + frac_of(b)) <==> xmag(a) < xmag(b),
        (exp_of(a) * 0x400 + frac_of(a) == exp_of(b) * 0x400 + frac_of(b)) <==> xmag(a) == xmag(b),
        xmag(a) >= 0,
        xmag(a) == 0 <==> is_zero(a),
{
    lemma_xmag_zero(a);
    lemma_xmag_zero(b);
    let pa = exp_of(a) * 0x400 + frac_of(a);
    let pb = exp_of(b) * 0x400 + frac_of(b);
    if pa < pb {
        lemma_xmag_strict(a, b);
    }
    if pb < pa {
        lemma_xmag_strict(b, a);
    }
    if pa == pb {
        assert(exp_of(a) == exp_of(b) && frac_of(a) == frac_of(b)) by (nonlinear_arith)
            requires
                exp_of(a) * 0x400 + frac_of(a) == exp_of(b) * 0x400 + frac_of(b),
                frac_of(a) < 0x400,
                frac_of(b) < 0x400,
        ;
        assert(xmag(a) == xmag(b));
    }
}

/// A non-NaN pattern has extended magnitude zero exactly when it is a zero,
/// and the magnitude is never negative.
pub proof fn lemma_xmag_zero(a: u16)
    requires
        !is_nan(a),
    ensures
        xmag(a) >= 0,
        xmag(a) == 0 <==> is_zero(a),
{
    if is_inf(a) {
        lemma_pow2_pos(50);
    } else {
        lemma_mag24_bounds(a);
    }
}

/// Strictly larger sign-stripped bits mean strictly larger extended
/// magnitude, for non-NaN patterns.
proof fn lemma_xmag_strict(a: u16, b: u16)
    requires
        !is_nan(a),
        !is_nan(b),
        exp_of(a) * 0x400 + frac_of(a) < exp_of(b) * 0x400 + frac_of(b),
    ensures
        xmag(a) < xmag(b),
{
    let ea = exp_of(a) as int;
    let fa = frac_of(a) as int;
    let eb = exp_of(b) as int;
    let fb = frac_of(b) as int;
    vstd::arithmetic::power2::lemma2_to64();
    if is_inf(b) {
        // a is below the infinity pattern, hence finite
        assert(ea < 31 || fa < 0) by (nonlinear_arith)
            requires
                ea * 0x400 + fa < 31 * 0x400,
                fa >= 0,
                ea <= 31,
        ;
        lemma_mag24_bounds(a);
        assert(2047 * pow2(29) < pow2(50)) by {
            lemma_pow2_mul(11, 29);
            lemma_pow2_strictly_increases(40, 50);
            assert(2047 * pow2(29) < pow2(11) * pow2(29)) by (nonlinear_arith)
                requires
                    pow2(29) >= 1,
                    pow2(11) == 0x800,
            ;
        }
    } else {
        // b finite forces a finite: a larger exponent would outweigh the bits
        assert(ea <= 30 && eb <= 30 && ea <= eb) by (nonlinear_arith)
            requires
                ea * 0x400 + fa < eb * 0x400 + fb,
                0 <= fa < 0x400,
                0 <= fb < 0x400,
                0 <= ea <= 31,
                0 <= eb <= 31,
                eb == 31 ==> fb != 0,
                ea == 31 ==> fa != 0,
                eb < 31,
        ;
        if ea == eb {
            assert(fa < fb) by (nonlinear_arith)
                requires
                    ea * 0x400 + fa < eb * 0x400 + fb,
                    ea == eb,
            ;
            if ea == 0 {
            } else {
                lemma_pow2_pos((ea - 1) as nat);
                assert((0x400 + fa) * pow2((ea - 1) as nat) < (0x400 + fb) * pow2(
                    (ea - 1) as nat,
                )) by (nonlinear_arith)
                    requires
                        fa < fb,
                        pow2((ea - 1) as nat) >= 1,
                ;
            }
        } else {
            // mag(a) < 2^(ea + 10) <= 2^(eb + 9) <= mag(b)
            lemma_pow2_pos((ea - 1) as nat);
            lemma_pow2_pos((eb - 1) as nat);
            lemma_pow2_mul(11, (ea - 1) as nat);
            lemma_pow2_mul(10, (eb - 1) as nat);
            assert(eb >= 1);
            let ca: int = if ea == 0 {
                10
            } else {
                10 + ea
            };
            if ea == 0 {
                assert(mag24(a) < pow2(ca as nat));
            } else {
                assert(mag24(a) < pow2(ca as nat)) by (nonlinear_arith)
                    requires
                        0 <= fa < 0x400,
                        pow2(11) * pow2((ea - 1) as nat) == pow2(ca as nat),
                        mag24(a) == (0x400 + fa) * pow2((ea - 1) as nat),
                        pow2(11) == 2 * 0x400,
                        pow2((ea - 1) as nat) >= 1,
                ;
            }
            assert(mag24(b) >= pow2((9 + eb) as nat)) by (nonlinear_arith)
                requires
                    fb >= 0,
                    eb >= 1,
                    pow2(10) * pow2((eb - 1) as nat) == pow2((9 + eb) as nat),
                    pow2(10) == 0x400,
                    mag24(b) == (0x400 + fb) * pow2((eb - 1) as nat),
                    pow2((eb - 1) as nat) >= 1,
            ;
            assert(pow2(ca as nat) <= pow2((9 + eb) as nat)) by {
                if ca < 9 + eb {
                    lemma_pow2_strictly_increases(ca as nat, (9 + eb) as nat);
                }
            }
        }
    }
}

/// A bit pattern is the weighted sum of its three fields.
pub proof fn lemma_split_bits(b: u16)
    ensures
        b == sign_of(b) * 0x8000 + exp_of(b) * 0x400 + frac_of(b),
        sign_of(b) <= 1,
        exp_of(b) <= 31,
        frac_of(b) <= 1023,
{
    assert(b == (b / 0x8000) * 0x8000 + ((b / 0x400) % 0x20) * 0x400 + b % 0x400 && b / 0x8000 <= 1
        && (b / 0x400) % 0x20 <= 31 && b % 0x400 <= 1023) by (bit_vector);
}

/// Field extraction inverts field packing.
pub proof fn lemma_pack_fields(s: u16, e: u16, f: u16)
    requires
        s <= 1,
        e <= 31,
        f <= 1023,
    ensures
        sign_of((s * 0x8000 + e * 0x400 + f) as u16) == s,
        exp_of((s * 0x8000 + e * 0x400 + f) as u16) == e,
        frac_of((s * 0x8000 + e * 0x400 + f) as u16) == f,
{
    let b: u16 = (s * 0x8000 + e * 0x400 + f) as u16;
    assert(b / 0x8000 == s && (b / 0x400) % 0x20 == e && b % 0x400 == f) by (bit_vector)
        requires
            s <= 1,
            e <= 31,
            f <= 1023,
            b == s * 0x8000 + e * 0x400 + f,
    ;
}

/// The magnitude of a finite pattern is bounded by the largest finite
/// magnitude, 65504 * 2^24 = 2047 * 2^29.
pub proof fn lemma_mag24_bounds(b: u16)
    requires
        is_finite(b),
    ensures
        0 <= mag24(b) <= 2047 * pow2(29),
        is_zero(b) <==> mag24(b) == 0,
{
    if exp_of(b) == 0 {
        lemma_pow2_pos(29);
    } else {
        let e = (exp_of(b) - 1) as nat;
        lemma_pow2_pos(e);
        if e < 29 {
            lemma_pow2_strictly_increases(e, 29);
        }
        assert((0x400 + frac_of(b)) * pow2(e) <= 2047 * pow2(29)) by (nonlinear_arith)
            requires
                0x400 + frac_of(b) <= 2047,
                0 < pow2(e) <= pow2(29),
        ;
        assert((0x400 + frac_of(b)) * pow2(e) > 0) by (nonlinear_arith)
            requires
                0x400 + frac_of(b) > 0,
                pow2(e) > 0,
        ;
    }
}

} // verus!
