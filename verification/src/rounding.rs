//! Round-to-nearest-ties-to-even, specified over exact rationals.
//!
//! The result of every arithmetic operation is an exact rational `n / d`
//! (in units of 2^-24).  `round_pos` says which magnitude bit pattern that
//! rational rounds to; `round_finite` computes it from a truncated binary
//! approximation and is proved to agree with `round_pos`.

use crate::model::{lemma_lg_bounds, lemma_lg_from_bounds, lemma_pow2_mul, lg, POS_INF_BITS};
use vstd::arithmetic::div_mod::{
    lemma_div_denominator, lemma_div_is_ordered, lemma_div_multiples_vanish,
    lemma_fundamental_div_mod, lemma_fundamental_div_mod_converse,
};
use vstd::arithmetic::power2::{lemma_pow2_pos, lemma_pow2_strictly_increases, pow2};
use vstd::prelude::*;

verus! {

/// Integer division of `n` by `d`, rounded to nearest with ties to even.
pub open spec fn rdiv_even(n: int, d: int) -> int {
    let q = n / d;
    let r = n % d;
    if 2 * r > d || (2 * r == d && q % 2 == 1) {
        q + 1
    } else {
        q
    }
}

/// Exponent of the rounding quantum for the magnitude `n / d` (in units of
/// 2^-24): quantum 1 below the first normal binade, then doubling per binade.
pub open spec fn ulp_e(n: int, d: int) -> nat {
    if n / d < 0x800 {
        0
    } else {
        (lg((n / d) as nat) - 10) as nat
    }
}

/// Bit pattern (sign excluded) of a representable magnitude `m`, in units of
/// 2^-24: subnormals verbatim, normals with the implicit bit removed.
/// `m == pow2(40)` encodes as the infinity pattern.
pub open spec fn enc_mag(m: int) -> u16 {
    if m < 0x400 {
        m as u16
    } else {
        let e = (lg(m as nat) - 10) as nat;
        ((e + 1) * 0x400 + m / pow2(e) as int - 0x400) as u16
    }
}

/// Magnitude bit pattern that `n / d` rounds to (ties to even), with
/// overflow going to the infinity pattern.
pub open spec fn round_pos(n: int, d: int) -> u16 {
    let e = ulp_e(n, d);
    let q = rdiv_even(n, d * pow2(e) as int);
    let m = q * pow2(e) as int;
    if m >= pow2(40) {
        POS_INF_BITS
    } else {
        enc_mag(m)
    }
}

/// Full bit pattern that the signed rational `(-1)^neg * n / d` rounds to.
pub open spec fn round_signed(neg: bool, n: int, d: int) -> u16 {
    ((if neg {
        0x8000int
    } else {
        0int
    }) + round_pos(n, d)) as u16
}

/// Numerator of `n / d / 2^k` as a fraction of non-negative powers.
pub open spec fn scale_num(n: int, k: int) -> int {
    if k >= 0 {
        n
    } else {
        n * pow2((-k) as nat)
    }
}

/// Denominator of `n / d / 2^k` as a fraction of non-negative powers.
pub open spec fn scale_den(d: int, k: int) -> int {
    if k >= 0 {
        d * pow2(k as nat)
    } else {
        d
    }
}

/// `m` is the truncation of `n / d / 2^k` and `st` records whether any
/// non-zero part was cut off.
pub open spec fn faithful(m: int, st: bool, k: int, n: int, d: int) -> bool {
    m == scale_num(n, k) / scale_den(d, k) && (st <==> scale_num(n, k) % scale_den(d, k) != 0)
}

/// Quotient, exactness and the two half-way comparisons are invariant under
/// rescaling a fraction.
pub proof fn lemma_scale_equiv(n1: int, d1: int, n2: int, d2: int)
    requires
        n1 >= 0,
        d1 >= 1,
        d2 >= 1,
        n1 * d2 == n2 * d1,
    ensures
        n1 / d1 == n2 / d2,
        n1 % d1 == 0 <==> n2 % d2 == 0,
        2 * (n1 % d1) > d1 <==> 2 * (n2 % d2) > d2,
        2 * (n1 % d1) == d1 <==> 2 * (n2 % d2) == d2,
{
    let q = n1 / d1;
    let r = n1 % d1;
    lemma_fundamental_div_mod(n1, d1);
    let r2 = n2 - q * d2;
    assert(r2 * d1 == r * d2) by (nonlinear_arith)
        requires
            n1 == q * d1 + r,
            n1 * d2 == n2 * d1,
            r2 == n2 - q * d2,
            d1 >= 1,
    ;
    assert(0 <= r2 < d2) by (nonlinear_arith)
        requires
            r2 * d1 == r * d2,
            0 <= r < d1,
            d1 >= 1,
            d2 >= 1,
    ;
    lemma_fundamental_div_mod_converse(n2, d2, q, r2);
    assert(r % d1 == 0 ==> r == 0) by {
        if r != 0 {
            assert(r % d1 == r) by {
                vstd::arithmetic::div_mod::lemma_small_mod(r as nat, d1 as nat);
            }
        }
    }
    assert(r == 0 <==> r2 == 0) by (nonlinear_arith)
        requires
            r2 * d1 == r * d2,
            0 <= r,
            0 <= r2,
            d1 >= 1,
            d2 >= 1,
    ;
    assert(2 * r > d1 <==> 2 * r2 > d2) by (nonlinear_arith)
        requires
            r2 * d1 == r * d2,
            d1 >= 1,
            d2 >= 1,
    ;
    assert(2 * r == d1 <==> 2 * r2 == d2) by (nonlinear_arith)
        requires
            r2 * d1 == r * d2,
            0 <= r,
            0 <= r2,
            d1 >= 1,
            d2 >= 1,
    ;
}

/// Halving the scale: quotient halves (with floor), the cut-off part is
/// non-zero exactly when it already was or the old quotient was odd.
pub proof fn lemma_split_parity(x: int, dd: int)
    requires
        x >= 0,
        dd >= 1,
    ensures
        x / (2 * dd) == (x / dd) / 2,
        x % (2 * dd) != 0 <==> (x % dd != 0 || (x / dd) % 2 == 1),
{
    lemma_div_denominator(x, dd, 2);
    let q = x / dd;
    let r = x % dd;
    lemma_fundamental_div_mod(x, dd);
    let b = q % 2;
    let q2 = q / 2;
    lemma_fundamental_div_mod(q, 2);
    assert(x == q2 * (2 * dd) + (b * dd + r)) by (nonlinear_arith)
        requires
            x == q * dd + r,
            q == q2 * 2 + b,
    ;
    assert(0 <= b * dd + r < 2 * dd) by (nonlinear_arith)
        requires
            0 <= r < dd,
            0 <= b <= 1,
            dd >= 1,
    ;
    lemma_fundamental_div_mod_converse(x, 2 * dd, q2, b * dd + r);
    assert(b * dd + r == 0 <==> (b == 0 && r == 0)) by (nonlinear_arith)
        requires
            0 <= r < dd,
            0 <= b <= 1,
            dd >= 1,
    ;
}

/// A right shift preserves faithfulness one scale up.
pub proof fn lemma_shift_right_faithful(m: int, st: bool, k: int, n: int, d: int)
    requires
        n >= 0,
        d >= 1,
        faithful(m, st, k, n, d),
    ensures
        faithful(m / 2, st || m % 2 == 1, k + 1, n, d),
{
    let nn = scale_num(n, k);
    let dd = scale_den(d, k);
    lemma_pow2_pos(k as nat);
    lemma_pow2_pos((-k) as nat);
    vstd::arithmetic::power2::lemma2_to64();
    assert(dd >= 1) by (nonlinear_arith)
        requires
            d >= 1,
            pow2(k as nat) >= 1,
            k >= 0 ==> dd == d * pow2(k as nat),
            k < 0 ==> dd == d,
    ;
    assert(nn >= 0) by (nonlinear_arith)
        requires
            n >= 0,
            pow2((-k) as nat) >= 1,
            k >= 0 ==> nn == n,
            k < 0 ==> nn == n * pow2((-k) as nat),
    ;
    if k >= 0 {
        // numerator fixed, denominator doubles
        let dd2 = scale_den(d, k + 1);
        assert(dd2 == 2 * dd) by {
            lemma_pow2_mul(k as nat, 1);
            assert(pow2(1) == 2) by {
                vstd::arithmetic::power2::lemma2_to64();
            }
            assert(d * pow2((k + 1) as nat) == 2 * (d * pow2(k as nat))) by (nonlinear_arith)
                requires
                    pow2((k + 1) as nat) == pow2(k as nat) * 2,
            ;
        }
        lemma_split_parity(nn, dd);
        assert(scale_num(n, k + 1) == nn);
        assert(m / 2 == nn / (2 * dd));
        assert((st || m % 2 == 1) <==> nn % (2 * dd) != 0);
    } else {
        // numerator carries one power of two less
        let nn2 = scale_num(n, k + 1);
        assert(nn == 2 * nn2) by {
            lemma_pow2_mul((-(k + 1)) as nat, 1);
            assert(pow2(1) == 2 && pow2(0) == 1) by {
                vstd::arithmetic::power2::lemma2_to64();
            }
            assert(n * pow2((-k) as nat) == 2 * (if k + 1 >= 0 {
                n
            } else {
                n * pow2((-(k + 1)) as nat)
            })) by (nonlinear_arith)
                requires
                    pow2((-k) as nat) == pow2((-(k + 1)) as nat) * 2,
                    k + 1 >= 0 ==> pow2((-(k + 1)) as nat) == 1,
                    k < 0,
                    pow2(0) == 1,
            ;
        }
        lemma_split_parity(nn, dd);
        // x / (2 dd) with x == 2 nn2: rescale to nn2 / dd
        assert(nn * dd == nn2 * (2 * dd)) by (nonlinear_arith)
            requires
                nn == 2 * nn2,
        ;
        lemma_scale_equiv(nn, 2 * dd, nn2, dd);
        assert(k + 1 < 0 ==> scale_den(d, k + 1) == d);
        if k + 1 >= 0 {
            assert(scale_den(d, k + 1) == d * pow2((k + 1) as nat));
            assert((k + 1) as nat == 0);
            assert(pow2(0) == 1);
            assert(d * pow2(0) == d);
        }
        assert(scale_den(d, k + 1) == dd);
        assert(m / 2 == nn2 / dd);
        assert((st || m % 2 == 1) <==> nn2 % dd != 0);
    }
}

/// A left shift of an exact value stays exact one scale down.
pub proof fn lemma_shift_left_faithful(m: int, k: int, n: int, d: int)
    requires
        n >= 0,
        d >= 1,
        faithful(m, false, k, n, d),
    ensures
        faithful(2 * m, false, k - 1, n, d),
{
    let nn = scale_num(n, k);
    let dd = scale_den(d, k);
    lemma_pow2_pos(k as nat);
    lemma_pow2_pos((-k) as nat);
    vstd::arithmetic::power2::lemma2_to64();
    assert(dd >= 1) by (nonlinear_arith)
        requires
            d >= 1,
            pow2(k as nat) >= 1,
            k >= 0 ==> dd == d * pow2(k as nat),
            k < 0 ==> dd == d,
    ;
    lemma_fundamental_div_mod(nn, dd);
    assert(nn == m * dd);
    let nn2 = scale_num(n, k - 1);
    let dd2 = scale_den(d, k - 1);
    assert(pow2(1) == 2 && pow2(0) == 1) by {
        vstd::arithmetic::power2::lemma2_to64();
    }
    if k >= 1 {
        assert(dd == 2 * dd2) by {
            lemma_pow2_mul((k - 1) as nat, 1);
            assert(d * pow2(k as nat) == 2 * (d * pow2((k - 1) as nat))) by (nonlinear_arith)
                requires
                    pow2(k as nat) == pow2((k - 1) as nat) * 2,
            ;
        }
        assert(nn2 == nn);
        assert(nn2 == (2 * m) * dd2) by (nonlinear_arith)
            requires
                nn2 == nn,
                nn == m * dd,
                dd == 2 * dd2,
        ;
    } else {
        if k == 0 {
            assert(dd == d * pow2(0));
        }
        assert(dd == d);
        assert(dd2 == d);
        assert(nn2 == 2 * nn) by {
            lemma_pow2_mul((-k) as nat, 1);
            assert(n * pow2((1 - k) as nat) == 2 * (if k >= 0 {
                n
            } else {
                n * pow2((-k) as nat)
            })) by (nonlinear_arith)
                requires
                    pow2((1 - k) as nat) == pow2((-k) as nat) * 2,
                    k <= 0,
                    k >= 0 ==> pow2((-k) as nat) == 1,
            ;
        }
        assert(nn2 == (2 * m) * dd2) by (nonlinear_arith)
            requires
                nn2 == 2 * nn,
                nn == m * dd,
                dd2 == dd,
    ;
    }
    lemma_fundamental_div_mod_converse(nn2, dd2, 2 * m, 0);
}

/// An exact product relation establishes faithfulness with a clean sticky.
pub proof fn lemma_exact_faithful(m: int, k: int, n: int, d: int)
    requires
        n >= 0,
        d >= 1,
        m >= 0,
        k >= 0 ==> n == m * (d * pow2(k as nat)),
        k < 0 ==> n * pow2((-k) as nat) == m * d,
    ensures
        faithful(m, false, k, n, d),
{
    lemma_pow2_pos(k as nat);
    if k >= 0 {
        assert(d * pow2(k as nat) >= 1) by (nonlinear_arith)
            requires
                d >= 1,
                pow2(k as nat) >= 1,
        ;
        lemma_fundamental_div_mod_converse(n, d * pow2(k as nat), m, 0);
    } else {
        lemma_fundamental_div_mod_converse(n * pow2((-k) as nat), d, m, 0);
    }
}

/// Values of at least 2^40 (scaled) round to infinity.
pub proof fn lemma_round_pos_big(n: int, d: int)
    requires
        d >= 1,
        n >= pow2(40) * d,
    ensures
        round_pos(n, d) == POS_INF_BITS,
{
    lemma_pow2_pos(40);
    assert(n / d >= pow2(40)) by {
        vstd::arithmetic::div_mod::lemma_div_by_multiple(pow2(40) as int, d);
        lemma_div_is_ordered(pow2(40) * d, n, d);
    }
    assert(pow2(40) > 0x800) by {
        lemma_pow2_strictly_increases(11, 40);
        assert(pow2(11) == 0x800) by {
            vstd::arithmetic::power2::lemma2_to64();
        }
    }
    let v = n / d;
    let l = lg(v as nat);
    lemma_lg_bounds(v as nat);
    assert(l >= 40) by {
        if l < 40 {
            if l + 1 < 40 {
                lemma_pow2_strictly_increases(l + 1, 40);
            }
            assert(v < pow2(40));
        }
    }
    let e = ulp_e(n, d);
    assert(e == l - 10 && e >= 30);
    lemma_pow2_pos(e);
    // the truncated quotient at quantum 2^e is already at least 2^10
    let dq = d * pow2(e) as int;
    assert(dq >= 1) by (nonlinear_arith)
        requires
            dq == d * pow2(e),
            d >= 1,
            pow2(e) >= 1,
    ;
    // n / d >= 2^l pins n >= 2^l * d = 2^10 * dq
    lemma_fundamental_div_mod(n, d);
    assert(n >= pow2(l) * d) by (nonlinear_arith)
        requires
            n == d * (n / d) + n % d,
            n % d >= 0,
            n / d >= pow2(l),
            d >= 1,
    ;
    assert(n >= pow2(10) * dq) by {
        lemma_pow2_mul(10, e);
        assert(pow2(l) * d == pow2(10) * dq) by (nonlinear_arith)
            requires
                dq == d * pow2(e),
                pow2(10) * pow2(e) == pow2(10 + e),
                10 + e == l,
        ;
    }
    assert(n / dq >= pow2(10)) by {
        vstd::arithmetic::div_mod::lemma_div_by_multiple(pow2(10) as int, dq);
        lemma_div_is_ordered(pow2(10) * dq, n, dq);
        assert(pow2(10) * dq == dq * pow2(10)) by (nonlinear_arith);
    }
    let q = rdiv_even(n, dq);
    assert(q >= n / dq);
    assert(q * pow2(e) >= pow2(40)) by {
        lemma_pow2_mul(10, e);
        assert(q * pow2(e) >= pow2(10) * pow2(e)) by (nonlinear_arith)
            requires
                q >= pow2(10),
                pow2(e) >= 1,
        ;
        if 10 + e > 40 {
            lemma_pow2_strictly_increases(40, 10 + e);
        }
    }
}

/// Result of guard/round/sticky rounding on a 14-bit window `m` at scale
/// `2^k`, with sticky flag `st`: the low three bits of `m` and the sticky
/// decide the increment, the rest is packed with biased exponent `k + 4`.
pub open spec fn pack_spec(m: int, st: bool, k: int) -> int {
    let q = m / 8;
    let g = m % 8;
    let up: int = if g > 4 || (g == 4 && (st || q % 2 == 1)) {
        1
    } else {
        0
    };
    if m >= 0x2000 {
        (k + 4) * 0x400 + (q - 0x400) + up
    } else {
        q + up
    }
}

/// Guard/round/sticky rounding of a faithful 14-bit window agrees with
/// mathematical round-to-nearest-ties-to-even of the exact value.
pub proof fn lemma_pack_round(m: int, st: bool, k: int, n: int, d: int)
    requires
        n >= 1,
        d >= 1,
        0 <= m < 0x4000,
        -3 <= k <= 26,
        m < 0x2000 ==> k == -3,
        faithful(m, st, k, n, d),
    ensures
        round_pos(n, d) as int == pack_spec(m, st, k),
{
    let ue = (k + 3) as nat;
    let nn = scale_num(n, k);
    let dd = scale_den(d, k);
    vstd::arithmetic::power2::lemma2_to64();
    lemma_pow2_pos(k as nat);
    lemma_pow2_pos((-k) as nat);
    lemma_pow2_pos(ue);
    assert(dd >= 1) by (nonlinear_arith)
        requires
            d >= 1,
            pow2(k as nat) >= 1,
            k >= 0 ==> dd == d * pow2(k as nat),
            k < 0 ==> dd == d,
    ;
    assert(nn >= 1) by (nonlinear_arith)
        requires
            n >= 1,
            pow2((-k) as nat) >= 1,
            k >= 0 ==> nn == n,
            k < 0 ==> nn == n * pow2((-k) as nat),
    ;
    let dv = d * pow2(ue) as int;
    assert(dv >= 1) by (nonlinear_arith)
        requires
            d >= 1,
            pow2(ue) >= 1,
            dv == d * pow2(ue),
    ;
    // the spec fraction n / dv and the window fraction nn / (8 dd) are equal
    assert(n * (8 * dd) == nn * dv) by {
        if k >= 0 {
            lemma_pow2_mul(k as nat, 3);
            assert(n * (8 * (d * pow2(k as nat))) == n * (d * pow2((k + 3) as nat)))
                by (nonlinear_arith)
                requires
                    pow2(k as nat) * pow2(3) == pow2((k + 3) as nat),
                    pow2(3) == 8,
            ;
        } else {
            lemma_pow2_mul((-k) as nat, ue);
            assert((-k) as nat + ue == 3);
            assert(n * (8 * d) == (n * pow2((-k) as nat)) * (d * pow2(ue) as int))
                by (nonlinear_arith)
                requires
                    pow2((-k) as nat) * pow2(ue) == pow2(3),
                    pow2(3) == 8,
            ;
        }
    }
    lemma_scale_equiv(n, dv, nn, 8 * dd);
    // the truncated quotient of the window
    let qt = m / 8;
    let g = m % 8;
    let rr = nn % dd;
    assert(m == nn / dd && (st <==> rr != 0));
    assert(qt == nn / (8 * dd)) by {
        lemma_div_denominator(nn, dd, 8);
        assert(dd * 8 == 8 * dd);
    }
    lemma_fundamental_div_mod(nn, dd);
    lemma_fundamental_div_mod(m, 8);
    let r8 = g * dd + rr;
    assert(nn == (8 * dd) * qt + r8) by (nonlinear_arith)
        requires
            nn == dd * m + rr,
            m == 8 * qt + g,
            r8 == g * dd + rr,
    ;
    assert(0 <= r8 < 8 * dd) by (nonlinear_arith)
        requires
            0 <= rr < dd,
            0 <= g <= 7,
            r8 == g * dd + rr,
            dd >= 1,
    ;
    lemma_fundamental_div_mod_converse(nn, 8 * dd, qt, r8);
    assert(nn % (8 * dd) == r8);
    assert(2 * r8 > 8 * dd <==> (g > 4 || (g == 4 && rr != 0))) by (nonlinear_arith)
        requires
            0 <= rr < dd,
            0 <= g <= 7,
            r8 == g * dd + rr,
            dd >= 1,
    ;
    assert(2 * r8 == 8 * dd <==> (g == 4 && rr == 0)) by (nonlinear_arith)
        requires
            0 <= rr < dd,
            0 <= g <= 7,
            r8 == g * dd + rr,
            dd >= 1,
    ;
    // transfer to the spec fraction
    let rs = n % dv;
    assert(n / dv == qt);
    assert(2 * rs > dv <==> (g > 4 || (g == 4 && st)));
    assert(2 * rs == dv <==> (g == 4 && !st));
    let up: int = if g > 4 || (g == 4 && (st || qt % 2 == 1)) {
        1
    } else {
        0
    };
    // the window brackets the exact value: qt * dv <= n < (qt + 1) * dv
    lemma_fundamental_div_mod(n, dv);
    assert(qt * dv <= n < (qt + 1) * dv) by (nonlinear_arith)
        requires
            n == dv * qt + rs,
            0 <= rs < dv,
    ;
    // the quantum exponent chosen by the spec is ue
    assert(n / d < (qt + 1) * pow2(ue)) by {
        assert(n <= ((qt + 1) * pow2(ue)) * d - 1) by (nonlinear_arith)
            requires
                n < (qt + 1) * dv,
                dv == d * pow2(ue),
        ;
        assert(((qt + 1) * pow2(ue)) * d - 1 == d * ((qt + 1) * pow2(ue) - 1) + (d - 1))
            by (nonlinear_arith);
        assert((qt + 1) * pow2(ue) - 1 >= 0) by (nonlinear_arith)
            requires
                qt >= 0,
                pow2(ue) >= 1,
        ;
        lemma_fundamental_div_mod_converse(
            ((qt + 1) * pow2(ue)) * d - 1,
            d,
            (qt + 1) * pow2(ue) - 1,
            d - 1,
        );
        lemma_div_is_ordered(n, ((qt + 1) * pow2(ue)) * d - 1, d);
    }
    assert(n / d >= qt * pow2(ue)) by {
        assert(n >= (qt * pow2(ue)) * d) by (nonlinear_arith)
            requires
                n >= qt * dv,
                dv == d * pow2(ue),
        ;
        vstd::arithmetic::div_mod::lemma_div_by_multiple(qt * pow2(ue), d);
        lemma_div_is_ordered((qt * pow2(ue)) * d, n, d);
    }
    if m >= 0x2000 {
        assert(0x400 <= qt < 0x800);
        assert(pow2(10) * pow2(ue) == pow2(10 + ue) && pow2(11) * pow2(ue) == pow2(11 + ue)) by {
            lemma_pow2_mul(10, ue);
            lemma_pow2_mul(11, ue);
        }
        assert(n / d >= pow2(10 + ue)) by (nonlinear_arith)
            requires
                n / d >= qt * pow2(ue),
                qt >= 0x400,
                pow2(10) == 0x400,
                pow2(10) * pow2(ue) == pow2(10 + ue),
                pow2(ue) >= 1,
        ;
        assert(n / d < pow2(11 + ue)) by (nonlinear_arith)
            requires
                n / d < (qt + 1) * pow2(ue),
                qt + 1 <= 0x800,
                pow2(11) == 0x800,
                pow2(11) * pow2(ue) == pow2(11 + ue),
                pow2(ue) >= 1,
        ;
        lemma_lg_from_bounds((n / d) as nat, 10 + ue);
        if ue >= 1 {
            assert(pow2(10 + ue) >= pow2(11)) by {
                if 10 + ue > 11 {
                    lemma_pow2_strictly_increases(11, 10 + ue);
                }
            }
            assert(n / d >= 0x800);
        } else {
            assert(n / d >= 0x400);
        }
        assert(ulp_e(n, d) == ue);
    } else {
        assert(k == -3 && ue == 0);
        assert(qt < 0x400);
        assert(n / d == qt) by {
            assert(dv == d) by {
                assert(d * pow2(0) == d) by (nonlinear_arith)
                    requires
                        pow2(0) == 1,
                ;
            }
        }
        assert(ulp_e(n, d) == 0);
    }
    // the rounded quotient and final magnitude
    assert(rdiv_even(n, dv) == qt + up);
    let mr = (qt + up) * pow2(ue) as int;
    lemma_pow2_pos(40);
    if m >= 0x2000 {
        if qt + up <= 0x7ff {
            assert(pow2(10 + ue) <= mr) by (nonlinear_arith)
                requires
                    qt + up >= 0x400,
                    pow2(10) == 0x400,
                    pow2(10) * pow2(ue) == pow2(10 + ue),
                    mr == (qt + up) * pow2(ue),
                    pow2(ue) >= 1,
            ;
            assert(mr < pow2(11 + ue)) by (nonlinear_arith)
                requires
                    qt + up < 0x800,
                    pow2(11) == 0x800,
                    pow2(11) * pow2(ue) == pow2(11 + ue),
                    mr == (qt + up) * pow2(ue),
                    pow2(ue) >= 1,
            ;
            assert(mr < pow2(40)) by {
                if 11 + ue < 40 {
                    lemma_pow2_strictly_increases(11 + ue, 40);
                }
            }
            assert(mr >= 0x400) by {
                if 10 + ue > 10 {
                    lemma_pow2_strictly_increases(10, 10 + ue);
                }
            }
            lemma_lg_from_bounds(mr as nat, 10 + ue);
            assert(mr / pow2(ue) as int == qt + up) by {
                vstd::arithmetic::div_mod::lemma_div_by_multiple(qt + up, pow2(ue) as int);
            }
            assert(enc_mag(mr) as int == (ue + 1) * 0x400 + (qt + up) - 0x400);
            assert(round_pos(n, d) as int == pack_spec(m, st, k));
        } else {
            // carry into the next binade: 2048 * 2^ue == 2^(11 + ue)
            assert(qt == 0x7ff && up == 1);
            assert(mr == pow2(11 + ue)) by (nonlinear_arith)
                requires
                    mr == 0x800 * pow2(ue) as int,
                    pow2(11) == 0x800,
                    pow2(11) * pow2(ue) == pow2(11 + ue),
            ;
            if ue == 29 {
                assert(mr == pow2(40));
                assert(round_pos(n, d) == POS_INF_BITS);
                assert(pack_spec(m, st, k) == 30 * 0x400 + (0x7ff - 0x400) + 1);
            } else {
                assert(mr < pow2(40)) by {
                    lemma_pow2_strictly_increases(11 + ue, 40);
                }
                assert(mr >= 0x400) by {
                    lemma_pow2_strictly_increases(10, 11 + ue);
                }
                lemma_pow2_mul(10, ue + 1);
                assert(mr / pow2(ue + 1) as int == 0x400) by {
                    assert(mr == 0x400 * pow2(ue + 1)) by (nonlinear_arith)
                        requires
                            mr == pow2(11 + ue),
                            pow2(10) * pow2(ue + 1) == pow2(11 + ue),
                            pow2(10) == 0x400,
                    ;
                    vstd::arithmetic::div_mod::lemma_div_by_multiple(0x400, pow2(ue + 1) as int);
                }
                assert(lg(mr as nat) == 11 + ue) by {
                    lemma_pow2_strictly_increases(11 + ue, 12 + ue);
                    lemma_lg_from_bounds(mr as nat, 11 + ue);
                }
                assert(enc_mag(mr) as int == (ue + 2) * 0x400);
                assert(pack_spec(m, st, k) == (k + 4) * 0x400 + (0x7ff - 0x400) + 1);
                assert(round_pos(n, d) as int == pack_spec(m, st, k));
            }
        }
    } else {
        // subnormal window: quantum 1, result below or at the first binade
        assert(qt + up <= 0x400);
        assert(mr == qt + up) by (nonlinear_arith)
            requires
                mr == (qt + up) * pow2(0),
                pow2(0) == 1,
        ;
        assert(mr < pow2(40)) by {
            lemma_pow2_strictly_increases(11, 40);
        }
        if mr < 0x400 {
            assert(enc_mag(mr) as int == mr);
        } else {
            assert(mr == 0x400);
            assert(lg(0x400nat) == 10) by {
                lemma_lg_from_bounds(0x400nat, 10);
            }
            assert(enc_mag(mr) as int == (0 + 1) * 0x400 + 0x400int / pow2(0) as int - 0x400);
            assert(0x400int / pow2(0) as int == 0x400) by (nonlinear_arith)
                requires
                    pow2(0) == 1,
            ;
        }
        assert(round_pos(n, d) as int == pack_spec(m, st, k));
    }
}

/// Round the non-zero magnitude `(m0 + e) * 2^k0` (in units of 2^-24, with
/// `e = 0` exactly when `st0` is clear, `0 < e < 1` otherwise) to a binary16
/// pattern with the given sign, ties to even.  The ghost pair `n / d` is the
/// exact magnitude; `m0` and `st0` must truncate it faithfully.
pub(crate) fn round_finite(
    sgn: u16,
    m0: u64,
    k0: i32,
    st0: bool,
    Ghost(n): Ghost<int>,
    Ghost(d): Ghost<int>,
) -> (r: u16)
    requires
        sgn <= 1,
        m0 >= 1,
        n >= 1,
        d >= 1,
        n < pow2(170),
        -130 <= k0 <= 60,
        faithful(m0 as int, st0, k0 as int, n, d),
        st0 ==> (m0 >= 0x2000 || k0 <= -3),
    ensures
        r == round_signed(sgn == 1, n, d),
        !crate::model::is_nan(r),
{
    let mut m = m0;
    let mut k = k0;
    let mut st = st0;
    // bring the window down to 14 bits and the scale up to at least 2^-3
    while m >= 0x4000 || k < -3
        invariant
            n >= 1,
            d >= 1,
            n < pow2(170),
            faithful(m as int, st, k as int, n, d),
            st ==> (m >= 0x2000 || k <= -3),
            -130 <= k <= 180,
        decreases m + (if k < -3 {
            (-3 - k) as int
        } else {
            0int
        }),
    {
        proof {
            lemma_shift_right_faithful(m as int, st, k as int, n, d);
            if k >= 170 {
                let dd = scale_den(d, k as int);
                vstd::arithmetic::power2::lemma_pow2_pos(k as nat);
                assert(dd >= 1) by (nonlinear_arith)
                    requires
                        dd == d * pow2(k as nat),
                        d >= 1,
                        pow2(k as nat) >= 1,
                ;
                lemma_fundamental_div_mod(scale_num(n, k as int), dd);
                assert(scale_num(n, k as int) >= dd) by (nonlinear_arith)
                    requires
                        scale_num(n, k as int) == dd * (m as int) + scale_num(n, k as int) % dd,
                        scale_num(n, k as int) % dd >= 0,
                        m >= 1,
                        dd >= 1,
                ;
                assert(dd >= pow2(k as nat)) by (nonlinear_arith)
                    requires
                        dd == d * pow2(k as nat),
                        d >= 1,
                        pow2(k as nat) >= 1,
                ;
                lemma_pow2_strictly_increases(170, k as nat);
                assert(false);
            }
        }
        st = st || (m % 2 == 1);
        m = m / 2;
        k = k + 1;
    }
    // bring a short window up into the normal range while the scale allows
    while m < 0x2000 && k > -3
        invariant
            n >= 1,
            d >= 1,
            faithful(m as int, st, k as int, n, d),
            m < 0x4000,
            -3 <= k <= 180,
            st ==> (m >= 0x2000 || k <= -3),
        decreases k + 3,
    {
        proof {
            lemma_shift_left_faithful(m as int, k as int, n, d);
        }
        m = m * 2;
        k = k - 1;
    }
    if k > 26 {
        // the magnitude is at least 2^13 * 2^27 = 2^40: overflow to infinity
        proof {
            vstd::arithmetic::power2::lemma2_to64();
            let dd = scale_den(d, k as int);
            crate::model::lemma_pow2_mul(13, k as nat);
            assert(dd >= 1) by (nonlinear_arith)
                requires
                    dd == d * pow2(k as nat),
                    d >= 1,
                    pow2(k as nat) >= 1,
            ;
            lemma_fundamental_div_mod(n, dd);
            lemma_pow2_pos(40);
            assert(pow2(13 + k as nat) >= pow2(40)) by {
                if 13 + k as nat > 40 {
                    lemma_pow2_strictly_increases(40, 13 + k as nat);
                }
            }
            assert(n >= pow2(40) * d) by (nonlinear_arith)
                requires
                    n == dd * (m as int) + n % dd,
                    n % dd >= 0,
                    m >= 0x2000,
                    dd == d * pow2(k as nat),
                    d >= 1,
                    pow2(13) == 0x2000,
                    pow2(13) * pow2(k as nat) == pow2(13 + k as nat),
                    pow2(13 + k as nat) >= pow2(40),
                    pow2(k as nat) >= 1,
                    pow2(40) >= 1,
            ;
            lemma_round_pos_big(n, d);
        }
        return if sgn == 1 {
            0xfc00
        } else {
            0x7c00
        };
    }
    // guard, round and sticky decide the increment
    let g = (m % 8) as u16;
    let q = (m / 8) as u16;
    let up: u16 = if g > 4 || (g == 4 && (st || q % 2 == 1)) {
        1
    } else {
        0
    };
    let packed: u16 = if m >= 0x2000 {
        ((k + 4) as u16) * 0x400 + (q - 0x400) + up
    } else {
        q + up
    };
    proof {
        lemma_pack_round(m as int, st, k as int, n, d);
        let r16: u16 = if sgn == 1 {
            (0x8000 + packed) as u16
        } else {
            packed
        };
        if m >= 0x2000 {
            let ef: u16 = (k + 4) as u16;
            if q - 0x400 + up <= 0x3ff {
                crate::model::lemma_pack_fields(sgn, ef, (q - 0x400 + up) as u16);
                assert(r16 == sgn * 0x8000 + ef * 0x400 + (q - 0x400 + up));
            } else {
                assert(q == 0x7ff && up == 1);
                crate::model::lemma_pack_fields(sgn, (ef + 1) as u16, 0);
                assert(r16 == sgn * 0x8000 + (ef + 1) * 0x400 + 0);
            }
        } else {
            if q + up <= 0x3ff {
                crate::model::lemma_pack_fields(sgn, 0, (q + up) as u16);
                assert(r16 == sgn * 0x8000 + 0 * 0x400 + (q + up));
            } else {
                assert(q + up == 0x400);
                crate::model::lemma_pack_fields(sgn, 1, 0);
                assert(r16 == sgn * 0x8000 + 1 * 0x400 + 0);
            }
        }
        assert(!crate::model::is_nan(r16));
    }
    if sgn == 1 {
        0x8000 + packed
    } else {
        packed
    }
}

/// Left shift by a variable amount, as multiplication by a power of two.
pub(crate) fn shl64(x: u64, sh: u16) -> (r: u64)
    requires
        sh <= 63,
        x * pow2(sh as nat) < 0x1_0000_0000_0000_0000,
    ensures
        r == x * pow2(sh as nat),
{
    proof {
        vstd::arithmetic::power2::lemma2_to64();
    }
    let mut r = x;
    let mut i: u16 = 0;
    while i < sh
        invariant
            i <= sh,
            sh <= 63,
            r == x * pow2(i as nat),
            x * pow2(sh as nat) < 0x1_0000_0000_0000_0000,
        decreases sh - i,
    {
        proof {
            crate::model::lemma_pow2_mul(i as nat, 1);
            crate::model::lemma_pow2_mul(i as nat + 1, (sh - i - 1) as nat);
            assert(pow2(1) == 2 && pow2(0) == 1) by {
                vstd::arithmetic::power2::lemma2_to64();
            }
            assert(r * 2 == x * pow2(i as nat + 1) && x * pow2(i as nat + 1) <= x * pow2(
                sh as nat,
            )) by (nonlinear_arith)
                requires
                    r == x * pow2(i as nat),
                    pow2(i as nat) * pow2(1) == pow2(i as nat + 1),
                    pow2(i as nat + 1) * pow2((sh - i - 1) as nat) == pow2(sh as nat),
                    pow2(1) == 2,
                    pow2((sh - i - 1) as nat) >= 1,
                    x >= 0,
            ;
        }
        r = r * 2;
        i = i + 1;
    }
    r
}

/// Encoding a normal magnitude: effective significand `w` at exponent `e`.
pub proof fn lemma_enc_normal(w: int, e: int)
    requires
        0x400 <= w <= 0x7ff,
        1 <= e <= 31,
    ensures
        enc_mag(w * pow2((e - 1) as nat) as int) == e * 0x400 + (w - 0x400),
{
    let p = pow2((e - 1) as nat) as int;
    lemma_pow2_pos((e - 1) as nat);
    let mag = w * p;
    lemma_pow2_mul(10, (e - 1) as nat);
    lemma_pow2_mul(11, (e - 1) as nat);
    vstd::arithmetic::power2::lemma2_to64();
    assert(pow2((9 + e) as nat) <= mag < pow2((10 + e) as nat)) by (nonlinear_arith)
        requires
            0x400 <= w < 0x800,
            mag == w * p,
            p >= 1,
            pow2(10) * p == pow2((9 + e) as nat),
            pow2(11) * p == pow2((10 + e) as nat),
            pow2(10) == 0x400,
            pow2(11) == 0x800,
    ;
    lemma_lg_from_bounds(mag as nat, (9 + e) as nat);
    assert(mag >= 0x400) by (nonlinear_arith)
        requires
            mag >= pow2((9 + e) as nat),
            pow2((9 + e) as nat) >= pow2(10),
            pow2(10) == 0x400,
    ;
    assert(pow2((9 + e) as nat) >= pow2(10)) by {
        if 10 < 9 + e {
            lemma_pow2_strictly_increases(10, (9 + e) as nat);
        }
    }
    assert(mag / p == w) by {
        vstd::arithmetic::div_mod::lemma_div_by_multiple(w, p);
    }
}

/// Encoding round-trips the magnitude of a finite pattern.
pub proof fn lemma_enc_mag_id(b: u16)
    requires
        crate::model::is_finite(b),
    ensures
        enc_mag(crate::model::mag24(b)) == crate::model::exp_of(b) * 0x400 + crate::model::frac_of(
            b,
        ),
{
    if crate::model::exp_of(b) == 0 {
        assert(enc_mag(crate::model::frac_of(b) as int) == crate::model::frac_of(b));
    } else {
        lemma_enc_normal(
            0x400 + crate::model::frac_of(b) as int,
            crate::model::exp_of(b) as int,
        );
    }
}

/// A decomposition of the numerator at 24 fractional bits is an exact
/// faithful window over the denominator 2^24.
pub proof fn lemma_decomp_faithful(n: int, m: int, k: int)
    requires
        crate::model::decomp(n, m, k + 25),
        n >= 0,
        m >= 0,
    ensures
        faithful(m, false, k, n, pow2(24) as int),
{
    vstd::arithmetic::power2::lemma2_to64();
    let w = k + 24;
    if k >= 0 {
        crate::model::lemma_pow2_mul(24, k as nat);
        assert(n == m * (pow2(24) as int * pow2(k as nat))) by (nonlinear_arith)
            requires
                n == m * pow2(w as nat),
                pow2(24) * pow2(k as nat) == pow2(w as nat),
        ;
        lemma_exact_faithful(m, k, n, pow2(24) as int);
    } else if w >= 0 {
        crate::model::lemma_pow2_mul(w as nat, (-k) as nat);
        assert(n * pow2((-k) as nat) == m * pow2(24)) by (nonlinear_arith)
            requires
                n == m * pow2(w as nat),
                pow2(w as nat) * pow2((-k) as nat) == pow2(24),
        ;
        lemma_exact_faithful(m, k, n, pow2(24) as int);
    } else {
        crate::model::lemma_pow2_mul((-w) as nat, 24);
        assert(n * pow2((-k) as nat) == m * pow2(24)) by (nonlinear_arith)
            requires
                n * pow2((-w) as nat) == m,
                pow2((-w) as nat) * pow2(24) == pow2((-k) as nat),
        ;
        lemma_exact_faithful(m, k, n, pow2(24) as int);
    }
}

/// A magnitude that is exactly representable rounds to itself, at any
/// scale of the fraction.
pub proof fn lemma_round_exact(b: u16, d: int)
    requires
        crate::model::is_finite(b),
        d >= 1,
    ensures
        round_pos(crate::model::mag24(b) * d, d) == enc_mag(crate::model::mag24(b)),
{
    let mag = crate::model::mag24(b);
    crate::model::lemma_mag24_bounds(b);
    let n = mag * d;
    vstd::arithmetic::power2::lemma2_to64();
    assert(n >= 0) by (nonlinear_arith)
        requires
            mag >= 0,
            d >= 1,
            n == mag * d,
    ;
    assert(n / d == mag && n % d == 0) by {
        vstd::arithmetic::div_mod::lemma_fundamental_div_mod_converse(n, d, mag, 0);
        assert(n == d * mag + 0) by (nonlinear_arith)
            requires
                n == mag * d,
        ;
    }
    lemma_pow2_pos(40);
    if mag < 0x800 {
        assert(ulp_e(n, d) == 0);
        assert(d * pow2(0) as int == d);
        assert(rdiv_even(n, d) == mag);
        assert(mag * pow2(0) as int == mag) by (nonlinear_arith)
            requires
                pow2(0) == 1,
        ;
        assert(mag < pow2(40)) by {
            lemma_pow2_strictly_increases(11, 40);
        }
    } else {
        let e = exp_of_finite(b);
        let w = 0x400 + crate::model::frac_of(b) as int;
        assert(mag == w * pow2((e - 1) as nat) && 1 <= e <= 30);
        lemma_pow2_mul(10, (e - 1) as nat);
        lemma_pow2_mul(11, (e - 1) as nat);
        lemma_pow2_pos((e - 1) as nat);
        assert(pow2((9 + e) as nat) <= mag < pow2((10 + e) as nat)) by (nonlinear_arith)
            requires
                0x400 <= w < 0x800,
                mag == w * pow2((e - 1) as nat),
                pow2((e - 1) as nat) >= 1,
                pow2(10) * pow2((e - 1) as nat) == pow2((9 + e) as nat),
                pow2(11) * pow2((e - 1) as nat) == pow2((10 + e) as nat),
                pow2(10) == 0x400,
                pow2(11) == 0x800,
        ;
        lemma_lg_from_bounds(mag as nat, (9 + e) as nat);
        assert(pow2(11) <= pow2((9 + e) as nat)) by {
            if 11 < 9 + e {
                lemma_pow2_strictly_increases(11, (9 + e) as nat);
            }
        }
        assert(ulp_e(n, d) == (e - 1) as nat);
        let dq = d * pow2((e - 1) as nat) as int;
        assert(dq >= 1) by (nonlinear_arith)
            requires
                d >= 1,
                pow2((e - 1) as nat) >= 1,
                dq == d * pow2((e - 1) as nat),
        ;
        assert(n == dq * w + 0) by (nonlinear_arith)
            requires
                n == mag * d,
                mag == w * pow2((e - 1) as nat),
                dq == d * pow2((e - 1) as nat),
        ;
        vstd::arithmetic::div_mod::lemma_fundamental_div_mod_converse(n, dq, w, 0);
        assert(rdiv_even(n, dq) == w);
        assert(w * pow2((e - 1) as nat) == mag);
        assert(mag < pow2(40)) by {
            if 10 + e < 40 {
                lemma_pow2_strictly_increases((10 + e) as nat, 40);
            }
        }
    }
}

/// The exponent field of a finite pattern, as a plain integer.
spec fn exp_of_finite(b: u16) -> int {
    crate::model::exp_of(b) as int
}

/// Values below one half (scaled) round to zero.
pub proof fn lemma_round_pos_small(n: int, d: int)
    requires
        d >= 1,
        n >= 0,
        2 * n < d,
    ensures
        round_pos(n, d) == 0,
{
    vstd::arithmetic::power2::lemma2_to64();
    assert(n / d == 0 && n % d == n) by {
        vstd::arithmetic::div_mod::lemma_basic_div(n, d);
        vstd::arithmetic::div_mod::lemma_small_mod(n as nat, d as nat);
    }
    assert(ulp_e(n, d) == 0);
    assert(d * pow2(0) as int == d);
    assert(rdiv_even(n, d * pow2(0) as int) == 0);
    assert(0 * pow2(0) as int == 0);
    assert(enc_mag(0) == 0);
    lemma_pow2_pos(40);
}

} // verus!
