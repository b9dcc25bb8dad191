//! The binary16 value type: bit-level constructors and accessors.

use crate::model::{
    canonical, exp_of, frac_of, is_nan, lg, sign_of, lemma_lg_from_bounds,
    NAN_BITS,
};
use vstd::arithmetic::power2::{lemma_pow2_strictly_increases, pow2};
use vstd::prelude::*;

verus! {

/// An IEEE 754 binary16 value, stored as its 16-bit pattern.
///
/// Every constructor canonicalizes NaNs: after construction the only NaN
/// pattern in the system is `0x7e00`.
#[derive(Clone, Copy, Debug)]
pub struct SoftFloat16(pub(crate) u16);

impl SoftFloat16 {
    /// The stored bit pattern, as an abstract value for contracts.
    pub open(crate) spec fn bits(self) -> u16 {
        self.0
    }

    #[verifier::type_invariant]
    pub open(crate) spec fn inv(self) -> bool {
        canonical(self.0)
    }

    /// Number of leading zero bits of a 16-bit value; 16 for zero.
    pub fn clz(v: u16) -> (r: u16)
        ensures
            v == 0 ==> r == 16,
            v > 0 ==> r == 15 - lg(v as nat),
            v > 0 ==> pow2((15 - r) as nat) <= v < pow2((16 - r) as nat),
    {
        if v == 0 {
            16
        } else {
            proof {
                vstd::arithmetic::power2::lemma2_to64();
            }
            let mut n: u16 = 0;
            let mut x: u16 = v;
            // Binary search over the value ranges, wide halves first.
            if x < 0x100 {
                n = n + 8;
                x = x * 0x100;
            }
            proof {
                assert(x == v * pow2(n as nat) && x >= 0x100) by (nonlinear_arith)
                    requires
                        pow2(0) == 1 && pow2(8) == 0x100,
                        v >= 1,
                        (n == 8 && v < 0x100 && x == v * 0x100) || (n == 0 && x == v && v >= 0x100),
                ;
            }
            if x < 0x1000 {
                let ghost n0 = n;
                let ghost x0 = x;
                n = n + 4;
                x = x * 0x10;
                proof {
                    crate::model::lemma_pow2_mul(n0 as nat, 4);
                    assert(x == v * pow2(n as nat)) by (nonlinear_arith)
                        requires
                            pow2(4) == 0x10,
                            pow2(n0 as nat) * pow2(4) == pow2(n0 as nat + 4),
                            x0 == v * pow2(n0 as nat),
                            x == x0 * 0x10,
                            n == n0 + 4,
                    ;
                }
            }
            assert(0x1000 <= x);
            if x < 0x4000 {
                let ghost n0 = n;
                let ghost x0 = x;
                n = n + 2;
                x = x * 4;
                proof {
                    crate::model::lemma_pow2_mul(n0 as nat, 2);
                    assert(x == v * pow2(n as nat)) by (nonlinear_arith)
                        requires
                            pow2(2) == 4,
                            pow2(n0 as nat) * pow2(2) == pow2(n0 as nat + 2),
                            x0 == v * pow2(n0 as nat),
                            x == x0 * 4,
                            n == n0 + 2,
                    ;
                }
            }
            assert(0x4000 <= x);
            if x < 0x8000 {
                let ghost n0 = n;
                let ghost x0 = x;
                n = n + 1;
                x = x * 2;
                proof {
                    crate::model::lemma_pow2_mul(n0 as nat, 1);
                    assert(x == v * pow2(n as nat)) by (nonlinear_arith)
                        requires
                            pow2(1) == 2,
                            pow2(n0 as nat) * pow2(1) == pow2(n0 as nat + 1),
                            x0 == v * pow2(n0 as nat),
                            x == x0 * 2,
                            n == n0 + 1,
                    ;
                }
            }
            proof {
                assert(pow2(15) <= x < pow2(16));
                vstd::arithmetic::power2::lemma_pow2_pos(n as nat);
                assert(v * pow2(n as nat) >= pow2(n as nat)) by (nonlinear_arith)
                    requires
                        v >= 1,
                        pow2(n as nat) >= 1,
                ;
                if n > 15 {
                    lemma_pow2_strictly_increases(16, n as nat);
                    assert(false);
                }
                crate::model::lemma_pow2_mul((15 - n) as nat, n as nat);
                crate::model::lemma_pow2_mul((16 - n) as nat, n as nat);
                assert(pow2((15 - n) as nat) <= v < pow2((16 - n) as nat)) by (nonlinear_arith)
                    requires
                        pow2((15 - n) as nat) * pow2(n as nat) == pow2(15),
                        pow2((16 - n) as nat) * pow2(n as nat) == pow2(16),
                        pow2(15) <= v * pow2(n as nat) < pow2(16),
                        pow2(n as nat) >= 1,
                ;
                lemma_lg_from_bounds(v as nat, (15 - n) as nat);
            }
            n
        }
    }

    /// Build a value from a raw bit pattern, mapping every NaN pattern to
    /// the canonical quiet NaN `0x7e00`.
    pub fn from_bits(v: u16) -> (r: Self)
        ensures
            r.bits() == if is_nan(v) {
                NAN_BITS
            } else {
                v
            },
    {
        let exponent = (v / 0x400) % 0x20;
        let significand = v % 0x400;
        if exponent == 0x1f && significand != 0 {
            SoftFloat16(NAN_BITS)
        } else {
            SoftFloat16(v)
        }
    }

    /// The raw bit pattern of a value.
    pub fn to_bits(v: Self) -> (r: u16)
        ensures
            r == v.bits(),
    {
        v.0
    }

    /// The sign field: 0 for positive, 1 for negative.
    pub fn sign(v: Self) -> (r: u16)
        ensures
            r == sign_of(v.bits()),
            r <= 1,
    {
        v.0 / 0x8000
    }

    /// The biased exponent field, in [0, 31].
    pub fn exponent(v: Self) -> (r: u16)
        ensures
            r == exp_of(v.bits()),
            r <= 31,
    {
        (v.0 / 0x400) % 0x20
    }

    /// The stored significand field, in [0, 1023].
    pub fn significand(v: Self) -> (r: u16)
        ensures
            r == frac_of(v.bits()),
            r <= 1023,
    {
        v.0 % 0x400
    }
}

/// Expand exponent and significand fields of a finite non-zero value to a
/// normalized effective significand in [0x400, 0x7ff] and a signed working
/// exponent, which runs below one for subnormals.
pub(crate) fn norm_expand(exponent: u16, significand: u16) -> (r: (i32, u16))
    requires
        exponent <= 30,
        significand <= 1023,
        exponent != 0 || significand != 0,
    ensures
        ({
            let (e, sf) = r;
            &&& 0x400 <= sf <= 0x7ff
            &&& -9 <= e <= 30
            &&& crate::model::decomp(
                crate::model::field_mag(exponent, significand),
                sf as int,
                e as int,
            )
        }),
{
    proof {
        vstd::arithmetic::power2::lemma2_to64();
    }
    if exponent == 0 {
        let ghost mg = crate::model::field_mag(exponent, significand);
        let mut e: i32 = 1;
        let mut sf: u16 = significand;
        proof {
            assert(mg * pow2(0) == sf) by (nonlinear_arith)
                requires
                    pow2(0) == 1,
                    mg == sf,
            ;
        }
        while sf < 0x400
            invariant
                1 <= sf <= 0x7ff,
                -9 <= e <= 1,
                mg == crate::model::field_mag(exponent, significand),
                1 <= mg <= 0x3ff,
                crate::model::decomp(mg, sf as int, e as int),
            decreases 0x800 - sf,
        {
            proof {
                vstd::arithmetic::power2::lemma2_to64();
                crate::model::lemma_pow2_mul((1 - e) as nat, 1);
                if e >= 1 {
                    assert(mg == sf * pow2(0));
                    assert(mg * pow2(1) == 2 * sf) by (nonlinear_arith)
                        requires
                            mg == sf * pow2(0),
                            pow2(0) == 1,
                            pow2(1) == 2,
                    ;
                } else {
                    assert(mg * pow2((2 - e) as nat) == 2 * sf) by (nonlinear_arith)
                        requires
                            mg * pow2((1 - e) as nat) == sf,
                            pow2((1 - e) as nat) * pow2(1) == pow2((2 - e) as nat),
                            pow2(1) == 2,
                    ;
                }
                // the exponent cannot sink below -9 while bits remain
                if e <= -9 {
                    assert(pow2((1 - e) as nat) >= pow2(10)) by {
                        if 1 - e > 10 {
                            lemma_pow2_strictly_increases(10, (1 - e) as nat);
                        }
                    }
                    assert(sf >= pow2(10)) by (nonlinear_arith)
                        requires
                            mg * pow2((1 - e) as nat) == sf,
                            mg >= 1,
                            pow2((1 - e) as nat) >= pow2(10),
                    ;
                }
            }
            sf = sf * 2;
            e = e - 1;
        }
        (e, sf)
    } else {
        (exponent as i32, significand + 0x400)
    }
}

} // verus!
