//! Fused multiply-add: the exact product and the addend are combined at
//! full precision and rounded exactly once.

use crate::model::{
    decomp, is_inf, is_nan, is_zero, lemma_decomp_bound, lemma_decomp_cmp, lemma_decomp_linear,
    lemma_decomp_shift, lemma_mag24_bounds, lemma_pow2_mul, lemma_split_bits, mag24, sign_of,
    sval, NAN_BITS, NEG_INF_BITS, NEG_ZERO_BITS, POS_INF_BITS, POS_ZERO_BITS,
};
use crate::rounding::{lemma_decomp_faithful, round_finite, round_signed, shl64};
use crate::soft_float16::norm_expand;
use crate::SoftFloat16;
use vstd::arithmetic::div_mod::lemma_fundamental_div_mod_converse;
use vstd::arithmetic::power2::{lemma_pow2_pos, lemma_pow2_strictly_increases, pow2};
use vstd::prelude::*;

verus! {

/// Fused multiply-add with a single rounding.
pub trait MulAdd: Sized {
    /// `v0 * v1 + v2`, computed exactly and rounded once.
    fn mul_add(v0: Self, v1: Self, v2: Self) -> Self;
}

/// The correctly rounded value of `a * b + c` with one final rounding;
/// the exact product of a zero and an infinity gives NaN, exact
/// cancellation gives `+0`.
pub open spec fn fma_spec(a: u16, b: u16, c: u16) -> u16 {
    if is_nan(a) || is_nan(b) || is_nan(c) {
        NAN_BITS
    } else if (is_zero(a) && is_inf(b)) || (is_inf(a) && is_zero(b)) {
        NAN_BITS
    } else {
        let neg = sign_of(a) != sign_of(b);
        if is_inf(a) || is_inf(b) {
            if is_inf(c) && ((sign_of(c) == 1) != neg) {
                NAN_BITS
            } else if neg {
                NEG_INF_BITS
            } else {
                POS_INF_BITS
            }
        } else if is_inf(c) {
            c
        } else if is_zero(a) || is_zero(b) {
            if is_zero(c) {
                if neg && sign_of(c) == 1 {
                    NEG_ZERO_BITS
                } else {
                    POS_ZERO_BITS
                }
            } else {
                c
            }
        } else {
            let t = sval(a) * sval(b) + sval(c) * pow2(24);
            if t == 0 {
                POS_ZERO_BITS
            } else {
                round_signed(t < 0, if t < 0 {
                    -t
                } else {
                    t
                }, pow2(24) as int)
            }
        }
    }
}

/// Combine the exact product and the aligned addend in one 64-bit window
/// and round; used when the two are close enough to interact digit-wise.
#[verifier::rlimit(100)]
fn fma_near(
    sgn_p: u16,
    mp: u64,
    kp: i32,
    sgn_c: u16,
    sc: u16,
    kc: i32,
    Ghost(pm): Ghost<int>,
    Ghost(cm): Ghost<int>,
    Ghost(t): Ghost<int>,
) -> (r: u16)
    requires
        sgn_p <= 1,
        sgn_c <= 1,
        decomp(pm, mp as int, kp + 25),
        decomp(cm, sc as int, kc + 25),
        1 <= mp < 0x40_0000,
        sc <= 0x7ff,
        pm >= 1,
        cm >= 0,
        -44 <= kp <= 34,
        0 <= kc <= 29,
        kc - kp <= 25,
        pm < pow2(81),
        cm < pow2(81),
        t == (if sgn_p == 1 {
            -pm
        } else {
            pm
        }) + (if sgn_c == 1 {
            -cm
        } else {
            cm
        }),
    ensures
        t == 0 ==> r == 0,
        t != 0 ==> r == round_signed(t < 0, if t < 0 {
            -t
        } else {
            t
        }, pow2(24) as int),
        !is_nan(r),
{
    proof {
        vstd::arithmetic::power2::lemma2_to64();
        vstd::arithmetic::power2::lemma2_to64_rest();
    }
    let lane: i32 = if kc >= kp {
        kp
    } else {
        kc
    };
    proof {
        lemma_pow2_pos((kc - lane) as nat);
        lemma_pow2_pos((kp - lane) as nat);
        assert(pow2((kc - lane) as nat) <= pow2(25) && pow2((kp - lane) as nat) <= pow2(34)) by {
            if kc - lane < 25 {
                lemma_pow2_strictly_increases((kc - lane) as nat, 25);
            }
            if kp - lane < 34 {
                lemma_pow2_strictly_increases((kp - lane) as nat, 34);
            }
        }
        lemma_pow2_mul(22, 34);
        lemma_pow2_mul(11, 25);
        assert(sc as int * pow2((kc - lane) as nat) < pow2(36) && mp as int * pow2(
            (kp - lane) as nat,
        ) < pow2(56)) by (nonlinear_arith)
            requires
                sc < 0x800,
                mp < 0x40_0000,
                pow2((kc - lane) as nat) <= pow2(25),
                pow2((kp - lane) as nat) <= pow2(34),
                pow2((kc - lane) as nat) >= 1,
                pow2((kp - lane) as nat) >= 1,
                pow2(11) == 0x800,
                pow2(22) == 0x40_0000,
                pow2(11) * pow2(25) == pow2(36),
                pow2(22) * pow2(34) == pow2(56),
        ;
        lemma_pow2_strictly_increases(36, 60);
        lemma_pow2_strictly_increases(56, 60);
    }
    let dc: u16 = (kc - lane) as u16;
    let dp: u16 = (kp - lane) as u16;
    proof {
        assert(dc as nat == (kc - lane) as nat && dp as nat == (kp - lane) as nat);
    }
    let ac: u64 = shl64(sc as u64, dc);
    let ap: u64 = shl64(mp, dp);
    proof {
        assert(ac < pow2(36) && ap < pow2(56));
        lemma_pow2_strictly_increases(36, 56);
        lemma_decomp_shift(pm, mp as int, kp + 25, (kp - lane) as nat);
        lemma_decomp_shift(cm, sc as int, kc + 25, (kc - lane) as nat);
        assert(decomp(pm, ap as int, lane + 25));
        assert(decomp(cm, ac as int, lane + 25));
        lemma_decomp_cmp(pm, ap as int, cm, ac as int, lane + 25);
        lemma_decomp_cmp(pm, ap as int, 0, 0, lane + 25);
        lemma_decomp_cmp(cm, ac as int, 0, 0, lane + 25);
    }
    let (sgn, m): (u16, u64) = if sgn_p == sgn_c {
        proof {
            lemma_decomp_linear(pm, ap as int, cm, ac as int, lane + 25);
        }
        (sgn_p, ap + ac)
    } else if ap == ac {
        return 0;
    } else if ap > ac {
        proof {
            lemma_decomp_linear(pm, ap as int, cm, ac as int, lane + 25);
        }
        (sgn_p, ap - ac)
    } else {
        proof {
            lemma_decomp_linear(cm, ac as int, pm, ap as int, lane + 25);
        }
        (sgn_c, ac - ap)
    };
    let ghost n: int = if t < 0 {
        -t
    } else {
        t
    };
    proof {
        assert(decomp(n, m as int, lane + 25) && (sgn == 1 <==> t < 0) && n >= 1);
        lemma_decomp_faithful(n, m as int, lane as int);
        lemma_decomp_cmp(n, m as int, 0, 0, lane + 25);
        assert(n <= pm + cm);
        lemma_pow2_strictly_increases(82, 170);
        lemma_pow2_mul(81, 1);
        assert(pow2(81) + pow2(81) <= pow2(82)) by (nonlinear_arith)
            requires
                pow2(81) * pow2(1) == pow2(82),
                pow2(1) == 2,
        ;
        assert(n < pow2(170)) by (nonlinear_arith)
            requires
                n <= pm + cm,
                pm < pow2(81),
                cm < pow2(81),
                pow2(81) + pow2(81) <= pow2(82),
                pow2(82) < pow2(170),
        ;
        lemma_pow2_pos(24);
    }
    round_finite(sgn, m, lane, false, Ghost(n), Ghost(pow2(24) as int))
}

/// Round the addend alone, with the far-smaller exact product folded into
/// the sticky information.
#[verifier::rlimit(100)]
fn fma_far(
    sgn_c: u16,
    sc: u16,
    kc: i32,
    same: bool,
    Ghost(pm): Ghost<int>,
    Ghost(cm): Ghost<int>,
    Ghost(t): Ghost<int>,
) -> (r: u16)
    requires
        sgn_c <= 1,
        1 <= sc <= 0x7ff,
        0 <= kc <= 29,
        sc >= 0x400 || kc == 0,
        decomp(cm, sc as int, kc + 25),
        1 <= pm,
        pm < pow2((20 + kc) as nat),
        cm < pow2(81),
        t == (if sgn_c == 1 {
            -(cm + (if same {
                pm
            } else {
                -pm
            }))
        } else {
            cm + (if same {
                pm
            } else {
                -pm
            })
        }),
    ensures
        t != 0,
        r == round_signed(t < 0, if t < 0 {
            -t
        } else {
            t
        }, pow2(24) as int),
        !is_nan(r),
{
    proof {
        vstd::arithmetic::power2::lemma2_to64();
    }
    let m0: u64 = (sc as u64) * 16;
    let k0: i32 = kc - 4;
    let m: u64 = if same {
        m0
    } else {
        m0 - 1
    };
    let ghost n: int = cm + (if same {
        pm
    } else {
        -pm
    });
    proof {
        // the addend is an exact multiple of the window quantum and the
        // product fits strictly inside one quantum
        assert(cm == sc * pow2((kc + 24) as nat));
        lemma_pow2_mul((20 + kc) as nat, 4);
        assert(cm == m0 * pow2((20 + kc) as nat)) by (nonlinear_arith)
            requires
                cm == sc * pow2((kc + 24) as nat),
                m0 == sc * 16,
                pow2((20 + kc) as nat) * pow2(4) == pow2((kc + 24) as nat),
                pow2(4) == 16,
        ;
        lemma_pow2_pos((20 + kc) as nat);
        assert(n >= 1 && (t < 0 <==> sgn_c == 1) && t != 0) by (nonlinear_arith)
            requires
                cm == m0 * pow2((20 + kc) as nat),
                m0 >= 16,
                1 <= pm < pow2((20 + kc) as nat),
                n == cm + (if same {
                    pm
                } else {
                    -pm
                }),
                t == (if sgn_c == 1 {
                    -n
                } else {
                    n
                }),
        ;
        let rr: int = if same {
            pm
        } else {
            pow2((20 + kc) as nat) - pm
        };
        assert(n == pow2((20 + kc) as nat) * (m as int) + rr && 0 < rr < pow2((20 + kc) as nat))
            by (nonlinear_arith)
            requires
                cm == m0 * pow2((20 + kc) as nat),
                n == cm + (if same {
                    pm
                } else {
                    -pm
                }),
                m as int == if same {
                    m0 as int
                } else {
                    m0 - 1
                },
                rr == if same {
                    pm
                } else {
                    pow2((20 + kc) as nat) - pm
                },
                1 <= pm < pow2((20 + kc) as nat),
                m0 >= 16,
        ;
        // hence the window truncates the exact sum with a live sticky bit
        if k0 >= 0 {
            lemma_pow2_mul(24, k0 as nat);
            lemma_fundamental_div_mod_converse(n, pow2((20 + kc) as nat) as int, m as int, rr);
            assert(pow2(24) as int * pow2(k0 as nat) == pow2((20 + kc) as nat));
        } else {
            lemma_pow2_mul((20 + kc) as nat, (-k0) as nat);
            assert((n * pow2((-k0) as nat)) == pow2(24) * (m as int) + rr * pow2((-k0) as nat)
                && 0 < rr * pow2((-k0) as nat) < pow2(24)) by (nonlinear_arith)
                requires
                    n == pow2((20 + kc) as nat) * (m as int) + rr,
                    0 < rr < pow2((20 + kc) as nat),
                    pow2((20 + kc) as nat) * pow2((-k0) as nat) == pow2(24),
                    pow2((-k0) as nat) >= 1,
            ;
            lemma_fundamental_div_mod_converse(
                n * pow2((-k0) as nat),
                pow2(24) as int,
                m as int,
                rr * pow2((-k0) as nat),
            );
        }
        assert(crate::rounding::faithful(m as int, true, k0 as int, n, pow2(24) as int));
        lemma_pow2_strictly_increases(82, 170);
        lemma_pow2_strictly_increases((20 + kc) as nat, 81);
        lemma_pow2_mul(81, 1);
        assert(pow2(81) + pow2(81) <= pow2(82)) by (nonlinear_arith)
            requires
                pow2(81) * pow2(1) == pow2(82),
                pow2(1) == 2,
        ;
        assert(pm < pow2(81)) by {
            lemma_pow2_strictly_increases((20 + kc) as nat, 81);
        }
        assert(n < pow2(170)) by (nonlinear_arith)
            requires
                n == cm + (if same {
                    pm
                } else {
                    -pm
                }),
                pm >= 1,
                cm < pow2(81),
                pm < pow2(81),
                pow2(81) + pow2(81) <= pow2(82),
                pow2(82) < pow2(170),
        ;
        lemma_pow2_pos(24);
        lemma_pow2_pos((-k0) as nat);
    }
    round_finite(sgn_c, m, k0, true, Ghost(n), Ghost(pow2(24) as int))
}

impl MulAdd for SoftFloat16 {
    /// `v0 * v1 + v2` with the product kept exact and one rounding at the
    /// end.
    #[verifier::rlimit(100)]
    fn mul_add(v0: Self, v1: Self, v2: Self) -> (r: Self)
        ensures
            r.bits() == fma_spec(v0.bits(), v1.bits(), v2.bits()),
    {
        proof {
            use_type_invariant(&v0);
            use_type_invariant(&v1);
            use_type_invariant(&v2);
            lemma_split_bits(v0.0);
            lemma_split_bits(v1.0);
            lemma_split_bits(v2.0);
            vstd::arithmetic::power2::lemma2_to64();
        }
        let (sign0, exponent0, significand0) = (
            Self::sign(v0),
            Self::exponent(v0),
            Self::significand(v0),
        );
        let (sign1, exponent1, significand1) = (
            Self::sign(v1),
            Self::exponent(v1),
            Self::significand(v1),
        );
        let (sign2, exponent2, significand2) = (
            Self::sign(v2),
            Self::exponent(v2),
            Self::significand(v2),
        );
        if (exponent0 == 0x1f && significand0 != 0) || (exponent1 == 0x1f && significand1 != 0)
            || (exponent2 == 0x1f && significand2 != 0) {
            return Self::from_bits(NAN_BITS);
        }
        let zero0 = exponent0 == 0 && significand0 == 0;
        let zero1 = exponent1 == 0 && significand1 == 0;
        let zero2 = exponent2 == 0 && significand2 == 0;
        let inf0 = exponent0 == 0x1f && significand0 == 0;
        let inf1 = exponent1 == 0x1f && significand1 == 0;
        let inf2 = exponent2 == 0x1f && significand2 == 0;
        if (zero0 && inf1) || (inf0 && zero1) {
            return Self::from_bits(NAN_BITS);
        }
        let neg = sign0 != sign1;
        if inf0 || inf1 {
            if inf2 && ((sign2 == 1) != neg) {
                return Self::from_bits(NAN_BITS);
            }
            return if neg {
                Self::from_bits(NEG_INF_BITS)
            } else {
                Self::from_bits(POS_INF_BITS)
            };
        }
        if inf2 {
            return v2;
        }
        if zero0 || zero1 {
            if zero2 {
                return if neg && sign2 == 1 {
                    Self::from_bits(NEG_ZERO_BITS)
                } else {
                    Self::from_bits(POS_ZERO_BITS)
                };
            }
            return v2;
        }
        // the product is finite and non-zero
        let (ea, sa) = norm_expand(exponent0, significand0);
        let (eb, sb) = norm_expand(exponent1, significand1);
        proof {
            assert(sa as int * sb as int <= 0x7ff * 0x7ff) by (nonlinear_arith)
                requires
                    sa <= 0x7ff,
                    sb <= 0x7ff,
            ;
        }
        let mp: u64 = (sa as u64) * (sb as u64);
        let kp: i32 = ea + eb - 26;
        let ghost pm: int = mag24(v0.0) * mag24(v1.0);
        let ghost t: int = sval(v0.0) * sval(v1.0) + sval(v2.0) * pow2(24);
        proof {
            lemma_mag24_bounds(v0.0);
            lemma_mag24_bounds(v1.0);
            lemma_mag24_bounds(v2.0);
            crate::mul::lemma_prod_decomp(
                mag24(v0.0),
                sa as int,
                ea as int,
                mag24(v1.0),
                sb as int,
                eb as int,
            );
            assert(decomp(pm, mp as int, kp + 25));
            assert(pm >= 1 && mp >= 1) by (nonlinear_arith)
                requires
                    pm == mag24(v0.0) * mag24(v1.0),
                    mag24(v0.0) >= 1,
                    mag24(v1.0) >= 1,
                    mp == sa * sb,
                    sa >= 1,
                    sb >= 1,
            ;
            lemma_pow2_mul(11, 29);
            lemma_pow2_mul(40, 40);
            lemma_pow2_strictly_increases(80, 81);
            assert(pm < pow2(81)) by (nonlinear_arith)
                requires
                    pm == mag24(v0.0) * mag24(v1.0),
                    0 <= mag24(v0.0) <= 2047 * pow2(29),
                    0 <= mag24(v1.0) <= 2047 * pow2(29),
                    2047 < pow2(11),
                    pow2(11) * pow2(29) == pow2(40),
                    pow2(40) * pow2(40) == pow2(80),
                    pow2(80) < pow2(81),
                    pow2(29) >= 1,
                    pow2(40) >= 1,
                    pow2(11) >= 1,
            ;
            assert(sval(v0.0) * sval(v1.0) == (if neg {
                -pm
            } else {
                pm
            })) by (nonlinear_arith)
                requires
                    pm == mag24(v0.0) * mag24(v1.0),
                    sval(v0.0) == (if sign_of(v0.0) == 1 {
                        -mag24(v0.0)
                    } else {
                        mag24(v0.0)
                    }),
                    sval(v1.0) == (if sign_of(v1.0) == 1 {
                        -mag24(v1.0)
                    } else {
                        mag24(v1.0)
                    }),
                    sign0 == sign_of(v0.0),
                    sign1 == sign_of(v1.0),
                    neg == (sign0 != sign1),
            ;
        }
        let sgn_p: u16 = if neg {
            1
        } else {
            0
        };
        if zero2 {
            // no addend: round the exact product alone
            proof {
                lemma_decomp_faithful(pm, mp as int, kp as int);
                lemma_pow2_strictly_increases(81, 170);
                lemma_pow2_pos(24);
            }
            let out = round_finite(sgn_p, mp, kp, false, Ghost(pm), Ghost(pow2(24) as int));
            return Self::from_bits(out);
        }
        // expand the addend; its working exponent stays at least one
        let (ec, sc) = if exponent2 == 0 {
            (1u16, significand2)
        } else {
            (exponent2, significand2 + 0x400)
        };
        let kc: i32 = ec as i32 - 1;
        let ghost cm: int = mag24(v2.0) * pow2(24);
        proof {
            assert(sc * pow2(0) == sc) by (nonlinear_arith)
                requires
                    pow2(0) == 1,
            ;
            assert(mag24(v2.0) == sc * pow2((ec - 1) as nat));
            lemma_pow2_mul((ec - 1) as nat, 24);
            assert(cm == sc * pow2((kc + 24) as nat)) by (nonlinear_arith)
                requires
                    cm == mag24(v2.0) * pow2(24),
                    mag24(v2.0) == sc * pow2((ec - 1) as nat),
                    pow2((ec - 1) as nat) * pow2(24) == pow2((kc + 24) as nat),
            ;
            assert(decomp(cm, sc as int, kc + 25));
            assert(sval(v2.0) * pow2(24) == (if sign2 == 1 {
                -cm
            } else {
                cm
            })) by (nonlinear_arith)
                requires
                    cm == mag24(v2.0) * pow2(24),
                    sval(v2.0) == (if sign_of(v2.0) == 1 {
                        -mag24(v2.0)
                    } else {
                        mag24(v2.0)
                    }),
                    sign2 == sign_of(v2.0),
            ;
            assert(cm >= 1 && sc >= 1) by (nonlinear_arith)
                requires
                    cm == sc * pow2((kc + 24) as nat),
                    mag24(v2.0) == sc * pow2((ec - 1) as nat),
                    mag24(v2.0) >= 1,
                    pow2((kc + 24) as nat) >= 1,
                    pow2((ec - 1) as nat) >= 1,
                    sc >= 0,
            ;
            lemma_pow2_mul(40, 24);
            lemma_pow2_strictly_increases(64, 81);
            assert(cm < pow2(81)) by (nonlinear_arith)
                requires
                    cm == mag24(v2.0) * pow2(24),
                    0 <= mag24(v2.0) <= 2047 * pow2(29),
                    2047 < pow2(11),
                    pow2(11) * pow2(29) == pow2(40),
                    pow2(40) * pow2(24) == pow2(64),
                    pow2(64) < pow2(81),
                    pow2(24) >= 1,
                    pow2(29) >= 1,
                    pow2(11) >= 1,
            ;
            lemma_pow2_pos((ec - 1) as nat);
            lemma_pow2_pos((kc + 24) as nat);
        }
        let out: u16;
        if kc - kp >= 26 {
            // the product cannot reach the addend's rounding window
            proof {
                lemma_decomp_bound(pm, mp as int, kp + 25, 22);
                assert(pow2((22 + kp + 24) as nat) <= pow2((20 + kc) as nat)) by {
                    if 22 + kp + 24 < 20 + kc {
                        lemma_pow2_strictly_increases((22 + kp + 24) as nat, (20 + kc) as nat);
                    }
                }
            }
            out = fma_far(sign2, sc, kc, sgn_p == sign2, Ghost(pm), Ghost(cm), Ghost(t));
        } else {
            out = fma_near(sgn_p, mp, kp, sign2, sc, kc, Ghost(pm), Ghost(cm), Ghost(t));
            proof {
                if t == 0 {
                    assert(out == 0);
                }
            }
        }
        Self::from_bits(out)
    }
}

} // verus!
