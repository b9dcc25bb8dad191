//! Cross-checks against binary32 arithmetic.  Binary32 carries more than
//! twice the significand bits of binary16 plus two, so computing in
//! binary32 and narrowing once is itself correctly rounded; every binary
//! operation must agree with it bit for bit.

use soft_float::MulAdd;
use soft_float::SoftFloat16;

fn to_f32(x: SoftFloat16) -> f32 {
    f32::from_bits(SoftFloat16::to_f32_bits(x))
}

fn from_f32(v: f32) -> SoftFloat16 {
    SoftFloat16::from_f32_bits(v.to_bits())
}


// A spread of patterns that exercises every class: zeros, subnormals at
// both ends, normals across the binades, boundary values, infinities,
// NaNs, and both signs of each.
fn sample_patterns() -> Vec<u16> {
    let mut v: Vec<u16> = Vec::new();
    for base in [
        0x0000u16, 0x0001, 0x0002, 0x0003, 0x01ff, 0x0200, 0x03ff, 0x0400, 0x0401, 0x07ff,
        0x0800, 0x0c00, 0x13ff, 0x1400, 0x2400, 0x33ff, 0x3400, 0x3800, 0x3bff, 0x3c00, 0x3c01,
        0x3fff, 0x4000, 0x4001, 0x42ff, 0x4400, 0x4801, 0x4fff, 0x5400, 0x63ff, 0x6800, 0x6bff,
        0x7001, 0x77ff, 0x7800, 0x7bfe, 0x7bff, 0x7c00, 0x7c01, 0x7e00, 0x7fff,
    ] {
        v.push(base);
        v.push(base | 0x8000);
    }
    v
}

fn check_binary_op(
    name: &str,
    op: impl Fn(SoftFloat16, SoftFloat16) -> SoftFloat16,
    op_f: impl Fn(f32, f32) -> f32,
) {
    let pats = sample_patterns();
    for &i in pats.iter() {
        for &j in pats.iter() {
            let x = SoftFloat16::from_bits(i);
            let y = SoftFloat16::from_bits(j);
            let r = op(x, y);
            let r_f = from_f32(op_f(to_f32(x), to_f32(y)));
            let rb = SoftFloat16::to_bits(r);
            let rfb = SoftFloat16::to_bits(r_f);
            assert_eq!(rb, rfb, "{} {:04x} {:04x}", name, i, j);
        }
    }
}

#[test]
fn test_add_matches_f32_reference() {
    check_binary_op("add", SoftFloat16::add, |a, b| a + b);
}

#[test]
fn test_sub_matches_f32_reference() {
    check_binary_op("sub", SoftFloat16::sub, |a, b| a - b);
}

#[test]
fn test_mul_matches_f32_reference() {
    check_binary_op("mul", SoftFloat16::mul, |a, b| a * b);
}

#[test]
fn test_div_matches_f32_reference() {
    check_binary_op("div", SoftFloat16::div, |a, b| a / b);
}

#[test]
fn test_add_every_pattern_against_selected() {
    // every pattern on the left, a few representative partners on the right
    for i in 0..=u16::MAX {
        for j in [0x0001u16, 0x3c00, 0xbc01, 0x7bff, 0x0400, 0xfc00] {
            let x = SoftFloat16::from_bits(i);
            let y = SoftFloat16::from_bits(j);
            let r = SoftFloat16::add(x, y);
            let r_f = from_f32(to_f32(x) + to_f32(y));
            assert_eq!(
                SoftFloat16::to_bits(r),
                SoftFloat16::to_bits(r_f),
                "add {:04x} {:04x}",
                i,
                j
            );
        }
    }
}

#[test]
fn test_mul_every_pattern_against_selected() {
    for i in 0..=u16::MAX {
        for j in [0x0001u16, 0x3c00, 0xbc01, 0x7bff, 0x0400, 0x4000] {
            let x = SoftFloat16::from_bits(i);
            let y = SoftFloat16::from_bits(j);
            let r = SoftFloat16::mul(x, y);
            let r_f = from_f32(to_f32(x) * to_f32(y));
            assert_eq!(
                SoftFloat16::to_bits(r),
                SoftFloat16::to_bits(r_f),
                "mul {:04x} {:04x}",
                i,
                j
            );
        }
    }
}

#[test]
fn test_div_every_pattern_against_selected() {
    for i in 0..=u16::MAX {
        for j in [0x0001u16, 0x3c00, 0xbc01, 0x7bff, 0x0400, 0x4000] {
            let x = SoftFloat16::from_bits(i);
            let y = SoftFloat16::from_bits(j);
            let r = SoftFloat16::div(x, y);
            let r_f = from_f32(to_f32(x) / to_f32(y));
            assert_eq!(
                SoftFloat16::to_bits(r),
                SoftFloat16::to_bits(r_f),
                "div {:04x} {:04x}",
                i,
                j
            );
        }
    }
}

#[test]
fn test_mul_add_matches_exact_reference() {
    // the fused result is checked against exact integer arithmetic: every
    // finite binary16 value is an integer multiple of 2^-24, so the exact
    // value of a * b + c is an integer in units of 2^-48
    let pats = sample_patterns();
    for &i in pats.iter() {
        for &j in pats.iter() {
            for &k in [0x0000u16, 0x0001, 0x3c00, 0xbc05, 0x7bff, 0x7c00, 0x8000, 0x8c01].iter() {
                let x = SoftFloat16::from_bits(i);
                let y = SoftFloat16::from_bits(j);
                let z = SoftFloat16::from_bits(k);
                if !finite(i) || !finite(j) || !finite(k) {
                    continue;
                }
                let r = SoftFloat16::mul_add(x, y, z);
                let t = sval24(SoftFloat16::to_bits(x)) * sval24(SoftFloat16::to_bits(y))
                    + sval24(SoftFloat16::to_bits(z)) * (1i128 << 24);
                let zero_in = sval24(i) == 0 || sval24(j) == 0 || sval24(k) == 0;
                if t == 0 && zero_in {
                    // sums of zeros take their sign from the operands; those
                    // cases are pinned down separately
                    continue;
                }
                let expected = if t == 0 {
                    0u16
                } else {
                    ref_round(t < 0, t.unsigned_abs(), 1u128 << 24)
                };
                assert_eq!(SoftFloat16::to_bits(r), expected, "fma {:04x} {:04x} {:04x}", i, j, k);
            }
        }
    }
}

fn finite(b: u16) -> bool {
    (b >> 10) & 0x1f != 0x1f
}

// The signed value of a finite pattern in units of 2^-24.
fn sval24(b: u16) -> i128 {
    let e = ((b >> 10) & 0x1f) as i128;
    let f = (b & 0x3ff) as i128;
    let mag = if e == 0 { f } else { (0x400 + f) << (e - 1) };
    if b >= 0x8000 { -mag } else { mag }
}

// Round the positive rational n / d (in units of 2^-24) to the nearest
// binary16 magnitude, ties to even, overflowing to infinity.
fn ref_round(neg: bool, n: u128, d: u128) -> u16 {
    let sign: u16 = if neg { 0x8000 } else { 0 };
    // pick the quantum: 1 below the first normal binade, doubling per binade
    let mut e = 0u32;
    while n / (d << e) >= 2048 {
        e += 1;
    }
    let dd = d << e;
    let q = n / dd;
    let r = n % dd;
    let up = 2 * r > dd || (2 * r == dd && q % 2 == 1);
    let m = (q + up as u128) << e;
    if m >= 1 << 40 {
        return sign | 0x7c00;
    }
    if m < 1024 {
        return sign | m as u16;
    }
    let mut ee = 0u16;
    let mut mm = m;
    while mm >= 2048 {
        mm >>= 1;
        ee += 1;
    }
    sign | ((ee + 1) << 10) | (mm as u16 - 1024)
}
