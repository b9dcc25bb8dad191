use soft_float::MulAdd;
use soft_float::SoftFloat16;

fn to_f32(x: SoftFloat16) -> f32 {
    f32::from_bits(SoftFloat16::to_f32_bits(x))
}

fn from_f32(v: f32) -> SoftFloat16 {
    SoftFloat16::from_f32_bits(v.to_bits())
}

const NAN_BITS: u16 = 0x7e00;

#[test]
fn test_add() {
    for (v0, v1) in [
        (4143, 5311),
        (0x77, 0x15),
        (0x14bf, 0x142f),
        (0x87FF, 0xE850),
        (0x0000, 0x857F),
        (0x74FB, 0xE879),
        (0x7978, 0x0001),
        (0x0000, 0x0000),
        (0xC19A, 0xCFEB),
        (0x0200, 0x0200),
        (0x0301, 0x0101),
        (30721, 30721),
        (1025, 34816),
        (32768, 0),
        (32769, 1),
    ] {
        let x0 = SoftFloat16::from_bits(v0);
        let x1 = SoftFloat16::from_bits(v1);
        let y = SoftFloat16::add(x0, x1);
        let y_f = from_f32(to_f32(x0) + to_f32(x1));
        if SoftFloat16::to_bits(y) == NAN_BITS || SoftFloat16::to_bits(y_f) == NAN_BITS {
            assert!(SoftFloat16::to_bits(y) == NAN_BITS, "{:?}", (v0, v1));
            assert!(SoftFloat16::to_bits(y_f) == NAN_BITS, "{:?}", (v0, v1));
        } else {
            assert_eq!(
                SoftFloat16::to_bits(y),
                SoftFloat16::to_bits(y_f),
                "\n{:?}\n  {:016b}\n  {:016b}",
                (v0, v1),
                SoftFloat16::to_bits(y),
                SoftFloat16::to_bits(y_f),
            );
        }
    }
}

#[test]
fn test_mul() {
    for (v0, v1) in [
        (0x200, 0x200),
        (0x3c04, 0x3c04),
        (513, 5117),
        (1025, 4095),
        (1025, 16383),
        (1057, 14305),
        (15362, 31742),
        (16384, 30721),
    ] {
        let x0 = SoftFloat16::from_bits(v0);
        let x1 = SoftFloat16::from_bits(v1);
        let y = SoftFloat16::mul(x0, x1);
        let y_f = from_f32(to_f32(x0) * to_f32(x1));
        assert_eq!(SoftFloat16::to_bits(y), SoftFloat16::to_bits(y_f));
    }
}

#[test]
fn test_div() {
    for (v0, v1) in [
        (0x3c10, 0x3410),
        (0x24ff, 0x75f),
        (0x24ff, 0x11),
        (0x400, 0x7ff),
        (0x07ff, 0x400),
        (0x07ff, 0x350),
        (0x400, 0x401),
        (0x1, 0x3),
        (0x8, 0xab8),
        (0x1, 0x1401),
        (0x1, 0x1800),
        (0x1, 0x3c01),
        (4, 5),
        (0x1c01, 0x1),
        (0x7c00, 0x0),
        (0x7c00, 0x7c00),
        (1, 0),
        (0x87ff, 0xe850),
    ] {
        let x0 = SoftFloat16::from_bits(v0);
        let x1 = SoftFloat16::from_bits(v1);
        let y = SoftFloat16::div(x0, x1);
        let y_f = from_f32(to_f32(x0) / to_f32(x1));
        assert_eq!(SoftFloat16::to_bits(y), SoftFloat16::to_bits(y_f));
    }
}

#[test]
fn test_mul_add() {
    for (v0, v1, v2) in [
        (0x3e00, 0x3e00, 0x3e00),
        (0x3e00, 0x3e00, 0x3a00),
        (0x3e00, 0x3e00, 0x4200),
        (0x1e00, 0x1e00, 0x3200),
        (0x1e00, 0x1e00, 0x0200),
        (0x1a00, 0x1a00, 0x0100),
        (0x1, 0x1, 0x7bff),
        (0x5900, 0x5900, 0x1),
    ] {
        let x0 = SoftFloat16::from_bits(v0);
        let x1 = SoftFloat16::from_bits(v1);
        let x2 = SoftFloat16::from_bits(v2);
        let y = SoftFloat16::mul_add(x0, x1, x2);
        let y_f = from_f32(to_f32(x0).mul_add(to_f32(x1), to_f32(x2)));
        assert_eq!(SoftFloat16::to_bits(y), SoftFloat16::to_bits(y_f));
    }
}

#[test]
fn test_add_scenarios() {
    for (v0, v1, expected) in [
        (0x0200u16, 0x0200u16, 0x0400u16),
        (0x0301, 0x0101, 0x0402),
        (0x7801, 0x7801, 0x7c00),
        (0x0401, 0x8800, 0x83ff),
        (0x8000, 0x0000, 0x0000),
    ] {
        let y = SoftFloat16::add(SoftFloat16::from_bits(v0), SoftFloat16::from_bits(v1));
        assert_eq!(SoftFloat16::to_bits(y), expected, "{:04x} + {:04x}", v0, v1);
    }
}

#[test]
fn test_mul_scenarios() {
    let y = SoftFloat16::mul(SoftFloat16::from_bits(0x3c04), SoftFloat16::from_bits(0x3c04));
    assert_eq!(SoftFloat16::to_bits(y), 0x3c08);
    // a large product overflows to infinity and must match the f32 reference
    let a = SoftFloat16::from_bits(0x4000);
    let b = SoftFloat16::from_bits(0x7800);
    let y = SoftFloat16::mul(a, b);
    let y_f = from_f32(to_f32(a) * to_f32(b));
    assert_eq!(SoftFloat16::to_bits(y), SoftFloat16::to_bits(y_f));
    // zero times infinity is the canonical NaN
    let y = SoftFloat16::mul(SoftFloat16::from_bits(0x0000), SoftFloat16::from_bits(0x7c00));
    assert_eq!(SoftFloat16::to_bits(y), NAN_BITS);
}

#[test]
fn test_div_scenarios() {
    let one = SoftFloat16::from_bits(0x3c00);
    let two = SoftFloat16::from_bits(0x4000);
    let zero = SoftFloat16::from_bits(0x0000);
    assert_eq!(SoftFloat16::to_bits(SoftFloat16::div(one, two)), 0x3800);
    assert_eq!(SoftFloat16::to_bits(SoftFloat16::div(one, zero)), 0x7c00);
    assert_eq!(SoftFloat16::to_bits(SoftFloat16::div(zero, zero)), NAN_BITS);
    // inf / inf is NaN, x / inf is a signed zero
    let inf = SoftFloat16::from_bits(0x7c00);
    assert_eq!(SoftFloat16::to_bits(SoftFloat16::div(inf, inf)), NAN_BITS);
    let ninf = SoftFloat16::from_bits(0xfc00);
    assert_eq!(SoftFloat16::to_bits(SoftFloat16::div(one, ninf)), 0x8000);
}

#[test]
fn test_sub_is_add_of_negated() {
    // a spot check of the subtraction identity on a spread of patterns
    for v0 in [0u16, 1, 0x8000, 0x3c00, 0xbc00, 0x7bff, 0x7c00, 0xfc00, 0x7e00, 0x0401] {
        for v1 in [0u16, 1, 0x8000, 0x3c00, 0xbc00, 0x7bff, 0x7c00, 0xfc00, 0x7e00, 0x0401] {
            let x0 = SoftFloat16::from_bits(v0);
            let x1 = SoftFloat16::from_bits(v1);
            let d = SoftFloat16::sub(x0, x1);
            let a = SoftFloat16::add(x0, SoftFloat16::neg(x1));
            assert_eq!(SoftFloat16::to_bits(d), SoftFloat16::to_bits(a), "{:?}", (v0, v1));
        }
    }
}

#[test]
fn test_exact_cancellation_is_positive_zero() {
    for v in [0x0001u16, 0x0400, 0x3c00, 0x7bff, 0x8001, 0xbc00, 0x8000, 0x0000] {
        let x = SoftFloat16::from_bits(v);
        let y = SoftFloat16::add(x, SoftFloat16::neg(x));
        assert_eq!(SoftFloat16::to_bits(y), 0x0000, "{:04x}", v);
    }
    // both negative zeros keep the sign
    let nz = SoftFloat16::from_bits(0x8000);
    assert_eq!(SoftFloat16::to_bits(SoftFloat16::add(nz, nz)), 0x8000);
}

#[test]
fn test_fma_rounds_once() {
    // (1 + 2^-10)^2 = 1 + 2^-9 + 2^-20: the separate product rounds the
    // low term away, the fused version keeps it
    let a = SoftFloat16::from_bits(0x3c01);
    let c = SoftFloat16::from_bits(0xbc02);
    let fused = SoftFloat16::mul_add(a, a, c);
    let separate = SoftFloat16::add(SoftFloat16::mul(a, a), c);
    assert_eq!(SoftFloat16::to_bits(fused), 0x0010);
    assert_eq!(SoftFloat16::to_bits(separate), 0x0000);
    assert_ne!(SoftFloat16::to_bits(fused), SoftFloat16::to_bits(separate));
}

#[test]
fn test_fma_specials() {
    let zero = SoftFloat16::from_bits(0x0000);
    let inf = SoftFloat16::from_bits(0x7c00);
    let one = SoftFloat16::from_bits(0x3c00);
    // 0 * inf + x is invalid
    assert_eq!(SoftFloat16::to_bits(SoftFloat16::mul_add(zero, inf, one)), NAN_BITS);
    // inf * 1 + (-inf) is invalid
    let ninf = SoftFloat16::from_bits(0xfc00);
    assert_eq!(SoftFloat16::to_bits(SoftFloat16::mul_add(inf, one, ninf)), NAN_BITS);
    // inf * 1 + 1 stays infinite
    assert_eq!(SoftFloat16::to_bits(SoftFloat16::mul_add(inf, one, one)), 0x7c00);
    // (-0) * 1 + (-0) keeps the sign, (-0) * 1 + (+0) does not
    let nz = SoftFloat16::from_bits(0x8000);
    assert_eq!(SoftFloat16::to_bits(SoftFloat16::mul_add(nz, one, nz)), 0x8000);
    assert_eq!(SoftFloat16::to_bits(SoftFloat16::mul_add(nz, one, zero)), 0x0000);
}
