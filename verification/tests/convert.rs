use soft_float::SoftFloat16;

#[test]
fn test_softfloat16_from_i32() {
    for (x, expected) in [
        (1, 0x3c00),
        (2, 0x4000),
        (64, 0x5400),
        (65503, 0x7bff),
        (65504, 0x7bff),
        (65536, 0x7c00),
    ] {
        let y = SoftFloat16::from_i32(x);
        assert_eq!(SoftFloat16::to_bits(y), expected)
    }
}

#[test]
fn test_i32_from_softfloat16() {
    for (v, expected) in [
        (0x5894, 146),
        (0x609d, 590),
        (0x649d, 1181),
        (0x709d, 9448),
        (0x70E9, 0x2748),
        (0xf09d, -9448),
    ] {
        let x = SoftFloat16::from_bits(v);
        let y = SoftFloat16::to_i32(x);
        assert_eq!(y, expected)
    }
}

#[test]
fn test_softfloat16_from_f32() {
    for (v, expected) in [
        (0x7FFF0007, 0x7e00),
        (0x337fc010, 0x1),
        (0x331ffffc, 0x1),
        (0x337FFFC4, 0x1),
    ] {
        let x = f32::from_bits(v);
        let y = SoftFloat16::from_f32_bits(x.to_bits());
        assert_eq!(SoftFloat16::to_bits(y), expected)
    }
}

#[test]
fn test_f32_from_softfloat16() {
    for (v, expected) in [(0x97db, 0xbafb6000_u32), (0xe850, 0xc50a0000_u32), (0x1, 0x33800000)] {
        let x = SoftFloat16::from_bits(v);
        let y = SoftFloat16::to_f32_bits(x);
        assert_eq!(y, expected)
    }
}

#[test]
fn test_from_i32_saturation_and_sign() {
    assert_eq!(SoftFloat16::to_bits(SoftFloat16::from_i32(0)), 0x0000);
    assert_eq!(SoftFloat16::to_bits(SoftFloat16::from_i32(-1)), 0xbc00);
    assert_eq!(SoftFloat16::to_bits(SoftFloat16::from_i32(-65536)), 0xfc00);
    assert_eq!(SoftFloat16::to_bits(SoftFloat16::from_i32(i32::MIN)), 0xfc00);
    assert_eq!(SoftFloat16::to_bits(SoftFloat16::from_i32(i32::MAX)), 0x7c00);
    // a rounding tie goes to the even significand
    assert_eq!(SoftFloat16::to_bits(SoftFloat16::from_i32(2049)), 0x6800);
    assert_eq!(SoftFloat16::to_bits(SoftFloat16::from_i32(2051)), 0x6802);
}

#[test]
fn test_to_i32_specials() {
    // NaN and both infinities give the largest-magnitude negative integer
    assert_eq!(SoftFloat16::to_i32(SoftFloat16::from_bits(0x7e01)), i32::MIN);
    assert_eq!(SoftFloat16::to_i32(SoftFloat16::from_bits(0x7c00)), i32::MIN);
    assert_eq!(SoftFloat16::to_i32(SoftFloat16::from_bits(0xfc00)), i32::MIN);
    // below one half rounds to zero, exactly one half to the even integer
    assert_eq!(SoftFloat16::to_i32(SoftFloat16::from_bits(0x3400)), 0);
    assert_eq!(SoftFloat16::to_i32(SoftFloat16::from_bits(0x3800)), 0);
    assert_eq!(SoftFloat16::to_i32(SoftFloat16::from_bits(0x3e00)), 2);
    assert_eq!(SoftFloat16::to_i32(SoftFloat16::from_bits(0xbe00)), -2);
    assert_eq!(SoftFloat16::to_i32(SoftFloat16::from_bits(0x7bff)), 65504);
}

#[test]
fn test_f32_round_trip_all_patterns() {
    // every canonical pattern survives the trip through binary32
    for i in 0..=u16::MAX {
        let x = SoftFloat16::from_bits(i);
        let y = SoftFloat16::from_f32_bits(SoftFloat16::to_f32_bits(x));
        assert_eq!(SoftFloat16::to_bits(y), SoftFloat16::to_bits(x), "{:04x}", i);
    }
}

#[test]
fn test_from_f32_narrowing_ties() {
    for (v, expected) in [
        // just above one rounds back down to one
        (0x3f800001u32, 0x3c00u16),
        // the largest finite binary16 value
        (0x477fe000, 0x7bff),
        // exactly halfway to the next binade: ties to even overflow
        (0x477ff000, 0x7c00),
        // just below that tie stays finite
        (0x477fefff, 0x7bff),
        // a tie that rounds down to the even significand
        (0x477fd000, 0x7bfe),
        // binary32 subnormals collapse to the signed zero
        (0x00000001, 0x0000),
        (0x80000001, 0x8000),
        (0x7f800000, 0x7c00),
        (0xff800000, 0xfc00),
    ] {
        let y = SoftFloat16::from_f32_bits(v);
        assert_eq!(SoftFloat16::to_bits(y), expected, "{:08x}", v);
    }
}
