use soft_float::RoundTiesEven;
use soft_float::SoftFloat16;

fn to_f32(x: SoftFloat16) -> f32 {
    f32::from_bits(SoftFloat16::to_f32_bits(x))
}

fn from_f32(v: f32) -> SoftFloat16 {
    SoftFloat16::from_f32_bits(v.to_bits())
}

const NAN_BITS: u16 = 0x7e00;

#[test]
fn test_round() {
    for v in [0x47ff] {
        let x = SoftFloat16::from_bits(v);
        let y = SoftFloat16::round_ties_even(x);
        let y_f = from_f32(to_f32(x).round_ties_even());
        if SoftFloat16::to_bits(y) == NAN_BITS || SoftFloat16::to_bits(y_f) == NAN_BITS {
            assert!(SoftFloat16::to_bits(y) == NAN_BITS, "{}", v);
            assert!(SoftFloat16::to_bits(y_f) == NAN_BITS, "{}", v);
        } else {
            assert_eq!(
                SoftFloat16::to_bits(y),
                SoftFloat16::to_bits(y_f),
                "\n{}\n  {:016b}\n  {:016b}",
                v,
                SoftFloat16::to_bits(y),
                SoftFloat16::to_bits(y_f),
            );
        }
    }
}

#[test]
fn test_all_clz() {
    for i in 0..u16::MAX {
        let x = SoftFloat16::from_bits(i);
        let b = SoftFloat16::to_bits(x);
        assert_eq!(SoftFloat16::clz(b), b.leading_zeros() as u16);
    }
}

#[test]
fn test_round_scenarios() {
    // 3.998... rounds up to 4.0, 7.996... to 8.0
    let y = SoftFloat16::round_ties_even(SoftFloat16::from_bits(0x43ff));
    assert_eq!(SoftFloat16::to_bits(y), 0x4400);
    let y = SoftFloat16::round_ties_even(SoftFloat16::from_bits(0x47ff));
    assert_eq!(SoftFloat16::to_bits(y), 0x4800);
    // halves round to the even neighbour
    let y = SoftFloat16::round_ties_even(SoftFloat16::from_bits(0x3e00));
    assert_eq!(SoftFloat16::to_bits(y), 0x4000);
    let y = SoftFloat16::round_ties_even(SoftFloat16::from_bits(0x3800));
    assert_eq!(SoftFloat16::to_bits(y), 0x0000);
    // the sign of a zero result follows the input
    let y = SoftFloat16::round_ties_even(SoftFloat16::from_bits(0xb800));
    assert_eq!(SoftFloat16::to_bits(y), 0x8000);
    // NaN and infinities pass through
    let y = SoftFloat16::round_ties_even(SoftFloat16::from_bits(0x7e00));
    assert_eq!(SoftFloat16::to_bits(y), 0x7e00);
    let y = SoftFloat16::round_ties_even(SoftFloat16::from_bits(0xfc00));
    assert_eq!(SoftFloat16::to_bits(y), 0xfc00);
}

#[test]
fn test_nan_canonicalization() {
    // every non-canonical NaN pattern collapses on ingest
    for i in 0..=u16::MAX {
        let exponent = (i / 0x400) % 0x20;
        let significand = i % 0x400;
        let x = SoftFloat16::from_bits(i);
        if exponent == 0x1f && significand != 0 {
            assert_eq!(SoftFloat16::to_bits(x), NAN_BITS, "{:04x}", i);
        } else {
            assert_eq!(SoftFloat16::to_bits(x), i, "{:04x}", i);
        }
    }
}

#[test]
fn test_neg_involutive_all_patterns() {
    for i in 0..=u16::MAX {
        let x = SoftFloat16::from_bits(i);
        let y = SoftFloat16::neg(SoftFloat16::neg(x));
        assert_eq!(SoftFloat16::to_bits(y), SoftFloat16::to_bits(x), "{:04x}", i);
    }
    let n = SoftFloat16::neg(SoftFloat16::from_bits(NAN_BITS));
    assert_eq!(SoftFloat16::to_bits(n), NAN_BITS);
}

#[test]
fn test_eq_and_ordering() {
    let nan = SoftFloat16::from_bits(0x7e00);
    let pz = SoftFloat16::from_bits(0x0000);
    let nz = SoftFloat16::from_bits(0x8000);
    let one = SoftFloat16::from_bits(0x3c00);
    let neg_one = SoftFloat16::from_bits(0xbc00);
    let inf = SoftFloat16::from_bits(0x7c00);
    let ninf = SoftFloat16::from_bits(0xfc00);
    // NaN compares unequal to everything, including itself
    assert!(nan != nan);
    assert!(nan != one);
    assert!(!(nan < one) && !(nan > one) && !(nan <= one));
    // the two zeros are equal and neither is less than the other
    assert!(pz == nz);
    assert!(!(nz < pz));
    // signs order first, then magnitudes, infinities at the ends
    assert!(neg_one < pz);
    assert!(pz < one);
    assert!(one < inf);
    assert!(ninf < neg_one);
    assert!(one == one);
    assert!(one <= one);
    // a reflexivity sweep over every non-NaN pattern
    for i in 0..=u16::MAX {
        let x = SoftFloat16::from_bits(i);
        if SoftFloat16::to_bits(x) != NAN_BITS {
            assert!(x == x, "{:04x}", i);
        }
    }
}

#[test]
fn test_ordering_matches_f32() {
    // spot-check the order against binary32 comparisons
    let patterns = [
        0x0000u16, 0x8000, 0x0001, 0x8001, 0x03ff, 0x0400, 0x3c00, 0xbc00, 0x7bff, 0xfbff,
        0x7c00, 0xfc00, 0x7e00, 0x4000, 0x3555,
    ];
    for &a in patterns.iter() {
        for &b in patterns.iter() {
            let x = SoftFloat16::from_bits(a);
            let y = SoftFloat16::from_bits(b);
            assert_eq!(x < y, to_f32(x) < to_f32(y), "{:?}", (a, b));
            assert_eq!(x <= y, to_f32(x) <= to_f32(y), "{:?}", (a, b));
            assert_eq!(x == y, to_f32(x) == to_f32(y), "{:?}", (a, b));
        }
    }
}

#[test]
fn test_round_all_patterns_match_f32() {
    for i in 0..=u16::MAX {
        let x = SoftFloat16::from_bits(i);
        let y = SoftFloat16::round_ties_even(x);
        let y_f = from_f32(to_f32(x).round_ties_even());
        assert_eq!(SoftFloat16::to_bits(y), SoftFloat16::to_bits(y_f), "{:04x}", i);
    }
}
