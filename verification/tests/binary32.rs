use donut::binary32::{Binary32, INFINITY_BITS, SIGN_BIT};

fn word(value: f32) -> Binary32 {
    Binary32 { bits: value.to_bits() }
}

/// Numbers of every class: zeros, subnormal and normal numbers of both signs,
/// neighbours in the last place, infinities and NaNs.
fn specimens() -> Vec<f32> {
    vec![
        0.0,
        -0.0,
        f32::from_bits(1),
        f32::from_bits(0x8000_0001),
        f32::from_bits(0x007f_ffff),
        f32::MIN_POSITIVE,
        -f32::MIN_POSITIVE,
        0.124_999_99,
        0.125,
        0.5,
        -0.5,
        0.999_999_94,
        1.0,
        1.000_000_1,
        -1.0,
        2.999,
        3.0,
        99.999_99,
        100.0,
        16_777_216.0,
        -16_777_216.0,
        1.0e30,
        f32::MAX,
        f32::MIN,
        f32::INFINITY,
        f32::NEG_INFINITY,
        f32::NAN,
        f32::from_bits(0x7f80_0001),
        f32::from_bits(0xffc0_0000),
    ]
}

/// A fixed walk through the 32-bit words that touches every exponent.
fn walk(count: usize) -> Vec<u32> {
    let mut words = Vec::with_capacity(count);
    let mut state: u32 = 0x2545_f491;
    for _ in 0..count {
        state = state.wrapping_mul(1_664_525).wrapping_add(1_013_904_223);
        words.push(state);
    }
    words
}

fn index_by_hardware(value: f32, limit: usize) -> Option<usize> {
    if value >= 0.0 && value < limit as f32 {
        Some(value as usize)
    } else {
        None
    }
}

#[test]
fn named_words_are_the_standard_ones() {
    assert_eq!(INFINITY_BITS, f32::INFINITY.to_bits());
    assert_eq!(SIGN_BIT, (-0.0f32).to_bits());
}

#[test]
fn is_nan_tells_nans_from_numbers() {
    assert!(word(f32::NAN).is_nan());
    assert!(Binary32 { bits: 0x7f80_0001 }.is_nan());
    assert!(Binary32 { bits: 0xffff_ffff }.is_nan());
    assert!(!word(f32::INFINITY).is_nan());
    assert!(!word(f32::NEG_INFINITY).is_nan());
    assert!(!word(0.0).is_nan());
    assert!(!word(f32::MAX).is_nan());
    for value in specimens() {
        assert_eq!(word(value).is_nan(), value.is_nan(), "{value:?}");
    }
}

#[test]
fn is_nan_agrees_with_hardware_on_a_walk() {
    for bits in walk(200_000) {
        assert_eq!(Binary32 { bits }.is_nan(), f32::from_bits(bits).is_nan(), "{bits:#x}");
    }
}

#[test]
fn is_positive_is_greater_than_zero() {
    assert!(word(1.0).is_positive());
    assert!(word(f32::from_bits(1)).is_positive());
    assert!(word(f32::INFINITY).is_positive());
    assert!(!word(0.0).is_positive());
    assert!(!word(-0.0).is_positive());
    assert!(!word(-1.0).is_positive());
    assert!(!word(f32::NEG_INFINITY).is_positive());
    assert!(!word(f32::NAN).is_positive());
    assert!(!Binary32 { bits: 0xffc0_0000 }.is_positive());
    for value in specimens() {
        assert_eq!(word(value).is_positive(), value > 0.0, "{value:?}");
    }
}

#[test]
fn is_positive_agrees_with_hardware_on_a_walk() {
    for bits in walk(200_000) {
        assert_eq!(Binary32 { bits }.is_positive(), f32::from_bits(bits) > 0.0, "{bits:#x}");
    }
}

#[test]
fn exceeds_is_the_hardware_comparison() {
    for a in specimens() {
        for b in specimens() {
            assert_eq!(word(a).exceeds(word(b)), a > b, "{a:?} > {b:?}");
        }
    }
}

#[test]
fn exceeds_agrees_with_hardware_on_a_walk() {
    let words = walk(200_001);
    for pair in words.windows(2) {
        let (a, b) = (pair[0], pair[1]);
        assert_eq!(
            Binary32 { bits: a }.exceeds(Binary32 { bits: b }),
            f32::from_bits(a) > f32::from_bits(b),
            "{a:#x} > {b:#x}"
        );
    }
}

#[test]
fn exceeds_orders_neighbours_in_the_last_place() {
    for bits in [0u32, 1, 0x007f_ffff, 0x0080_0000, 0x3f7f_ffff, 0x3f80_0000, 0x7f7f_ffff] {
        let low = Binary32 { bits };
        let high = Binary32 { bits: bits + 1 };
        assert!(high.exceeds(low), "{bits:#x}");
        assert!(!low.exceeds(high), "{bits:#x}");
        let low_negative = Binary32 { bits: (bits + 1) | SIGN_BIT };
        let high_negative = Binary32 { bits: bits | SIGN_BIT };
        assert_eq!(high_negative.exceeds(low_negative), true, "{bits:#x}");
        assert_eq!(low_negative.exceeds(high_negative), false, "{bits:#x}");
    }
}

#[test]
fn exceeds_treats_the_two_zeros_as_equal() {
    assert!(!word(0.0).exceeds(word(-0.0)));
    assert!(!word(-0.0).exceeds(word(0.0)));
    assert!(!word(0.0).exceeds(word(0.0)));
}

#[test]
fn exceeds_is_false_with_a_nan_on_either_side() {
    for value in specimens() {
        assert!(!word(f32::NAN).exceeds(word(value)));
        assert!(!word(value).exceeds(word(f32::NAN)));
    }
}

#[test]
fn to_index_cuts_off_the_fraction() {
    assert_eq!(word(0.0).to_index(100), Some(0));
    assert_eq!(word(0.999_999_94).to_index(100), Some(0));
    assert_eq!(word(1.0).to_index(100), Some(1));
    assert_eq!(word(1.5).to_index(100), Some(1));
    assert_eq!(word(2.999).to_index(100), Some(2));
    assert_eq!(word(3.0).to_index(100), Some(3));
    assert_eq!(word(50.0).to_index(100), Some(50));
    assert_eq!(word(96.875).to_index(100), Some(96));
    assert_eq!(word(99.999_99).to_index(100), Some(99));
}

#[test]
fn to_index_refuses_what_lies_outside() {
    assert_eq!(word(100.0).to_index(100), None);
    assert_eq!(word(100.5).to_index(100), None);
    assert_eq!(word(1.0e30).to_index(100), None);
    assert_eq!(word(f32::MAX).to_index(100), None);
    assert_eq!(word(f32::INFINITY).to_index(100), None);
    assert_eq!(word(-1.0).to_index(100), None);
    assert_eq!(word(-0.5).to_index(100), None);
    assert_eq!(word(f32::from_bits(0x8000_0001)).to_index(100), None);
    assert_eq!(word(f32::NEG_INFINITY).to_index(100), None);
    assert_eq!(word(f32::NAN).to_index(100), None);
    assert_eq!(Binary32 { bits: 0xffc0_0000 }.to_index(100), None);
}

#[test]
fn to_index_takes_minus_zero_as_zero() {
    assert_eq!(word(-0.0).to_index(100), Some(0));
    assert_eq!(word(-0.0).to_index(1), Some(0));
}

#[test]
fn to_index_of_an_empty_range_is_none() {
    assert_eq!(word(0.0).to_index(0), None);
    assert_eq!(word(-0.0).to_index(0), None);
    assert_eq!(word(5.0).to_index(0), None);
}

#[test]
fn to_index_handles_large_numbers_exactly() {
    assert_eq!(word(16_777_216.0).to_index(usize::MAX), Some(16_777_216));
    assert_eq!(word(16_777_215.0).to_index(16_777_216), Some(16_777_215));
    assert_eq!(word(16_777_216.0).to_index(16_777_216), None);
    assert_eq!(word(4_294_967_296.0).to_index(usize::MAX), Some(4_294_967_296));
    // 2^63 and the largest binary32 number below 2^64 still fit.
    assert_eq!(word(9_223_372_036_854_775_808.0).to_index(usize::MAX), Some(1 << 63));
    assert_eq!(
        Binary32 { bits: 0x5f7f_ffff }.to_index(usize::MAX),
        Some(0xffff_ff00_0000_0000)
    );
    // 2^64 does not.
    assert_eq!(word(18_446_744_073_709_551_616.0).to_index(usize::MAX), None);
}

#[test]
fn to_index_agrees_with_hardware_on_a_walk() {
    for bits in walk(200_000) {
        let value = f32::from_bits(bits);
        for limit in [1usize, 100, 1 << 20] {
            assert_eq!(
                Binary32 { bits }.to_index(limit),
                index_by_hardware(value, limit),
                "{bits:#x} below {limit}"
            );
        }
    }
}

#[test]
fn to_index_agrees_with_hardware_across_a_screen() {
    // Every binary32 number from just below zero to just above one hundred,
    // taken in steps of 37 words.
    let mut bits = 0u32;
    while bits <= 0x42c8_1000 {
        let value = f32::from_bits(bits);
        assert_eq!(Binary32 { bits }.to_index(100), index_by_hardware(value, 100), "{bits:#x}");
        let negative = bits | SIGN_BIT;
        assert_eq!(
            Binary32 { bits: negative }.to_index(100),
            index_by_hardware(f32::from_bits(negative), 100),
            "{negative:#x}"
        );
        bits += 37;
    }
}
