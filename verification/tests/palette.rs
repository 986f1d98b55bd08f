use donut::binary32::Binary32;
use donut::palette::{luminance_index, shade, GRADIENT, PALETTE_LEN};

fn word(value: f32) -> Binary32 {
    Binary32 { bits: value.to_bits() }
}

fn index_by_hardware(luminance: f32) -> usize {
    ((luminance * 8.0) as usize).min(11)
}

#[test]
fn gradient_is_the_twelve_colour_ramp() {
    assert_eq!(PALETTE_LEN, 12);
    assert_eq!(
        GRADIENT,
        [
            0x19071a, 0x09012f, 0x040449, 0x000764, 0x397dd1, 0x86b5e5, 0xd3ecf8, 0xf1e9bf,
            0xf8c95f, 0xffaa00, 0xcc8000, 0x6a3403
        ]
    );
}

#[test]
fn luminance_index_is_the_floor_of_eight_times_the_luminance() {
    assert_eq!(luminance_index(word(0.0)), 0);
    assert_eq!(luminance_index(word(0.1)), 0);
    assert_eq!(luminance_index(word(0.125)), 1);
    assert_eq!(luminance_index(word(0.3)), 2);
    assert_eq!(luminance_index(word(0.5)), 4);
    assert_eq!(luminance_index(word(0.7)), 5);
    assert_eq!(luminance_index(word(1.0)), 8);
    assert_eq!(luminance_index(word(1.3)), 10);
    assert_eq!(luminance_index(word(std::f32::consts::SQRT_2)), 11);
}

#[test]
fn luminance_index_has_no_off_by_one_at_a_boundary() {
    // 8 * l = 2.999 and 8 * l = 3.000
    assert_eq!(luminance_index(word(2.999 / 8.0)), 2);
    assert_eq!(luminance_index(word(3.0 / 8.0)), 3);
    for k in 1..=11u32 {
        let boundary = k as f32 / 8.0;
        let just_below = f32::from_bits(boundary.to_bits() - 1);
        let just_above = f32::from_bits(boundary.to_bits() + 1);
        assert_eq!(luminance_index(word(boundary)), k as usize, "at {boundary}");
        assert_eq!(luminance_index(word(just_below)), k as usize - 1, "below {boundary}");
        assert_eq!(luminance_index(word(just_above)), k as usize, "above {boundary}");
    }
}

#[test]
fn luminance_index_stays_within_the_ramp() {
    assert_eq!(luminance_index(word(1.5)), 11);
    assert_eq!(luminance_index(word(1.499_999_9)), 11);
    assert_eq!(luminance_index(word(100.0)), 11);
    assert_eq!(luminance_index(word(f32::MAX)), 11);
    assert_eq!(luminance_index(word(f32::INFINITY)), 11);
    assert_eq!(luminance_index(word(-0.0)), 0);
    assert_eq!(luminance_index(word(-0.3)), 0);
    assert_eq!(luminance_index(word(-100.0)), 0);
    assert_eq!(luminance_index(word(f32::NEG_INFINITY)), 0);
    assert_eq!(luminance_index(word(f32::NAN)), 0);
    assert_eq!(luminance_index(word(f32::from_bits(1))), 0);
    assert_eq!(luminance_index(word(f32::MIN_POSITIVE)), 0);
}

#[test]
fn luminance_index_agrees_with_hardware_over_the_range_of_luminance() {
    // Every binary32 number from zero to beyond the square root of two, in
    // steps of 29 words, and its negative.
    let mut bits = 0u32;
    while bits <= 0x4000_0000 {
        let value = f32::from_bits(bits);
        assert_eq!(luminance_index(Binary32 { bits }), index_by_hardware(value), "{bits:#x}");
        let negative = bits | 0x8000_0000;
        assert_eq!(luminance_index(Binary32 { bits: negative }), 0, "{negative:#x}");
        bits += 29;
    }
}

#[test]
fn luminance_index_agrees_with_hardware_on_a_walk() {
    let mut state: u32 = 0x9e37_79b9;
    for _ in 0..200_000 {
        state = state.wrapping_mul(1_664_525).wrapping_add(1_013_904_223);
        let value = f32::from_bits(state);
        assert_eq!(luminance_index(Binary32 { bits: state }), index_by_hardware(value), "{state:#x}");
    }
}

#[test]
fn shade_picks_the_colour_of_the_bucket() {
    assert_eq!(shade(word(0.0)), 0x19071a);
    assert_eq!(shade(word(0.05)), 0x19071a);
    assert_eq!(shade(word(0.2)), 0x09012f);
    assert_eq!(shade(word(2.999 / 8.0)), 0x040449);
    assert_eq!(shade(word(3.0 / 8.0)), 0x000764);
    assert_eq!(shade(word(0.5)), 0x397dd1);
    assert_eq!(shade(word(0.7)), 0x86b5e5);
    assert_eq!(shade(word(0.8)), 0xd3ecf8);
    assert_eq!(shade(word(0.9)), 0xf1e9bf);
    assert_eq!(shade(word(1.0)), 0xf8c95f);
    assert_eq!(shade(word(1.2)), 0xffaa00);
    assert_eq!(shade(word(1.3)), 0xcc8000);
    assert_eq!(shade(word(1.4)), 0x6a3403);
    assert_eq!(shade(word(7.0)), 0x6a3403);
    for k in 0..12 {
        assert_eq!(shade(word((k as f32 + 0.5) / 8.0)), GRADIENT[k]);
    }
}
