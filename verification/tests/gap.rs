use habforge::binary32::Binary32;
use habforge::gap::truncated_gap;

fn reading(value: f32) -> Binary32 {
    Binary32::from_bits(value.to_bits())
}

fn gap_of(a: f32, b: f32) -> u32 {
    truncated_gap(reading(a), reading(b))
}

fn native_gap(a: f32, b: f32) -> u32 {
    (a - b).abs() as u32
}

fn agrees_on_bits(a: u32, b: u32) {
    let expected = native_gap(f32::from_bits(a), f32::from_bits(b));
    let found = truncated_gap(Binary32::from_bits(a), Binary32::from_bits(b));
    assert_eq!(found, expected, "between {:#010x} and {:#010x}", a, b);
}

/// A fixed sequence of well-mixed 64-bit numbers.
fn next(state: &mut u64) -> u64 {
    *state = state.wrapping_add(0x9e37_79b9_7f4a_7c15);
    let mut z = *state;
    z = (z ^ (z >> 30)).wrapping_mul(0xbf58_476d_1ce4_e5b9);
    z = (z ^ (z >> 27)).wrapping_mul(0x94d0_49bb_1331_11eb);
    z ^ (z >> 31)
}

#[test]
fn gap_of_whole_readings_is_their_difference() {
    assert_eq!(gap_of(100.0, 95.0), 5);
    assert_eq!(gap_of(95.0, 100.0), 5);
    assert_eq!(gap_of(100.0, 80.0), 20);
    assert_eq!(gap_of(5.0, 5.0), 0);
    assert_eq!(gap_of(-3.0, 4.0), 7);
    assert_eq!(gap_of(4.0, -3.0), 7);
    assert_eq!(gap_of(-10.0, -4.0), 6);
    assert_eq!(gap_of(16777215.0, 0.0), 16777215);
}

#[test]
fn gap_drops_the_fraction() {
    assert_eq!(gap_of(42.5, 0.0), 42);
    assert_eq!(gap_of(0.75, 0.0), 0);
    assert_eq!(gap_of(0.0, -0.99), 0);
    assert_eq!(gap_of(110.75, 100.0), 10);
    assert_eq!(gap_of(1.5, -1.25), 2);
    assert_eq!(gap_of(f32::MIN_POSITIVE, 0.0), 0);
    assert_eq!(gap_of(f32::from_bits(1), f32::from_bits(0x8000_0001)), 0);
}

#[test]
fn gap_rounds_the_difference_before_truncating() {
    // 1 - 2^-30 is not representable and rounds up to 1.
    assert_eq!(gap_of(1.0, 9.313226e-10), 1);
    // The largest value below 1 is kept as it is.
    assert_eq!(gap_of(0.99999994, 0.0), 0);
    // 2^24 + 1 lies halfway and goes to the even significand, 2^24.
    assert_eq!(gap_of(16777216.0, -1.0), 16777216);
    // 2^24 + 3 lies halfway and goes to the even significand, 2^24 + 4.
    assert_eq!(gap_of(16777218.0, -1.0), 16777220);
    // 2^25 + 6 + 1 is above halfway between 2^25 + 4 and 2^25 + 8.
    assert_eq!(gap_of(33554436.0, -3.0), 33554440);
    // 2^23 - 2^-10 falls below the binade of 2^23 and is still not representable.
    assert_eq!(gap_of(8388608.0, 0.0009765625), 8388608);
    // 2^23 - 0.25 lies halfway between 2^23 - 0.5 and 2^23, whose significand is even.
    assert_eq!(gap_of(8388608.0, 0.25), 8388608);
    // 2^23 - 0.5 is representable.
    assert_eq!(gap_of(8388608.0, 0.5), 8388607);
}

#[test]
fn gap_saturates() {
    assert_eq!(gap_of(4294967040.0, 0.0), 4294967040);
    assert_eq!(gap_of(4294967296.0, 0.0), u32::MAX);
    assert_eq!(gap_of(3.0e9, -3.0e9), u32::MAX);
    assert_eq!(gap_of(f32::MAX, f32::MIN), u32::MAX);
    assert_eq!(gap_of(f32::MAX, 0.0), u32::MAX);
    assert_eq!(gap_of(1.0e20, 1.0), u32::MAX);
}

#[test]
fn gap_of_huge_neighbours() {
    // Neighbouring values at 2^40 are 2^17 apart.
    let low = 1099511627776.0_f32;
    let high = f32::from_bits(low.to_bits() + 1);
    assert_eq!(gap_of(high, low), 131072);
    assert_eq!(gap_of(low, low), 0);
    // Neighbouring values at 2^60 are more than the largest 32-bit integer apart.
    let low = 1152921504606846976.0_f32;
    let high = f32::from_bits(low.to_bits() + 1);
    assert_eq!(gap_of(high, low), u32::MAX);
}

#[test]
fn gap_with_an_infinity() {
    assert_eq!(gap_of(f32::INFINITY, 1.0), u32::MAX);
    assert_eq!(gap_of(1.0, f32::NEG_INFINITY), u32::MAX);
    assert_eq!(gap_of(f32::INFINITY, f32::NEG_INFINITY), u32::MAX);
    assert_eq!(gap_of(f32::NEG_INFINITY, f32::INFINITY), u32::MAX);
    assert_eq!(gap_of(f32::INFINITY, f32::INFINITY), 0);
    assert_eq!(gap_of(f32::NEG_INFINITY, f32::NEG_INFINITY), 0);
}

#[test]
fn gap_with_not_a_number() {
    assert_eq!(gap_of(f32::NAN, 1.0), 0);
    assert_eq!(gap_of(1.0, f32::NAN), 0);
    assert_eq!(gap_of(f32::NAN, f32::INFINITY), 0);
    assert_eq!(gap_of(f32::NAN, f32::NAN), 0);
    assert_eq!(truncated_gap(Binary32::from_bits(0xffc0_0001), Binary32::from_bits(0x4000_0000)), 0);
}

#[test]
fn gap_agrees_with_native_arithmetic_on_chosen_encodings() {
    let chosen = [
        0x0000_0000_u32, 0x8000_0000, 0x0000_0001, 0x0000_0002, 0x007f_ffff, 0x0080_0000,
        0x0080_0001, 0x00ff_ffff, 0x0100_0000, 0x3eff_ffff, 0x3f00_0000, 0x3f00_0001,
        0x3f7f_ffff, 0x3f80_0000, 0x3f80_0001, 0x3fff_ffff, 0x4000_0000, 0x4b00_0000,
        0x4b7f_ffff, 0x4b80_0000, 0x4b80_0001, 0x4f00_0000, 0x4f7f_ffff, 0x4f80_0000,
        0x4f80_0001, 0x5f00_0000, 0x7f7f_ffff, 0x7f80_0000, 0x7f80_0001, 0x7fc0_0000,
        0x7fff_ffff, 0x42c8_0000, 0x42be_0000, 0x42a0_0000, 0x422a_0000, 0x40a0_0000,
    ];
    for a in chosen {
        for b in chosen {
            agrees_on_bits(a, b);
            agrees_on_bits(a ^ 0x8000_0000, b);
            agrees_on_bits(a, b ^ 0x8000_0000);
            agrees_on_bits(a ^ 0x8000_0000, b ^ 0x8000_0000);
        }
    }
}

#[test]
fn gap_agrees_with_native_arithmetic_on_arbitrary_encodings() {
    let mut state = 1_u64;
    for _ in 0..200_000 {
        let word = next(&mut state);
        agrees_on_bits(word as u32, (word >> 32) as u32);
    }
}

#[test]
fn gap_agrees_with_native_arithmetic_near_the_integers() {
    // Exponent fields from 2^-27 to 2^36, where the truncated gap is neither 0 nor saturated.
    let mut state = 2_u64;
    for _ in 0..200_000 {
        let word = next(&mut state);
        let more = next(&mut state);
        let a_exponent = 100 + (more % 64) as u32;
        let b_exponent = 100 + ((more >> 8) % 64) as u32;
        let a = ((word as u32) & 0x807f_ffff) | (a_exponent << 23);
        let b = (((word >> 32) as u32) & 0x807f_ffff) | (b_exponent << 23);
        agrees_on_bits(a, b);
    }
}

#[test]
fn gap_agrees_with_native_arithmetic_between_close_values() {
    let mut state = 3_u64;
    for _ in 0..200_000 {
        let word = next(&mut state);
        let more = next(&mut state);
        let a = word as u32;
        let away = (more % 64) as u32;
        agrees_on_bits(a, a.wrapping_add(away));
        agrees_on_bits(a, a.wrapping_sub(away));
        agrees_on_bits(a, a ^ (1 << (more >> 8) % 32));
    }
}

#[test]
fn gap_agrees_with_native_arithmetic_on_sparse_significands() {
    // Significands with few bits set meet the halfway cases of rounding.
    let mut state = 4_u64;
    for _ in 0..200_000 {
        let word = next(&mut state);
        let more = next(&mut state);
        let a_fraction = (1_u32 << (word % 23)) | (1 << ((word >> 8) % 23));
        let b_fraction = (1_u32 << ((word >> 16) % 23)) | (1 << ((word >> 24) % 23));
        let a_exponent = 110 + (more % 60) as u32;
        let b_exponent = 110 + ((more >> 8) % 60) as u32;
        let a = (((more >> 16) as u32 & 1) << 31) | (a_exponent << 23) | (a_fraction & 0x7f_ffff);
        let b = (((more >> 17) as u32 & 1) << 31) | (b_exponent << 23) | (b_fraction & 0x7f_ffff);
        agrees_on_bits(a, b);
    }
}

#[test]
fn gap_is_symmetric() {
    let mut state = 5_u64;
    for _ in 0..50_000 {
        let word = next(&mut state);
        let a = Binary32::from_bits(word as u32);
        let b = Binary32::from_bits((word >> 32) as u32);
        assert_eq!(truncated_gap(a, b), truncated_gap(b, a));
    }
}
