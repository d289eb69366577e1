use habforge::rounding::round_to_parts;

fn rounded(d: u64) -> u128 {
    let (significand, shift) = round_to_parts(d);
    (significand as u128) << shift
}

#[test]
fn magnitudes_of_24_bits_are_kept() {
    assert_eq!(round_to_parts(0), (0, 0));
    assert_eq!(round_to_parts(1), (1, 0));
    assert_eq!(round_to_parts(100), (100, 0));
    assert_eq!(round_to_parts(0x7f_ffff), (0x7f_ffff, 0));
    assert_eq!(round_to_parts(0x80_0000), (0x80_0000, 0));
    assert_eq!(round_to_parts(0xff_ffff), (0xff_ffff, 0));
}

#[test]
fn magnitudes_of_25_bits_lose_the_last_bit() {
    assert_eq!(round_to_parts(0x100_0000), (0x80_0000, 1));
    assert_eq!(round_to_parts(0x100_0002), (0x80_0001, 1));
    assert_eq!(round_to_parts(0x1ff_fffe), (0xff_ffff, 1));
}

#[test]
fn ties_go_to_the_even_significand() {
    assert_eq!(round_to_parts(0x100_0001), (0x80_0000, 1));
    assert_eq!(round_to_parts(0x100_0003), (0x80_0002, 1));
    assert_eq!(round_to_parts(0x100_0005), (0x80_0002, 1));
    assert_eq!(round_to_parts(0x200_0002), (0x80_0000, 2));
    assert_eq!(round_to_parts(0x200_0006), (0x80_0002, 2));
}

#[test]
fn magnitudes_off_a_tie_go_to_the_nearer_side() {
    assert_eq!(round_to_parts(0x200_0001), (0x80_0000, 2));
    assert_eq!(round_to_parts(0x200_0003), (0x80_0001, 2));
    assert_eq!(round_to_parts(0x200_0005), (0x80_0001, 2));
    assert_eq!(round_to_parts(0x200_0007), (0x80_0002, 2));
}

#[test]
fn rounding_up_can_reach_the_next_power_of_two() {
    assert_eq!(round_to_parts(0x1ff_ffff), (0x80_0000, 2));
    assert_eq!(round_to_parts(u32::MAX as u64), (0x80_0000, 9));
    assert_eq!(round_to_parts(u64::MAX), (0x80_0000, 41));
    assert_eq!(rounded(u64::MAX), 1_u128 << 64);
}

#[test]
fn rounding_agrees_with_the_native_conversion() {
    let mut state = 0x1234_5678_9abc_def1_u64;
    for _ in 0..200_000 {
        state ^= state << 13;
        state ^= state >> 7;
        state ^= state << 17;
        let d = state >> (state % 64);
        assert_eq!(rounded(d), (d as f32) as u128, "{}", d);
    }
    let mut d = 1_u64;
    while d < 0x8000_0000_0000_0000 {
        for near in [d - 1, d, d + 1, d + d / 2, d + d / 2 + 1, 2 * d - 1] {
            assert_eq!(rounded(near), (near as f32) as u128, "{}", near);
        }
        d *= 2;
    }
}
