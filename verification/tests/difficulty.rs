use xtal_core::difficulty::{
    adjust_difficulty, Difficulty, GENESIS_BLOCK_DIFFICULTY, MAX_DIFFICULTY_BITS,
    MIN_DIFFICULTY_BITS,
};

#[test]
fn clamping_low_and_high() {
    assert_eq!(Difficulty::new(0).bits, MIN_DIFFICULTY_BITS);
    assert_eq!(Difficulty::new(u32::MAX).bits, MAX_DIFFICULTY_BITS);
    assert_eq!(Difficulty::new(0x0512_3456).bits, 0x0512_3456);
    assert_eq!(Difficulty::new(MIN_DIFFICULTY_BITS).bits, MIN_DIFFICULTY_BITS);
    assert_eq!(Difficulty::new(MAX_DIFFICULTY_BITS).bits, MAX_DIFFICULTY_BITS);
    assert_eq!(GENESIS_BLOCK_DIFFICULTY, MAX_DIFFICULTY_BITS);
}

#[test]
fn clamping_always_in_range() {
    let samples: Vec<u32> = vec![
        0,
        1,
        0x0300_ffff,
        0x0301_0000,
        0x0850_0000,
        0x107f_ffff,
        0x1080_0000,
        0x2000_0000,
        u32::MAX,
    ];
    for bits in samples {
        let d = Difficulty::new(bits);
        assert!(d.bits >= MIN_DIFFICULTY_BITS);
        assert!(d.bits <= MAX_DIFFICULTY_BITS);
    }
}

#[test]
fn target_expansion_places_mantissa() {
    let d = Difficulty::new(0x0512_3456);
    let t = d.target();
    let mut expected = [0u8; 16];
    expected[11] = 0x12;
    expected[12] = 0x34;
    expected[13] = 0x56;
    assert_eq!(t, expected);
}

#[test]
fn target_round_trip_normalized() {
    for bits in [0x0512_3456u32, 0x0301_0000, 0x107f_ffff, 0x0aab_cdef] {
        let d = Difficulty::new(bits);
        let back = Difficulty::from_target(&d.target());
        assert_eq!(back.bits, bits);
    }
}

#[test]
fn from_target_all_zero_is_floor() {
    let back = Difficulty::from_target(&[0u8; 16]);
    assert_eq!(back.bits, MIN_DIFFICULTY_BITS);
}

#[test]
fn to_target_integer_form() {
    let d = Difficulty::new(0x0512_3456);
    assert_eq!(d.to_target(), 0x1234_5600_00u128);
    let floor = Difficulty::new(MIN_DIFFICULTY_BITS);
    assert_eq!(floor.to_target(), 0x01_0000u128);
}

#[test]
fn from_target_u128_normalizes() {
    assert_eq!(Difficulty::from_target_u128(0x1234_5600_00).bits, 0x0512_3456);
    assert_eq!(Difficulty::from_target_u128(0).bits, MIN_DIFFICULTY_BITS);
    assert_eq!(Difficulty::from_target_u128(u128::MAX).bits, MAX_DIFFICULTY_BITS);
}

#[test]
fn stem_difficulty_doubles_target() {
    let d = Difficulty::new(0x0512_3456);
    let stem = d.stem_difficulty();
    assert_eq!(stem.bits, 0x0524_68ac);
    assert_eq!(stem.to_target(), d.to_target() * 2);
}

#[test]
fn adjust_difficulty_steady_state() {
    let d = Difficulty::new(0x0512_3456);
    let adjusted = adjust_difficulty(d, 100, 100);
    assert_eq!(adjusted.bits, d.bits);
}

#[test]
fn adjust_difficulty_clamps_to_quarter() {
    let d = Difficulty::new(0x0512_3456);
    // An instant period clamps to a quarter of the intended timespan.
    let harder = adjust_difficulty(d, 0, 100);
    assert_eq!(harder.bits, 0x0504_8d15);
    assert_eq!(harder.to_target(), 0x048d_1500_00u128);
    // Mantissa truncation may land just under a quarter of the old
    // target; the pre-encoding value is exactly the quarter.
    assert_eq!(d.to_target() / 4, 0x048d_1580_00u128);
}

#[test]
fn adjust_difficulty_clamps_to_quadruple() {
    let d = Difficulty::new(0x0512_3456);
    let easier = adjust_difficulty(d, u64::MAX, 100);
    assert_eq!(easier.bits, 0x0548_d158);
    assert_eq!(easier.to_target(), d.to_target() * 4);
}

#[test]
fn from_target_short_mantissa_clamps_to_floor() {
    // A single non-zero byte at the very end reads back with exponent 1,
    // far below the valid range, so it clamps to the floor.
    let mut t = [0u8; 16];
    t[15] = 0x7F;
    assert_eq!(Difficulty::from_target(&t).bits, MIN_DIFFICULTY_BITS);
}
