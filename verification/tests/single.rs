use wavefield::single::{from_ratio, gt, nan, zero, INFINITY, SIGN, ZERO};

fn next(state: &mut u64) -> u64 {
    *state = state
        .wrapping_mul(6364136223846793005)
        .wrapping_add(1442695040888963407);
    *state >> 16
}

#[test]
fn ratios_of_small_integers_match_division() {
    for n in -400i32..=400 {
        for d in 1u32..=300 {
            let expected = n as f32 / d as f32;
            assert_eq!(from_ratio(n, d), expected.to_bits(), "{n} / {d}");
        }
    }
}

#[test]
fn ratios_of_exact_operands_match_division() {
    let mut state = 7u64;
    for _ in 0..200_000 {
        let n = (next(&mut state) % (1 << 25)) as i32 - (1 << 24);
        let d = (next(&mut state) % (1 << 24)) as u32 + 1;
        let expected = n as f32 / d as f32;
        assert_eq!(from_ratio(n, d), expected.to_bits(), "{n} / {d}");
    }
}

#[test]
fn ratio_literals() {
    assert_eq!(from_ratio(0, 5), ZERO);
    assert_eq!(from_ratio(1, 1), 0x3f80_0000);
    assert_eq!(from_ratio(-1, 1), 0xbf80_0000);
    assert_eq!(from_ratio(2, 5), 0x3ecc_cccd);
    assert_eq!(from_ratio(2, 5), 0.4f32.to_bits());
    assert_eq!(from_ratio(1, 3), 0x3eaa_aaab);
    assert_eq!(from_ratio(-7, 2), (-3.5f32).to_bits());
    assert_eq!(from_ratio(1, 2), 0.5f32.to_bits());
}

#[test]
fn ratio_ties_go_to_even() {
    // 2^24 + 1 lies half way between two neighbours; the even one is 2^24.
    assert_eq!(from_ratio(16_777_217, 1), 16_777_216f32.to_bits());
    // 2^24 + 3 lies half way too; the even one is 2^24 + 4.
    assert_eq!(from_ratio(16_777_219, 1), 16_777_220f32.to_bits());
    assert_eq!(from_ratio(33_554_434, 2), 16_777_216f32.to_bits());
}

#[test]
fn ratio_at_the_ends_of_the_range() {
    assert_eq!(from_ratio(i32::MAX, 1), (i32::MAX as f32).to_bits());
    assert_eq!(from_ratio(i32::MIN, 1), (i32::MIN as f32).to_bits());
    assert_eq!(from_ratio(1, 1 << 31), 2f32.powi(-31).to_bits());
    assert_eq!(from_ratio(1, u32::MAX), 2f32.powi(-32).to_bits());
    assert_eq!(from_ratio(-1, u32::MAX), (-(2f32.powi(-32))).to_bits());
    assert_eq!(from_ratio(i32::MAX, u32::MAX), 0.5f32.to_bits());
}

#[test]
fn order_matches_the_numbers() {
    let patterns: [u32; 18] = [
        0x0000_0000,
        0x8000_0000,
        0x0000_0001,
        0x8000_0001,
        0x007f_ffff,
        0x0080_0000,
        0x3f00_0000,
        0x3f00_0001,
        0x3eff_ffff,
        0x3f80_0000,
        0xbf80_0000,
        0x7f7f_ffff,
        0xff7f_ffff,
        0x7f80_0000,
        0xff80_0000,
        0x7fc0_0000,
        0xffc0_0000,
        0x7f80_0001,
    ];
    for a in patterns {
        for b in patterns {
            assert_eq!(gt(a, b), f32::from_bits(a) > f32::from_bits(b), "{a:#x} > {b:#x}");
        }
    }
}

#[test]
fn order_matches_the_numbers_on_many_patterns() {
    let mut state = 11u64;
    for _ in 0..200_000 {
        let a = next(&mut state) as u32;
        let b = if next(&mut state) % 4 == 0 {
            a ^ (1 << (next(&mut state) % 32))
        } else {
            next(&mut state) as u32
        };
        assert_eq!(gt(a, b), f32::from_bits(a) > f32::from_bits(b), "{a:#x} > {b:#x}");
    }
}

#[test]
fn the_two_zeros_are_equal() {
    assert!(!gt(ZERO, SIGN));
    assert!(!gt(SIGN, ZERO));
    assert!(zero(ZERO) && zero(SIGN));
    assert!(!zero(1) && !zero(0x3f80_0000));
}

#[test]
fn nan_is_told_from_numbers() {
    assert!(!nan(INFINITY));
    assert!(!nan(INFINITY | SIGN));
    assert!(nan(INFINITY + 1));
    assert!(nan(f32::NAN.to_bits()));
    assert!(!nan(1.5f32.to_bits()));
    for bits in [0x7fc0_0000u32, 0xffc0_0000, 0x7f80_0001, 0xffff_ffff] {
        assert_eq!(nan(bits), f32::from_bits(bits).is_nan());
        assert!(!gt(bits, ZERO) && !gt(ZERO, bits));
    }
}
