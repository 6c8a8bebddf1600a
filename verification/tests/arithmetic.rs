use audio_samples::arithmetic::plus;
use rand::{Rng, SeedableRng};
use rand_pcg::Pcg64Mcg;

fn b(x: f32) -> u32 {
    x.to_bits()
}

fn check(a: u32, c: u32) {
    let expected = (f32::from_bits(a) + f32::from_bits(c)).to_bits();
    assert_eq!(plus(a, c), expected, "{:#x} + {:#x}", a, c);
}

#[test]
fn sums_of_amplitudes() {
    assert_eq!(plus(b(0.5), b(0.25)), b(0.75));
    assert_eq!(plus(b(0.0), b(0.7)), b(0.7));
    assert_eq!(plus(b(0.7), b(0.0)), b(0.7));
    assert_eq!(plus(b(0.0), b(0.0)), b(0.0));
    assert_eq!(plus(b(0.1), b(0.2)), b(0.1f32 + 0.2f32));
    assert_eq!(plus(b(0.7), b(0.4)), b(0.7f32 + 0.4f32));
}

#[test]
fn five_fifths_are_one() {
    let mut total = b(0.0);
    for _ in 0..5 {
        total = plus(total, b(0.2));
    }
    assert_eq!(total, b(1.0));
    assert_eq!(plus(plus(plus(b(0.1), b(0.2)), b(0.3)), b(0.4)), b(0.1f32 + 0.2 + 0.3 + 0.4));
}

#[test]
fn ties_go_to_the_even_neighbour() {
    // 1 + 2^-24 lies halfway between 1 and the next number
    assert_eq!(plus(b(1.0), b(5.9604645e-8)), b(1.0));
    // the next number plus 2^-24 lies halfway too, and goes up to the even one
    assert_eq!(plus(0x3f80_0001, b(5.9604645e-8)), 0x3f80_0002);
    check(0x3f80_0001, 0x3380_0000);
    check(0x3f80_0000, 0x3380_0001);
    check(0x3f80_0000, 0x337f_ffff);
}

#[test]
fn a_far_smaller_number_changes_nothing() {
    assert_eq!(plus(b(1.0), b(1e-30)), b(1.0));
    assert_eq!(plus(b(1e-30), b(1.0)), b(1.0));
    assert_eq!(plus(b(3.0e38), b(1.0)), b(3.0e38));
    check(b(1.0), 1);
}

#[test]
fn subnormal_sums_are_exact() {
    assert_eq!(plus(1, 1), 2);
    assert_eq!(plus(0x007f_ffff, 1), 0x0080_0000);
    assert_eq!(plus(0x007f_ffff, 0x007f_ffff), 0x00ff_fffe);
    check(0x0040_0000, 0x0040_0000);
    check(0x0080_0000, 0x0000_0001);
}

#[test]
fn sums_beyond_the_largest_number_are_infinite() {
    assert_eq!(plus(b(f32::MAX), b(f32::MAX)), b(f32::INFINITY));
    assert_eq!(plus(b(3.0e38), b(3.0e38)), b(f32::INFINITY));
    check(b(f32::MAX), b(1.0e31));
    check(b(f32::MAX), b(2.0e31));
    check(b(f32::MAX), 0x7300_0000);
    check(b(f32::MAX), 0x72ff_ffff);
    check(b(f32::MAX), 0x7380_0000);
}

#[test]
fn sums_agree_with_the_numbers() {
    let mut rng = Pcg64Mcg::seed_from_u64(2024);
    for _ in 0..200_000 {
        let a = rng.gen_range(0u32..0x7f80_0000);
        let c = rng.gen_range(0u32..0x7f80_0000);
        check(a, c);
    }
}

#[test]
fn sums_of_near_numbers_agree_with_the_numbers() {
    let mut rng = Pcg64Mcg::seed_from_u64(7);
    for _ in 0..200_000 {
        let a = rng.gen_range(0u32..0x7f80_0000);
        let apart = rng.gen_range(0u32..0x0e00_0000);
        let c = a.saturating_sub(apart);
        check(a, c);
        check(c, a);
    }
}

#[test]
fn sums_of_unit_numbers_agree_with_the_numbers() {
    let mut rng = Pcg64Mcg::seed_from_u64(99);
    for _ in 0..100_000 {
        let a: f32 = rng.gen_range(0.0..=1.0);
        let c: f32 = rng.gen_range(0.0..=1.0);
        check(b(a), b(c));
    }
}

fn check_product(a: u32, c: u32) {
    let expected = (f32::from_bits(a) * f32::from_bits(c)).to_bits();
    assert_eq!(audio_samples::arithmetic::times(a, c), expected, "{:#x} * {:#x}", a, c);
}

fn check_quotient(a: u32, c: u32) {
    let expected = (f32::from_bits(a) / f32::from_bits(c)).to_bits();
    assert_eq!(audio_samples::arithmetic::divided(a, c), expected, "{:#x} / {:#x}", a, c);
}

#[test]
fn products_of_chord_notes() {
    assert_eq!(audio_samples::arithmetic::times(b(440.0), b(1.5)), b(660.0));
    assert_eq!(audio_samples::arithmetic::times(b(440.0), b(1.25)), b(550.0));
    assert_eq!(audio_samples::arithmetic::times(b(0.0), b(1.25)), b(0.0));
    assert_eq!(audio_samples::arithmetic::times(b(3.0), b(0.0)), b(0.0));
    for base in [55.0f32, 261.63, 311.13, 440.0, 1999.9] {
        for offset in [
            3.0f32 / 2.0,
            5.0 / 4.0,
            6.0 / 5.0,
            std::f32::consts::SQRT_2,
            4.0 / 3.0,
            15.0 / 8.0,
            9.0 / 5.0,
        ] {
            check_product(b(base), b(offset));
        }
    }
}

#[test]
fn products_agree_with_the_numbers() {
    let mut rng = Pcg64Mcg::seed_from_u64(31);
    for _ in 0..200_000 {
        let a = rng.gen_range(0u32..0x7f80_0000);
        let c = rng.gen_range(0u32..0x7f80_0000);
        check_product(a, c);
    }
}

#[test]
fn small_products_agree_with_the_numbers() {
    let mut rng = Pcg64Mcg::seed_from_u64(32);
    for _ in 0..200_000 {
        let a = rng.gen_range(0u32..0x7f80_0000);
        let exponent = 0x7f00_0000u32.saturating_sub(a & 0x7f80_0000);
        let spread = rng.gen_range(0u32..0x1800_0000);
        let c = (exponent.saturating_sub(spread) & 0x7f80_0000) | rng.gen_range(0u32..0x80_0000);
        if c < 0x7f80_0000 {
            check_product(a, c);
            check_product(c, a);
        }
    }
    check_product(1, 1);
    check_product(1, b(0.5));
    check_product(3, b(0.5));
    check_product(b(f32::MIN_POSITIVE), b(0.5));
    check_product(b(f32::MIN_POSITIVE), b(f32::MIN_POSITIVE));
    check_product(b(f32::MAX), b(f32::MAX));
    check_product(b(f32::MAX), b(1.0));
    check_product(b(f32::MAX), b(1.0000001));
}

#[test]
fn quotients_of_samples() {
    assert_eq!(audio_samples::arithmetic::divided(b(0.4), b(0.4)), b(1.0));
    assert_eq!(audio_samples::arithmetic::divided(b(0.1), b(0.4)), b(0.1f32 / 0.4));
    assert_eq!(audio_samples::arithmetic::divided(b(0.0), b(0.4)), b(0.0));
    assert_eq!(audio_samples::arithmetic::divided(b(3.0), b(1.0)), b(3.0));
    assert_eq!(audio_samples::arithmetic::divided(b(1.0), b(3.0)), b(1.0f32 / 3.0));
}

#[test]
fn quotients_agree_with_the_numbers() {
    let mut rng = Pcg64Mcg::seed_from_u64(41);
    for _ in 0..200_000 {
        let a = rng.gen_range(0u32..0x7f80_0000);
        let c = rng.gen_range(1u32..0x7f80_0000);
        check_quotient(a, c);
    }
}

#[test]
fn quotients_of_near_numbers_agree_with_the_numbers() {
    let mut rng = Pcg64Mcg::seed_from_u64(42);
    for _ in 0..200_000 {
        let a = rng.gen_range(1u32..0x7f80_0000);
        let apart = rng.gen_range(0u32..0x0c00_0000);
        let below = a.saturating_sub(apart).max(1);
        let above = (a + apart).min(0x7f7f_ffff);
        check_quotient(a, below);
        check_quotient(below, a);
        check_quotient(a, above);
        check_quotient(above, a);
    }
}

#[test]
fn quotients_at_the_ends_agree_with_the_numbers() {
    let ends = [
        1u32,
        2,
        3,
        0x007f_ffff,
        0x0080_0000,
        0x0080_0001,
        0x3f80_0000,
        0x3f7f_ffff,
        0x3f80_0001,
        0x7f7f_ffff,
        0x7f00_0000,
        0x4b80_0000,
        0x3400_0000,
    ];
    for &a in ends.iter() {
        for &c in ends.iter() {
            check_quotient(a, c);
            check_product(a, c);
            check(a, c);
        }
    }
}

#[test]
fn a_quotient_by_the_largest_sample_is_within_full_scale() {
    let mut rng = Pcg64Mcg::seed_from_u64(43);
    for _ in 0..100_000 {
        let peak = rng.gen_range(1u32..0x7f80_0000);
        let sample = rng.gen_range(0u32..=peak);
        let q = audio_samples::arithmetic::divided(sample, peak);
        assert!(q <= b(1.0));
        assert_eq!(audio_samples::arithmetic::divided(q, b(1.0)), q);
        assert_eq!(audio_samples::arithmetic::divided(peak, peak), b(1.0));
    }
}

#[test]
fn differences_agree_with_the_numbers() {
    use_differences(51, 0x7f80_0000);
    use_differences(52, 0x0100_0000);
}

fn use_differences(seed: u64, spread: u32) {
    let mut rng = Pcg64Mcg::seed_from_u64(seed);
    for _ in 0..200_000 {
        let a = rng.gen_range(0u32..0x7f80_0000);
        let c = a.saturating_sub(rng.gen_range(0u32..spread));
        let expected = (f32::from_bits(a) - f32::from_bits(c)).to_bits();
        assert_eq!(audio_samples::arithmetic::minus(a, c), expected, "{:#x} - {:#x}", a, c);
    }
}

#[test]
fn differences_at_the_ends_agree_with_the_numbers() {
    let ends = [
        0u32,
        1,
        2,
        0x007f_ffff,
        0x0080_0000,
        0x0080_0001,
        0x3400_0000,
        0x3f7f_ffff,
        0x3f80_0000,
        0x3f80_0001,
        0x4b80_0000,
        0x5d00_0000,
        0x5e00_0000,
        0x5e80_0000,
        0x7f00_0000,
        0x7f7f_ffff,
    ];
    for &a in ends.iter() {
        for &c in ends.iter() {
            if c <= a {
                let expected = (f32::from_bits(a) - f32::from_bits(c)).to_bits();
                assert_eq!(audio_samples::arithmetic::minus(a, c), expected, "{:#x} - {:#x}", a, c);
            }
        }
    }
    assert_eq!(audio_samples::arithmetic::minus(b(2.75), b(2.0)), b(0.75));
    assert_eq!(audio_samples::arithmetic::minus(b(1.0), b(1.0)), b(0.0));
}

#[test]
fn whole_numbers_become_the_nearest_number() {
    let mut rng = Pcg64Mcg::seed_from_u64(61);
    for n in [0u64, 1, 2, 3, 255, 256, 44100, 0xff_ffff, 0x100_0000, 0x100_0001, 0x100_0003, u64::MAX]
    {
        assert_eq!(audio_samples::arithmetic::from_integer(n), b(n as f32), "{n}");
    }
    for _ in 0..200_000 {
        let n: u64 = rng.gen::<u64>() >> rng.gen_range(0u32..64);
        assert_eq!(audio_samples::arithmetic::from_integer(n), b(n as f32), "{n}");
    }
}

#[test]
fn numbers_are_cut_to_whole_numbers() {
    let mut rng = Pcg64Mcg::seed_from_u64(62);
    for x in [
        0.0f32,
        -0.0,
        0.5,
        0.99999994,
        1.0,
        1.5,
        -1.5,
        255.9,
        1.0e10,
        1.8446744e19,
        1.8446743e19,
        3.0e38,
        f32::INFINITY,
        f32::NEG_INFINITY,
        f32::NAN,
    ] {
        assert_eq!(audio_samples::arithmetic::truncate(b(x)), x as u64, "{x}");
    }
    for _ in 0..200_000 {
        let x: u32 = rng.gen();
        assert_eq!(audio_samples::arithmetic::truncate(x), f32::from_bits(x) as u64, "{:#x}", x);
    }
}

#[test]
fn whole_parts_agree_with_the_numbers() {
    let mut rng = Pcg64Mcg::seed_from_u64(63);
    for x in [0.0f32, 0.5, 0.99999994, 1.0, 1.5, 4.888889, 8388607.5, 8388608.0, 1.0e20, 3.0e38] {
        assert_eq!(audio_samples::arithmetic::floor(b(x)), b(x.floor()), "{x}");
    }
    for _ in 0..200_000 {
        let x = rng.gen_range(0u32..0x7f80_0000);
        let expected = f32::from_bits(x).floor().to_bits();
        assert_eq!(audio_samples::arithmetic::floor(x), expected, "{:#x}", x);
    }
    for _ in 0..100_000 {
        let x: f32 = rng.gen_range(0.0f32..100_000.0);
        assert_eq!(audio_samples::arithmetic::floor(b(x)), b(x.floor()), "{x}");
    }
}

#[test]
fn sums_of_any_sign_agree_with_the_numbers() {
    let mut rng = Pcg64Mcg::seed_from_u64(91);
    let finite = |x: u32| if x & 0x7f80_0000 == 0x7f80_0000 { x & 0xff7f_ffff } else { x };
    for _ in 0..300_000 {
        let a = finite(rng.gen());
        let c = if rng.gen_bool(0.5) {
            finite(rng.gen())
        } else {
            finite((a ^ 0x8000_0000).wrapping_add(rng.gen_range(0u32..0x0200_0000)).wrapping_sub(0x0100_0000))
        };
        let expected = (f32::from_bits(a) + f32::from_bits(c)).to_bits();
        assert_eq!(audio_samples::arithmetic::plus_signed(a, c), expected, "{:#x} + {:#x}", a, c);
    }
    for (a, c) in [(0.0f32, -0.0f32), (-0.0, 0.0), (-0.0, -0.0), (0.0, 0.0), (1.5, -1.5), (-2.0, 2.0)]
    {
        assert_eq!(audio_samples::arithmetic::plus_signed(b(a), b(c)), b(a + c), "{a} + {c}");
    }
}
