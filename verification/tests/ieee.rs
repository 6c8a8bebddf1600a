use audio_samples::ieee::{
    abs, double, double_is_at_most, double_is_less, is_at_most, is_less, is_not_a_number, is_same,
    scale, DOUBLE_ONE, INFINITY, MILLIONTH, ONE, ZERO,
};

fn singles() -> Vec<f32> {
    vec![
        0.0,
        -0.0,
        1.0,
        -1.0,
        1e-6,
        0.5,
        0.7,
        1.0000001,
        0.99999994,
        -1.5,
        2.0,
        440.0,
        20000.0,
        f32::MIN_POSITIVE,
        f32::MIN_POSITIVE / 4.0,
        -f32::MIN_POSITIVE / 2.0,
        f32::MAX,
        f32::MIN,
        f32::INFINITY,
        f32::NEG_INFINITY,
        f32::NAN,
        -f32::NAN,
        f32::from_bits(0x7f80_0001),
    ]
}

#[test]
fn constants_are_the_patterns_of_their_numbers() {
    assert_eq!(ZERO, 0.0f32.to_bits());
    assert_eq!(ONE, 1.0f32.to_bits());
    assert_eq!(INFINITY, f32::INFINITY.to_bits());
    assert_eq!(MILLIONTH, 1e-6f32.to_bits());
    assert_eq!(DOUBLE_ONE, 1.0f64.to_bits());
}

#[test]
fn comparisons_agree_with_the_numbers() {
    for &a in singles().iter() {
        for &b in singles().iter() {
            assert_eq!(is_less(a.to_bits(), b.to_bits()), a < b, "{a} < {b}");
            assert_eq!(is_at_most(a.to_bits(), b.to_bits()), a <= b, "{a} <= {b}");
            assert_eq!(is_same(a.to_bits(), b.to_bits()), a == b, "{a} == {b}");
        }
    }
}

#[test]
fn both_zeros_are_the_same_number() {
    assert!(is_same(0.0f32.to_bits(), (-0.0f32).to_bits()));
    assert!(!is_less((-0.0f32).to_bits(), 0.0f32.to_bits()));
    assert!(is_at_most(0.0f32.to_bits(), (-0.0f32).to_bits()));
}

#[test]
fn nan_is_recognised() {
    for &a in singles().iter() {
        assert_eq!(is_not_a_number(a.to_bits()), a.is_nan(), "{a}");
    }
}

#[test]
fn abs_clears_the_sign() {
    for &a in singles().iter() {
        assert_eq!(abs(a.to_bits()), a.abs().to_bits(), "{a}");
    }
    assert_eq!(abs((-1.5f32).to_bits()), 1.5f32.to_bits());
}

#[test]
fn double_is_twice_the_number() {
    for &a in singles().iter() {
        if a.is_nan() || a.is_sign_negative() {
            continue;
        }
        assert_eq!(double(a.to_bits()), (a * 2.0).to_bits(), "{a}");
    }
    assert_eq!(double(90.0f32.to_bits()), 180.0f32.to_bits());
    assert_eq!(double(f32::MAX.to_bits()), f32::INFINITY.to_bits());
    assert_eq!(double(1.0e-45f32.to_bits()), 2.8e-45f32.to_bits());
}

#[test]
fn scale_moves_by_octaves() {
    let frequencies = [55.0f32, 261.63, 440.0, 830.61, 1999.9, 1.0, 3.0e-20, 1.0e30];
    for &f in frequencies.iter() {
        for k in -39i32..=39 {
            let expected = f * (k as f32).exp2();
            if expected.is_normal() || expected.is_infinite() {
                assert_eq!(scale(f.to_bits(), k), expected.to_bits(), "{f} * 2^{k}");
            }
        }
    }
    assert_eq!(scale(440.0f32.to_bits(), 1), 880.0f32.to_bits());
    assert_eq!(scale(440.0f32.to_bits(), -2), 110.0f32.to_bits());
    assert_eq!(scale(440.0f32.to_bits(), 0), 440.0f32.to_bits());
    assert_eq!(scale(f32::INFINITY.to_bits(), -3), f32::INFINITY.to_bits());
    assert_eq!(scale(1.0e38f32.to_bits(), 5), f32::INFINITY.to_bits());
}

#[test]
fn scale_agrees_with_division_by_a_power_of_two() {
    let f = 523.25f32;
    for i in -10i32..40 {
        let expected = f / (i as f32).exp2();
        assert_eq!(scale(f.to_bits(), -i), expected.to_bits(), "{f} / 2^{i}");
    }
}

#[test]
fn doubles_are_compared_as_numbers() {
    let doubles = [
        0.0f64,
        -0.0,
        1.0,
        0.3,
        0.5,
        1.0000000000000002,
        -0.1,
        2.0,
        f64::MIN_POSITIVE,
        f64::INFINITY,
        f64::NEG_INFINITY,
        f64::NAN,
    ];
    for &a in doubles.iter() {
        for &b in doubles.iter() {
            assert_eq!(double_is_less(a.to_bits(), b.to_bits()), a < b, "{a} < {b}");
            assert_eq!(double_is_at_most(a.to_bits(), b.to_bits()), a <= b, "{a} <= {b}");
        }
    }
}
