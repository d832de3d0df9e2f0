use perfmon_dash::number::{Double, Single};

fn single(x: f32) -> Single {
    Single { bits: x.to_bits() }
}

fn double(x: f64) -> Double {
    Double { bits: x.to_bits() }
}

fn singles() -> Vec<f32> {
    vec![
        0.0,
        -0.0,
        f32::from_bits(1),
        -f32::from_bits(1),
        f32::MIN_POSITIVE,
        0.1,
        0.5,
        1.0,
        -1.0,
        1.5,
        79.99999,
        80.0,
        80.00001,
        85.0,
        100.0,
        100.00001,
        -273.15,
        16777216.0,
        f32::MAX,
        f32::MIN,
        f32::INFINITY,
        f32::NEG_INFINITY,
        f32::NAN,
        -f32::NAN,
    ]
}

#[test]
fn whole_numbers_have_the_native_pattern() {
    for n in 0..=255u8 {
        assert_eq!(Single::whole(n).bits, (n as f32).to_bits());
    }
}

#[test]
fn named_numbers_have_the_native_pattern() {
    assert_eq!(Single::zero().bits, 0.0f32.to_bits());
    assert_eq!(Single::ratio(5, 2).bits, 2.5f32.to_bits());
    assert_eq!(Single::ratio(1, 10).bits, 0.1f32.to_bits());
    assert_eq!(Single::ratio(35, 100).bits, 0.35f32.to_bits());
    assert_eq!(Single::ratio(15, 100).bits, 0.15f32.to_bits());
    assert_eq!(Single::ratio(18, 10).bits, 1.8f32.to_bits());
    assert_eq!(Single::ratio(44, 100).bits, 0.44f32.to_bits());
    assert_eq!(Single::ratio(36, 100).bits, 0.36f32.to_bits());
    assert_eq!(Single::ratio(88, 100).bits, 0.88f32.to_bits());
    assert_eq!(Single::ratio(12, 100).bits, 0.12f32.to_bits());
    assert_eq!(Single::ratio(45, 1).bits, 45.0f32.to_bits());
    assert_eq!(Double::from_u64(60).bits, 60.0f64.to_bits());
}

#[test]
fn singles_are_ordered_like_native_ones() {
    for a in singles() {
        assert_eq!(single(a).is_nan(), a.is_nan());
        for b in singles() {
            assert_eq!(single(a).is_above(single(b)), a > b, "{} > {}", a, b);
            assert_eq!(single(a).has_reached(single(b)), a >= b, "{} >= {}", a, b);
            if a != 0.0 || b != 0.0 {
                let larger = single(a).at_least(single(b));
                let native = a.max(b);
                if b.is_nan() {
                    // A floor is a number.
                } else {
                    assert_eq!(f32::from_bits(larger.bits), native, "max({}, {})", a, b);
                }
            }
        }
    }
}

#[test]
fn whole_thresholds_compare_like_native_ones() {
    for a in singles() {
        for n in [0u8, 1, 80, 85, 90, 100, 255] {
            assert_eq!(single(a).is_above_whole(n), a > n as f32);
            assert_eq!(single(a).has_reached_whole(n), a >= n as f32);
        }
    }
}

#[test]
fn clamping_is_that_of_native_numbers() {
    for a in singles() {
        for (low, high) in [(0u8, 100u8), (1, 100), (1, 16), (0, 1)] {
            let r = single(a).clamp(low, high);
            let native = a.clamp(low as f32, high as f32);
            if a.is_nan() {
                assert_eq!(r, single(a));
            } else {
                assert_eq!(r.bits, native.to_bits());
            }
        }
    }
}

#[test]
fn clamped_numbers_stay_in_order_and_in_range() {
    let low = single(-5.0).clamp(0, 100);
    let middle = single(42.0).clamp(0, 100);
    let high = single(1.0e9).clamp(0, 100);
    assert_eq!(low, single(0.0));
    assert_eq!(middle, single(42.0));
    assert_eq!(high, single(100.0));
    assert!(middle.has_reached(low));
    assert!(high.has_reached(middle));
}

#[test]
fn equality_is_that_of_patterns() {
    assert_ne!(single(0.0), single(-0.0));
    assert!(single(0.0).has_reached(single(-0.0)));
    assert!(!single(0.0).is_above(single(-0.0)));
    assert_eq!(single(f32::NAN), single(f32::NAN));
}

#[test]
fn doubles_are_ordered_like_native_ones() {
    let numbers = [
        0.0,
        -0.0,
        5e-324,
        -5e-324,
        f64::MIN_POSITIVE,
        0.1,
        59.999,
        60.0,
        60.001,
        -1.0,
        1.0e300,
        f64::MAX,
        f64::INFINITY,
        f64::NEG_INFINITY,
        f64::NAN,
    ];
    for a in numbers {
        assert_eq!(double(a).is_nan(), a.is_nan());
        for b in numbers {
            assert_eq!(double(a).has_reached(double(b)), a >= b, "{} >= {}", a, b);
        }
    }
    assert_eq!(double(-3.5).at_least(double(0.0)), double(0.0));
    assert_eq!(double(3.5).at_least(double(0.0)), double(3.5));
    assert_eq!(double(f64::NAN).at_least(double(0.0)), double(0.0));
}
