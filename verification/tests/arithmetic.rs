use perfmon_dash::number::{Double, Single};

fn single(x: f32) -> Single {
    Single { bits: x.to_bits() }
}

fn double(x: f64) -> Double {
    Double { bits: x.to_bits() }
}

/// The same number, or no number in both.
fn same(r: Single, native: f32) -> bool {
    if native.is_nan() {
        r.is_nan()
    } else {
        r.bits == native.to_bits()
    }
}

fn same_double(r: Double, native: f64) -> bool {
    if native.is_nan() {
        r.is_nan()
    } else {
        r.bits == native.to_bits()
    }
}

fn step(state: &mut u64) -> u64 {
    *state ^= *state << 13;
    *state ^= *state >> 7;
    *state ^= *state << 17;
    *state
}

/// Patterns of every size, with the ends of every range among them.
fn patterns() -> Vec<f32> {
    let mut all = vec![
        0.0,
        -0.0,
        1.0,
        -1.0,
        0.1,
        0.35,
        100.0,
        1024.0,
        16777215.0,
        16777216.0,
        16777217.0,
        f32::MIN_POSITIVE,
        f32::from_bits(1),
        f32::from_bits(0x7f_ffff),
        f32::MAX,
        f32::MIN,
        f32::INFINITY,
        f32::NEG_INFINITY,
        f32::NAN,
    ];
    let mut state = 0x9E37_79B9_7F4A_7C15u64;
    for _ in 0..150 {
        all.push(f32::from_bits(step(&mut state) as u32));
        all.push((step(&mut state) % 100_000) as f32 / 64.0);
    }
    all
}

#[test]
fn sums_and_differences_are_those_of_native_numbers() {
    for a in patterns() {
        for b in patterns() {
            assert!(same(single(a).plus(single(b)), a + b), "{:e} + {:e}", a, b);
            assert!(same(single(a).minus(single(b)), a - b), "{:e} - {:e}", a, b);
        }
    }
}

#[test]
fn products_and_quotients_are_those_of_native_numbers() {
    for a in patterns() {
        for b in patterns() {
            assert!(same(single(a).times(single(b)), a * b), "{:e} * {:e}", a, b);
            assert!(same(single(a).over(single(b)), a / b), "{:e} / {:e}", a, b);
        }
    }
}

#[test]
fn halfway_cases_go_to_the_even_neighbour() {
    let half = f32::EPSILON / 2.0;
    let above = 1.0 + f32::EPSILON;
    assert_eq!(single(1.0).plus(single(half)), single(1.0));
    assert_eq!(single(above).plus(single(half)), single(1.0 + 2.0 * f32::EPSILON));
    assert_eq!(Single::from_u64(16_777_217), single(16_777_216.0));
    assert_eq!(Single::from_u64(16_777_219), single(16_777_220.0));
}

#[test]
fn results_overflow_and_underflow_like_native_ones() {
    assert_eq!(single(f32::MAX).plus(single(f32::MAX)), single(f32::INFINITY));
    assert_eq!(single(f32::MAX).times(single(-2.0)), single(f32::NEG_INFINITY));
    assert_eq!(single(1.0e-45).times(single(0.25)), single(0.0));
    assert_eq!(single(-1.0e-45).over(single(4.0)), single(-0.0));
    assert_eq!(single(1.0).over(single(0.0)), single(f32::INFINITY));
    assert_eq!(single(1.0).over(single(-0.0)), single(f32::NEG_INFINITY));
    assert!(single(0.0).over(single(0.0)).is_nan());
    assert!(single(f32::INFINITY).minus(single(f32::INFINITY)).is_nan());
    assert!(single(f32::INFINITY).times(single(0.0)).is_nan());
    assert_eq!(single(2.5).minus(single(2.5)), single(0.0));
    assert_eq!(single(-0.0).plus(single(-0.0)), single(-0.0));
}

#[test]
fn integers_convert_like_native_ones() {
    let mut state = 7u64;
    let mut integers = vec![0, 1, 2, 255, 16_777_215, 16_777_217, u64::MAX, u64::MAX - 1, 1 << 63];
    for shift in 0..64 {
        integers.push(step(&mut state) >> shift);
    }
    for i in integers {
        assert!(same(Single::from_u64(i), i as f32), "{}", i);
        assert!(same(Single::from_i64(i as i64), i as i64 as f32), "{}", i as i64);
    }
}

#[test]
fn doubles_compute_like_native_ones() {
    let mut state = 99u64;
    let mut all = vec![
        0.0,
        -0.0,
        1.0,
        -60.0,
        61.25,
        5e-324,
        f64::MIN_POSITIVE,
        f64::MAX,
        f64::INFINITY,
        f64::NEG_INFINITY,
        f64::NAN,
        1.0e-40,
        3.4028235677973366e38,
        3.4028235677973362e38,
    ];
    for _ in 0..150 {
        all.push(f64::from_bits(step(&mut state)));
        all.push((step(&mut state) % 10_000_000) as f64 / 1000.0);
    }
    for &a in &all {
        assert!(same_double(double(a).over_1024(), a / 1024.0), "{:e}", a);
        assert!(same(double(a).to_single(), a as f32), "{:e}", a);
        for &b in &all {
            assert!(same_double(double(a).minus(double(b)), a - b), "{:e} - {:e}", a, b);
            assert!(same_double(double(a).plus(double(b)), a + b), "{:e} + {:e}", a, b);
        }
    }
}
