use embedded_camera_calibration::float_bits::{F32, F64};

fn single(v: f32) -> F32 {
    F32 { bits: v.to_bits() }
}

fn double(v: f64) -> F64 {
    F64 { bits: v.to_bits() }
}

fn samples() -> Vec<f32> {
    vec![
        f32::NEG_INFINITY,
        f32::MIN,
        -2147483904.0,
        -2147483648.0,
        -8388608.5,
        -2.5,
        -1.5,
        -0.5,
        -0.49999997,
        -f32::MIN_POSITIVE,
        -1e-45,
        -0.0,
        0.0,
        1e-45,
        0.25,
        0.49999997,
        0.5,
        1.0,
        1.4999999,
        1.5,
        2.5,
        1280.5,
        8388607.5,
        8388609.0,
        16777216.0,
        2147483520.0,
        2147483648.0,
        f32::MAX,
        f32::INFINITY,
        f32::NAN,
    ]
}

#[test]
fn order_of_bits_is_order_of_numbers() {
    for &a in &samples() {
        for &b in &samples() {
            assert_eq!(single(a).less(single(b)), a < b, "{a} < {b}");
            if !a.is_nan() && !b.is_nan() {
                assert_eq!(single(a).order_key() == single(b).order_key(), a == b);
            }
        }
    }
}

#[test]
fn tells_nan_from_numbers() {
    for &a in &samples() {
        assert_eq!(single(a).is_nan(), a.is_nan());
        assert_eq!(double(a as f64).is_nan(), a.is_nan());
    }
    assert!(F64 { bits: 0xfff0_0000_0000_0001 }.is_nan());
    assert!(!F64 { bits: 0xfff0_0000_0000_0000 }.is_nan());
}

#[test]
fn rounds_to_the_nearest_whole_number() {
    for &a in &samples() {
        assert_eq!(single(a).round(), a.round() as i32, "{a}");
    }
    assert_eq!(single(0.5).round(), 1);
    assert_eq!(single(-0.5).round(), -1);
    assert_eq!(single(2.5).round(), 3);
    assert_eq!(single(f32::INFINITY).round(), i32::MAX);
    assert_eq!(single(f32::NEG_INFINITY).round(), i32::MIN);
    assert_eq!(single(f32::NAN).round(), 0);
}

#[test]
fn rounds_every_exponent() {
    for exponent in 0u32..255 {
        for fraction in [0u32, 1, 0x3f_ffff, 0x40_0000, 0x40_0001, 0x7f_ffff] {
            for sign in [0u32, 0x8000_0000] {
                let bits = sign + exponent * 0x80_0000 + fraction;
                let v = f32::from_bits(bits);
                assert_eq!(F32 { bits }.round(), v.round() as i32, "{v}");
            }
        }
    }
}

#[test]
fn narrows_to_the_nearest_number() {
    assert_eq!(double(0.1).to_f32(), single(0.1));
    assert_eq!(double(-640.123456789).to_f32(), single(-640.12345));
    assert_eq!(double(1e300).to_f32(), single(f32::INFINITY));
    assert_eq!(double(-1e-300).to_f32(), single(-0.0));
    assert!(double(f64::NAN).to_f32().is_nan());
}

#[test]
fn narrows_halves_to_even() {
    // 1 + 2^-24 lies in the middle between 1 and 1 + 2^-23.
    assert_eq!(double(1.0 + 1.0 / 16777216.0).to_f32(), single(1.0));
    assert_eq!(double(1.0 + 3.0 / 16777216.0).to_f32(), single(1.0 + 2.0 / 8388608.0));
    // Halfway between the largest number and what would come next.
    assert_eq!(double(3.4028235677973366e38).to_f32(), single(f32::INFINITY));
    assert_eq!(double(3.4028235677973362e38).to_f32(), single(f32::MAX));
}

#[test]
fn narrows_every_exponent() {
    for exponent in 0u64..2048 {
        for fraction in [
            0u64,
            1,
            0x0fff_ffff,
            0x1000_0000,
            0x1000_0001,
            0x2000_0000,
            0x3000_0000,
            0x8_0000_0000_0000,
            0xf_ffff_f000_0000,
            0xf_ffff_ffff_ffff,
        ] {
            for sign in [0u64, 0x8000_0000_0000_0000] {
                let bits = sign + exponent * 0x10_0000_0000_0000 + fraction;
                let v = f64::from_bits(bits);
                if !v.is_nan() {
                    assert_eq!(F64 { bits }.to_f32(), single(v as f32), "{v}");
                }
            }
        }
    }
}

#[test]
fn narrowing_keeps_what_fits() {
    for &a in &samples() {
        if !a.is_nan() {
            assert_eq!(double(a as f64).to_f32(), single(a));
        }
    }
}

#[test]
fn whole_numbers_become_the_nearest_numbers() {
    for n in [
        0,
        1,
        -1,
        2,
        1279,
        -1080,
        16777215,
        16777216,
        16777217,
        16777219,
        -16777217,
        33554433,
        33554435,
        2147483583,
        2147483584,
        2147483585,
        i32::MAX,
        i32::MIN,
        i32::MIN + 1,
    ] {
        assert_eq!(F32::from_whole(n), single(n as f32), "{n}");
        assert_eq!(F64::from_whole(n), double(n as f64), "{n}");
    }
    let mut n: i32 = 1;
    for _ in 0..30 {
        for d in [-1, 0, 1] {
            assert_eq!(F32::from_whole(n + d), single((n + d) as f32));
            assert_eq!(F32::from_whole(-(n + d)), single((-(n + d)) as f32));
        }
        n *= 2;
    }
}
