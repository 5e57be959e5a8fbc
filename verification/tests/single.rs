use render3d::single::Single;

fn single(x: f32) -> Single {
    Single::from_bits(x.to_bits())
}

/// Numbers that cover zeros, subnormals, ordinary values and infinities.
fn samples() -> Vec<f32> {
    let mut out = vec![
        0.0,
        -0.0,
        f32::from_bits(1),
        f32::from_bits(0x8000_0001),
        f32::from_bits(0x007f_ffff),
        f32::from_bits(0x807f_ffff),
        f32::MIN_POSITIVE,
        -f32::MIN_POSITIVE,
        1.0e-30,
        -1.0e-30,
        0.5,
        -0.5,
        1.0,
        -1.0,
        1.0000001,
        0.99999994,
        2.0,
        -2.0,
        3.5,
        -5.0,
        1.0e30,
        -1.0e30,
        f32::MAX,
        f32::MIN,
        f32::INFINITY,
        f32::NEG_INFINITY,
    ];
    let mut seed: u32 = 0x1234_5678;
    for _ in 0..2000 {
        seed = seed.wrapping_mul(1_664_525).wrapping_add(1_013_904_223);
        let x = f32::from_bits(seed);
        if !x.is_nan() {
            out.push(x);
        }
    }
    out
}

#[test]
fn one_is_the_pattern_of_one() {
    assert_eq!(Single::one().to_bits(), 1.0f32.to_bits());
    assert_eq!(Single::one().to_bits(), 0x3f80_0000);
}

#[test]
fn zero_is_the_pattern_of_positive_zero() {
    assert_eq!(Single::zero().to_bits(), 0.0f32.to_bits());
    assert_eq!(Single::zero().to_bits(), 0);
}

#[test]
fn bits_pass_through_unchanged() {
    for x in samples() {
        assert_eq!(single(x).to_bits(), x.to_bits());
        assert_eq!(single(x).bits, x.to_bits());
    }
}

#[test]
fn magnitude_drops_the_sign() {
    assert_eq!(single(-5.0).magnitude_bits(), 5.0f32.to_bits());
    assert_eq!(single(5.0).magnitude_bits(), 5.0f32.to_bits());
    assert_eq!(single(-0.0).magnitude_bits(), 0);
    for x in samples() {
        assert_eq!(single(x).magnitude_bits(), x.abs().to_bits());
    }
}

#[test]
fn nan_is_told_from_numbers() {
    assert!(single(f32::NAN).is_nan());
    assert!(Single::from_bits(0x7fc0_0000).is_nan());
    assert!(Single::from_bits(0xffc0_0000).is_nan());
    assert!(Single::from_bits(0x7f80_0001).is_nan());
    assert!(Single::from_bits(0xffff_ffff).is_nan());
    assert!(!single(f32::INFINITY).is_nan());
    assert!(!single(f32::NEG_INFINITY).is_nan());
    for x in samples() {
        assert!(!single(x).is_nan());
    }
}

#[test]
fn below_zero_agrees_with_the_machine() {
    for x in samples() {
        assert_eq!(single(x).is_below_zero(), x < 0.0, "{}", x);
    }
    assert!(!single(f32::NAN).is_below_zero());
    assert!(!Single::from_bits(0xffc0_0000).is_below_zero());
}

#[test]
fn neither_zero_is_below_zero() {
    assert!(!single(0.0).is_below_zero());
    assert!(!single(-0.0).is_below_zero());
    assert!(single(f32::from_bits(0x8000_0001)).is_below_zero());
    assert!(!single(f32::from_bits(0x0000_0001)).is_below_zero());
    assert!(single(f32::NEG_INFINITY).is_below_zero());
}

#[test]
fn order_key_has_exact_values() {
    assert_eq!(single(0.0).order_key(), 0x8000_0000);
    assert_eq!(single(-0.0).order_key(), 0x8000_0000);
    assert_eq!(single(1.0).order_key(), 0xbf80_0000);
    assert_eq!(single(-1.0).order_key(), 0x4080_0000);
    assert_eq!(single(f32::INFINITY).order_key(), 0xff80_0000);
    assert_eq!(single(f32::NEG_INFINITY).order_key(), 0x0080_0000);
    assert_eq!(single(f32::NAN).order_key(), 0xffff_ffff);
    assert_eq!(Single::from_bits(0xffc0_0000).order_key(), 0xffff_ffff);
}

#[test]
fn keys_order_numbers_as_the_machine_does() {
    let xs = samples();
    for (i, a) in xs.iter().enumerate() {
        for b in xs.iter().skip(i % 7).step_by(7) {
            let ka = single(*a).order_key();
            let kb = single(*b).order_key();
            assert_eq!(ka < kb, a < b, "{} {}", a, b);
            assert_eq!(ka == kb, a == b, "{} {}", a, b);
        }
    }
}

#[test]
fn is_below_agrees_with_the_machine() {
    let mut xs = samples();
    xs.truncate(200);
    xs.push(f32::NAN);
    for a in xs.iter() {
        for b in xs.iter() {
            assert_eq!(single(*a).is_below(single(*b)), a < b, "{} {}", a, b);
        }
    }
}

#[test]
fn nan_has_the_largest_key() {
    let nan = single(f32::NAN).order_key();
    for x in samples() {
        assert!(single(x).order_key() < nan);
    }
}
