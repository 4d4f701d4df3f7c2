use ascii_shader::single::Single;

fn of(x: f32) -> Single {
    Single { bits: x.to_bits() }
}

/// Equal, but for the sign of zero and the payload of no number.
fn same(s: Single, x: f32) -> bool {
    let y = f32::from_bits(s.bits);
    y == x || (y.is_nan() && x.is_nan())
}

fn samples() -> Vec<f32> {
    let mut v = vec![
        0.0,
        -0.0,
        1.0,
        -1.0,
        0.1,
        0.299,
        0.5,
        -2.5,
        1.5,
        255.0,
        3.0e38,
        -3.0e38,
        1.0e-45,
        1.0e-40,
        -1.0e-40,
        1.17549435e-38,
        16_777_215.0,
        16_777_216.0,
        8_388_607.5,
        f32::MAX,
        f32::MIN_POSITIVE,
        f32::INFINITY,
        f32::NEG_INFINITY,
        f32::NAN,
    ];
    let mut x: u32 = 12345;
    for _ in 0..400 {
        x = x.wrapping_mul(1664525).wrapping_add(1013904223);
        v.push(f32::from_bits(x ^ (x >> 15)));
    }
    v
}

#[test]
fn products_are_those_of_the_hardware() {
    for a in samples() {
        for b in samples() {
            assert!(same(of(a).times(of(b)), a * b), "{a} * {b}");
        }
    }
}

#[test]
fn sums_are_those_of_the_hardware() {
    for a in samples() {
        for b in samples() {
            assert!(same(of(a).plus(of(b)), a + b), "{a} + {b}");
            assert!(same(of(a).plus(of(b).negated()), a - b), "{a} - {b}");
        }
    }
}

#[test]
fn quotients_are_those_of_the_hardware() {
    for a in samples() {
        for b in samples() {
            if b.to_bits() < 0x8000_0000 {
                assert!(same(of(a).over(of(b)), a / b), "{a} / {b}");
            }
        }
    }
}

#[test]
fn comparisons_are_those_of_the_hardware() {
    for a in samples() {
        assert_eq!(of(a).is_nan(), a.is_nan());
        assert!(same(of(a).clamped(), a.clamp(0.0, 1.0)), "{a}");
        for b in samples() {
            assert_eq!(of(a).below(of(b)), a < b, "{a} < {b}");
            assert!(same(of(a).least(of(b)), a.min(b)), "{a} {b}");
            assert!(same(of(a).greatest(of(b)), a.max(b)), "{a} {b}");
        }
    }
}

#[test]
fn integers_are_those_of_the_hardware() {
    for a in samples() {
        assert_eq!(of(a).nearest_integer(), a.round() as u32, "{a}");
    }
    for n in [0u32, 1, 2, 3, 255, 16_777_215, 16_777_217, 16_777_219, 2_147_483_649, u32::MAX] {
        assert_eq!(Single::from_u32(n).bits, (n as f32).to_bits());
    }
    for i in 0..2000u32 {
        let x = i as f32 * 0.25;
        assert_eq!(of(x).nearest_integer(), x.round() as u32);
    }
}

#[test]
fn fractions_are_those_of_the_compiler() {
    assert_eq!(Single::from_ratio(299, 1000).bits, 0.299f32.to_bits());
    assert_eq!(Single::from_ratio(587, 1000).bits, 0.587f32.to_bits());
    assert_eq!(Single::from_ratio(114, 1000).bits, 0.114f32.to_bits());
    assert_eq!(Single::from_ratio(9, 10).bits, 0.9f32.to_bits());
    assert_eq!(Single::from_ratio(1, 10).bits, 0.1f32.to_bits());
    assert_eq!(Single::from_ratio(1, 1_000_000).bits, 1e-6f32.to_bits());
    assert_eq!(Single::one().bits, 1.0f32.to_bits());
    assert_eq!(Single::zero().bits, 0.0f32.to_bits());
}
