use ascii_shader::shade::{adjust, ramp_char, RAMP};
use ascii_shader::single::Single;

const RAMP_TEXT: &str = " .'`^\",:;Il!i><~+_-?][}{1)(|\\/tfjrxnuvczXYUJCLQ0OZmwqpdbkhao*#MW&8%B@$";

fn of(x: f32) -> Single {
    Single { bits: x.to_bits() }
}

fn brightnesses() -> Vec<f32> {
    vec![
        1.0,
        0.0,
        -0.0,
        0.5,
        0.9,
        1.1,
        1.7,
        2.0,
        100.0,
        -1.0,
        1.0e-40,
        3.0e38,
        f32::MAX,
        f32::INFINITY,
        f32::NEG_INFINITY,
        f32::NAN,
    ]
}

fn adjust_on_hardware(c: u8, brightness: f32, invert: bool) -> u8 {
    let mut v = (c as f32 / 255.0) * brightness;
    if invert {
        v = 1.0 - v;
    }
    (v.clamp(0.0, 1.0) * 255.0).round() as u8
}

fn ramp_on_hardware(c: (u8, u8, u8), brightness: f32, invert: bool) -> char {
    let mut lum = (0.299 * c.0 as f32 + 0.587 * c.1 as f32 + 0.114 * c.2 as f32) / 255.0;
    lum = (lum * brightness).clamp(0.0, 1.0);
    if invert {
        lum = 1.0 - lum;
    }
    RAMP_TEXT.as_bytes()[(lum * 69.0).round() as usize] as char
}

#[test]
fn the_ramp_has_seventy_levels() {
    assert_eq!(RAMP.iter().collect::<String>(), RAMP_TEXT);
    assert_eq!(RAMP.len(), 70);
}

#[test]
fn brightness_one_changes_nothing() {
    for c in 0..=255u8 {
        assert_eq!(adjust(c, Single::one(), false), c);
        assert_eq!(adjust(c, Single::one(), true), 255 - c);
    }
}

#[test]
fn channels_are_scaled_and_clamped() {
    assert_eq!(adjust(100, of(2.0), false), 200);
    assert_eq!(adjust(200, of(2.0), false), 255);
    assert_eq!(adjust(200, of(2.0), true), 0);
    assert_eq!(adjust(101, of(0.5), false), 51);
    assert_eq!(adjust(10, of(-1.0), false), 0);
    assert_eq!(adjust(10, of(-1.0), true), 255);
    assert_eq!(adjust(0, of(f32::INFINITY), false), 0);
    assert_eq!(adjust(1, of(f32::INFINITY), false), 255);
    assert_eq!(adjust(77, of(f32::NAN), false), 0);
    assert_eq!(adjust(77, of(f32::NAN), true), 0);
}

#[test]
fn channels_are_those_of_the_hardware() {
    for b in brightnesses() {
        for c in 0..=255u8 {
            for invert in [false, true] {
                assert_eq!(adjust(c, of(b), invert), adjust_on_hardware(c, b, invert), "{c} {b} {invert}");
            }
        }
    }
    for i in 0..300u32 {
        let b = i as f32 * 0.01;
        for c in 0..=255u8 {
            assert_eq!(adjust(c, of(b), i % 2 == 0), adjust_on_hardware(c, b, i % 2 == 0));
        }
    }
}

#[test]
fn black_is_blank_and_white_is_dense() {
    assert_eq!(ramp_char((0, 0, 0), Single::one(), false), ' ');
    assert_eq!(ramp_char((255, 255, 255), Single::one(), false), '$');
    assert_eq!(ramp_char((0, 0, 0), Single::one(), true), '$');
    assert_eq!(ramp_char((255, 255, 255), Single::one(), true), ' ');
    assert_eq!(ramp_char((255, 0, 0), Single::one(), false), RAMP[21]);
    assert_eq!(ramp_char((0, 255, 0), Single::one(), false), RAMP[41]);
    assert_eq!(ramp_char((0, 0, 255), Single::one(), false), RAMP[8]);
    assert_eq!(ramp_char((9, 9, 9), of(f32::NAN), true), ' ');
}

#[test]
fn characters_are_those_of_the_hardware() {
    for b in brightnesses() {
        for r in (0..=255u32).step_by(17) {
            for g in (0..=255u32).step_by(17) {
                for bl in (0..=255u32).step_by(15) {
                    let c = (r as u8, g as u8, bl as u8);
                    for invert in [false, true] {
                        assert_eq!(
                            ramp_char(c, of(b), invert),
                            ramp_on_hardware(c, b, invert),
                            "{r} {g} {bl} {b} {invert}"
                        );
                    }
                }
            }
        }
    }
}

#[test]
fn greys_are_those_of_the_hardware() {
    for i in 0..200u32 {
        let b = 0.02 * i as f32;
        for v in 0..=255u8 {
            assert_eq!(ramp_char((v, v, v), of(b), false), ramp_on_hardware((v, v, v), b, false));
        }
    }
}

#[test]
fn brighter_is_further_along_the_ramp() {
    let place = |ch: char| RAMP.iter().position(|c| *c == ch).unwrap();
    let mut last = 0;
    for v in 0..=255u8 {
        let here = place(ramp_char((v, v, v), of(1.3), false));
        assert!(here >= last);
        last = here;
        assert!(adjust(v, of(1.3), false) >= adjust(v.saturating_sub(1), of(1.3), false));
        assert!(adjust(v, of(1.3), true) <= adjust(v.saturating_sub(1), of(1.3), true));
    }
}
