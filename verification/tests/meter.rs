use ascii_shader::meter::Meter;
use ascii_shader::single::Single;

fn of(x: f32) -> Single {
    Single { bits: x.to_bits() }
}

fn text(m: &Meter) -> String {
    let mut s = String::from("|");
    m.push_rate(&mut s);
    s
}

/// A meter that shows the rate of one frame alone.
fn after(seconds: f32) -> String {
    let mut m = Meter::new();
    m.record(of(seconds));
    text(&m)
}

#[test]
fn a_new_meter_shows_nothing() {
    assert_eq!(text(&Meter::new()), "|  0.0");
}

#[test]
fn the_first_frame_sets_the_rate() {
    assert_eq!(after(0.04), "| 25.0");
    assert_eq!(after(0.5), "|  2.0");
    assert_eq!(after(0.01), "|100.0");
    assert_eq!(after(0.001), "|1000.0");
    assert_eq!(after(f32::INFINITY), "|  0.0");
}

#[test]
fn a_frame_takes_a_microsecond_at_least() {
    let least = format!("|{:5.1}", 1.0f32 / 1e-6f32);
    assert_eq!(after(0.0), least);
    assert_eq!(after(-0.0), least);
    assert_eq!(after(1e-9), least);
    assert_eq!(after(-1.0), least);
    assert_eq!(after(f32::NAN), least);
}

#[test]
fn later_frames_are_smoothed() {
    let mut m = Meter::new();
    m.record(of(0.1));
    m.record(of(0.05));
    assert_eq!(text(&m), "| 11.0");
}

#[test]
fn rates_are_those_of_the_hardware() {
    let mut m = Meter::new();
    let mut fps = 0.0f32;
    let mut x: u32 = 99;
    for i in 0..20_000u32 {
        x = x.wrapping_mul(1664525).wrapping_add(1013904223);
        let dt = if i % 97 == 0 { 0.0f32 } else { (x >> 8) as f32 * 1.0e-8 };
        let dt = dt.max(1e-6);
        fps = if fps == 0.0 { 1.0 / dt } else { 0.9 * fps + 0.1 * (1.0 / dt) };
        m.record(of(dt));
        assert_eq!(text(&m), format!("|{fps:5.1}"), "{fps}");
    }
}

#[test]
fn ties_go_to_the_even_tenth() {
    for i in 1..4000u32 {
        let dt = 16.0 / i as f32;
        let fps = 1.0f32 / dt;
        assert_eq!(after(dt), format!("|{fps:5.1}"), "{fps}");
    }
    assert_eq!(after(4.0), format!("|{:5.1}", 0.25f32));
    assert_eq!(after(4.0), "|  0.2");
}
