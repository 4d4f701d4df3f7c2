use ascii_shader::fit::fit_image;
use ascii_shader::options::Mode;

/// The same computation on the machine's own floating-point numbers.
fn fit_on_hardware(src_w: u32, src_h: u32, max_w: u32, max_h: u32, mode: Mode) -> (u32, u32) {
    let s_w = max_w as f32 / src_w as f32;
    let s_h = (max_h as f32 * 2.0) / src_h as f32;
    let s = s_w.min(s_h);
    let w = (src_w as f32 * s).round() as u32;
    let h = (src_h as f32 * s / 2.0).round() as u32;
    match mode {
        Mode::Ascii => (w.max(1), h.max(1)),
        Mode::Blocks => (w.max(2), h.max(1) * 2),
    }
}

/// A sequence of numbers with no pattern to speak of.
fn scramble(n: u64) -> u32 {
    let x = n.wrapping_mul(6364136223846793005).wrapping_add(1442695040888963407);
    ((x ^ (x >> 29)).wrapping_mul(0x9E3779B97F4A7C15) >> 32) as u32
}

#[test]
fn landscape_meets_the_width() {
    assert_eq!(fit_image(1920, 1080, 120, 48, Mode::Ascii, false), (120, 34));
    assert_eq!(fit_image(1920, 1080, 120, 48, Mode::Blocks, false), (120, 68));
}

#[test]
fn portrait_meets_the_height() {
    assert_eq!(fit_image(600, 1200, 120, 40, Mode::Ascii, false), (40, 40));
    assert_eq!(fit_image(600, 1200, 120, 40, Mode::Blocks, false), (40, 80));
}

#[test]
fn small_pictures_grow() {
    assert_eq!(fit_image(2, 2, 100, 30, Mode::Ascii, false), (60, 30));
}

#[test]
fn fill_ignores_the_proportions() {
    assert_eq!(fit_image(1920, 1080, 80, 24, Mode::Ascii, true), (80, 24));
    assert_eq!(fit_image(1920, 1080, 80, 24, Mode::Blocks, true), (80, 48));
    assert_eq!(fit_image(5, 7, 0, 0, Mode::Ascii, true), (1, 1));
    assert_eq!(fit_image(5, 7, 0, 0, Mode::Blocks, true), (2, 2));
    assert_eq!(fit_image(1, 1, u32::MAX, u32::MAX, Mode::Ascii, true), (u32::MAX, u32::MAX));
    assert_eq!(fit_image(1, 1, 9, 0x7fff_ffff, Mode::Blocks, true), (9, 0xffff_fffe));
}

#[test]
fn no_side_vanishes() {
    assert_eq!(fit_image(10_000, 1, 80, 24, Mode::Ascii, false), (80, 1));
    assert_eq!(fit_image(10_000, 1, 80, 24, Mode::Blocks, false), (80, 2));
    assert_eq!(fit_image(1, 10_000, 80, 24, Mode::Ascii, false), (1, 24));
    assert_eq!(fit_image(1, 10_000, 80, 24, Mode::Blocks, false), (2, 48));
}

#[test]
fn empty_pictures_get_the_least_size() {
    assert_eq!(fit_image(0, 0, 80, 24, Mode::Ascii, false), (1, 1));
    assert_eq!(fit_image(0, 0, 80, 24, Mode::Blocks, false), (2, 2));
    assert_eq!(fit_image(0, 9, 80, 24, Mode::Ascii, false), (1, 24));
    assert_eq!(fit_image(9, 0, 80, 24, Mode::Ascii, false), (80, 1));
    assert_eq!(fit_image(0, 0, 0, 0, Mode::Ascii, false), (1, 1));
}

#[test]
fn sizes_are_those_of_the_hardware() {
    let sides: [u32; 16] = [
        0, 1, 2, 3, 7, 10, 33, 97, 480, 641, 1081, 4000, 65_535, 1_000_003, 16_777_217, 4_294_967_295,
    ];
    let limits: [u32; 9] = [0, 1, 2, 10, 24, 79, 80, 120, 65_533];
    for w in sides {
        for h in sides {
            for mw in limits {
                for mh in limits {
                    for mode in [Mode::Ascii, Mode::Blocks] {
                        assert_eq!(
                            fit_image(w, h, mw, mh, mode, false),
                            fit_on_hardware(w, h, mw, mh, mode),
                            "{w}x{h} in {mw}x{mh}"
                        );
                    }
                }
            }
        }
    }
}

#[test]
fn scattered_sizes_are_those_of_the_hardware() {
    for i in 0..100_000u64 {
        let w = 1 + scramble(4 * i) % 5000;
        let h = 1 + scramble(4 * i + 1) % 5000;
        let mw = 10 + scramble(4 * i + 2) % 300;
        let mh = 2 + scramble(4 * i + 3) % 120;
        assert_eq!(
            fit_image(w, h, mw, mh, Mode::Ascii, false),
            fit_on_hardware(w, h, mw, mh, Mode::Ascii),
            "{w}x{h} in {mw}x{mh}"
        );
    }
}

#[test]
fn fitted_pictures_keep_within_a_limit_and_meet_one() {
    for i in 0..20_000u64 {
        let w = 1 + scramble(5 * i) % 9000;
        let h = 1 + scramble(5 * i + 1) % 9000;
        let mw = 2 + scramble(5 * i + 2) % 400;
        let mh = 1 + scramble(5 * i + 3) % 200;
        let (a, b) = fit_image(w, h, mw, mh, Mode::Ascii, false);
        assert!(a <= mw && b <= mh);
        assert!(a == mw || b == mh);
        let (a, b) = fit_image(w, h, mw, mh, Mode::Blocks, false);
        assert!(a <= mw && b <= 2 * mh);
        assert!(a == mw || b == 2 * mh);
    }
}

#[test]
fn fitted_pictures_keep_their_proportions() {
    for i in 0..20_000u64 {
        let w = 200 + scramble(6 * i) % 3000;
        let h = 200 + scramble(6 * i + 1) % 3000;
        let (a, b) = fit_image(w, h, 160, 60, Mode::Ascii, false);
        let skew = a as i64 * h as i64 - 2 * b as i64 * w as i64;
        assert!(skew.abs() <= w as i64 + h as i64);
    }
}

#[test]
fn no_limit_is_passed() {
    assert_eq!(fit_image(1492, 1, 7_311_153, 65_533, Mode::Ascii, false).0, 7_311_153);
    for i in 0..50_000u64 {
        let w = 1 + scramble(5 * i) % 90_000;
        let h = 1 + scramble(5 * i + 1) % 90_000;
        let mw = 2 + scramble(5 * i + 2) / 2;
        let mh = 1 + scramble(5 * i + 3) / 2;
        let (a, b) = fit_image(w, h, mw, mh, Mode::Ascii, false);
        assert!(a <= mw && b <= mh);
    }
}

#[test]
fn limits_of_eight_million_are_met() {
    assert_eq!(fit_image(129, 1, 8_388_608, 8_388_608, Mode::Ascii, false).0, 8_388_608);
    assert_eq!(fit_image(129, 1, 8_461_175, 8_461_175, Mode::Ascii, false).0, 8_461_174);
}

#[test]
fn the_largest_half_blocks() {
    assert_eq!(fit_image(1, 1_000_000, 9, 0x7fff_ffff, Mode::Blocks, false), (9, 9_000_000));
}

#[test]
fn the_limit_that_decides_is_met() {
    assert_eq!(fit_image(1600, 900, 80, 24, Mode::Ascii, false), (80, 23));
    assert_eq!(fit_image(900, 1600, 80, 24, Mode::Ascii, false), (27, 24));
    assert_eq!(fit_image(160, 96, 80, 24, Mode::Ascii, false), (80, 24));
    for i in 0..20_000u64 {
        let w = 1 + scramble(7 * i) % 4096;
        let h = 1 + scramble(7 * i + 1) % 4096;
        let mw = 1 + scramble(7 * i + 2) % 256;
        let mh = 1 + scramble(7 * i + 3) % 256;
        let (a, b) = fit_image(w, h, mw, mh, Mode::Ascii, false);
        let (ws, hs) = (mw as i64 * h as i64, 2 * mh as i64 * w as i64);
        if ws <= hs {
            assert_eq!(a, mw);
            assert!(b == 1 || (2 * b as i64 * w as i64 - ws).abs() <= w as i64);
        }
        if ws >= hs {
            assert_eq!(b, mh);
            assert!(a == 1 || 2 * (a as i64 * h as i64 - hs).abs() <= h as i64);
        }
    }
}
