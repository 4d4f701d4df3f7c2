use ascii_shader::frame::Frame;
use ascii_shader::meter::Meter;
use ascii_shader::options::{effective_mode, Mode, RenderOpts};
use ascii_shader::render::render_frame;
use ascii_shader::screen::{
    camera_page, camera_picture, image_text, picture_size, terminal_size, turn,
};
use ascii_shader::single::Single;
use image::imageops::FilterType;
use image::{ImageBuffer, Rgb};

fn opts() -> RenderOpts {
    RenderOpts {
        mode: Mode::Ascii,
        width: None,
        no_color: true,
        invert: false,
        brightness: Single::one(),
        mirror: false,
        fill: false,
    }
}

/// A picture with a slope of brightness and some colour.
fn slope(width: u32, height: u32) -> Frame {
    let mut data = Vec::new();
    for y in 0..height {
        for x in 0..width {
            data.push((x * 255 / width) as u8);
            data.push((y * 255 / height) as u8);
            data.push((x * y % 256) as u8);
        }
    }
    Frame::new(width, height, data).unwrap()
}

/// The picture resampled by the image library itself, then rendered.
fn rendered(src: &Frame, w: u32, h: u32, filter: FilterType, opts: &RenderOpts) -> String {
    let image: ImageBuffer<Rgb<u8>, Vec<u8>> =
        ImageBuffer::from_raw(src.width, src.height, src.data.clone()).unwrap();
    let scaled = image::imageops::resize(&image, w, h, filter);
    let scaled = if opts.mirror { image::imageops::flip_horizontal(&scaled) } else { scaled };
    let frame = Frame::new(w, h, scaled.into_raw()).unwrap();
    let mut out = String::new();
    render_frame(&frame, opts, effective_mode(opts), &mut out);
    out
}

#[test]
fn terminals_that_do_not_tell() {
    assert_eq!(terminal_size(Some((80, 24))), (80, 24));
    assert_eq!(terminal_size(None), (100, 40));
}

#[test]
fn limits() {
    assert_eq!(picture_size(4000, 1000, &opts(), (200, 100)), (200, 25));
    let asked = RenderOpts { width: Some(80), ..opts() };
    assert_eq!(picture_size(4000, 1000, &asked, (200, 100)), (80, 10));
    let fill = RenderOpts { fill: true, ..opts() };
    assert_eq!(picture_size(640, 480, &fill, (200, 50)), (200, 48));
    assert_eq!(picture_size(1, 1, &fill, (3, 1)), (10, 2));
    assert_eq!(picture_size(1, 1, &fill, (3, 0)), (10, 2));
    assert_eq!(picture_size(1, 1, &fill, (3, 4)), (10, 2));
    assert_eq!(picture_size(1, 1, &fill, (3, 5)), (10, 3));
    let blocks = RenderOpts { mode: Mode::Blocks, no_color: false, ..fill };
    assert_eq!(picture_size(1, 1, &blocks, (200, 100)), (200, 196));
}

#[test]
fn a_width_that_was_asked_for_is_kept_to() {
    let fill = RenderOpts { fill: true, ..opts() };
    let blocks = RenderOpts { mode: Mode::Blocks, no_color: false, ..fill };
    for width in [2u32, 3, 5, 9, 10, 150, 300] {
        assert_eq!(picture_size(1, 1, &RenderOpts { width: Some(width), ..fill }, (200, 100)), (width, 98));
        assert_eq!(picture_size(1, 1, &RenderOpts { width: Some(width), ..blocks }, (200, 100)), (width, 196));
    }
    assert_eq!(picture_size(1, 1, &RenderOpts { width: Some(1), ..fill }, (200, 100)), (1, 98));
    assert_eq!(picture_size(1, 1, &RenderOpts { width: Some(1), ..blocks }, (200, 100)), (2, 196));
    assert_eq!(picture_size(1, 1, &RenderOpts { width: Some(0), ..fill }, (200, 100)), (1, 98));
    assert_eq!(picture_size(640, 480, &RenderOpts { width: Some(0), ..opts() }, (200, 100)), (1, 1));
    assert_eq!(picture_size(640, 480, &RenderOpts { width: Some(4), ..opts() }, (200, 100)), (4, 2));
}

#[test]
fn lines_of_five_characters() {
    let src = slope(64, 48);
    let o = RenderOpts { fill: true, width: Some(5), ..opts() };
    let text = image_text(&src, &o, (80, 24));
    let lines: Vec<&str> = text.split("\x1b[K\r\n").collect();
    assert_eq!(lines.len(), 23);
    assert!(lines[..22].iter().all(|l| l.chars().count() == 5));
    assert_eq!(lines[22], "");
}

#[test]
fn camera_frames_fill_a_wide_terminal() {
    let src = slope(64, 48);
    let o = RenderOpts { fill: true, ..opts() };
    let shown = camera_picture(&src, &o, (200, 50));
    let page = camera_page(&src, &shown, &o, &Meter::new());
    let text = page.strip_prefix("\x1b[H").unwrap();
    let lines: Vec<&str> = text.split("\x1b[K\r\n").collect();
    assert_eq!(lines.len(), 49);
    assert!(lines[..48].iter().all(|l| l.chars().count() == 200));
}

#[test]
fn an_image_of_the_right_size_is_shown_as_it_is() {
    let mut data = vec![0u8; 60];
    for i in 0..3 {
        data[i] = 255;
        data[57 + i] = 255;
    }
    let src = Frame::new(10, 2, data).unwrap();
    let o = RenderOpts { fill: true, ..opts() };
    assert_eq!(image_text(&src, &o, (10, 4)), "$         \x1b[K\r\n         $\x1b[K\r\n");
    let m = RenderOpts { mirror: true, ..o };
    assert_eq!(image_text(&src, &m, (10, 4)), "         $\x1b[K\r\n$         \x1b[K\r\n");
}

#[test]
fn images_are_resampled_by_lanczos() {
    let src = slope(64, 48);
    for o in [
        opts(),
        RenderOpts { no_color: false, ..opts() },
        RenderOpts { mode: Mode::Blocks, no_color: false, mirror: true, ..opts() },
    ] {
        let (w, h) = picture_size(64, 48, &o, (40, 22));
        let text = image_text(&src, &o, (40, 22));
        assert_eq!(text, rendered(&src, w, h, FilterType::Lanczos3, &o));
        assert_ne!(text, rendered(&src, w, h, FilterType::Triangle, &o));
    }
}

#[test]
fn camera_frames_are_resampled_by_triangle() {
    let src = slope(64, 48);
    let meter = Meter::new();
    let o = RenderOpts { no_color: false, mirror: true, ..opts() };
    let (w, h) = picture_size(64, 48, &o, (40, 22));
    let text = camera_page(&src, &camera_picture(&src, &o, (40, 22)), &o, &meter);
    let page = rendered(&src, w, h, FilterType::Triangle, &o);
    let status = format!("\x1b[0m\x1b[J\r\nfps   0.0  64x48\u{2192}{w}x{h}px  [q/Esc to quit]\x1b[K");
    assert_eq!(text, format!("\x1b[H{page}{status}"));
    assert_ne!(text, format!("\x1b[H{}{status}", rendered(&src, w, h, FilterType::Lanczos3, &o)));
}

#[test]
fn mirroring_twice_changes_nothing() {
    let o = RenderOpts { mirror: true, no_color: false, ..opts() };
    let src = slope(7, 3);
    let mut once = Vec::new();
    for y in 0..3 {
        for x in 0..7 {
            let p = src.get_pixel(6 - x, y);
            once.push(p.0);
            once.push(p.1);
            once.push(p.2);
        }
    }
    let flipped = turn(Frame::new(7, 3, once).unwrap(), &o);
    assert_eq!(flipped.data, src.data);
    assert_eq!(turn(flipped, &RenderOpts { mirror: false, ..o }).data, src.data);
}

#[test]
fn a_mirrored_picture_without_rows_is_empty() {
    let o = RenderOpts { mirror: true, ..opts() };
    let shown = turn(Frame::new(5, 0, vec![]).unwrap(), &o);
    assert_eq!((shown.width, shown.height, shown.data), (5, 0, vec![]));
}

#[test]
fn the_page_of_a_camera_frame() {
    let mut meter = Meter::new();
    meter.record(Single { bits: 0.04f32.to_bits() });
    let src = slope(640, 480);
    let scaled = Frame::new(1, 1, vec![255, 255, 255]).unwrap();
    assert_eq!(
        camera_page(&src, &scaled, &opts(), &meter),
        "\x1b[H$\x1b[K\r\n\x1b[0m\x1b[J\r\nfps  25.0  640x480\u{2192}1x1px  [q/Esc to quit]\x1b[K"
    );
}

#[test]
fn pictures_leave_two_lines_of_the_terminal() {
    for (w, h) in [(640u32, 480u32), (480, 640), (3000, 20), (20, 3000), (1, 1)] {
        for term_h in 4..60u16 {
            let (a, b) = picture_size(w, h, &opts(), (80, term_h));
            assert!(a <= 80 && b + 2 <= term_h as u32);
            let blocks = RenderOpts { mode: Mode::Blocks, no_color: false, ..opts() };
            let (a, b) = picture_size(w, h, &blocks, (80, term_h));
            assert!(a <= 80 && b / 2 + 2 <= term_h as u32);
        }
    }
}

#[test]
fn very_wide_images_are_resampled() {
    let side: u32 = (1 << 20) + 77;
    let src = Frame::new(side, 1, vec![200; 3 * side as usize]).unwrap();
    let text = image_text(&src, &opts(), (80, 24));
    assert_eq!(text.matches("\r\n").count(), 1);
    let glyph = ascii_shader::shade::ramp_char((200, 200, 200), Single::one(), false);
    assert_eq!(text.chars().filter(|c| *c == glyph).count(), 80);
    let tall = Frame::new(1, side, vec![200; 3 * side as usize]).unwrap();
    let shown = camera_picture(&tall, &opts(), (80, 24));
    assert_eq!(shown.data, vec![200; 3 * 22]);
}

#[test]
fn sides_at_the_edge_of_single_precision() {
    let side: u32 = 1 << 22;
    let src = Frame::new(side, 1, vec![200; 3 * side as usize]).unwrap();
    for width in [side - 1, side + 1, 2 * side - 1] {
        let o = RenderOpts { width: Some(width), fill: true, ..opts() };
        let shown = camera_picture(&src, &o, (80, 4));
        assert_eq!((shown.width, shown.height), (width, 2));
        assert!(shown.data.iter().all(|b| *b == 200));
    }
    let image: ImageBuffer<Rgb<u8>, Vec<u8>> = ImageBuffer::from_raw(side, 1, src.data).unwrap();
    let scaled = image::imageops::resize(&image, side + 1, 1, FilterType::Lanczos3);
    assert!(scaled.into_raw().iter().all(|b| *b == 200));
}
