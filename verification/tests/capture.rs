use ascii_shader::capture::{camera_frame, can_decode, RawFormat};
use nokhwa::pixel_format::RgbFormat;
use nokhwa::utils::{yuyv444_to_rgb, FrameFormat, Resolution};
use nokhwa::Buffer;

const FORMATS: [(RawFormat, FrameFormat); 5] = [
    (RawFormat::Yuyv, FrameFormat::YUYV),
    (RawFormat::Nv12, FrameFormat::NV12),
    (RawFormat::Gray, FrameFormat::GRAY),
    (RawFormat::RawRgb, FrameFormat::RAWRGB),
    (RawFormat::RawBgr, FrameFormat::RAWBGR),
];

fn bytes(n: usize) -> Vec<u8> {
    (0..n).map(|i| (i * 73 % 251) as u8).collect()
}

#[test]
fn frames_are_what_the_camera_library_decodes() {
    for (format, layout) in FORMATS {
        for (w, h) in [(1u32, 1u32), (2, 2), (4, 2), (3, 5), (6, 4), (0, 3)] {
            for n in 0..100usize {
                let data = bytes(n);
                assert!(can_decode(w, h, n, format));
                let mine = camera_frame(w, h, &data, format);
                let buffer = Buffer::new(Resolution::new(w, h), &data, layout);
                match buffer.decode_image::<RgbFormat>() {
                    Ok(image) => {
                        let frame = mine.unwrap();
                        assert_eq!((frame.width, frame.height), (w, h));
                        assert_eq!(frame.data.len(), (3 * w * h) as usize);
                        for (x, y, p) in image.enumerate_pixels() {
                            assert_eq!(frame.get_pixel(x, y), (p[0], p[1], p[2]));
                        }
                    }
                    Err(e) => assert_eq!(mine.unwrap_err(), e.to_string()),
                }
            }
        }
    }
}

#[test]
fn colours_in_their_order() {
    let data = bytes(12);
    assert_eq!(camera_frame(2, 2, &data, RawFormat::RawRgb).unwrap().data, data);
    let bgr = camera_frame(1, 2, &vec![1, 2, 3, 4, 5, 6], RawFormat::RawBgr).unwrap();
    assert_eq!(bgr.data, vec![3, 2, 1, 6, 5, 4]);
    let gray = camera_frame(3, 1, &vec![7, 8, 9], RawFormat::Gray).unwrap();
    assert_eq!(gray.data, vec![7, 7, 7, 8, 8, 8, 9, 9, 9]);
}

#[test]
fn two_pixels_share_a_hue() {
    let frame = camera_frame(2, 1, &vec![235, 128, 16, 128], RawFormat::Yuyv).unwrap();
    assert_eq!(frame.data, vec![255, 255, 255, 0, 0, 0]);
    let frame = camera_frame(2, 1, &vec![81, 90, 81, 240], RawFormat::Yuyv).unwrap();
    let [r, g, b] = yuyv444_to_rgb(81, 90, 240);
    assert_eq!(frame.data, vec![r, g, b, r, g, b]);
    assert_eq!((r, g, b), (255, 0, 0));
}

#[test]
fn four_pixels_share_a_hue() {
    let frame = camera_frame(2, 2, &vec![16, 235, 235, 16, 128, 128], RawFormat::Nv12).unwrap();
    assert_eq!(frame.data, vec![0, 0, 0, 255, 255, 255, 255, 255, 255, 0, 0, 0]);
}

#[test]
fn what_is_too_long_is_cut() {
    let frame = camera_frame(1, 1, &vec![1, 2, 3, 4, 5, 6, 7], RawFormat::RawRgb).unwrap();
    assert_eq!(frame.data, vec![1, 2, 3]);
    let frame = camera_frame(1, 1, &vec![5, 6], RawFormat::Gray).unwrap();
    assert_eq!(frame.data, vec![5, 5, 5]);
    let frame = camera_frame(1, 1, &vec![235, 128, 16, 128], RawFormat::Yuyv).unwrap();
    assert_eq!(frame.data, vec![255, 255, 255]);
}

#[test]
fn what_is_no_frame_is_an_error() {
    for format in [RawFormat::RawRgb, RawFormat::RawBgr, RawFormat::Gray, RawFormat::Yuyv] {
        assert!(camera_frame(2, 2, &vec![0, 0, 0], format).is_err());
    }
    assert!(camera_frame(1, 1, &vec![0; 6], RawFormat::Yuyv).is_err());
    assert!(camera_frame(2, 2, &vec![0; 7], RawFormat::Nv12).is_err());
    assert!(camera_frame(3, 2, &vec![0; 9], RawFormat::Nv12).is_err());
}

#[test]
fn only_what_can_be_addressed_is_decoded() {
    assert!(can_decode(1920, 1080, 3_110_400, RawFormat::Nv12));
    assert!(!can_decode(65_536, 65_536, 0, RawFormat::Nv12));
    assert!(!can_decode(0x8000_0000, 0, 0, RawFormat::Nv12));
    assert!(!can_decode(0, 2, 0, RawFormat::Nv12));
    assert!(!can_decode(0x8000_0000, 0, 0, RawFormat::Gray));
    assert!(!can_decode(0x8000_0000, 0, 0, RawFormat::Yuyv));
    assert!(can_decode(0x5555_5555, 0, 0, RawFormat::Gray));
    assert!(can_decode(0x8000_0000, 1, 0, RawFormat::Gray));
    assert!(can_decode(0, 1, 0, RawFormat::Nv12));
    assert!(can_decode(0, 2, 1, RawFormat::Nv12));
    assert!(can_decode(65_536, 65_536, 0, RawFormat::Gray));
    assert!(!can_decode(1, 1, usize::MAX, RawFormat::Gray));
    assert!(camera_frame(65_536, 65_536, &vec![1, 2], RawFormat::Gray).is_err());
}

#[test]
fn every_brightness_and_hue() {
    let byte = |n: i32| (n >> 8).clamp(0, 255) as u8;
    for y in (0..256i32).step_by(5) {
        for u in (0..256i32).step_by(5) {
            for v in (0..256i32).step_by(5) {
                let (l, d, e) = (298 * (y - 16) + 128, u - 128, v - 128);
                let rgb = [byte(l + 409 * e), byte(l - 100 * d - 208 * e), byte(l + 516 * d)];
                let data = vec![y as u8, u as u8, 255 - y as u8, v as u8];
                let frame = camera_frame(2, 1, &data, RawFormat::Yuyv).unwrap();
                assert_eq!(frame.data[..3], rgb);
                let data = vec![0, y as u8, 0, 0, 0, 0, 0, 0, 0, 0, 0, 0, u as u8, v as u8, 0, 0, 0, 0];
                let frame = camera_frame(6, 2, &data, RawFormat::Nv12);
                assert_eq!(frame.unwrap().data[3..6], rgb);
            }
        }
    }
}

#[test]
fn where_four_pixels_find_their_hue() {
    let (w, h) = (4usize, 4usize);
    let data = bytes(24);
    let frame = camera_frame(4, 4, &data, RawFormat::Nv12).unwrap();
    for y in 0..h {
        for x in 0..w {
            let hue = w * h + (y / 2) * w + 2 * (x / 2);
            let [r, g, b] = yuyv444_to_rgb(data[w * y + x] as i32, data[hue] as i32, data[hue + 1] as i32);
            assert_eq!(frame.get_pixel(x as u32, y as u32), (r, g, b));
        }
    }
}
