use ascii_shader::frame::{can_resize, Frame};

#[test]
fn data_must_suffice() {
    assert!(Frame::new(2, 2, vec![0; 12]).is_some());
    assert!(Frame::new(2, 2, vec![0; 11]).is_none());
    let longer = Frame::new(2, 2, (0..20).collect()).unwrap();
    assert_eq!(longer.data, (0..12).collect::<Vec<u8>>());
    assert!(Frame::new(0, 7, vec![]).is_some());
    assert!(Frame::new(u32::MAX, u32::MAX, vec![]).is_none());
}

#[test]
fn pixels_go_by_rows() {
    let f = Frame::new(2, 2, (1..=12).collect()).unwrap();
    assert_eq!(f.get_pixel(0, 0), (1, 2, 3));
    assert_eq!(f.get_pixel(1, 0), (4, 5, 6));
    assert_eq!(f.get_pixel(0, 1), (7, 8, 9));
    assert_eq!(f.get_pixel(1, 1), (10, 11, 12));
}

#[test]
fn only_what_can_be_addressed_is_resampled() {
    let f = Frame::new(2, 2, vec![0; 12]).unwrap();
    assert!(can_resize(&f, 1, 1));
    assert!(can_resize(&f, 100_000, 100_000));
    assert!(!can_resize(&f, 0, 5));
    assert!(!can_resize(&f, 5, 0));
    assert!(!can_resize(&f, u32::MAX, u32::MAX));
    let wide = Frame::new(1 << 22, 1, vec![0; 3 << 22]).unwrap();
    assert!(can_resize(&wide, 80, 24));
    assert!(can_resize(&wide, 1 << 23, 24));
    let wider = Frame::new((1 << 22) + 1, 1, vec![0; (3 << 22) + 3]).unwrap();
    assert!(can_resize(&wider, 1 << 21, 24));
    assert!(!can_resize(&wider, (1 << 21) + 1, 24));
    assert!(can_resize(&wider, (1 << 22) + 1, 1));
    assert!(!can_resize(&wider, (1 << 22) + 1, 2));
}
