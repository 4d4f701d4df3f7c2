use ascii_shader::frame::Frame;
use ascii_shader::options::{effective_mode, Mode, RenderOpts};
use ascii_shader::render::{render_ascii, render_blocks, render_frame};
use ascii_shader::single::Single;

fn plain() -> RenderOpts {
    RenderOpts {
        mode: Mode::Ascii,
        width: None,
        no_color: false,
        invert: false,
        brightness: Single::one(),
        mirror: false,
        fill: false,
    }
}

fn frame(width: u32, height: u32, pixels: &[(u8, u8, u8)]) -> Frame {
    let mut data = Vec::new();
    for p in pixels {
        data.push(p.0);
        data.push(p.1);
        data.push(p.2);
    }
    Frame::new(width, height, data).unwrap()
}

const BLACK: (u8, u8, u8) = (0, 0, 0);
const WHITE: (u8, u8, u8) = (255, 255, 255);

#[test]
fn without_colour_the_mode_is_ascii() {
    assert_eq!(effective_mode(&plain()), Mode::Ascii);
    assert_eq!(effective_mode(&RenderOpts { mode: Mode::Blocks, ..plain() }), Mode::Blocks);
    assert_eq!(effective_mode(&RenderOpts { mode: Mode::Blocks, no_color: true, ..plain() }), Mode::Ascii);
}

#[test]
fn characters_with_colour() {
    let mut out = String::from(">");
    render_ascii(&frame(2, 1, &[BLACK, WHITE]), &plain(), &mut out);
    assert_eq!(out, ">\x1b[38;2;0;0;0m \x1b[38;2;255;255;255m$\x1b[0m\x1b[K\r\n");
}

#[test]
fn equal_neighbours_share_a_colour() {
    let mut out = String::new();
    render_ascii(&frame(3, 2, &[WHITE, WHITE, BLACK, BLACK, BLACK, WHITE]), &plain(), &mut out);
    assert_eq!(
        out,
        "\x1b[38;2;255;255;255m$$\x1b[38;2;0;0;0m \x1b[0m\x1b[K\r\n\
         \x1b[38;2;0;0;0m  \x1b[38;2;255;255;255m$\x1b[0m\x1b[K\r\n"
    );
}

#[test]
fn characters_without_colour() {
    let opts = RenderOpts { no_color: true, ..plain() };
    let mut out = String::new();
    render_ascii(&frame(2, 2, &[WHITE, BLACK, BLACK, WHITE]), &opts, &mut out);
    assert_eq!(out, "$ \x1b[K\r\n $\x1b[K\r\n");
}

#[test]
fn characters_keep_the_colour_of_the_picture() {
    let opts = RenderOpts { invert: true, ..plain() };
    let mut out = String::new();
    render_ascii(&frame(1, 1, &[WHITE]), &opts, &mut out);
    assert_eq!(out, "\x1b[38;2;255;255;255m \x1b[0m\x1b[K\r\n");
}

#[test]
fn half_blocks_take_two_rows() {
    let mut out = String::from(">");
    render_blocks(&frame(2, 2, &[(1, 2, 3), (1, 2, 3), (40, 50, 60), (40, 50, 60)]), &plain(), &mut out);
    assert_eq!(
        out,
        ">\x1b[38;2;1;2;3m\x1b[48;2;40;50;60m\u{2580}\u{2580}\x1b[0m\x1b[K\r\n"
    );
}

#[test]
fn half_blocks_set_both_colours_where_one_changes() {
    let mut out = String::new();
    render_blocks(&frame(2, 2, &[BLACK, BLACK, BLACK, WHITE]), &plain(), &mut out);
    assert_eq!(
        out,
        "\x1b[38;2;0;0;0m\x1b[48;2;0;0;0m\u{2580}\
         \x1b[38;2;0;0;0m\x1b[48;2;255;255;255m\u{2580}\x1b[0m\x1b[K\r\n"
    );
}

#[test]
fn half_blocks_leave_out_an_odd_row() {
    let mut out = String::new();
    render_blocks(&frame(1, 3, &[BLACK, WHITE, WHITE]), &plain(), &mut out);
    assert_eq!(out, "\x1b[38;2;0;0;0m\x1b[48;2;255;255;255m\u{2580}\x1b[0m\x1b[K\r\n");
    let mut none = String::new();
    render_blocks(&frame(1, 1, &[BLACK]), &plain(), &mut none);
    assert_eq!(none, "");
}

#[test]
fn half_blocks_are_adjusted() {
    let opts = RenderOpts {
        invert: true,
        brightness: Single { bits: 0.5f32.to_bits() },
        ..plain()
    };
    let mut out = String::new();
    render_blocks(&frame(1, 2, &[WHITE, BLACK]), &opts, &mut out);
    assert_eq!(out, "\x1b[38;2;128;128;128m\x1b[48;2;255;255;255m\u{2580}\x1b[0m\x1b[K\r\n");
}

#[test]
fn colours_that_meet_after_adjusting_are_set_once() {
    let opts = RenderOpts { brightness: Single { bits: 9.0f32.to_bits() }, ..plain() };
    let mut out = String::new();
    render_blocks(&frame(2, 2, &[(99, 99, 99), (88, 88, 88), BLACK, BLACK]), &opts, &mut out);
    assert_eq!(
        out,
        "\x1b[38;2;255;255;255m\x1b[48;2;0;0;0m\u{2580}\u{2580}\x1b[0m\x1b[K\r\n"
    );
}

#[test]
fn the_mode_picks_the_renderer() {
    let f = frame(2, 2, &[BLACK, WHITE, WHITE, BLACK]);
    let mut a = String::new();
    let mut b = String::new();
    render_frame(&f, &plain(), Mode::Ascii, &mut a);
    render_ascii(&f, &plain(), &mut b);
    assert_eq!(a, b);
    let mut a = String::new();
    let mut b = String::new();
    render_frame(&f, &plain(), Mode::Blocks, &mut a);
    render_blocks(&f, &plain(), &mut b);
    assert_eq!(a, b);
}

#[test]
fn empty_pictures_have_no_cells() {
    let mut out = String::new();
    render_ascii(&frame(0, 2, &[]), &plain(), &mut out);
    assert_eq!(out, "\x1b[0m\x1b[K\r\n\x1b[0m\x1b[K\r\n");
    let mut out = String::new();
    render_ascii(&frame(2, 0, &[]), &plain(), &mut out);
    assert_eq!(out, "");
}
