//! A picture on a terminal, from its pixels to the text that is written.
use crate::fit::{
    at_least, fit_image, fitted, law_fit_meets_a_limit, law_size_keeps_proportions,
};
use crate::frame::{flip_horizontal, resizable, resize, resized, Filter, Frame, Picture};
use crate::meter::{is_rate, rate_text, Meter};
use crate::options::{effective_mode, mode_of, RenderOpts};
use crate::render::{picture_tokens, render_frame};
use crate::single::Value;
use crate::terminal::line_count;
use crate::text::{decimal, push_decimal, text};
use vstd::prelude::*;

verus! {

/// The columns and rows of a terminal, and what is taken for them where it does
/// not tell.
pub fn terminal_size(reported: Option<(u16, u16)>) -> (size: (u16, u16))
    ensures
        size == (match reported {
            Some(s) => s,
            None => (100u16, 40u16),
        }),
{
    match reported {
        Some(s) => s,
        None => (100, 40),
    }
}

/// The width that a picture may take: what was asked for, or the terminal's,
/// which counts as ten columns at least.
pub open spec fn picture_columns(width: Option<u32>, term_w: nat) -> nat {
    match width {
        Some(w) => w as nat,
        None => at_least(term_w, 10),
    }
}

/// The height that a picture may take: two lines less than the terminal's.
pub open spec fn picture_rows(term_h: nat) -> nat {
    at_least(
        if term_h < 2 {
            0
        } else {
            (term_h - 2) as nat
        },
        2,
    )
}

/// The size in pixels at which a picture is shown.
pub open spec fn picture_fit(p: Picture, opts: RenderOpts, term: (u16, u16)) -> (nat, nat) {
    fitted(
        p.width,
        p.height,
        picture_columns(opts.width, term.0 as nat),
        picture_rows(term.1 as nat),
        mode_of(opts),
        opts.fill,
    )
}

/// A picture as it is shown: mirrored where asked for.
pub open spec fn turned(p: Picture, opts: RenderOpts) -> Picture {
    if opts.mirror {
        p.mirrored()
    } else {
        p
    }
}

/// The text of a picture as it is shown.
pub open spec fn picture_text(p: Picture, opts: RenderOpts) -> Seq<char> {
    text(picture_tokens(p, opts, mode_of(opts)))
}

/// The line below a camera frame: the frame rate, the frame's size and the size
/// at which it is shown.
pub open spec fn status_text(rate: Value, p: Picture, w: nat, h: nat) -> Seq<char> {
    "\x1b[0m\x1b[J\r\nfps "@ + rate_text(rate) + "  "@ + decimal(p.width) + "x"@ + decimal(p.height)
        + "\u{2192}"@ + decimal(w) + "x"@ + decimal(h) + "px  [q/Esc to quit]\x1b[K"@
}

/// The text of a camera frame as it is shown, over what was shown before.
pub open spec fn camera_screen(shown: Picture, opts: RenderOpts, rate: Value, source: Picture) -> Seq<char> {
    "\x1b[H"@ + picture_text(shown, opts) + status_text(rate, source, shown.width, shown.height)
}

/// The number of rows that a picture may take.
fn row_limit(term_h: u16) -> (rows: u32)
    ensures
        rows == picture_rows(term_h as nat),
{
    if term_h < 4 {
        2
    } else {
        term_h as u32 - 2
    }
}

/// The size in pixels at which a picture is shown.
pub fn picture_size(src_w: u32, src_h: u32, opts: &RenderOpts, term: (u16, u16)) -> (size: (u32, u32))
    ensures
        (size.0 as nat, size.1 as nat) == fitted(
            src_w as nat,
            src_h as nat,
            picture_columns(opts.width, term.0 as nat),
            picture_rows(term.1 as nat),
            mode_of(*opts),
            opts.fill,
        ),
{
    let max_w: u32 = match opts.width {
        Some(w) => w,
        None => if term.0 < 10 {
            10
        } else {
            term.0 as u32
        },
    };
    fit_image(src_w, src_h, max_w, row_limit(term.1), effective_mode(opts), opts.fill)
}

/// A picture as it is shown, once it has its size.
pub fn turn(img: Frame, opts: &RenderOpts) -> (shown: Frame)
    requires
        img@.wf(),
    ensures
        shown@ == turned(img@, *opts),
        shown@.wf(),
{
    if opts.mirror && img.height > 0 {
        flip_horizontal(&img)
    } else {
        proof {
            if opts.mirror {
                assert(img@.width * 0 == 0) by (nonlinear_arith);
                assert(img@.mirrored() =~= img@);
            }
        }
        img
    }
}

/// A text is that of a still image: scaled to fit the terminal by the sharper of
/// the filters, unless it has its size already, mirrored where asked for, and
/// rendered.
pub open spec fn shows_image(src: Picture, opts: RenderOpts, term: (u16, u16), out: Seq<char>) -> bool {
    let (w, h) = picture_fit(src, opts, term);
    exists|data: Seq<u8>|
        {
            let scaled = Picture { width: w, height: h, data };
            &&& #[trigger] resized(src.width, src.height, src.data, w, h, true).contains(data)
            &&& scaled.wf()
            &&& (w, h) == (src.width, src.height) ==> scaled == src
            &&& out == picture_text(turned(scaled, opts), opts)
        }
}

/// A picture is that of a camera frame: scaled to fit the terminal by the faster
/// of the filters, unless it has its size already, and mirrored where asked for.
pub open spec fn shows_frame(src: Picture, opts: RenderOpts, term: (u16, u16), shown: Picture) -> bool {
    let (w, h) = picture_fit(src, opts, term);
    exists|data: Seq<u8>|
        {
            let scaled = Picture { width: w, height: h, data };
            &&& #[trigger] resized(src.width, src.height, src.data, w, h, false).contains(data)
            &&& resized(src.width, src.height, src.data, w, h, false) == set![data]
            &&& scaled.wf()
            &&& (w, h) == (src.width, src.height) ==> scaled == src
            &&& shown == turned(scaled, opts)
        }
}

/// The text of a still image: scaled to fit the terminal, mirrored where asked
/// for, and rendered.
pub fn image_text(src: &Frame, opts: &RenderOpts, term: (u16, u16)) -> (out: String)
    requires
        ({
            let (w, h) = picture_fit(src@, *opts, term);
            resizable(src@, w, h)
        }),
    ensures
        shows_image(src@, *opts, term, out@),
{
    let (w, h): (u32, u32) = picture_size(src.width, src.height, opts, term);
    let scaled = resize(src, w, h, Filter::Lanczos3);
    let ghost data = scaled@.data;
    assert(scaled@ == (Picture { width: w as nat, height: h as nat, data }));
    let shown = turn(scaled, opts);
    let mut out = String::new();
    render_frame(&shown, opts, effective_mode(opts), &mut out);
    assert(out@ =~= picture_text(shown@, *opts));
    out
}

/// A camera frame as it is shown: scaled to fit the terminal, and mirrored where
/// asked for.
pub fn camera_picture(src: &Frame, opts: &RenderOpts, term: (u16, u16)) -> (shown: Frame)
    requires
        ({
            let (w, h) = picture_fit(src@, *opts, term);
            resizable(src@, w, h)
        }),
    ensures
        shows_frame(src@, *opts, term, shown@),
        shown@.wf(),
{
    let (w, h): (u32, u32) = picture_size(src.width, src.height, opts, term);
    let scaled = resize(src, w, h, Filter::Triangle);
    let ghost data = scaled@.data;
    assert(scaled@ == (Picture { width: w as nat, height: h as nat, data }));
    assert(resized(src@.width, src@.height, src@.data, w as nat, h as nat, false) == set![data]);
    turn(scaled, opts)
}

/// The line below a camera frame.
fn status_line(meter: &Meter, src: &Frame, shown: &Frame) -> (out: String)
    ensures
        is_rate(meter.rate()),
        out@ == status_text(meter.rate(), src@, shown@.width, shown@.height),
{
    let mut out = "\x1b[0m\x1b[J\r\nfps ".to_owned();
    meter.push_rate(&mut out);
    out.append("  ");
    push_decimal(&mut out, src.width as u64);
    out.append("x");
    push_decimal(&mut out, src.height as u64);
    out.append("\u{2192}");
    push_decimal(&mut out, shown.width as u64);
    out.append("x");
    push_decimal(&mut out, shown.height as u64);
    out.append("px  [q/Esc to quit]\x1b[K");
    out
}

/// The text of a camera frame as it is shown, and of the line below it.
pub fn camera_page(src: &Frame, shown: &Frame, opts: &RenderOpts, meter: &Meter) -> (out: String)
    requires
        shown@.wf(),
    ensures
        is_rate(meter.rate()),
        out@ == camera_screen(shown@, *opts, meter.rate(), src@),
{
    let mut out = "\x1b[H".to_owned();
    render_frame(shown, opts, effective_mode(opts), &mut out);
    let status = status_line(meter, src, shown);
    out.append(status.as_str());
    out
}

/// A picture, unless a width was asked for, is no wider than the terminal, and
/// in any case leaves two of its lines. Below a camera frame these are the one
/// that the frame ends on and the one with the frame rate.
pub proof fn law_picture_fits_terminal(p: Picture, opts: RenderOpts, term: (u16, u16))
    requires
        term.0 >= 10,
        term.1 >= 4,
    ensures
        ({
            let (w, h) = picture_fit(p, opts, term);
            &&& opts.width is None ==> w <= term.0
            &&& line_count(h, mode_of(opts)) + 2 <= term.1
        }),
{
}

/// A width that was asked for is kept to, whatever the terminal's. Half blocks
/// are two columns wide at least.
pub proof fn law_width_wins(p: Picture, opts: RenderOpts, term: (u16, u16), width: u32)
    requires
        opts.width == Some(width),
        width >= (if mode_of(opts) is Blocks {
            2int
        } else {
            1
        }),
    ensures
        picture_fit(p, opts, term).0 <= width,
        opts.fill ==> picture_fit(p, opts, term).0 == width,
{
}

/// A picture that fills, with no width asked for, is as wide as the terminal and
/// as high as it, but for two lines.
pub proof fn law_fill_covers_the_terminal(p: Picture, opts: RenderOpts, term: (u16, u16))
    requires
        opts.fill,
        opts.width is None,
        term.0 >= 10,
        term.1 >= 4,
    ensures
        ({
            let (w, h) = picture_fit(p, opts, term);
            &&& w == term.0
            &&& line_count(h, mode_of(opts)) + 2 == term.1
        }),
{
}

/// A picture that does not fill is as large as fits: it is as wide as was asked
/// for, or as the terminal, or it leaves just two of the terminal's lines. As long
/// as its sides are no more than `2^24`, it is the width where the picture is too
/// wide for the terminal, and the lines where it is too high.
pub proof fn law_picture_is_as_large_as_fits(p: Picture, opts: RenderOpts, term: (u16, u16), columns: u32)
    requires
        1 <= p.width <= u32::MAX,
        1 <= p.height <= u32::MAX,
        !opts.fill,
        opts.width == Some(columns) || opts.width is None && columns == term.0 && term.0 >= 10,
        2 <= columns <= 0x80_0000,
        term.1 >= 4,
    ensures
        ({
            let (w, h) = picture_fit(p, opts, term);
            let lines = if opts.no_color || opts.mode is Ascii {
                h
            } else {
                h / 2
            };
            let rows = term.1 - 2;
            &&& w == columns || lines == rows
            &&& p.width <= 0x100_0000 && p.height <= 0x100_0000 ==> {
                &&& columns * p.height <= 2 * rows * p.width ==> w == columns
                &&& columns * p.height >= 2 * rows * p.width ==> lines == rows
            }
        }),
{
    law_fit_meets_a_limit(
        p.width as u32,
        p.height as u32,
        columns,
        picture_rows(term.1 as nat) as u32,
        mode_of(opts),
    );
}

/// A picture that does not fill keeps its proportions on the screen, a character
/// counting as two pixels high, to within one of its own pixels on each side and
/// unless a side has its least length.
pub proof fn law_picture_keeps_proportions(p: Picture, opts: RenderOpts, term: (u16, u16))
    requires
        1 <= p.width <= 0x100_0000,
        1 <= p.height <= 0x100_0000,
        !opts.fill,
        opts.width matches Some(w) ==> w < 0x40_0000,
    ensures
        ({
            let (w, h) = picture_fit(p, opts, term);
            let tall = if opts.no_color || opts.mode is Ascii {
                2 * h as int
            } else {
                h as int
            };
            &&& w > 2 ==> w * p.height - tall * p.width <= p.width + p.height
            &&& tall > 2 ==> tall * p.width - w * p.height <= p.width + p.height
        }),
{
    law_size_keeps_proportions(
        p.width as u32,
        p.height as u32,
        picture_columns(opts.width, term.0 as nat) as u32,
        picture_rows(term.1 as nat) as u32,
        mode_of(opts),
    );
}

/// To ask for the width of a terminal comes to the same as to have that terminal.
/// One of less than ten columns, or of less than four lines, counts as having
/// these.
pub proof fn law_width_asked_for_is_that_of_a_terminal(p: Picture, opts: RenderOpts, term: (u16, u16), other: u16)
    requires
        opts.width is None,
    ensures
        term.0 >= 10 ==> picture_fit(p, opts, term) == picture_fit(
            p,
            RenderOpts { width: Some(term.0 as u32), ..opts },
            (other, term.1),
        ),
        term.0 < 10 ==> picture_fit(p, opts, term) == picture_fit(p, opts, (10, term.1)),
        term.1 < 4 ==> picture_fit(p, opts, term) == picture_fit(p, opts, (term.0, 4)),
{
}

} // verus!
