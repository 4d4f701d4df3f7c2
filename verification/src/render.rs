//! Pictures as terminal text.
use crate::frame::{Frame, Picture};
use crate::options::{Mode, RenderOpts};
use crate::shade::{adjust, adjusted, ramp_char, ramp_glyph};
use crate::single::{Single, Value};
use crate::text::{lemma_text_push, push_token, text, token_text, Rgb, Token};
use vstd::prelude::*;

verus! {

/// A colour after brightness and inversion.
#[verifier::opaque]
pub open spec fn adjusted_colour(c: Rgb, brightness: Value, invert: bool) -> Rgb {
    (
        adjusted(c.0 as nat, brightness, invert) as u8,
        adjusted(c.1 as nat, brightness, invert) as u8,
        adjusted(c.2 as nat, brightness, invert) as u8,
    )
}

/// The two colours of a half-block cell: that of the upper pixel and that of the
/// lower.
pub open spec fn block_colours(p: Picture, opts: RenderOpts, x: int, y: int) -> (Rgb, Rgb) {
    (
        adjusted_colour(p.pixel(x, y), opts.brightness@, opts.invert),
        adjusted_colour(p.pixel(x, y + 1), opts.brightness@, opts.invert),
    )
}

/// A half-block cell. The colours are set where they are not those of the cell
/// before.
pub open spec fn block_cell(p: Picture, opts: RenderOpts, x: int, y: int) -> Seq<Token> {
    let (top, bottom) = block_colours(p, opts, x, y);
    let colours = if x == 0 || block_colours(p, opts, x - 1, y) != (top, bottom) {
        seq![Token::Foreground(top), Token::Background(bottom)]
    } else {
        Seq::empty()
    };
    colours.push(Token::Glyph('\u{2580}'))
}

/// The first `n` half-block cells of a row.
pub open spec fn block_row(p: Picture, opts: RenderOpts, y: int, n: nat) -> Seq<Token>
    decreases n,
{
    if n == 0 {
        Seq::empty()
    } else {
        block_row(p, opts, y, (n - 1) as nat) + block_cell(p, opts, n - 1, y)
    }
}

/// What ends a line of half blocks.
pub open spec fn block_line_end() -> Seq<Token> {
    seq![Token::Reset, Token::EraseLine, Token::NextLine]
}

/// The first `n` lines of half blocks, each from two rows of pixels.
pub open spec fn block_lines(p: Picture, opts: RenderOpts, n: nat) -> Seq<Token>
    decreases n,
{
    if n == 0 {
        Seq::empty()
    } else {
        block_lines(p, opts, (n - 1) as nat) + block_row(p, opts, 2 * (n - 1), p.width)
            + block_line_end()
    }
}

/// A cell of the ramp. The colour is set where it is not that of the cell before.
pub open spec fn ascii_cell(p: Picture, opts: RenderOpts, x: int, y: int) -> Seq<Token> {
    let c = p.pixel(x, y);
    let colours = if !opts.no_color && (x == 0 || p.pixel(x - 1, y) != c) {
        seq![Token::Foreground(c)]
    } else {
        Seq::empty()
    };
    colours.push(Token::Glyph(ramp_glyph(c, opts.brightness@, opts.invert)))
}

/// The first `n` cells of a row of characters.
pub open spec fn ascii_row(p: Picture, opts: RenderOpts, y: int, n: nat) -> Seq<Token>
    decreases n,
{
    if n == 0 {
        Seq::empty()
    } else {
        ascii_row(p, opts, y, (n - 1) as nat) + ascii_cell(p, opts, n - 1, y)
    }
}

/// What ends a line of characters.
pub open spec fn ascii_line_end(opts: RenderOpts) -> Seq<Token> {
    if opts.no_color {
        seq![Token::EraseLine, Token::NextLine]
    } else {
        seq![Token::Reset, Token::EraseLine, Token::NextLine]
    }
}

/// The first `n` lines of characters.
pub open spec fn ascii_lines(p: Picture, opts: RenderOpts, n: nat) -> Seq<Token>
    decreases n,
{
    if n == 0 {
        Seq::empty()
    } else {
        ascii_lines(p, opts, (n - 1) as nat) + ascii_row(p, opts, n - 1, p.width) + ascii_line_end(opts)
    }
}

/// A whole picture. A last row of pixels that has none below it shows in no half
/// block.
pub open spec fn picture_tokens(p: Picture, opts: RenderOpts, mode: Mode) -> Seq<Token> {
    match mode {
        Mode::Blocks => block_lines(p, opts, p.height / 2),
        Mode::Ascii => ascii_lines(p, opts, p.height),
    }
}

/// A colour after brightness and inversion.
fn adjust_colour(c: Rgb, brightness: Single, invert: bool) -> (r: Rgb)
    ensures
        r == adjusted_colour(c, brightness@, invert),
{
    proof {
        reveal(adjusted_colour);
    }
    (adjust(c.0, brightness, invert), adjust(c.1, brightness, invert), adjust(c.2, brightness, invert))
}

/// Whether two colours are the same.
fn same_colour(a: Rgb, b: Rgb) -> (r: bool)
    ensures
        r == (a == b),
{
    a.0 == b.0 && a.1 == b.1 && a.2 == b.2
}

/// Appends one token to a text whose tokens are known.
fn emit(out: &mut String, token: Token, Ghost(start): Ghost<Seq<char>>, Ghost(tokens): Ghost<Seq<Token>>)
    requires
        old(out)@ == start + text(tokens),
    ensures
        final(out)@ == start + text(tokens.push(token)),
{
    push_token(out, token);
    proof {
        lemma_text_push(tokens, token);
        assert((start + text(tokens)) + token_text(token) =~= start + (text(tokens) + token_text(token)));
    }
}

/// Appends a picture in half blocks.
pub fn render_blocks(img: &Frame, opts: &RenderOpts, out: &mut String)
    requires
        img@.wf(),
    ensures
        final(out)@ == old(out)@ + text(picture_tokens(img@, *opts, Mode::Blocks)),
{
    let ghost p = img@;
    let ghost start = out@;
    let w: u32 = img.width;
    let h: u32 = img.height;
    let mut y: u32 = 0;
    assert(start + text(Seq::<Token>::empty()) == start);
    while y < h && h - y >= 2
        invariant
            img@ == p,
            p.wf(),
            w == p.width,
            h == p.height,
            y <= h,
            y % 2 == 0,
            out@ == start + text(block_lines(p, *opts, (y / 2) as nat)),
        decreases h - y,
    {
        let ghost lines = block_lines(p, *opts, (y / 2) as nat);
        let mut last: Option<(Rgb, Rgb)> = None;
        let mut x: u32 = 0;
        assert(lines + block_row(p, *opts, y as int, 0) == lines);
        while x < w
            invariant
                img@ == p,
                p.wf(),
                w == p.width,
                h == p.height,
                y + 1 < h,
                x <= w,
                out@ == start + text(lines + block_row(p, *opts, y as int, x as nat)),
                last == (if x == 0 {
                    None::<(Rgb, Rgb)>
                } else {
                    Some(block_colours(p, *opts, x - 1, y as int))
                }),
            decreases w - x,
        {
            let top = adjust_colour(img.get_pixel(x, y), opts.brightness, opts.invert);
            let bottom = adjust_colour(img.get_pixel(x, y + 1), opts.brightness, opts.invert);
            let ghost row = lines + block_row(p, *opts, y as int, x as nat);
            let same = match last {
                Some((t, b)) => same_colour(t, top) && same_colour(b, bottom),
                None => false,
            };
            let ghost mut shown = row;
            if !same {
                emit(out, Token::Foreground(top), Ghost(start), Ghost(row));
                emit(
                    out,
                    Token::Background(bottom),
                    Ghost(start),
                    Ghost(row.push(Token::Foreground(top))),
                );
                last = Some((top, bottom));
                proof {
                    shown = row.push(Token::Foreground(top)).push(Token::Background(bottom));
                }
            }
            emit(out, Token::Glyph('\u{2580}'), Ghost(start), Ghost(shown));
            proof {
                assert(shown.push(Token::Glyph('\u{2580}')) =~= row + block_cell(p, *opts, x as int, y as int));
                assert(row + block_cell(p, *opts, x as int, y as int) =~= lines + block_row(
                    p,
                    *opts,
                    y as int,
                    (x + 1) as nat,
                ));
            }
            x = x + 1;
        }
        let ghost row = lines + block_row(p, *opts, y as int, p.width);
        emit(out, Token::Reset, Ghost(start), Ghost(row));
        emit(out, Token::EraseLine, Ghost(start), Ghost(row.push(Token::Reset)));
        emit(out, Token::NextLine, Ghost(start), Ghost(row.push(Token::Reset).push(Token::EraseLine)));
        proof {
            assert(row.push(Token::Reset).push(Token::EraseLine).push(Token::NextLine) =~= row
                + block_line_end());
            assert(2 * (y / 2) == y);
        }
        y = y + 2;
    }
}

/// Appends a picture in characters of the ramp.
pub fn render_ascii(img: &Frame, opts: &RenderOpts, out: &mut String)
    requires
        img@.wf(),
    ensures
        final(out)@ == old(out)@ + text(picture_tokens(img@, *opts, Mode::Ascii)),
{
    let ghost p = img@;
    let ghost start = out@;
    let w: u32 = img.width;
    let h: u32 = img.height;
    let mut y: u32 = 0;
    assert(start + text(Seq::<Token>::empty()) == start);
    while y < h
        invariant
            img@ == p,
            p.wf(),
            w == p.width,
            h == p.height,
            y <= h,
            out@ == start + text(ascii_lines(p, *opts, y as nat)),
        decreases h - y,
    {
        let ghost lines = ascii_lines(p, *opts, y as nat);
        let mut last: Option<Rgb> = None;
        let mut x: u32 = 0;
        assert(lines + ascii_row(p, *opts, y as int, 0) == lines);
        while x < w
            invariant
                img@ == p,
                p.wf(),
                w == p.width,
                h == p.height,
                y < h,
                x <= w,
                out@ == start + text(lines + ascii_row(p, *opts, y as int, x as nat)),
                !opts.no_color ==> last == (if x == 0 {
                    None::<Rgb>
                } else {
                    Some(p.pixel(x - 1, y as int))
                }),
            decreases w - x,
        {
            let c = img.get_pixel(x, y);
            let ch = ramp_char(c, opts.brightness, opts.invert);
            let ghost row = lines + ascii_row(p, *opts, y as int, x as nat);
            let same = match last {
                Some(l) => same_colour(l, c),
                None => false,
            };
            let ghost mut shown = row;
            if !opts.no_color && !same {
                emit(out, Token::Foreground(c), Ghost(start), Ghost(row));
                last = Some(c);
                proof {
                    shown = row.push(Token::Foreground(c));
                }
            }
            emit(out, Token::Glyph(ch), Ghost(start), Ghost(shown));
            proof {
                assert(shown.push(Token::Glyph(ch)) =~= row + ascii_cell(p, *opts, x as int, y as int));
                assert(row + ascii_cell(p, *opts, x as int, y as int) =~= lines + ascii_row(
                    p,
                    *opts,
                    y as int,
                    (x + 1) as nat,
                ));
            }
            x = x + 1;
        }
        let ghost row = lines + ascii_row(p, *opts, y as int, p.width);
        let ghost mut shown = row;
        if !opts.no_color {
            emit(out, Token::Reset, Ghost(start), Ghost(row));
            proof {
                shown = row.push(Token::Reset);
            }
        }
        emit(out, Token::EraseLine, Ghost(start), Ghost(shown));
        emit(out, Token::NextLine, Ghost(start), Ghost(shown.push(Token::EraseLine)));
        proof {
            assert(shown.push(Token::EraseLine).push(Token::NextLine) =~= row + ascii_line_end(*opts));
        }
        y = y + 1;
    }
}

/// Appends a picture.
pub fn render_frame(img: &Frame, opts: &RenderOpts, mode: Mode, out: &mut String)
    requires
        img@.wf(),
    ensures
        final(out)@ == old(out)@ + text(picture_tokens(img@, *opts, mode)),
{
    match mode {
        Mode::Blocks => render_blocks(img, opts, out),
        Mode::Ascii => render_ascii(img, opts, out),
    }
}

} // verus!
