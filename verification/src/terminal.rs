//! What a terminal shows of a text.
use crate::frame::{law_mirrored_pixel, lemma_pixel_in_data, Picture};
use crate::options::{mode_of, Mode, RenderOpts};
use crate::render::{
    ascii_cell, ascii_line_end, ascii_lines, ascii_row, block_cell, block_colours, block_line_end, block_lines,
    block_row, picture_tokens,
};
use crate::shade::ramp_glyph;
use crate::text::{text, token_text, Rgb, Token};
use vstd::prelude::*;

verus! {

/// A character on the screen, and its colours where they are not the terminal's
/// own.
pub struct Cell {
    pub glyph: char,
    pub foreground: Option<Rgb>,
    pub background: Option<Rgb>,
}

/// A screen that is being written: the lines that are complete, the line that is
/// not, and the colours of what comes next.
#[verifier::ext_equal]
pub struct Screen {
    pub complete: Seq<Seq<Cell>>,
    pub line: Seq<Cell>,
    pub foreground: Option<Rgb>,
    pub background: Option<Rgb>,
}

/// A screen with nothing on it.
pub open spec fn blank() -> Screen {
    Screen { complete: Seq::empty(), line: Seq::empty(), foreground: None, background: None }
}

/// What a token does. Nothing stands to the right of where it is written, so
/// there is nothing to erase.
pub open spec fn obey(screen: Screen, token: Token) -> Screen {
    match token {
        Token::Foreground(c) => Screen { foreground: Some(c), ..screen },
        Token::Background(c) => Screen { background: Some(c), ..screen },
        Token::Reset => Screen { foreground: None, background: None, ..screen },
        Token::EraseLine => screen,
        Token::NextLine => Screen {
            complete: screen.complete.push(screen.line),
            line: Seq::empty(),
            ..screen
        },
        Token::Glyph(c) => Screen {
            line: screen.line.push(
                Cell { glyph: c, foreground: screen.foreground, background: screen.background },
            ),
            ..screen
        },
    }
}

/// What tokens do.
pub open spec fn shown(screen: Screen, tokens: Seq<Token>) -> Screen
    decreases tokens.len(),
{
    if tokens.len() == 0 {
        screen
    } else {
        obey(shown(screen, tokens.drop_last()), tokens.last())
    }
}

/// What is to be seen of a picture at a cell.
pub open spec fn picture_cell(p: Picture, opts: RenderOpts, mode: Mode, x: int, y: int) -> Cell {
    match mode {
        Mode::Blocks => {
            let (top, bottom) = block_colours(p, opts, x, 2 * y);
            Cell { glyph: '\u{2580}', foreground: Some(top), background: Some(bottom) }
        },
        Mode::Ascii => Cell {
            glyph: ramp_glyph(p.pixel(x, y), opts.brightness@, opts.invert),
            foreground: if opts.no_color {
                None
            } else {
                Some(p.pixel(x, y))
            },
            background: None,
        },
    }
}

/// The first `n` cells of a line of a picture.
pub open spec fn picture_line(p: Picture, opts: RenderOpts, mode: Mode, y: int, n: nat) -> Seq<Cell> {
    Seq::new(n, |x: int| picture_cell(p, opts, mode, x, y))
}

/// The first `n` lines of a picture.
pub open spec fn picture_lines(p: Picture, opts: RenderOpts, mode: Mode, n: nat) -> Seq<Seq<Cell>> {
    Seq::new(n, |y: int| picture_line(p, opts, mode, y, p.width))
}

/// What tokens do that follow each other.
proof fn lemma_shown_concat(screen: Screen, a: Seq<Token>, b: Seq<Token>)
    ensures
        shown(screen, a + b) == shown(shown(screen, a), b),
    decreases b.len(),
{
    if b.len() == 0 {
        assert(a + b == a);
    } else {
        assert((a + b).drop_last() == a + b.drop_last());
        lemma_shown_concat(screen, a, b.drop_last());
    }
}

/// What up to three tokens do.
proof fn lemma_shown_few(screen: Screen, a: Token, b: Token, c: Token)
    ensures
        shown(screen, seq![a]) == obey(screen, a),
        shown(screen, seq![a, b]) == obey(obey(screen, a), b),
        shown(screen, seq![a, b, c]) == obey(obey(obey(screen, a), b), c),
{
    assert(seq![a].drop_last() == Seq::<Token>::empty());
    assert(seq![a, b].drop_last() == seq![a]);
    assert(seq![a, b, c].drop_last() == seq![a, b]);
    assert(shown(screen, Seq::<Token>::empty()) == screen);
}

proof fn lemma_block_row(p: Picture, opts: RenderOpts, y: int, n: nat, screen: Screen)
    requires
        screen.line == Seq::<Cell>::empty(),
    ensures
        ({
            let s = shown(screen, block_row(p, opts, 2 * y, n));
            &&& s.complete == screen.complete
            &&& s.line == picture_line(p, opts, Mode::Blocks, y, n)
            &&& n > 0 ==> {
                let (top, bottom) = block_colours(p, opts, n - 1, 2 * y);
                s.foreground == Some(top) && s.background == Some(bottom)
            }
        }),
    decreases n,
{
    let s = shown(screen, block_row(p, opts, 2 * y, n));
    if n > 0 {
        let m = (n - 1) as nat;
        let row = block_row(p, opts, 2 * y, m);
        let cell = block_cell(p, opts, m as int, 2 * y);
        let before = shown(screen, row);
        lemma_block_row(p, opts, y, m, screen);
        lemma_shown_concat(screen, row, cell);
        let (top, bottom) = block_colours(p, opts, m as int, 2 * y);
        let f = Token::Foreground(top);
        let b = Token::Background(bottom);
        let g = Token::Glyph('\u{2580}');
        lemma_shown_few(before, f, b, g);
        lemma_shown_few(before, g, g, g);
        assert(cell =~= seq![f, b, g] || cell =~= seq![g]);
    }
    assert(s.line =~= picture_line(p, opts, Mode::Blocks, y, n));
}

proof fn lemma_block_lines(p: Picture, opts: RenderOpts, n: nat)
    ensures
        shown(blank(), block_lines(p, opts, n)) == (Screen {
            complete: picture_lines(p, opts, Mode::Blocks, n),
            ..blank()
        }),
    decreases n,
{
    let s = shown(blank(), block_lines(p, opts, n));
    if n > 0 {
        let m = (n - 1) as nat;
        lemma_block_lines(p, opts, m);
        let lines = block_lines(p, opts, m);
        let row = block_row(p, opts, 2 * m as int, p.width);
        let before = shown(blank(), lines);
        lemma_shown_concat(blank(), lines, row);
        lemma_shown_concat(blank(), lines + row, block_line_end());
        lemma_block_row(p, opts, m as int, p.width, before);
        lemma_shown_few(shown(before, row), Token::Reset, Token::EraseLine, Token::NextLine);
    }
    assert(s.complete =~= picture_lines(p, opts, Mode::Blocks, n));
}

proof fn lemma_ascii_row(p: Picture, opts: RenderOpts, y: int, n: nat, screen: Screen)
    requires
        screen.line == Seq::<Cell>::empty(),
        screen.foreground is None,
        screen.background is None,
    ensures
        ({
            let s = shown(screen, ascii_row(p, opts, y, n));
            &&& s.complete == screen.complete
            &&& s.line == picture_line(p, opts, Mode::Ascii, y, n)
            &&& s.background is None
            &&& s.foreground == (if n > 0 && !opts.no_color {
                Some(p.pixel(n - 1, y))
            } else {
                None
            })
        }),
    decreases n,
{
    let s = shown(screen, ascii_row(p, opts, y, n));
    if n > 0 {
        let m = (n - 1) as nat;
        let row = ascii_row(p, opts, y, m);
        let cell = ascii_cell(p, opts, m as int, y);
        let before = shown(screen, row);
        lemma_ascii_row(p, opts, y, m, screen);
        lemma_shown_concat(screen, row, cell);
        let c = p.pixel(m as int, y);
        let f = Token::Foreground(c);
        let g = Token::Glyph(ramp_glyph(c, opts.brightness@, opts.invert));
        lemma_shown_few(before, f, g, g);
        lemma_shown_few(before, g, g, g);
        assert(cell =~= seq![f, g] || cell =~= seq![g]);
    }
    assert(s.line =~= picture_line(p, opts, Mode::Ascii, y, n));
}

proof fn lemma_ascii_lines(p: Picture, opts: RenderOpts, n: nat)
    ensures
        shown(blank(), ascii_lines(p, opts, n)) == (Screen {
            complete: picture_lines(p, opts, Mode::Ascii, n),
            ..blank()
        }),
    decreases n,
{
    let s = shown(blank(), ascii_lines(p, opts, n));
    if n > 0 {
        let m = (n - 1) as nat;
        lemma_ascii_lines(p, opts, m);
        let lines = ascii_lines(p, opts, m);
        let row = ascii_row(p, opts, m as int, p.width);
        let before = shown(blank(), lines);
        lemma_shown_concat(blank(), lines, row);
        lemma_shown_concat(blank(), lines + row, ascii_line_end(opts));
        lemma_ascii_row(p, opts, m as int, p.width, before);
        lemma_shown_few(shown(before, row), Token::Reset, Token::EraseLine, Token::NextLine);
        lemma_shown_few(shown(before, row), Token::EraseLine, Token::NextLine, Token::NextLine);
    }
    assert(s.complete =~= picture_lines(p, opts, Mode::Ascii, n));
}

/// The number of lines that a picture takes.
pub open spec fn line_count(height: nat, mode: Mode) -> nat {
    match mode {
        Mode::Blocks => height / 2,
        Mode::Ascii => height,
    }
}

/// A terminal shows every cell of a picture in its own colours, though colours
/// are set only where they change, on lines that all have the picture's width,
/// and is left with its own colours at the start of a line.
pub proof fn law_every_cell_is_shown(p: Picture, opts: RenderOpts, mode: Mode)
    ensures
        shown(blank(), picture_tokens(p, opts, mode)) == (Screen {
            complete: picture_lines(p, opts, mode, line_count(p.height, mode)),
            ..blank()
        }),
{
    match mode {
        Mode::Blocks => lemma_block_lines(p, opts, p.height / 2),
        Mode::Ascii => lemma_ascii_lines(p, opts, p.height),
    }
}

/// A mirrored picture is shown with every line reversed.
pub proof fn law_mirror_reverses_lines(p: Picture, opts: RenderOpts, mode: Mode, y: int)
    requires
        p.wf(),
        0 <= y < line_count(p.height, mode),
    ensures
        picture_line(p.mirrored(), opts, mode, y, p.width) == picture_line(
            p,
            opts,
            mode,
            y,
            p.width,
        ).reverse(),
{
    let mirrored = picture_line(p.mirrored(), opts, mode, y, p.width);
    let line = picture_line(p, opts, mode, y, p.width);
    assert forall|x: int| 0 <= x < p.width implies mirrored[x] == #[trigger] line.reverse()[x] by {
        match mode {
            Mode::Blocks => {
                law_mirrored_pixel(p, x, 2 * y);
                law_mirrored_pixel(p, x, 2 * y + 1);
            },
            Mode::Ascii => law_mirrored_pixel(p, x, y),
        }
    }
    assert(mirrored =~= line.reverse());
}

/// Whether a token sets a colour, be it back to the terminal's own.
pub open spec fn sets_colour(t: Token) -> bool {
    t is Foreground || t is Background || t is Reset
}

/// No token sets a colour.
pub open spec fn plain(tokens: Seq<Token>) -> bool {
    forall|i: int| 0 <= i < tokens.len() ==> !sets_colour(#[trigger] tokens[i])
}

/// Without colour, no colour is ever set, nor set back.
pub proof fn law_no_color_sets_no_colour(p: Picture, opts: RenderOpts)
    requires
        opts.no_color,
    ensures
        plain(picture_tokens(p, opts, mode_of(opts))),
{
    lemma_plain_lines(p, opts, p.height);
}

proof fn lemma_plain_concat(a: Seq<Token>, b: Seq<Token>)
    requires
        plain(a),
        plain(b),
    ensures
        plain(a + b),
{
    assert forall|i: int| 0 <= i < (a + b).len() implies !sets_colour(#[trigger] (a + b)[i]) by {
        if i < a.len() {
            assert((a + b)[i] == a[i]);
        } else {
            assert((a + b)[i] == b[i - a.len()]);
        }
    }
}

proof fn lemma_plain_lines(p: Picture, opts: RenderOpts, n: nat)
    requires
        opts.no_color,
    ensures
        plain(ascii_lines(p, opts, n)),
    decreases n,
{
    if n > 0 {
        let lines = ascii_lines(p, opts, (n - 1) as nat);
        let row = ascii_row(p, opts, n - 1, p.width);
        lemma_plain_lines(p, opts, (n - 1) as nat);
        lemma_plain_row(p, opts, n - 1, p.width);
        lemma_plain_concat(lines, row);
        lemma_plain_concat(lines + row, ascii_line_end(opts));
    }
}

proof fn lemma_plain_row(p: Picture, opts: RenderOpts, y: int, n: nat)
    requires
        opts.no_color,
    ensures
        plain(ascii_row(p, opts, y, n)),
    decreases n,
{
    if n > 0 {
        lemma_plain_row(p, opts, y, (n - 1) as nat);
        lemma_plain_concat(ascii_row(p, opts, y, (n - 1) as nat), ascii_cell(p, opts, n - 1, y));
    }
}

/// Two pictures of the same width, one above the other.
pub open spec fn stacked(a: Picture, b: Picture) -> Picture {
    Picture { width: a.width, height: a.height + b.height, data: a.data + b.data }
}

proof fn lemma_stacked_pixel(a: Picture, b: Picture, x: int, y: int)
    requires
        a.wf(),
        b.wf(),
        a.width == b.width,
        0 <= x < a.width,
        0 <= y,
    ensures
        y < a.height ==> stacked(a, b).pixel(x, y) == a.pixel(x, y),
        y < b.height ==> stacked(a, b).pixel(x, a.height + y) == b.pixel(x, y),
{
    if y < a.height {
        lemma_pixel_in_data(a, x, y);
    }
    if y < b.height {
        lemma_pixel_in_data(b, x, y);
        let (w, h) = (a.width as int, a.height as int);
        assert(3 * ((h + y) * w + x) == 3 * (w * h) + 3 * (y * w + x)) by (nonlinear_arith);
    }
}

proof fn lemma_same_block_row(p: Picture, y: int, q: Picture, z: int, opts: RenderOpts, n: nat)
    requires
        forall|x: int|
            0 <= x < n ==> #[trigger] p.pixel(x, y) == q.pixel(x, z) && p.pixel(x, y + 1) == q.pixel(x, z + 1),
    ensures
        block_row(p, opts, y, n) == block_row(q, opts, z, n),
    decreases n,
{
    if n > 0 {
        lemma_same_block_row(p, y, q, z, opts, (n - 1) as nat);
        assert(p.pixel(n - 1, y) == q.pixel(n - 1, z));
        if n > 1 {
            assert(p.pixel(n - 2, y) == q.pixel(n - 2, z));
        }
    }
}

proof fn lemma_same_ascii_row(p: Picture, y: int, q: Picture, z: int, opts: RenderOpts, n: nat)
    requires
        forall|x: int| 0 <= x < n ==> #[trigger] p.pixel(x, y) == q.pixel(x, z),
    ensures
        ascii_row(p, opts, y, n) == ascii_row(q, opts, z, n),
    decreases n,
{
    if n > 0 {
        lemma_same_ascii_row(p, y, q, z, opts, (n - 1) as nat);
        assert(p.pixel(n - 1, y) == q.pixel(n - 1, z));
        if n > 1 {
            assert(p.pixel(n - 2, y) == q.pixel(n - 2, z));
        }
    }
}

/// Lines of a picture on top are those of the picture alone.
proof fn lemma_stacked_top(a: Picture, b: Picture, opts: RenderOpts, n: nat)
    requires
        a.wf(),
        b.wf(),
        a.width == b.width,
    ensures
        n <= a.height ==> ascii_lines(stacked(a, b), opts, n) == ascii_lines(a, opts, n),
        2 * n <= a.height ==> block_lines(stacked(a, b), opts, n) == block_lines(a, opts, n),
    decreases n,
{
    let c = stacked(a, b);
    if n > 0 {
        lemma_stacked_top(a, b, opts, (n - 1) as nat);
        if n <= a.height {
            assert forall|x: int| 0 <= x < a.width implies #[trigger] c.pixel(x, n - 1) == a.pixel(x, n - 1) by {
                lemma_stacked_pixel(a, b, x, n - 1);
            }
            lemma_same_ascii_row(c, n - 1, a, n - 1, opts, a.width);
        }
        if 2 * n <= a.height {
            let y = 2 * (n - 1) as int;
            assert forall|x: int| 0 <= x < a.width implies #[trigger] c.pixel(x, y) == a.pixel(x, y) by {
                lemma_stacked_pixel(a, b, x, y);
            }
            assert forall|x: int| 0 <= x < a.width implies #[trigger] c.pixel(x, y + 1) == a.pixel(x, y + 1) by {
                lemma_stacked_pixel(a, b, x, y + 1);
            }
            assert forall|x: int| 0 <= x < a.width implies #[trigger] c.pixel(x, y) == a.pixel(x, y) && c.pixel(
                x,
                y + 1,
            ) == a.pixel(x, y + 1) by {
                assert(c.pixel(x, y + 1) == a.pixel(x, y + 1));
            }
            lemma_same_block_row(c, y, a, y, opts, a.width);
        }
    }
}

/// Lines of a picture below another are those of the picture alone.
proof fn lemma_stacked_bottom(a: Picture, b: Picture, opts: RenderOpts, n: nat)
    requires
        a.wf(),
        b.wf(),
        a.width == b.width,
    ensures
        n <= b.height ==> ascii_lines(stacked(a, b), opts, a.height + n) == ascii_lines(a, opts, a.height)
            + ascii_lines(b, opts, n),
        a.height % 2 == 0 && 2 * n <= b.height ==> block_lines(stacked(a, b), opts, a.height / 2 + n)
            == block_lines(a, opts, a.height / 2) + block_lines(b, opts, n),
    decreases n,
{
    let c = stacked(a, b);
    let h = a.height as int;
    if n == 0 {
        lemma_stacked_top(a, b, opts, a.height);
        lemma_stacked_top(a, b, opts, a.height / 2);
        assert(ascii_lines(a, opts, a.height) + ascii_lines(b, opts, 0) =~= ascii_lines(a, opts, a.height));
        assert(block_lines(a, opts, a.height / 2) + block_lines(b, opts, 0) =~= block_lines(
            a,
            opts,
            a.height / 2,
        ));
    } else {
        let m = (n - 1) as nat;
        lemma_stacked_bottom(a, b, opts, m);
        if n <= b.height {
            assert forall|x: int| 0 <= x < a.width implies #[trigger] c.pixel(x, h + m) == b.pixel(x, m as int) by {
                lemma_stacked_pixel(a, b, x, m as int);
            }
            lemma_same_ascii_row(c, h + m, b, m as int, opts, a.width);
            assert(ascii_lines(c, opts, (a.height + n) as nat) =~= ascii_lines(a, opts, a.height)
                + ascii_lines(b, opts, n));
        }
        if a.height % 2 == 0 && 2 * n <= b.height {
            let y = 2 * m as int;
            assert forall|x: int| 0 <= x < a.width implies #[trigger] c.pixel(x, h + y) == b.pixel(x, y)
                && c.pixel(x, h + y + 1) == b.pixel(x, y + 1) by {
                lemma_stacked_pixel(a, b, x, y);
                lemma_stacked_pixel(a, b, x, y + 1);
            }
            lemma_same_block_row(c, h + y, b, y, opts, a.width);
            assert(2 * (a.height / 2 + n - 1) == h + y);
            assert(block_lines(c, opts, (a.height / 2 + n) as nat) =~= block_lines(a, opts, a.height / 2)
                + block_lines(b, opts, n));
        }
    }
}

proof fn lemma_text_concat(a: Seq<Token>, b: Seq<Token>)
    ensures
        text(a + b) == text(a) + text(b),
    decreases b.len(),
{
    if b.len() == 0 {
        assert(a + b =~= a);
        assert(text(a) + text(b) =~= text(a));
    } else {
        assert((a + b).drop_last() =~= a + b.drop_last());
        lemma_text_concat(a, b.drop_last());
        assert(text(a) + text(b.drop_last()) + token_text(b.last()) =~= text(a) + text(b));
    }
}

/// Every line of a picture stands for itself: the text of two pictures, one above
/// the other, is the text of the one and the text of the other. For half blocks
/// the upper one has whole lines.
pub proof fn law_lines_stand_for_themselves(a: Picture, b: Picture, opts: RenderOpts, mode: Mode)
    requires
        a.wf(),
        b.wf(),
        a.width == b.width,
        mode is Blocks ==> a.height % 2 == 0,
    ensures
        text(picture_tokens(stacked(a, b), opts, mode)) == text(picture_tokens(a, opts, mode)) + text(
            picture_tokens(b, opts, mode),
        ),
{
    match mode {
        Mode::Ascii => lemma_stacked_bottom(a, b, opts, b.height),
        Mode::Blocks => {
            lemma_stacked_bottom(a, b, opts, b.height / 2);
            assert((a.height + b.height) / 2 == a.height / 2 + b.height / 2);
        },
    }
    lemma_text_concat(picture_tokens(a, opts, mode), picture_tokens(b, opts, mode));
}

/// How many tokens set a foreground.
pub open spec fn foregrounds(tokens: Seq<Token>) -> nat
    decreases tokens.len(),
{
    if tokens.len() == 0 {
        0
    } else {
        foregrounds(tokens.drop_last()) + (if tokens.last() is Foreground {
            1nat
        } else {
            0
        })
    }
}

/// How many tokens set a background.
pub open spec fn backgrounds(tokens: Seq<Token>) -> nat
    decreases tokens.len(),
{
    if tokens.len() == 0 {
        0
    } else {
        backgrounds(tokens.drop_last()) + (if tokens.last() is Background {
            1nat
        } else {
            0
        })
    }
}

/// How many cells of a line have other colours than the one before, or none
/// before.
pub open spec fn colour_runs(line: Seq<Cell>) -> nat
    decreases line.len(),
{
    if line.len() == 0 {
        0
    } else {
        let n = line.len() as int;
        colour_runs(line.drop_last()) + (if n == 1 || (line[n - 1].foreground, line[n - 1].background) != (
            line[n - 2].foreground,
            line[n - 2].background,
        ) {
            1nat
        } else {
            0
        })
    }
}

/// The same of lines.
pub open spec fn all_runs(lines: Seq<Seq<Cell>>) -> nat
    decreases lines.len(),
{
    if lines.len() == 0 {
        0
    } else {
        all_runs(lines.drop_last()) + colour_runs(lines.last())
    }
}

proof fn lemma_count_concat(a: Seq<Token>, b: Seq<Token>)
    ensures
        foregrounds(a + b) == foregrounds(a) + foregrounds(b),
        backgrounds(a + b) == backgrounds(a) + backgrounds(b),
    decreases b.len(),
{
    if b.len() == 0 {
        assert(a + b =~= a);
    } else {
        assert((a + b).drop_last() =~= a + b.drop_last());
        lemma_count_concat(a, b.drop_last());
    }
}

proof fn lemma_count_few(a: Token, b: Token, c: Token)
    ensures
        foregrounds(seq![a]) == (if a is Foreground {
            1int
        } else {
            0
        }),
        backgrounds(seq![a]) == (if a is Background {
            1int
        } else {
            0
        }),
        foregrounds(seq![a, b]) == foregrounds(seq![a]) + (if b is Foreground {
            1int
        } else {
            0
        }),
        backgrounds(seq![a, b]) == backgrounds(seq![a]) + (if b is Background {
            1int
        } else {
            0
        }),
        foregrounds(seq![a, b, c]) == foregrounds(seq![a, b]) + (if c is Foreground {
            1int
        } else {
            0
        }),
        backgrounds(seq![a, b, c]) == backgrounds(seq![a, b]) + (if c is Background {
            1int
        } else {
            0
        }),
{
    assert(seq![a].drop_last() =~= Seq::<Token>::empty());
    assert(seq![a, b].drop_last() =~= seq![a]);
    assert(seq![a, b, c].drop_last() =~= seq![a, b]);
    assert(foregrounds(Seq::<Token>::empty()) == 0);
    assert(backgrounds(Seq::<Token>::empty()) == 0);
}

proof fn lemma_block_runs(p: Picture, opts: RenderOpts, y: int, n: nat)
    ensures
        foregrounds(block_row(p, opts, 2 * y, n)) == colour_runs(picture_line(p, opts, Mode::Blocks, y, n)),
        backgrounds(block_row(p, opts, 2 * y, n)) == colour_runs(picture_line(p, opts, Mode::Blocks, y, n)),
    decreases n,
{
    let line = picture_line(p, opts, Mode::Blocks, y, n);
    if n > 0 {
        let m = (n - 1) as nat;
        lemma_block_runs(p, opts, y, m);
        let cell = block_cell(p, opts, m as int, 2 * y);
        lemma_count_concat(block_row(p, opts, 2 * y, m), cell);
        let (top, bottom) = block_colours(p, opts, m as int, 2 * y);
        let (f, b, g) = (Token::Foreground(top), Token::Background(bottom), Token::Glyph('\u{2580}'));
        lemma_count_few(f, b, g);
        lemma_count_few(g, g, g);
        assert(cell =~= seq![f, b, g] || cell =~= seq![g]);
        assert(line.drop_last() =~= picture_line(p, opts, Mode::Blocks, y, m));
        assert(line[n - 1] == picture_cell(p, opts, Mode::Blocks, n - 1, y));
        if n > 1 {
            assert(line[n - 2] == picture_cell(p, opts, Mode::Blocks, n - 2, y));
            assert(cell.len() == 3 <==> block_colours(p, opts, n - 2, 2 * y) != (top, bottom));
        }
    }
}

proof fn lemma_ascii_runs(p: Picture, opts: RenderOpts, y: int, n: nat)
    ensures
        foregrounds(ascii_row(p, opts, y, n)) == (if opts.no_color {
            0
        } else {
            colour_runs(picture_line(p, opts, Mode::Ascii, y, n))
        }),
        backgrounds(ascii_row(p, opts, y, n)) == 0,
    decreases n,
{
    let line = picture_line(p, opts, Mode::Ascii, y, n);
    if n > 0 {
        let m = (n - 1) as nat;
        lemma_ascii_runs(p, opts, y, m);
        let cell = ascii_cell(p, opts, m as int, y);
        lemma_count_concat(ascii_row(p, opts, y, m), cell);
        let c = p.pixel(m as int, y);
        let (f, g) = (Token::Foreground(c), Token::Glyph(ramp_glyph(c, opts.brightness@, opts.invert)));
        lemma_count_few(f, g, g);
        lemma_count_few(g, g, g);
        assert(cell =~= seq![f, g] || cell =~= seq![g]);
        assert(line.drop_last() =~= picture_line(p, opts, Mode::Ascii, y, m));
        assert(line[n - 1] == picture_cell(p, opts, Mode::Ascii, n - 1, y));
        if n > 1 {
            assert(line[n - 2] == picture_cell(p, opts, Mode::Ascii, n - 2, y));
        }
    }
}

proof fn lemma_lines_runs(p: Picture, opts: RenderOpts, n: nat)
    ensures
        foregrounds(block_lines(p, opts, n)) == all_runs(picture_lines(p, opts, Mode::Blocks, n)),
        backgrounds(block_lines(p, opts, n)) == all_runs(picture_lines(p, opts, Mode::Blocks, n)),
        foregrounds(ascii_lines(p, opts, n)) == (if opts.no_color {
            0
        } else {
            all_runs(picture_lines(p, opts, Mode::Ascii, n))
        }),
        backgrounds(ascii_lines(p, opts, n)) == 0,
    decreases n,
{
    if n > 0 {
        let m = (n - 1) as nat;
        lemma_lines_runs(p, opts, m);
        let (r, e, t) = (Token::Reset, Token::EraseLine, Token::NextLine);
        lemma_count_few(r, e, t);
        lemma_count_few(e, t, t);
        let row = block_row(p, opts, 2 * m as int, p.width);
        lemma_count_concat(block_lines(p, opts, m), row);
        lemma_count_concat(block_lines(p, opts, m) + row, block_line_end());
        lemma_block_runs(p, opts, m as int, p.width);
        let blocks = picture_lines(p, opts, Mode::Blocks, n);
        assert(blocks.drop_last() =~= picture_lines(p, opts, Mode::Blocks, m));
        assert(blocks.last() == picture_line(p, opts, Mode::Blocks, m as int, p.width));
        let row = ascii_row(p, opts, m as int, p.width);
        lemma_count_concat(ascii_lines(p, opts, m), row);
        lemma_count_concat(ascii_lines(p, opts, m) + row, ascii_line_end(opts));
        lemma_ascii_runs(p, opts, m as int, p.width);
        let lines = picture_lines(p, opts, Mode::Ascii, n);
        assert(lines.drop_last() =~= picture_lines(p, opts, Mode::Ascii, m));
        assert(lines.last() == picture_line(p, opts, Mode::Ascii, m as int, p.width));
    }
}

/// Colours are set as often as they change along the lines that are shown, and no
/// more: for a half block both at once, for a character its own alone, and none
/// without colour.
pub proof fn law_colours_are_set_where_they_change(p: Picture, opts: RenderOpts, mode: Mode)
    ensures
        ({
            let tokens = picture_tokens(p, opts, mode);
            let runs = all_runs(shown(blank(), tokens).complete);
            &&& mode is Blocks ==> foregrounds(tokens) == runs && backgrounds(tokens) == runs
            &&& mode is Ascii ==> backgrounds(tokens) == 0 && foregrounds(tokens) == (if opts.no_color {
                0
            } else {
                runs
            })
        }),
{
    law_every_cell_is_shown(p, opts, mode);
    lemma_lines_runs(p, opts, line_count(p.height, mode));
}

} // verus!
