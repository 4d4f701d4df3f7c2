//! A terminal that reads text, and what is on its screen then.
use crate::frame::{law_mirrored_pixel, resized, Picture};
use crate::meter::rate_text;
use crate::options::{mode_of, Mode, RenderOpts};
use crate::render::{
    adjusted_colour, ascii_cell, ascii_line_end, ascii_lines, ascii_row, block_cell, block_colours, block_line_end, block_lines,
    block_row, picture_tokens,
};
use crate::rounding::nearest_even;
use crate::screen::{
    camera_screen, picture_fit, picture_text, shows_frame, shows_image, status_text, turned,
};
use crate::shade::{
    adjusted, law_channel_is_nearest, law_character_is_nearest, law_character_stands_in_the_ramp, nearest_level,
    ramp_glyph, ramp_index, within, RAMP,
};
use crate::single::{one, Value};
use crate::terminal::{line_count, picture_cell, picture_line, picture_lines, Cell};
use crate::text::{colour_text, decimal, digit, text, token_text, Rgb, Token};
use vstd::prelude::*;

verus! {

/// The screen of a terminal, of any size, and how it reads on: where it writes,
/// in which colours, and what it has read of an escape sequence.
#[verifier::ext_equal]
pub struct Display {
    /// What stands where, by row and column from the top left.
    pub cells: Map<(nat, nat), Cell>,
    pub row: nat,
    pub column: nat,
    pub foreground: Option<Rgb>,
    pub background: Option<Rgb>,
    pub escape: Option<Seq<char>>,
}

/// The numbers of an escape sequence, which stand between semicolons.
pub open spec fn fields(s: Seq<char>) -> Seq<nat>
    decreases s.len(),
{
    if s.len() == 0 {
        seq![0]
    } else {
        let before = fields(s.drop_last());
        if s.last() == ';' {
            before.push(0)
        } else {
            before.drop_last().push((10 * before.last() + (s.last() as int - 48)) as nat)
        }
    }
}

/// The cells of a screen on which some were erased. They are left in the
/// background colour that is set, or empty where none is.
pub open spec fn erased(d: Display, gone: spec_fn((nat, nat)) -> bool) -> Map<(nat, nat), Cell> {
    Map::new(
        |k: (nat, nat)|
            if gone(k) {
                d.background is Some
            } else {
                d.cells.dom().contains(k)
            },
        |k: (nat, nat)|
            if gone(k) {
                Cell { glyph: ' ', foreground: None, background: d.background }
            } else {
                d.cells[k]
            },
    )
}

/// A terminal after an escape sequence: a colour, or the terminal's own colours,
/// for what is written next; the top left as the place to write; or nothing to
/// the right of that place, or nothing there and in the rows below.
pub open spec fn after_escape(d: Display, params: Seq<char>, last: char) -> Display {
    let d = Display { escape: None, ..d };
    let f = fields(params);
    let colour = (f[2] as u8, f[3] as u8, f[4] as u8);
    if last == 'm' && f.len() == 1 && f[0] == 0 {
        Display { foreground: None, background: None, ..d }
    } else if last == 'm' && f.len() == 5 && f[0] == 38 && f[1] == 2 {
        Display { foreground: Some(colour), ..d }
    } else if last == 'm' && f.len() == 5 && f[0] == 48 && f[1] == 2 {
        Display { background: Some(colour), ..d }
    } else if last == 'H' && params.len() == 0 {
        Display { row: 0, column: 0, ..d }
    } else if last == 'K' && params.len() == 0 {
        Display { cells: erased(d, |k: (nat, nat)| k.0 == d.row && k.1 >= d.column), ..d }
    } else if last == 'J' && params.len() == 0 {
        Display { cells: erased(d, |k: (nat, nat)| k.0 > d.row || k.0 == d.row && k.1 >= d.column), ..d }
    } else {
        d
    }
}

/// A terminal after a character.
pub open spec fn after_char(d: Display, c: char) -> Display {
    match d.escape {
        Some(s) => if s.len() == 0 || !('@' <= c <= '~') {
            Display { escape: Some(s.push(c)), ..d }
        } else {
            after_escape(d, s.drop_first(), c)
        },
        None => if c == '\x1b' {
            Display { escape: Some(Seq::empty()), ..d }
        } else if c == '\r' {
            Display { column: 0, ..d }
        } else if c == '\n' {
            Display { row: d.row + 1, ..d }
        } else {
            Display {
                cells: d.cells.insert(
                    (d.row, d.column),
                    Cell { glyph: c, foreground: d.foreground, background: d.background },
                ),
                column: d.column + 1,
                ..d
            }
        },
    }
}

/// A terminal after a text.
pub open spec fn after_text(d: Display, s: Seq<char>) -> Display
    decreases s.len(),
{
    if s.len() == 0 {
        d
    } else {
        after_char(after_text(d, s.drop_last()), s.last())
    }
}

/// A terminal that waits for text, with its own colours.
pub open spec fn at_rest(d: Display) -> bool {
    d.escape is None && d.foreground is None && d.background is None
}

proof fn lemma_after_concat(d: Display, a: Seq<char>, b: Seq<char>)
    ensures
        after_text(d, a + b) == after_text(after_text(d, a), b),
    decreases b.len(),
{
    if b.len() == 0 {
        assert(a + b =~= a);
    } else {
        assert((a + b).drop_last() =~= a + b.drop_last());
        lemma_after_concat(d, a, b.drop_last());
    }
}

proof fn lemma_after_one(d: Display, c: char)
    ensures
        after_text(d, seq![c]) == after_char(d, c),
{
    assert(seq![c].drop_last() =~= Seq::<char>::empty());
    assert(after_text(d, Seq::<char>::empty()) == d);
}

/// Characters that no escape sequence ends with.
spec fn inner(s: Seq<char>) -> bool {
    forall|i: int| 0 <= i < s.len() ==> !('@' <= #[trigger] s[i] <= '~')
}

proof fn lemma_after_params(d: Display, s: Seq<char>, params: Seq<char>)
    requires
        d.escape == Some(s),
        s.len() > 0,
        inner(params),
    ensures
        after_text(d, params) == (Display { escape: Some(s + params), ..d }),
    decreases params.len(),
{
    if params.len() == 0 {
        assert(s + params =~= s);
    } else {
        let before = params.drop_last();
        assert forall|i: int| 0 <= i < before.len() implies !('@' <= #[trigger] before[i] <= '~') by {
            assert(before[i] == params[i]);
        }
        lemma_after_params(d, s, before);
        assert((s + before).push(params.last()) =~= s + params);
        assert(params.last() == params[params.len() - 1]);
    }
}

/// A whole escape sequence.
proof fn lemma_after_sequence(d: Display, params: Seq<char>, last: char)
    requires
        d.escape is None,
        inner(params),
        '@' <= last <= '~',
    ensures
        after_text(d, seq!['\x1b', '['] + params + seq![last]) == after_escape(d, params, last),
{
    let start = seq!['\x1b', '['];
    lemma_after_concat(d, start + params, seq![last]);
    lemma_after_concat(d, start, params);
    assert(start =~= seq!['\x1b'] + seq!['[']);
    lemma_after_concat(d, seq!['\x1b'], seq!['[']);
    lemma_after_one(d, '\x1b');
    let d1 = after_char(d, '\x1b');
    lemma_after_one(d1, '[');
    let d2 = after_char(d1, '[');
    assert(Seq::<char>::empty().push('[') =~= seq!['[']);
    lemma_after_params(d2, seq!['['], params);
    let d3 = after_text(d2, params);
    lemma_after_one(d3, last);
    assert((seq!['['] + params).drop_first() =~= params);
}

proof fn lemma_decimal_inner(n: nat)
    ensures
        decimal(n).len() > 0,
        forall|i: int| 0 <= i < decimal(n).len() ==> '0' <= #[trigger] decimal(n)[i] <= '9',
    decreases n,
{
    if n >= 10 {
        lemma_decimal_inner(n / 10);
    }
}

proof fn lemma_fields_number(s: Seq<char>, n: nat)
    requires
        fields(s).len() > 0,
        fields(s).last() == 0,
    ensures
        fields(s + decimal(n)) == fields(s).drop_last().push(n),
    decreases n,
{
    let d = decimal(n);
    let before = d.drop_last();
    assert((s + d).drop_last() =~= s + before);
    assert((s + d).last() == d.last());
    if n < 10 {
        assert(before =~= Seq::<char>::empty());
        assert(s + before =~= s);
        assert(d.last() == digit(n));
    } else {
        assert(before =~= decimal(n / 10));
        lemma_fields_number(s, n / 10);
        let f = fields(s).drop_last();
        assert(f.push(n / 10).drop_last() =~= f);
        assert(d.last() == digit(n % 10));
    }
}

proof fn lemma_fields_next(s: Seq<char>)
    ensures
        fields(s + seq![';']) == fields(s).push(0),
{
    assert((s + seq![';']).drop_last() =~= s);
}

/// A sequence of four fields that stand before a colour, and the colour.
proof fn lemma_after_colour(d: Display, which: nat, c: Rgb)
    requires
        d.escape is None,
        which == 38 || which == 48,
    ensures
        after_text(d, seq!['\x1b', '['] + decimal(which) + seq![';', '2', ';'] + colour_text(c)) == (if which
            == 38 {
            Display { foreground: Some(c), ..d }
        } else {
            Display { background: Some(c), ..d }
        }),
{
    reveal_strlit(";");
    reveal_strlit("m");
    let semi = seq![';'];
    let (r, g, b) = (decimal(c.0 as nat), decimal(c.1 as nat), decimal(c.2 as nat));
    let e = Seq::<char>::empty();
    let s1 = e + decimal(which);
    lemma_fields_number(e, which);
    assert(fields(s1) =~= seq![which]);
    let s2 = s1 + semi;
    lemma_fields_next(s1);
    assert(decimal(2) =~= seq!['2']);
    let s3 = s2 + decimal(2);
    lemma_fields_number(s2, 2);
    assert(fields(s3) =~= seq![which, 2]);
    let s4 = s3 + semi;
    lemma_fields_next(s3);
    let s5 = s4 + r;
    lemma_fields_number(s4, c.0 as nat);
    assert(fields(s5) =~= seq![which, 2, c.0 as nat]);
    let s6 = s5 + semi;
    lemma_fields_next(s5);
    let s7 = s6 + g;
    lemma_fields_number(s6, c.1 as nat);
    assert(fields(s7) =~= seq![which, 2, c.0 as nat, c.1 as nat]);
    let s8 = s7 + semi;
    lemma_fields_next(s7);
    let s9 = s8 + b;
    lemma_fields_number(s8, c.2 as nat);
    assert(fields(s9) =~= seq![which, 2, c.0 as nat, c.1 as nat, c.2 as nat]);
    lemma_decimal_inner(which);
    lemma_decimal_inner(c.0 as nat);
    lemma_decimal_inner(c.1 as nat);
    lemma_decimal_inner(c.2 as nat);
    lemma_inner_concat(e, decimal(which));
    lemma_inner_concat(s1, semi);
    lemma_inner_concat(s2, decimal(2));
    lemma_inner_concat(s3, semi);
    lemma_inner_concat(s4, r);
    lemma_inner_concat(s5, semi);
    lemma_inner_concat(s6, g);
    lemma_inner_concat(s7, semi);
    lemma_inner_concat(s8, b);
    lemma_after_sequence(d, s9, 'm');
    assert(seq!['\x1b', '['] + decimal(which) + seq![';', '2', ';'] + colour_text(c) =~= seq!['\x1b', '[']
        + s9 + seq!['m']);
}

proof fn lemma_inner_concat(a: Seq<char>, b: Seq<char>)
    requires
        inner(a),
        inner(b),
    ensures
        inner(a + b),
{
    assert forall|i: int| 0 <= i < (a + b).len() implies !('@' <= #[trigger] (a + b)[i] <= '~') by {
        if i < a.len() {
            assert((a + b)[i] == a[i]);
        } else {
            assert((a + b)[i] == b[i - a.len()]);
        }
    }
}

/// A terminal after a token.
spec fn after_token(d: Display, t: Token) -> Display {
    match t {
        Token::Foreground(c) => Display { foreground: Some(c), ..d },
        Token::Background(c) => Display { background: Some(c), ..d },
        Token::Reset => Display { foreground: None, background: None, ..d },
        Token::EraseLine => after_escape(d, Seq::empty(), 'K'),
        Token::NextLine => Display { row: d.row + 1, column: 0, ..d },
        Token::Glyph(c) => after_char(d, c),
    }
}

/// A terminal reads the text of a token as the token means it.
proof fn lemma_token_read(d: Display, t: Token)
    requires
        d.escape is None,
    ensures
        after_text(d, token_text(t)) == after_token(d, t),
{
    reveal(token_text);
    let e = Seq::<char>::empty();
    match t {
        Token::Foreground(c) => {
            reveal_strlit("\x1b[38;2;");
            lemma_after_colour(d, 38, c);
            assert(decimal(3) =~= seq!['3']);
            assert(decimal(38) =~= seq!['3', '8']);
            assert("\x1b[38;2;"@ =~= seq!['\x1b', '['] + decimal(38) + seq![';', '2', ';']);
        },
        Token::Background(c) => {
            reveal_strlit("\x1b[48;2;");
            lemma_after_colour(d, 48, c);
            assert(decimal(4) =~= seq!['4']);
            assert(decimal(48) =~= seq!['4', '8']);
            assert("\x1b[48;2;"@ =~= seq!['\x1b', '['] + decimal(48) + seq![';', '2', ';']);
        },
        Token::Reset => {
            reveal_strlit("\x1b[0m");
            let zero = seq!['0'];
            assert(zero.drop_last() =~= e);
            assert(fields(zero) =~= seq![0nat]);
            lemma_after_sequence(d, zero, 'm');
            assert("\x1b[0m"@ =~= seq!['\x1b', '['] + zero + seq!['m']);
        },
        Token::EraseLine => {
            reveal_strlit("\x1b[K");
            lemma_after_sequence(d, e, 'K');
            assert("\x1b[K"@ =~= seq!['\x1b', '['] + e + seq!['K']);
        },
        Token::NextLine => {
            reveal_strlit("\r\n");
            assert("\r\n"@ =~= seq!['\r'] + seq!['\n']);
            lemma_after_concat(d, seq!['\r'], seq!['\n']);
            lemma_after_one(d, '\r');
            lemma_after_one(after_char(d, '\r'), '\n');
        },
        Token::Glyph(c) => {
            lemma_after_one(d, c);
        },
    }
}

/// A terminal after tokens.
spec fn after_tokens(d: Display, tokens: Seq<Token>) -> Display
    decreases tokens.len(),
{
    if tokens.len() == 0 {
        d
    } else {
        after_token(after_tokens(d, tokens.drop_last()), tokens.last())
    }
}

/// No glyph that means anything to a terminal but itself.
spec fn printable(tokens: Seq<Token>) -> bool {
    forall|i: int| 0 <= i < tokens.len() ==> ((#[trigger] tokens[i]) matches Token::Glyph(c) ==> c >= ' ')
}

proof fn lemma_tokens_read(d: Display, tokens: Seq<Token>)
    requires
        d.escape is None,
        printable(tokens),
    ensures
        after_text(d, text(tokens)) == after_tokens(d, tokens),
        after_tokens(d, tokens).escape is None,
    decreases tokens.len(),
{
    if tokens.len() > 0 {
        let before = tokens.drop_last();
        assert forall|i: int| 0 <= i < before.len() implies ((#[trigger] before[i]) matches Token::Glyph(
            c,
        ) ==> c >= ' ') by {
            assert(before[i] == tokens[i]);
        }
        lemma_tokens_read(d, before);
        lemma_after_concat(d, text(before), token_text(tokens.last()));
        lemma_token_read(after_tokens(d, before), tokens.last());
        assert(tokens.last() == tokens[tokens.len() - 1]);
    }
}

proof fn lemma_tokens_concat(d: Display, a: Seq<Token>, b: Seq<Token>)
    ensures
        after_tokens(d, a + b) == after_tokens(after_tokens(d, a), b),
    decreases b.len(),
{
    if b.len() == 0 {
        assert(a + b =~= a);
    } else {
        assert((a + b).drop_last() =~= a + b.drop_last());
        lemma_tokens_concat(d, a, b.drop_last());
    }
}

/// What up to three tokens do.
proof fn lemma_tokens_few(d: Display, a: Token, b: Token, c: Token)
    ensures
        after_tokens(d, seq![a]) == after_token(d, a),
        after_tokens(d, seq![a, b]) == after_token(after_token(d, a), b),
        after_tokens(d, seq![a, b, c]) == after_token(after_token(after_token(d, a), b), c),
{
    assert(seq![a].drop_last() =~= Seq::<Token>::empty());
    assert(seq![a, b].drop_last() =~= seq![a]);
    assert(seq![a, b, c].drop_last() =~= seq![a, b]);
    assert(after_tokens(d, Seq::<Token>::empty()) == d);
}

/// The cells of a screen on which the first cells of a row are those of a line.
spec fn with_start(cells: Map<(nat, nat), Cell>, row: nat, line: Seq<Cell>) -> Map<(nat, nat), Cell> {
    Map::new(
        |k: (nat, nat)| cells.dom().contains(k) || (k.0 == row && k.1 < line.len()),
        |k: (nat, nat)|
            if k.0 == row && k.1 < line.len() {
                line[k.1 as int]
            } else {
                cells[k]
            },
    )
}

/// The cells of a screen on which rows, from one on, are lines and nothing else.
spec fn with_lines(cells: Map<(nat, nat), Cell>, row: nat, lines: Seq<Seq<Cell>>) -> Map<(nat, nat), Cell> {
    Map::new(
        |k: (nat, nat)|
            if row <= k.0 < row + lines.len() {
                k.1 < lines[k.0 - row].len()
            } else {
                cells.dom().contains(k)
            },
        |k: (nat, nat)|
            if row <= k.0 < row + lines.len() {
                lines[k.0 - row][k.1 as int]
            } else {
                cells[k]
            },
    )
}

proof fn lemma_start_grows(cells: Map<(nat, nat), Cell>, row: nat, line: Seq<Cell>, c: Cell)
    ensures
        with_start(cells, row, line).insert((row, line.len()), c) == with_start(cells, row, line.push(c)),
{
    assert(with_start(cells, row, line).insert((row, line.len()), c) =~= with_start(
        cells,
        row,
        line.push(c),
    ));
}

/// A line that has ended stands alone in its row.
proof fn lemma_line_ends(d: Display, cells: Map<(nat, nat), Cell>, row: nat, lines: Seq<Seq<Cell>>, line: Seq<Cell>)
    requires
        d.escape is None,
        d.background is None,
        d.row == row + lines.len(),
        d.column == line.len(),
        d.cells == with_start(with_lines(cells, row, lines), d.row, line),
    ensures
        after_token(after_token(d, Token::EraseLine), Token::NextLine) == (Display {
            cells: with_lines(cells, row, lines.push(line)),
            row: row + lines.len() + 1,
            column: 0,
            ..d
        }),
{
    let e = after_token(d, Token::EraseLine);
    assert(e.cells =~= with_lines(cells, row, lines.push(line)));
}

proof fn lemma_block_row_drawn(p: Picture, opts: RenderOpts, y: int, n: nat, d: Display)
    requires
        d.escape is None,
        d.column == 0,
    ensures
        ({
            let e = after_tokens(d, block_row(p, opts, 2 * y, n));
            &&& e.cells == with_start(d.cells, d.row, picture_line(p, opts, Mode::Blocks, y, n))
            &&& e.row == d.row
            &&& e.column == n
            &&& e.escape is None
            &&& n > 0 ==> {
                let (top, bottom) = block_colours(p, opts, n - 1, 2 * y);
                e.foreground == Some(top) && e.background == Some(bottom)
            }
        }),
        printable(block_row(p, opts, 2 * y, n)),
    decreases n,
{
    let e = after_tokens(d, block_row(p, opts, 2 * y, n));
    let line = picture_line(p, opts, Mode::Blocks, y, n);
    if n > 0 {
        let m = (n - 1) as nat;
        let row = block_row(p, opts, 2 * y, m);
        let cell = block_cell(p, opts, m as int, 2 * y);
        lemma_block_row_drawn(p, opts, y, m, d);
        lemma_tokens_concat(d, row, cell);
        let before = after_tokens(d, row);
        let (top, bottom) = block_colours(p, opts, m as int, 2 * y);
        let f = Token::Foreground(top);
        let b = Token::Background(bottom);
        let g = Token::Glyph('\u{2580}');
        lemma_tokens_few(before, f, b, g);
        lemma_tokens_few(before, g, g, g);
        assert(cell =~= seq![f, b, g] || cell =~= seq![g]);
        let start = picture_line(p, opts, Mode::Blocks, y, m);
        let c = picture_cell(p, opts, Mode::Blocks, m as int, y);
        assert(line =~= start.push(c));
        lemma_start_grows(d.cells, d.row, start, c);
        lemma_printable_concat(row, cell);
    } else {
        assert(with_start(d.cells, d.row, line) =~= d.cells);
    }
}

proof fn lemma_ascii_row_drawn(p: Picture, opts: RenderOpts, y: int, n: nat, d: Display)
    requires
        at_rest(d),
        d.column == 0,
    ensures
        ({
            let e = after_tokens(d, ascii_row(p, opts, y, n));
            &&& e.cells == with_start(d.cells, d.row, picture_line(p, opts, Mode::Ascii, y, n))
            &&& e.row == d.row
            &&& e.column == n
            &&& e.escape is None
            &&& e.background is None
            &&& e.foreground == (if n > 0 && !opts.no_color {
                Some(p.pixel(n - 1, y))
            } else {
                None
            })
        }),
        printable(ascii_row(p, opts, y, n)),
    decreases n,
{
    let line = picture_line(p, opts, Mode::Ascii, y, n);
    if n > 0 {
        let m = (n - 1) as nat;
        let row = ascii_row(p, opts, y, m);
        let cell = ascii_cell(p, opts, m as int, y);
        lemma_ascii_row_drawn(p, opts, y, m, d);
        lemma_tokens_concat(d, row, cell);
        let before = after_tokens(d, row);
        let c = p.pixel(m as int, y);
        law_character_stands_in_the_ramp(c, opts.brightness@, opts.invert);
        let f = Token::Foreground(c);
        let g = Token::Glyph(ramp_glyph(c, opts.brightness@, opts.invert));
        lemma_tokens_few(before, f, g, g);
        lemma_tokens_few(before, g, g, g);
        assert(cell =~= seq![f, g] || cell =~= seq![g]);
        let start = picture_line(p, opts, Mode::Ascii, y, m);
        let shown = picture_cell(p, opts, Mode::Ascii, m as int, y);
        assert(line =~= start.push(shown));
        lemma_start_grows(d.cells, d.row, start, shown);
        lemma_printable_concat(row, cell);
    } else {
        assert(with_start(d.cells, d.row, line) =~= d.cells);
    }
}

proof fn lemma_printable_concat(a: Seq<Token>, b: Seq<Token>)
    requires
        printable(a),
        printable(b),
    ensures
        printable(a + b),
{
    assert forall|i: int| 0 <= i < (a + b).len() implies ((#[trigger] (a + b)[i]) matches Token::Glyph(
        c,
    ) ==> c >= ' ') by {
        if i < a.len() {
            assert((a + b)[i] == a[i]);
        } else {
            assert((a + b)[i] == b[i - a.len()]);
        }
    }
}

/// The lines of a picture that are drawn from a row on.
spec fn lines_drawn(d: Display, p: Picture, opts: RenderOpts, mode: Mode, n: nat) -> Display {
    Display {
        cells: with_lines(d.cells, d.row, picture_lines(p, opts, mode, n)),
        row: d.row + n,
        ..d
    }
}

proof fn lemma_block_lines_drawn(p: Picture, opts: RenderOpts, n: nat, d: Display)
    requires
        at_rest(d),
        d.column == 0,
    ensures
        after_tokens(d, block_lines(p, opts, n)) == lines_drawn(d, p, opts, Mode::Blocks, n),
        printable(block_lines(p, opts, n)),
    decreases n,
{
    let all = picture_lines(p, opts, Mode::Blocks, n);
    if n > 0 {
        let m = (n - 1) as nat;
        lemma_block_lines_drawn(p, opts, m, d);
        let lines = block_lines(p, opts, m);
        let row = block_row(p, opts, 2 * m as int, p.width);
        let before = after_tokens(d, lines);
        lemma_tokens_concat(d, lines, row);
        lemma_tokens_concat(d, lines + row, block_line_end());
        lemma_block_row_drawn(p, opts, m as int, p.width, before);
        lemma_printable_concat(lines, row);
        lemma_printable_concat(lines + row, block_line_end());
        let drawn = after_tokens(before, row);
        lemma_tokens_few(drawn, Token::Reset, Token::EraseLine, Token::NextLine);
        let done = picture_lines(p, opts, Mode::Blocks, m);
        let line = picture_line(p, opts, Mode::Blocks, m as int, p.width);
        assert(all =~= done.push(line));
        lemma_line_ends(after_token(drawn, Token::Reset), d.cells, d.row, done, line);
        assert(after_tokens(d, block_lines(p, opts, n)) =~= lines_drawn(d, p, opts, Mode::Blocks, n));
    } else {
        assert(with_lines(d.cells, d.row, all) =~= d.cells);
    }
}

proof fn lemma_ascii_lines_drawn(p: Picture, opts: RenderOpts, n: nat, d: Display)
    requires
        at_rest(d),
        d.column == 0,
    ensures
        after_tokens(d, ascii_lines(p, opts, n)) == lines_drawn(d, p, opts, Mode::Ascii, n),
        printable(ascii_lines(p, opts, n)),
    decreases n,
{
    let all = picture_lines(p, opts, Mode::Ascii, n);
    if n > 0 {
        let m = (n - 1) as nat;
        lemma_ascii_lines_drawn(p, opts, m, d);
        let lines = ascii_lines(p, opts, m);
        let row = ascii_row(p, opts, m as int, p.width);
        let before = after_tokens(d, lines);
        lemma_tokens_concat(d, lines, row);
        lemma_tokens_concat(d, lines + row, ascii_line_end(opts));
        lemma_ascii_row_drawn(p, opts, m as int, p.width, before);
        lemma_printable_concat(lines, row);
        lemma_printable_concat(lines + row, ascii_line_end(opts));
        let drawn = after_tokens(before, row);
        lemma_tokens_few(drawn, Token::Reset, Token::EraseLine, Token::NextLine);
        lemma_tokens_few(drawn, Token::EraseLine, Token::NextLine, Token::NextLine);
        let done = picture_lines(p, opts, Mode::Ascii, m);
        let line = picture_line(p, opts, Mode::Ascii, m as int, p.width);
        assert(all =~= done.push(line));
        lemma_line_ends(after_token(drawn, Token::Reset), d.cells, d.row, done, line);
        lemma_line_ends(drawn, d.cells, d.row, done, line);
        assert(after_tokens(d, ascii_lines(p, opts, n)) =~= lines_drawn(d, p, opts, Mode::Ascii, n));
    } else {
        assert(with_lines(d.cells, d.row, all) =~= d.cells);
    }
}

/// A terminal reads the text of a picture as its lines.
proof fn lemma_picture_drawn(p: Picture, opts: RenderOpts, mode: Mode, d: Display)
    requires
        at_rest(d),
        d.column == 0,
    ensures
        after_text(d, text(picture_tokens(p, opts, mode))) == lines_drawn(
            d,
            p,
            opts,
            mode,
            line_count(p.height, mode),
        ),
{
    let tokens = picture_tokens(p, opts, mode);
    match mode {
        Mode::Blocks => lemma_block_lines_drawn(p, opts, p.height / 2, d),
        Mode::Ascii => lemma_ascii_lines_drawn(p, opts, p.height, d),
    }
    lemma_tokens_read(d, tokens);
}

/// Whether a picture is shown in characters, not in half blocks.
pub open spec fn in_characters(opts: RenderOpts) -> bool {
    opts.no_color || opts.mode is Ascii
}

/// A channel on the screen is what a byte of a picture asks for: with brightness
/// and inversion, the level nearest to it.
pub open spec fn channel_right(shown: u8, byte: u8, opts: RenderOpts) -> bool {
    opts.brightness@ matches Value::Finite(x) ==> {
        let asked = if opts.invert {
            255 * one() - byte * x
        } else {
            byte * x
        };
        &&& nearest_level(shown as int, 255, within(asked, 255 * one() as int), 255 * one() as int)
        &&& x == one() ==> shown == (if opts.invert {
            255 - byte
        } else {
            byte as int
        })
    }
}

/// A colour on the screen is what three bytes of a picture ask for, red, green
/// and blue.
pub open spec fn colour_right(shown: Option<Rgb>, data: Seq<u8>, i: int, opts: RenderOpts) -> bool {
    shown matches Some(c) && channel_right(c.0, data[i], opts) && channel_right(c.1, data[i + 1], opts)
        && channel_right(c.2, data[i + 2], opts)
}

/// A character on the screen is what three bytes of a picture ask for: the one of
/// the ramp that is nearest to their luminance, with brightness and inversion.
pub open spec fn character_right(shown: char, data: Seq<u8>, i: int, opts: RenderOpts) -> bool {
    exists|j: int|
        {
            &&& 0 <= j < 70
            &&& #[trigger] RAMP[j] == shown
            &&& opts.brightness@ matches Value::Finite(x) ==> {
                let whole = 255_000 * one() as int;
                let bright = within((299 * data[i] + 587 * data[i + 1] + 114 * data[i + 2]) * x, whole);
                nearest_level(
                    j,
                    69,
                    if opts.invert {
                        whole - bright
                    } else {
                        bright
                    },
                    whole,
                )
            }
        }
}

/// A cell on the screen shows what a picture has there: its pixel, or its two
/// pixels above each other. Where the picture is mirrored, they are counted from
/// the right.
pub open spec fn cell_right(cell: Cell, p: Picture, opts: RenderOpts, x: nat, y: nat) -> bool {
    let column = if opts.mirror {
        p.width - 1 - x
    } else {
        x as int
    };
    if in_characters(opts) {
        let i = 3 * (y * p.width + column);
        &&& character_right(cell.glyph, p.data, i, opts)
        &&& cell.foreground == (if opts.no_color {
            None
        } else {
            Some((p.data[i], p.data[i + 1], p.data[i + 2]))
        })
        &&& cell.background is None
    } else {
        &&& cell.glyph == '\u{2580}'
        &&& colour_right(cell.foreground, p.data, 3 * ((2 * y) * p.width + column), opts)
        &&& colour_right(cell.background, p.data, 3 * ((2 * y + 1) * p.width + column), opts)
    }
}

/// The number of lines that a picture takes on the screen.
pub open spec fn lines_taken(p: Picture, opts: RenderOpts) -> nat {
    if in_characters(opts) {
        p.height
    } else {
        p.height / 2
    }
}

proof fn lemma_channel_right(byte: u8, opts: RenderOpts)
    ensures
        channel_right(
            adjusted(byte as nat, opts.brightness@, opts.invert) as u8,
            byte,
            opts,
        ),
{
    if let Value::Finite(x) = opts.brightness@ {
        law_channel_is_nearest(byte, x, opts.invert);
    }
}

proof fn lemma_colour_right(data: Seq<u8>, i: int, opts: RenderOpts)
    ensures
        colour_right(
            Some(adjusted_colour((data[i], data[i + 1], data[i + 2]), opts.brightness@, opts.invert)),
            data,
            i,
            opts,
        ),
{
    reveal(adjusted_colour);
    lemma_channel_right(data[i], opts);
    lemma_channel_right(data[i + 1], opts);
    lemma_channel_right(data[i + 2], opts);
}

proof fn lemma_character_right(data: Seq<u8>, i: int, opts: RenderOpts)
    ensures
        character_right(
            ramp_glyph((data[i], data[i + 1], data[i + 2]), opts.brightness@, opts.invert),
            data,
            i,
            opts,
        ),
{
    let c = (data[i], data[i + 1], data[i + 2]);
    law_character_stands_in_the_ramp(c, opts.brightness@, opts.invert);
    let j = ramp_index(c, opts.brightness@, opts.invert) as int;
    assert(RAMP[j] == ramp_glyph(c, opts.brightness@, opts.invert));
    if let Value::Finite(x) = opts.brightness@ {
        law_character_is_nearest(c, x, opts.invert, j);
    }
}

/// The cells of a picture as it is shown are right.
proof fn lemma_cell_right(p: Picture, opts: RenderOpts, x: nat, y: nat)
    requires
        p.wf(),
        x < p.width,
        y < lines_taken(p, opts),
    ensures
        cell_right(picture_cell(turned(p, opts), opts, mode_of(opts), x as int, y as int), p, opts, x, y),
{
    let t = turned(p, opts);
    let column = if opts.mirror {
        p.width - 1 - x
    } else {
        x as int
    };
    if in_characters(opts) {
        if opts.mirror {
            law_mirrored_pixel(p, x as int, y as int);
        }
        let i = 3 * (y * p.width + column);
        assert(t.pixel(x as int, y as int) == (p.data[i], p.data[i + 1], p.data[i + 2]));
        lemma_character_right(p.data, i, opts);
    } else {
        if opts.mirror {
            law_mirrored_pixel(p, x as int, 2 * y as int);
            law_mirrored_pixel(p, x as int, 2 * y as int + 1);
        }
        let i = 3 * ((2 * y) * p.width + column);
        let j = 3 * ((2 * y + 1) * p.width + column);
        assert(t.pixel(x as int, 2 * y as int) == (p.data[i], p.data[i + 1], p.data[i + 2]));
        assert(t.pixel(x as int, 2 * y as int + 1) == (p.data[j], p.data[j + 1], p.data[j + 2]));
        lemma_colour_right(p.data, i, opts);
        lemma_colour_right(p.data, j, opts);
    }
}

/// A terminal at the start of a row that reads the text of a picture shows the
/// picture from there on, cell by cell, and nothing to the right of it. Whatever
/// stands above and below stays. It is left at the start of the row below, with
/// its own colours.
pub proof fn law_picture_is_drawn(p: Picture, opts: RenderOpts, d: Display, x: nat, y: nat)
    requires
        p.wf(),
        at_rest(d),
        d.column == 0,
    ensures
        ({
            let after = after_text(d, picture_text(turned(p, opts), opts));
            let lines = lines_taken(p, opts);
            &&& at_rest(after)
            &&& after.row == d.row + lines
            &&& after.column == 0
            &&& y < lines ==> {
                let k = (d.row + y, x);
                &&& after.cells.dom().contains(k) <==> x < p.width
                &&& x < p.width ==> cell_right(after.cells[k], p, opts, x, y)
            }
            &&& y < d.row || y >= d.row + lines ==> {
                &&& after.cells.dom().contains((y, x)) == d.cells.dom().contains((y, x))
                &&& d.cells.dom().contains((y, x)) ==> after.cells[(y, x)] == d.cells[(y, x)]
            }
        }),
{
    let t = turned(p, opts);
    lemma_picture_drawn(t, opts, mode_of(opts), d);
    if y < lines_taken(p, opts) && x < p.width {
        lemma_cell_right(p, opts, x, y);
    }
}

/// Characters that mean nothing to a terminal but themselves.
spec fn plain_text(s: Seq<char>) -> bool {
    forall|i: int| 0 <= i < s.len() ==> #[trigger] s[i] >= ' '
}

proof fn lemma_plain_concat(a: Seq<char>, b: Seq<char>)
    requires
        plain_text(a),
        plain_text(b),
    ensures
        plain_text(a + b),
{
    assert forall|i: int| 0 <= i < (a + b).len() implies #[trigger] (a + b)[i] >= ' ' by {
        if i < a.len() {
            assert((a + b)[i] == a[i]);
        } else {
            assert((a + b)[i] == b[i - a.len()]);
        }
    }
}

/// A character in a terminal's own colours.
spec fn plain_cell(c: char) -> Cell {
    Cell { glyph: c, foreground: None, background: None }
}

/// Characters in a terminal's own colours.
spec fn plain_line(s: Seq<char>) -> Seq<Cell> {
    Seq::new(s.len(), |i: int| plain_cell(s[i]))
}

proof fn lemma_plain_drawn(d: Display, s: Seq<char>)
    requires
        at_rest(d),
        d.column == 0,
        plain_text(s),
    ensures
        after_text(d, s) == (Display {
            cells: with_start(d.cells, d.row, plain_line(s)),
            column: s.len(),
            ..d
        }),
    decreases s.len(),
{
    if s.len() > 0 {
        let before = s.drop_last();
        assert forall|i: int| 0 <= i < before.len() implies #[trigger] before[i] >= ' ' by {
            assert(before[i] == s[i]);
        }
        lemma_plain_drawn(d, before);
        assert(s.last() == s[s.len() - 1]);
        let c = plain_cell(s.last());
        lemma_start_grows(d.cells, d.row, plain_line(before), c);
        assert(plain_line(s) =~= plain_line(before).push(c));
    } else {
        assert(with_start(d.cells, d.row, plain_line(s)) =~= d.cells);
    }
}

/// The words below a camera frame.
pub open spec fn status_words(rate: Value, source: Picture, w: nat, h: nat) -> Seq<char> {
    "fps "@ + rate_text(rate) + "  "@ + decimal(source.width) + "x"@ + decimal(source.height)
        + "\u{2192}"@ + decimal(w) + "x"@ + decimal(h) + "px  [q/Esc to quit]"@
}

proof fn lemma_status_parts(rate: Value, source: Picture, w: nat, h: nat)
    ensures
        status_text(rate, source, w, h) == "\x1b[0m"@ + "\x1b[J"@ + "\r\n"@ + status_words(rate, source, w, h)
            + "\x1b[K"@,
        plain_text(status_words(rate, source, w, h)),
{
    reveal_strlit("\x1b[0m\x1b[J\r\nfps ");
    reveal_strlit("\x1b[0m");
    reveal_strlit("\x1b[J");
    reveal_strlit("\r\n");
    reveal_strlit("fps ");
    reveal_strlit("px  [q/Esc to quit]\x1b[K");
    reveal_strlit("px  [q/Esc to quit]");
    reveal_strlit("\x1b[K");
    reveal_strlit("  ");
    reveal_strlit("x");
    reveal_strlit("\u{2192}");
    let lead = "\x1b[0m"@ + "\x1b[J"@ + "\r\n"@;
    let r = rate_text(rate);
    lemma_rate_plain(rate);
    lemma_decimal_inner(source.width);
    lemma_decimal_inner(source.height);
    lemma_decimal_inner(w);
    lemma_decimal_inner(h);
    assert("\x1b[0m\x1b[J\r\nfps "@ =~= lead + "fps "@);
    assert("px  [q/Esc to quit]\x1b[K"@ =~= "px  [q/Esc to quit]"@ + "\x1b[K"@);
    let s1 = "fps "@ + r;
    lemma_plain_concat("fps "@, r);
    let s2 = s1 + "  "@;
    lemma_plain_concat(s1, "  "@);
    let s3 = s2 + decimal(source.width);
    lemma_plain_concat(s2, decimal(source.width));
    let s4 = s3 + "x"@;
    lemma_plain_concat(s3, "x"@);
    let s5 = s4 + decimal(source.height);
    lemma_plain_concat(s4, decimal(source.height));
    let s6 = s5 + "\u{2192}"@;
    lemma_plain_concat(s5, "\u{2192}"@);
    let s7 = s6 + decimal(w);
    lemma_plain_concat(s6, decimal(w));
    let s8 = s7 + "x"@;
    lemma_plain_concat(s7, "x"@);
    let s9 = s8 + decimal(h);
    lemma_plain_concat(s8, decimal(h));
    let s10 = s9 + "px  [q/Esc to quit]"@;
    lemma_plain_concat(s9, "px  [q/Esc to quit]"@);
    let t1 = (lead + "fps "@) + r;
    assert(t1 =~= lead + s1);
    let t2 = t1 + "  "@;
    assert(t2 =~= lead + s2);
    let t3 = t2 + decimal(source.width);
    assert(t3 =~= lead + s3);
    let t4 = t3 + "x"@;
    assert(t4 =~= lead + s4);
    let t5 = t4 + decimal(source.height);
    assert(t5 =~= lead + s5);
    let t6 = t5 + "\u{2192}"@;
    assert(t6 =~= lead + s6);
    let t7 = t6 + decimal(w);
    assert(t7 =~= lead + s7);
    let t8 = t7 + "x"@;
    assert(t8 =~= lead + s8);
    let t9 = t8 + decimal(h);
    assert(t9 =~= lead + s9);
    let t10 = t9 + ("px  [q/Esc to quit]"@ + "\x1b[K"@);
    assert(t10 =~= lead + s10 + "\x1b[K"@);
}

proof fn lemma_rate_plain(rate: Value)
    ensures
        plain_text(rate_text(rate)),
{
    let tenths = nearest_even((10 * rate->Finite_0) as nat, one());
    lemma_decimal_inner(tenths / 10);
    let number = decimal(tenths / 10) + seq!['.', digit(tenths % 10)];
    lemma_plain_concat(decimal(tenths / 10), seq!['.', digit(tenths % 10)]);
    let blanks = Seq::new(
        if number.len() < 5 {
            (5 - number.len()) as nat
        } else {
            0
        },
        |i: int| ' ',
    );
    lemma_plain_concat(blanks, number);
    assert(rate_text(rate) =~= blanks + number);
}

/// What stands on the screen after a page: the lines of the frame, an empty row,
/// and the words.
spec fn page_cells(lines: Seq<Seq<Cell>>, words: Seq<char>) -> Map<(nat, nat), Cell> {
    Map::new(
        |k: (nat, nat)|
            if k.0 < lines.len() {
                k.1 < lines[k.0 as int].len()
            } else {
                k.0 == lines.len() + 1 && k.1 < words.len()
            },
        |k: (nat, nat)|
            if k.0 < lines.len() {
                lines[k.0 as int][k.1 as int]
            } else {
                plain_line(words)[k.1 as int]
            },
    )
}

proof fn lemma_page_drawn(shown: Picture, opts: RenderOpts, rate: Value, source: Picture, d: Display)
    requires
        at_rest(d),
    ensures
        ({
            let lines = picture_lines(shown, opts, mode_of(opts), line_count(shown.height, mode_of(opts)));
            let words = status_words(rate, source, shown.width, shown.height);
            after_text(d, camera_screen(shown, opts, rate, source)) == (Display {
                cells: page_cells(lines, words),
                row: lines.len() + 1,
                column: words.len(),
                foreground: None,
                background: None,
                escape: None,
            })
        }),
{
    let e = Seq::<char>::empty();
    let lines = picture_lines(shown, opts, mode_of(opts), line_count(shown.height, mode_of(opts)));
    let words = status_words(rate, source, shown.width, shown.height);
    reveal_strlit("\x1b[H");
    reveal_strlit("\x1b[J");
    let home = "\x1b[H"@;
    assert(home =~= seq!['\x1b', '['] + e + seq!['H']);
    lemma_after_sequence(d, e, 'H');
    let d1 = after_text(d, home);
    let frame = picture_text(shown, opts);
    lemma_picture_drawn(shown, opts, mode_of(opts), d1);
    lemma_after_concat(d, home, frame);
    let d2 = after_text(d1, frame);
    lemma_status_parts(rate, source, shown.width, shown.height);
    let status = status_text(rate, source, shown.width, shown.height);
    lemma_after_concat(d, home + frame, status);
    let (a, b, c, f) = ("\x1b[0m"@, "\x1b[J"@, "\r\n"@, "\x1b[K"@);
    lemma_after_concat(d2, a + b + c + words, f);
    lemma_after_concat(d2, a + b + c, words);
    lemma_after_concat(d2, a + b, c);
    lemma_after_concat(d2, a, b);
    reveal(token_text);
    lemma_token_read(d2, Token::Reset);
    let d3 = after_text(d2, a);
    assert(b =~= seq!['\x1b', '['] + e + seq!['J']);
    lemma_after_sequence(d3, e, 'J');
    let d4 = after_text(d3, b);
    lemma_token_read(d4, Token::NextLine);
    let d5 = after_text(d4, c);
    lemma_plain_drawn(d5, words);
    let d6 = after_text(d5, words);
    lemma_token_read(d6, Token::EraseLine);
    let d7 = after_text(d6, f);
    assert(d2.row == lines.len() && d2.column == 0);
    assert(d6.row == lines.len() + 1 && d6.column == words.len());
    let page = page_cells(lines, words);
    assert forall|k: (nat, nat)|
        (#[trigger] d7.cells.dom().contains(k)) == page.dom().contains(k) && (page.dom().contains(k)
            ==> d7.cells[k] == page[k]) by {
        if k.0 < lines.len() {
            assert(d2.cells.dom().contains(k) == (k.1 < lines[k.0 as int].len()));
        }
    }
    assert(d7.cells =~= page);
}

/// Whatever stands on a terminal and wherever it writes, a page of a camera feed
/// leaves the screen that the page alone leaves: every frame is drawn over the one
/// before, from the top left, and nothing of that remains.
pub proof fn law_page_is_drawn_over(
    shown: Picture,
    opts: RenderOpts,
    rate: Value,
    source: Picture,
    d1: Display,
    d2: Display,
)
    requires
        at_rest(d1),
        at_rest(d2),
    ensures
        after_text(d1, camera_screen(shown, opts, rate, source)) == after_text(
            d2,
            camera_screen(shown, opts, rate, source),
        ),
        at_rest(after_text(d1, camera_screen(shown, opts, rate, source))),
{
    lemma_page_drawn(shown, opts, rate, source, d1);
    lemma_page_drawn(shown, opts, rate, source, d2);
}

/// Two pages one after the other leave the screen that the second alone leaves,
/// whatever the sizes of their frames.
pub proof fn law_second_page_replaces_the_first(
    first: Picture,
    second: Picture,
    opts: RenderOpts,
    rates: (Value, Value),
    source: Picture,
    d: Display,
)
    requires
        at_rest(d),
    ensures
        after_text(
            d,
            camera_screen(first, opts, rates.0, source) + camera_screen(second, opts, rates.1, source),
        ) == after_text(d, camera_screen(second, opts, rates.1, source)),
{
    let a = camera_screen(first, opts, rates.0, source);
    let b = camera_screen(second, opts, rates.1, source);
    lemma_after_concat(d, a, b);
    law_page_is_drawn_over(first, opts, rates.0, source, d, d);
    law_page_is_drawn_over(second, opts, rates.1, source, after_text(d, a), d);
}

/// A page of a camera feed shows the frame from the top left, cell by cell, then
/// an empty row, then the frame rate, the camera's size, the size of what is
/// shown, and how to quit, in the terminal's own colours. Nothing else is on the
/// screen, whatever was before.
pub proof fn law_page_shows_the_frame(
    p: Picture,
    opts: RenderOpts,
    rate: Value,
    source: Picture,
    d: Display,
    x: nat,
    y: nat,
)
    requires
        p.wf(),
        at_rest(d),
    ensures
        ({
            let after = after_text(d, camera_screen(turned(p, opts), opts, rate, source));
            let lines = lines_taken(p, opts);
            let words = "fps "@ + rate_text(rate) + "  "@ + decimal(source.width) + "x"@ + decimal(
                source.height,
            ) + "\u{2192}"@ + decimal(p.width) + "x"@ + decimal(p.height) + "px  [q/Esc to quit]"@;
            let k = (y, x);
            &&& y < lines ==> {
                &&& after.cells.dom().contains(k) <==> x < p.width
                &&& x < p.width ==> cell_right(after.cells[k], p, opts, x, y)
            }
            &&& y == lines + 1 ==> {
                &&& after.cells.dom().contains(k) <==> x < words.len()
                &&& x < words.len() ==> {
                    &&& after.cells[k].glyph == words[x as int]
                    &&& after.cells[k].foreground is None
                    &&& after.cells[k].background is None
                }
            }
            &&& y == lines || y > lines + 1 ==> !after.cells.dom().contains(k)
        }),
{
    lemma_page_drawn(turned(p, opts), opts, rate, source, d);
    let words = status_words(rate, source, p.width, p.height);
    let lines = picture_lines(turned(p, opts), opts, mode_of(opts), lines_taken(p, opts));
    assert(lines.len() == lines_taken(p, opts));
    if y < lines_taken(p, opts) && x < p.width {
        lemma_cell_right(p, opts, x, y);
    }
}

/// A number in decimal reads back as the number. It is all digits, and no more
/// than it takes.
pub proof fn law_decimal_reads_back(n: nat)
    ensures
        fields(decimal(n)) == seq![n],
        forall|i: int| 0 <= i < decimal(n).len() ==> '0' <= #[trigger] decimal(n)[i] <= '9',
        decimal(n).len() > 1 ==> decimal(n)[0] != '0',
    decreases n,
{
    let e = Seq::<char>::empty();
    lemma_decimal_inner(n);
    lemma_fields_number(e, n);
    assert(e + decimal(n) =~= decimal(n));
    assert(fields(e).drop_last() =~= Seq::<nat>::empty());
    assert(Seq::<nat>::empty().push(n) =~= seq![n]);
    if n >= 10 {
        law_decimal_reads_back(n / 10);
        lemma_decimal_inner(n / 10);
        assert(decimal(n)[0] == decimal(n / 10)[0]);
        if n / 10 < 10 {
            assert(decimal(n / 10) =~= seq![digit(n / 10)]);
        } else if decimal(n / 10).len() <= 1 {
            lemma_decimal_inner(n / 10 / 10);
        }
    }
}

/// A terminal at the start of a row that reads the text of a still image shows,
/// from there on, a picture of the size that fits, resampled by the sharper of the
/// filters, or the image itself where it has that size; cell by cell, mirrored
/// where asked for, and with nothing to the right of it. What stands above and
/// below stays.
pub proof fn law_image_is_shown(
    src: Picture,
    opts: RenderOpts,
    term: (u16, u16),
    out: Seq<char>,
    d: Display,
) -> (q: Picture)
    requires
        shows_image(src, opts, term, out),
        at_rest(d),
        d.column == 0,
    ensures
        q.wf(),
        (q.width, q.height) == picture_fit(src, opts, term),
        resized(src.width, src.height, src.data, q.width, q.height, true).contains(q.data),
        q.width == src.width && q.height == src.height ==> q == src,
        at_rest(after_text(d, out)),
        after_text(d, out).row == d.row + lines_taken(q, opts),
        after_text(d, out).column == 0,
        forall|x: nat, y: nat|
            y < lines_taken(q, opts) ==> (#[trigger] after_text(d, out).cells.dom().contains((d.row + y, x))
                <==> x < q.width),
        forall|x: nat, y: nat|
            y < lines_taken(q, opts) && x < q.width ==> cell_right(
                #[trigger] after_text(d, out).cells[(d.row + y, x)],
                q,
                opts,
                x,
                y,
            ),
{
    let (w, h) = picture_fit(src, opts, term);
    let data = choose|data: Seq<u8>|
        {
            let scaled = Picture { width: w, height: h, data };
            &&& #[trigger] resized(src.width, src.height, src.data, w, h, true).contains(data)
            &&& scaled.wf()
            &&& (w, h) == (src.width, src.height) ==> scaled == src
            &&& out == picture_text(turned(scaled, opts), opts)
        };
    let q = Picture { width: w, height: h, data };
    law_picture_is_drawn(q, opts, d, 0, 0);
    let after = after_text(d, out);
    assert forall|x: nat, y: nat| y < lines_taken(q, opts) implies (#[trigger] after.cells.dom().contains(
        (d.row + y, x),
    ) <==> x < q.width) by {
        law_picture_is_drawn(q, opts, d, x, y);
    }
    assert forall|x: nat, y: nat| y < lines_taken(q, opts) && x < q.width implies cell_right(
        #[trigger] after.cells[(d.row + y, x)],
        q,
        opts,
        x,
        y,
    ) by {
        law_picture_is_drawn(q, opts, d, x, y);
    }
    q
}

/// A terminal that reads the page of a camera frame shows, from the top left, a
/// picture of the size that fits, resampled by the faster of the filters, or the
/// frame itself where it has that size; cell by cell, mirrored where asked for,
/// and with nothing to the right of it.
pub proof fn law_camera_frame_is_shown(
    src: Picture,
    opts: RenderOpts,
    term: (u16, u16),
    shown: Picture,
    rate: Value,
    d: Display,
) -> (q: Picture)
    requires
        shows_frame(src, opts, term, shown),
        at_rest(d),
    ensures
        q.wf(),
        (q.width, q.height) == picture_fit(src, opts, term),
        resized(src.width, src.height, src.data, q.width, q.height, false) == set![q.data],
        q.width == src.width && q.height == src.height ==> q == src,
        forall|x: nat, y: nat|
            y < lines_taken(q, opts) ==> (#[trigger] after_text(
                d,
                camera_screen(shown, opts, rate, src),
            ).cells.dom().contains((y, x)) <==> x < q.width),
        forall|x: nat, y: nat|
            y < lines_taken(q, opts) && x < q.width ==> cell_right(
                #[trigger] after_text(d, camera_screen(shown, opts, rate, src)).cells[(y, x)],
                q,
                opts,
                x,
                y,
            ),
{
    let (w, h) = picture_fit(src, opts, term);
    let data = choose|data: Seq<u8>|
        {
            let scaled = Picture { width: w, height: h, data };
            &&& #[trigger] resized(src.width, src.height, src.data, w, h, false).contains(data)
            &&& resized(src.width, src.height, src.data, w, h, false) == set![data]
            &&& scaled.wf()
            &&& (w, h) == (src.width, src.height) ==> scaled == src
            &&& shown == turned(scaled, opts)
        };
    let q = Picture { width: w, height: h, data };
    let after = after_text(d, camera_screen(shown, opts, rate, src));
    assert forall|x: nat, y: nat| y < lines_taken(q, opts) implies (#[trigger] after.cells.dom().contains(
        (y, x),
    ) <==> x < q.width) by {
        law_page_shows_the_frame(q, opts, rate, src, d, x, y);
    }
    assert forall|x: nat, y: nat| y < lines_taken(q, opts) && x < q.width implies cell_right(
        #[trigger] after.cells[(y, x)],
        q,
        opts,
        x,
        y,
    ) by {
        law_page_shows_the_frame(q, opts, rate, src, d, x, y);
    }
    q
}

} // verus!
