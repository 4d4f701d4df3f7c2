//! The text that makes a terminal show a picture.
use vstd::prelude::*;

verus! {

/// A colour, by its red, green and blue.
pub type Rgb = (u8, u8, u8);

/// What a terminal is told.
pub enum Token {
    /// Write in this colour from here on.
    Foreground(Rgb),
    /// Write on this colour from here on.
    Background(Rgb),
    /// Write in the terminal's own colours from here on.
    Reset,
    /// Clear the rest of the line.
    EraseLine,
    /// Go to the start of the next line.
    NextLine,
    /// Write a character.
    Glyph(char),
}

/// The digit of a number below ten.
pub open spec fn digit(d: nat) -> char {
    (48 + d) as char
}

/// A number in decimal.
pub open spec fn decimal(n: nat) -> Seq<char>
    decreases n,
{
    if n < 10 {
        seq![digit(n)]
    } else {
        decimal(n / 10).push(digit(n % 10))
    }
}

/// A colour as a terminal reads it.
pub open spec fn colour_text(c: Rgb) -> Seq<char> {
    decimal(c.0 as nat) + ";"@ + decimal(c.1 as nat) + ";"@ + decimal(c.2 as nat) + "m"@
}

/// The text of one token.
#[verifier::opaque]
pub open spec fn token_text(t: Token) -> Seq<char> {
    match t {
        Token::Foreground(c) => "\x1b[38;2;"@ + colour_text(c),
        Token::Background(c) => "\x1b[48;2;"@ + colour_text(c),
        Token::Reset => "\x1b[0m"@,
        Token::EraseLine => "\x1b[K"@,
        Token::NextLine => "\r\n"@,
        Token::Glyph(c) => seq![c],
    }
}

/// The text of tokens.
pub open spec fn text(tokens: Seq<Token>) -> Seq<char>
    decreases tokens.len(),
{
    if tokens.len() == 0 {
        Seq::empty()
    } else {
        text(tokens.drop_last()) + token_text(tokens.last())
    }
}

/// The text of one more token.
pub proof fn lemma_text_push(tokens: Seq<Token>, t: Token)
    ensures
        text(tokens.push(t)) == text(tokens) + token_text(t),
{
    assert(tokens.push(t).drop_last() == tokens);
}

/// `String::push` appends the character.
pub assume_specification[ String::push ](s: &mut String, c: char)
    ensures
        final(s)@ == old(s)@.push(c),
;

/// Appends a number in decimal.
pub fn push_decimal(out: &mut String, n: u64)
    ensures
        final(out)@ == old(out)@ + decimal(n as nat),
    decreases n,
{
    if n >= 10 {
        push_decimal(out, n / 10);
    }
    let d: u8 = (n % 10) as u8;
    out.push((48 + d) as char);
}

/// Appends the text of a token.
pub fn push_token(out: &mut String, token: Token)
    ensures
        final(out)@ == old(out)@ + token_text(token),
{
    proof {
        reveal(token_text);
    }
    match token {
        Token::Foreground(c) => {
            out.append("\x1b[38;2;");
            push_colour(out, c);
        },
        Token::Background(c) => {
            out.append("\x1b[48;2;");
            push_colour(out, c);
        },
        Token::Reset => out.append("\x1b[0m"),
        Token::EraseLine => out.append("\x1b[K"),
        Token::NextLine => out.append("\r\n"),
        Token::Glyph(c) => out.push(c),
    }
}

/// Appends a colour as a terminal reads it.
fn push_colour(out: &mut String, c: Rgb)
    ensures
        final(out)@ == old(out)@ + colour_text(c),
{
    push_decimal(out, c.0 as u64);
    out.append(";");
    push_decimal(out, c.1 as u64);
    out.append(";");
    push_decimal(out, c.2 as u64);
    out.append("m");
}

} // verus!
