//! The plain-text PPM encoding of a grid of colors: three header lines, then
//! one line per row of pixels.

use crate::canvas::to_rgb;
use crate::color::Color;
use crate::level::channel_level;
use crate::level::MAX_LEVEL;
use vstd::prelude::*;

verus! {

/// ASCII space, which separates the numbers of a line.
pub const SPACE: u8 = 32;

/// ASCII line feed, which ends every line.
pub const NEWLINE: u8 = 10;

/// ASCII code of the digit zero.
pub const DIGIT_ZERO: u8 = 48;

/// First byte of the magic line: the letter P.
pub const MAGIC_LETTER: u8 = 80;

/// Second byte of the magic line: the digit 3, for an image in plain text
/// with three channels.
pub const MAGIC_DIGIT: u8 = 51;

/// The decimal digits of `n`, most significant first, without leading zeros.
pub open spec fn decimal(n: nat) -> Seq<u8>
    decreases n,
{
    if n < 10 {
        seq![(DIGIT_ZERO + n) as u8]
    } else {
        decimal(n / 10).push((DIGIT_ZERO + n % 10) as u8)
    }
}

/// The magic line, the dimension line and the line of the highest level.
pub open spec fn header_text(width: nat, height: nat) -> Seq<u8> {
    seq![MAGIC_LETTER, MAGIC_DIGIT, NEWLINE] + decimal(width) + seq![SPACE] + decimal(height)
        + seq![NEWLINE] + decimal(MAX_LEVEL as nat) + seq![NEWLINE]
}

/// The levels of the red, green and blue channels, separated by spaces.
pub open spec fn triple_text(c: Color) -> Seq<u8> {
    decimal(channel_level(c.red) as nat) + seq![SPACE] + decimal(channel_level(c.green) as nat)
        + seq![SPACE] + decimal(channel_level(c.blue) as nat)
}

/// The triples of the first `n` pixels of a row, left to right, with one
/// space between neighbours.
pub open spec fn pixels_text(row: Seq<Color>, n: nat) -> Seq<u8>
    decreases n,
{
    if n == 0 {
        Seq::empty()
    } else if n == 1 {
        triple_text(row[0])
    } else {
        pixels_text(row, (n - 1) as nat) + seq![SPACE] + triple_text(row[n - 1])
    }
}

/// The lines of the first `n` rows, top to bottom.
pub open spec fn rows_text(rows: Seq<Seq<Color>>, n: nat) -> Seq<u8>
    decreases n,
{
    if n == 0 {
        Seq::empty()
    } else {
        rows_text(rows, (n - 1) as nat) + pixels_text(rows[n - 1], rows[n - 1].len()) + seq![
            NEWLINE,
        ]
    }
}

/// The whole image: header, then every row.
pub open spec fn image_text(width: nat, rows: Seq<Seq<Color>>) -> Seq<u8> {
    header_text(width, rows.len()) + rows_text(rows, rows.len())
}

/// Appends the decimal digits of `n`.
pub fn push_decimal(out: &mut Vec<u8>, n: usize)
    ensures
        final(out)@ == old(out)@ + decimal(n as nat),
    decreases n,
{
    if n >= 10 {
        push_decimal(out, n / 10);
    }
    let d: u8 = (n % 10) as u8;
    out.push(DIGIT_ZERO + d);
    assert(final(out)@ =~= old(out)@ + decimal(n as nat));
}

/// Appends the header lines of an image of the given dimensions.
pub fn push_header(out: &mut Vec<u8>, width: usize, height: usize)
    ensures
        final(out)@ == old(out)@ + header_text(width as nat, height as nat),
{
    out.push(MAGIC_LETTER);
    out.push(MAGIC_DIGIT);
    out.push(NEWLINE);
    push_decimal(out, width);
    out.push(SPACE);
    push_decimal(out, height);
    out.push(NEWLINE);
    push_decimal(out, MAX_LEVEL as usize);
    out.push(NEWLINE);
    assert(final(out)@ =~= old(out)@ + header_text(width as nat, height as nat));
}

/// Appends the three levels of a color.
pub fn push_triple(out: &mut Vec<u8>, c: &Color)
    ensures
        final(out)@ == old(out)@ + triple_text(*c),
{
    push_decimal(out, to_rgb(c.red) as usize);
    out.push(SPACE);
    push_decimal(out, to_rgb(c.green) as usize);
    out.push(SPACE);
    push_decimal(out, to_rgb(c.blue) as usize);
    assert(final(out)@ =~= old(out)@ + triple_text(*c));
}

} // verus!
