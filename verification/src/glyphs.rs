//! The 8x8 bitmap font.
//!
//! One byte per glyph row, top row first, most significant bit leftmost. Both
//! letter cases share one set of glyphs, and a character the font does not
//! carry is drawn as a blank cell.

use vstd::prelude::*;

verus! {

/// The eight row bytes of the glyph drawn for `c`.
pub open spec fn glyph(c: char) -> Seq<u8> {
    match c {
        ' ' => seq![0x00u8, 0x00u8, 0x00u8, 0x00u8, 0x00u8, 0x00u8, 0x00u8, 0x00u8],
        '.' => seq![0x00u8, 0x00u8, 0x00u8, 0x00u8, 0x00u8, 0x60u8, 0x60u8, 0x00u8],
        ':' => seq![0x00u8, 0x18u8, 0x18u8, 0x00u8, 0x18u8, 0x18u8, 0x00u8, 0x00u8],
        '/' => seq![0x02u8, 0x04u8, 0x08u8, 0x10u8, 0x20u8, 0x40u8, 0x80u8, 0x00u8],
        '+' => seq![0x00u8, 0x10u8, 0x10u8, 0x7cu8, 0x10u8, 0x10u8, 0x00u8, 0x00u8],
        '-' => seq![0x00u8, 0x00u8, 0x00u8, 0x3eu8, 0x00u8, 0x00u8, 0x00u8, 0x00u8],
        '*' => seq![0x00u8, 0x00u8, 0x18u8, 0x18u8, 0x00u8, 0x00u8, 0x00u8, 0x00u8],
        '0' => seq![0x3cu8, 0x66u8, 0x6eu8, 0x76u8, 0x66u8, 0x66u8, 0x3cu8, 0x00u8],
        '1' => seq![0x18u8, 0x38u8, 0x18u8, 0x18u8, 0x18u8, 0x18u8, 0x7eu8, 0x00u8],
        '2' => seq![0x3cu8, 0x66u8, 0x06u8, 0x0cu8, 0x30u8, 0x60u8, 0x7eu8, 0x00u8],
        '3' => seq![0x3cu8, 0x66u8, 0x06u8, 0x1cu8, 0x06u8, 0x66u8, 0x3cu8, 0x00u8],
        '4' => seq![0x0cu8, 0x1cu8, 0x3cu8, 0x6cu8, 0x7eu8, 0x0cu8, 0x0cu8, 0x00u8],
        '5' => seq![0x7eu8, 0x60u8, 0x7cu8, 0x06u8, 0x06u8, 0x66u8, 0x3cu8, 0x00u8],
        '6' => seq![0x3cu8, 0x66u8, 0x60u8, 0x7cu8, 0x66u8, 0x66u8, 0x3cu8, 0x00u8],
        '7' => seq![0x7eu8, 0x66u8, 0x0cu8, 0x18u8, 0x30u8, 0x30u8, 0x30u8, 0x00u8],
        '8' => seq![0x3cu8, 0x66u8, 0x66u8, 0x3cu8, 0x66u8, 0x66u8, 0x3cu8, 0x00u8],
        '9' => seq![0x3cu8, 0x66u8, 0x66u8, 0x3eu8, 0x06u8, 0x66u8, 0x3cu8, 0x00u8],
        'A' | 'a' => seq![0x18u8, 0x3cu8, 0x66u8, 0x7eu8, 0x66u8, 0x66u8, 0x66u8, 0x00u8],
        'B' | 'b' => seq![0x7cu8, 0x66u8, 0x66u8, 0x7cu8, 0x66u8, 0x66u8, 0x7cu8, 0x00u8],
        'C' | 'c' => seq![0x3cu8, 0x66u8, 0x60u8, 0x60u8, 0x60u8, 0x66u8, 0x3cu8, 0x00u8],
        'D' | 'd' => seq![0x78u8, 0x6cu8, 0x66u8, 0x66u8, 0x66u8, 0x6cu8, 0x78u8, 0x00u8],
        'E' | 'e' => seq![0x7eu8, 0x60u8, 0x60u8, 0x7cu8, 0x60u8, 0x60u8, 0x7eu8, 0x00u8],
        'F' | 'f' => seq![0x7eu8, 0x60u8, 0x60u8, 0x7cu8, 0x60u8, 0x60u8, 0x60u8, 0x00u8],
        'G' | 'g' => seq![0x3cu8, 0x66u8, 0x60u8, 0x6eu8, 0x66u8, 0x66u8, 0x3cu8, 0x00u8],
        'H' | 'h' => seq![0x66u8, 0x66u8, 0x66u8, 0x7eu8, 0x66u8, 0x66u8, 0x66u8, 0x00u8],
        'I' | 'i' => seq![0x7eu8, 0x18u8, 0x18u8, 0x18u8, 0x18u8, 0x18u8, 0x7eu8, 0x00u8],
        'J' | 'j' => seq![0x06u8, 0x06u8, 0x06u8, 0x06u8, 0x06u8, 0x66u8, 0x3cu8, 0x00u8],
        'K' | 'k' => seq![0x66u8, 0x6cu8, 0x78u8, 0x70u8, 0x78u8, 0x6cu8, 0x66u8, 0x00u8],
        'L' | 'l' => seq![0x60u8, 0x60u8, 0x60u8, 0x60u8, 0x60u8, 0x60u8, 0x7eu8, 0x00u8],
        'M' | 'm' => seq![0x63u8, 0x77u8, 0x7fu8, 0x6bu8, 0x63u8, 0x63u8, 0x63u8, 0x00u8],
        'N' | 'n' => seq![0x66u8, 0x76u8, 0x7eu8, 0x7eu8, 0x6eu8, 0x66u8, 0x66u8, 0x00u8],
        'O' | 'o' => seq![0x3cu8, 0x66u8, 0x66u8, 0x66u8, 0x66u8, 0x66u8, 0x3cu8, 0x00u8],
        'P' | 'p' => seq![0x7cu8, 0x66u8, 0x66u8, 0x7cu8, 0x60u8, 0x60u8, 0x60u8, 0x00u8],
        'Q' | 'q' => seq![0x3cu8, 0x66u8, 0x66u8, 0x66u8, 0x6au8, 0x6cu8, 0x3eu8, 0x00u8],
        'R' | 'r' => seq![0x7cu8, 0x66u8, 0x66u8, 0x7cu8, 0x78u8, 0x6cu8, 0x66u8, 0x00u8],
        'S' | 's' => seq![0x3cu8, 0x66u8, 0x60u8, 0x3cu8, 0x06u8, 0x66u8, 0x3cu8, 0x00u8],
        'T' | 't' => seq![0x7eu8, 0x18u8, 0x18u8, 0x18u8, 0x18u8, 0x18u8, 0x18u8, 0x00u8],
        'U' | 'u' => seq![0x66u8, 0x66u8, 0x66u8, 0x66u8, 0x66u8, 0x66u8, 0x3cu8, 0x00u8],
        'V' | 'v' => seq![0x66u8, 0x66u8, 0x66u8, 0x66u8, 0x66u8, 0x3cu8, 0x18u8, 0x00u8],
        'W' | 'w' => seq![0x63u8, 0x63u8, 0x63u8, 0x6bu8, 0x7fu8, 0x77u8, 0x63u8, 0x00u8],
        'X' | 'x' => seq![0x66u8, 0x66u8, 0x3cu8, 0x18u8, 0x3cu8, 0x66u8, 0x66u8, 0x00u8],
        'Y' | 'y' => seq![0x66u8, 0x66u8, 0x66u8, 0x3cu8, 0x18u8, 0x18u8, 0x18u8, 0x00u8],
        'Z' | 'z' => seq![0x7eu8, 0x06u8, 0x0cu8, 0x18u8, 0x30u8, 0x60u8, 0x7eu8, 0x00u8],
        _ => seq![0u8, 0u8, 0u8, 0u8, 0u8, 0u8, 0u8, 0u8],
    }
}

/// Whether the glyph for `c` lights the pixel at `row`, `col` of its cell.
pub open spec fn glyph_lit(c: char, row: int, col: int) -> bool {
    glyph(c)[row] & (0x80u8 >> (col as u8)) != 0
}

/// The bitmap of one character.
pub fn get_char_bitmap(c: char) -> (bitmap: [u8; 8])
    ensures
        bitmap@ == glyph(c),
{
    let bitmap: [u8; 8] = match c {
        ' ' => [0x00, 0x00, 0x00, 0x00, 0x00, 0x00, 0x00, 0x00],
        '.' => [0x00, 0x00, 0x00, 0x00, 0x00, 0x60, 0x60, 0x00],
        ':' => [0x00, 0x18, 0x18, 0x00, 0x18, 0x18, 0x00, 0x00],
        '/' => [0x02, 0x04, 0x08, 0x10, 0x20, 0x40, 0x80, 0x00],
        '+' => [0x00, 0x10, 0x10, 0x7c, 0x10, 0x10, 0x00, 0x00],
        '-' => [0x00, 0x00, 0x00, 0x3e, 0x00, 0x00, 0x00, 0x00],
        '*' => [0x00, 0x00, 0x18, 0x18, 0x00, 0x00, 0x00, 0x00],
        '0' => [0x3c, 0x66, 0x6e, 0x76, 0x66, 0x66, 0x3c, 0x00],
        '1' => [0x18, 0x38, 0x18, 0x18, 0x18, 0x18, 0x7e, 0x00],
        '2' => [0x3c, 0x66, 0x06, 0x0c, 0x30, 0x60, 0x7e, 0x00],
        '3' => [0x3c, 0x66, 0x06, 0x1c, 0x06, 0x66, 0x3c, 0x00],
        '4' => [0x0c, 0x1c, 0x3c, 0x6c, 0x7e, 0x0c, 0x0c, 0x00],
        '5' => [0x7e, 0x60, 0x7c, 0x06, 0x06, 0x66, 0x3c, 0x00],
        '6' => [0x3c, 0x66, 0x60, 0x7c, 0x66, 0x66, 0x3c, 0x00],
        '7' => [0x7e, 0x66, 0x0c, 0x18, 0x30, 0x30, 0x30, 0x00],
        '8' => [0x3c, 0x66, 0x66, 0x3c, 0x66, 0x66, 0x3c, 0x00],
        '9' => [0x3c, 0x66, 0x66, 0x3e, 0x06, 0x66, 0x3c, 0x00],
        'A' | 'a' => [0x18, 0x3c, 0x66, 0x7e, 0x66, 0x66, 0x66, 0x00],
        'B' | 'b' => [0x7c, 0x66, 0x66, 0x7c, 0x66, 0x66, 0x7c, 0x00],
        'C' | 'c' => [0x3c, 0x66, 0x60, 0x60, 0x60, 0x66, 0x3c, 0x00],
        'D' | 'd' => [0x78, 0x6c, 0x66, 0x66, 0x66, 0x6c, 0x78, 0x00],
        'E' | 'e' => [0x7e, 0x60, 0x60, 0x7c, 0x60, 0x60, 0x7e, 0x00],
        'F' | 'f' => [0x7e, 0x60, 0x60, 0x7c, 0x60, 0x60, 0x60, 0x00],
        'G' | 'g' => [0x3c, 0x66, 0x60, 0x6e, 0x66, 0x66, 0x3c, 0x00],
        'H' | 'h' => [0x66, 0x66, 0x66, 0x7e, 0x66, 0x66, 0x66, 0x00],
        'I' | 'i' => [0x7e, 0x18, 0x18, 0x18, 0x18, 0x18, 0x7e, 0x00],
        'J' | 'j' => [0x06, 0x06, 0x06, 0x06, 0x06, 0x66, 0x3c, 0x00],
        'K' | 'k' => [0x66, 0x6c, 0x78, 0x70, 0x78, 0x6c, 0x66, 0x00],
        'L' | 'l' => [0x60, 0x60, 0x60, 0x60, 0x60, 0x60, 0x7e, 0x00],
        'M' | 'm' => [0x63, 0x77, 0x7f, 0x6b, 0x63, 0x63, 0x63, 0x00],
        'N' | 'n' => [0x66, 0x76, 0x7e, 0x7e, 0x6e, 0x66, 0x66, 0x00],
        'O' | 'o' => [0x3c, 0x66, 0x66, 0x66, 0x66, 0x66, 0x3c, 0x00],
        'P' | 'p' => [0x7c, 0x66, 0x66, 0x7c, 0x60, 0x60, 0x60, 0x00],
        'Q' | 'q' => [0x3c, 0x66, 0x66, 0x66, 0x6a, 0x6c, 0x3e, 0x00],
        'R' | 'r' => [0x7c, 0x66, 0x66, 0x7c, 0x78, 0x6c, 0x66, 0x00],
        'S' | 's' => [0x3c, 0x66, 0x60, 0x3c, 0x06, 0x66, 0x3c, 0x00],
        'T' | 't' => [0x7e, 0x18, 0x18, 0x18, 0x18, 0x18, 0x18, 0x00],
        'U' | 'u' => [0x66, 0x66, 0x66, 0x66, 0x66, 0x66, 0x3c, 0x00],
        'V' | 'v' => [0x66, 0x66, 0x66, 0x66, 0x66, 0x3c, 0x18, 0x00],
        'W' | 'w' => [0x63, 0x63, 0x63, 0x6b, 0x7f, 0x77, 0x63, 0x00],
        'X' | 'x' => [0x66, 0x66, 0x3c, 0x18, 0x3c, 0x66, 0x66, 0x00],
        'Y' | 'y' => [0x66, 0x66, 0x66, 0x3c, 0x18, 0x18, 0x18, 0x00],
        'Z' | 'z' => [0x7e, 0x06, 0x0c, 0x18, 0x30, 0x60, 0x7e, 0x00],
        _ => [0x00, 0x00, 0x00, 0x00, 0x00, 0x00, 0x00, 0x00],
    };
    assert(bitmap@ =~= glyph(c));
    bitmap
}

/// Every glyph is eight rows tall.
pub proof fn lemma_glyph_rows(c: char)
    ensures
        glyph(c).len() == 8,
{
}

/// A glyph of nothing.
pub open spec fn blank() -> Seq<u8> {
    seq![0u8, 0u8, 0u8, 0u8, 0u8, 0u8, 0u8, 0u8]
}

/// Whether a character is an upper-case letter or a digit.
pub open spec fn is_letter_or_digit(c: char) -> bool {
    'A' <= c <= 'Z' || '0' <= c <= '9'
}

/// Whether the font carries a character.
pub open spec fn is_drawn(c: char) -> bool {
    is_letter_or_digit(c) || 'a' <= c <= 'z' || c == '.' || c == ':' || c == '/' || c == '+' || c
        == '-' || c == '*'
}

/// A character the font does not carry is drawn as a blank cell, as a space is, and no
/// other is. There is neither a question mark nor a middle dot.
pub proof fn law_only_the_font_is_drawn(c: char)
    ensures
        glyph(c) == blank() <==> !is_drawn(c),
        glyph(' ') == blank(),
        glyph('?') == blank(),
        glyph('\u{b7}') == blank(),
{
    let g = glyph(c);
    assert(is_drawn(c) ==> g[1] != 0u8 || g[2] != 0u8 || g[3] != 0u8 || g[5] != 0u8);
}

/// The last row of a cell stays free, so lines of text do not touch.
pub proof fn law_last_row_is_empty(c: char)
    ensures
        glyph(c).len() == 8,
        glyph(c)[7] == 0,
{
}

/// Four rows of a glyph as one number.
spec fn signature(g: Seq<u8>) -> int {
    ((g[0] * 256 + g[2]) * 256 + g[3]) * 256 + g[6]
}

/// The signature of a letter's or digit's glyph.
spec fn signature_of(c: char) -> int {
    match c {
        'A' => 0x18667e66,
        'B' => 0x7c667c7c,
        'C' => 0x3c60603c,
        'D' => 0x78666678,
        'E' => 0x7e607c7e,
        'F' => 0x7e607c60,
        'G' => 0x3c606e3c,
        'H' => 0x66667e66,
        'I' => 0x7e18187e,
        'J' => 0x0606063c,
        'K' => 0x66787066,
        'L' => 0x6060607e,
        'M' => 0x637f6b63,
        'N' => 0x667e7e66,
        'O' => 0x3c66663c,
        'P' => 0x7c667c60,
        'Q' => 0x3c66663e,
        'R' => 0x7c667c66,
        'S' => 0x3c603c3c,
        'T' => 0x7e181818,
        'U' => 0x6666663c,
        'V' => 0x66666618,
        'W' => 0x63636b63,
        'X' => 0x663c1866,
        'Y' => 0x66663c18,
        'Z' => 0x7e0c187e,
        '0' => 0x3c6e763c,
        '1' => 0x1818187e,
        '2' => 0x3c060c7e,
        '3' => 0x3c061c3c,
        '4' => 0x0c3c6c0c,
        '5' => 0x7e7c063c,
        '6' => 0x3c607c3c,
        '7' => 0x7e0c1830,
        '8' => 0x3c663c3c,
        '9' => 0x3c663e3c,
        _ => 0,
    }
}

proof fn lemma_signature(c: char)
    requires
        is_letter_or_digit(c),
    ensures
        signature(glyph(c)) == signature_of(c),
{
}

/// No two letters or digits look alike, and none is blank.
pub proof fn law_letters_and_digits_differ(a: char, b: char)
    requires
        is_letter_or_digit(a),
        is_letter_or_digit(b),
        a != b,
    ensures
        glyph(a) != glyph(b),
        glyph(a) != blank(),
{
    lemma_signature(a);
    lemma_signature(b);
    law_only_the_font_is_drawn(a);
}

/// The two cases of an ASCII letter are drawn alike.
pub proof fn law_glyphs_ignore_case(upper: char, lower: char)
    requires
        'A' <= upper <= 'Z',
        lower as int == upper as int + 32,
    ensures
        glyph(lower) == glyph(upper),
{
}

} // verus!
