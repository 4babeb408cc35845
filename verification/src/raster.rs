//! Rectangles and bitmap text on a row-major pixel buffer.
//!
//! A picture is a `width` by `height` block of `0x00RRGGBB` words at the front
//! of a buffer that may be longer. Everything drawn is clipped to the picture.

use vstd::arithmetic::power2::{lemma_pow2_pos, pow2};
use vstd::prelude::*;
use vstd::utf8::encode_utf8;

use crate::float::{
    div_half_up, divide, lemma_nearest_exact, lemma_nearest_monotone, lemma_nearest_size,
    lemma_quotient_at_least, lemma_quotient_at_most, lemma_quotient_size, nearest, quotient,
    round, SINGLE,
};
use crate::glyphs::{get_char_bitmap, glyph, glyph_lit, lemma_glyph_rows};
use crate::order::round_div;

verus! {

/// Panel ground colour, which `shade` darkens toward.
pub const BG: u32 = 0x000b1014;

/// Whether the pixel at column `px`, row `py` lies in a rectangle.
pub open spec fn in_rect(px: int, py: int, x: int, y: int, w: int, h: int) -> bool {
    x <= px < x + w && y <= py < y + h
}

/// `buf` with a filled rectangle painted on its `width` by `height` picture.
pub open spec fn rect_painted(
    buf: Seq<u32>,
    width: int,
    height: int,
    x: int,
    y: int,
    w: int,
    h: int,
    color: u32,
) -> Seq<u32> {
    Seq::new(
        buf.len(),
        |i: int|
            if i < width * height && in_rect(i % width, i / width, x, y, w, h) {
                color
            } else {
                buf[i]
            },
    )
}

/// Whether text placed with its top left corner at `x`, `y` lights a pixel.
pub open spec fn text_lit(px: int, py: int, x: int, y: int, text: Seq<char>) -> bool {
    in_rect(px, py, x, y, 8 * text.len() as int, 8) && glyph_lit(
        text[(px - x) / 8],
        py - y,
        (px - x) % 8,
    )
}

/// `buf` with a line of text painted on its `width` by `height` picture.
pub open spec fn text_painted(
    buf: Seq<u32>,
    width: int,
    height: int,
    x: int,
    y: int,
    text: Seq<char>,
    color: u32,
) -> Seq<u32> {
    Seq::new(
        buf.len(),
        |i: int|
            if i < width * height && text_lit(i % width, i / width, x, y, text) {
                color
            } else {
                buf[i]
            },
    )
}

/// Bytes a text takes in UTF-8, the measure text boxes are sized by.
pub open spec fn byte_len(text: Seq<char>) -> int {
    encode_utf8(text).len() as int
}

/// Row and column of a pixel index come back out of it.
pub proof fn lemma_pixel_index(width: int, row: int, col: int)
    requires
        0 <= col < width,
        0 <= row,
    ensures
        (row * width + col) / width == row,
        (row * width + col) % width == col,
        0 <= row * width + col,
{
    vstd::arithmetic::div_mod::lemma_fundamental_div_mod_converse(
        row * width + col,
        width,
        row,
        col,
    );
    assert(row * width >= 0) by (nonlinear_arith)
        requires
            row >= 0,
            width > 0,
    ;
}

/// A pixel in the first `height` rows has an index below `width * height`.
pub proof fn lemma_pixel_in_picture(width: int, height: int, row: int, col: int)
    requires
        0 <= col < width,
        0 <= row < height,
    ensures
        0 <= row * width + col < width * height,
{
    assert(0 <= row * width + col < width * height) by (nonlinear_arith)
        requires
            0 <= col < width,
            0 <= row < height,
    ;
}

/// An index splits into the row and column it stands at.
pub proof fn lemma_index_splits(width: int, i: int)
    requires
        width > 0,
        0 <= i,
    ensures
        i == (i / width) * width + i % width,
        0 <= i % width < width,
        0 <= i / width,
{
    vstd::arithmetic::div_mod::lemma_fundamental_div_mod(i, width);
    vstd::arithmetic::mul::lemma_mul_is_commutative(width, i / width);
    assert(i / width >= 0) by (nonlinear_arith)
        requires
            width > 0,
            0 <= i,
    ;
}

/// Fill a rectangle, clipped to the picture.
pub fn draw_rect(
    buffer: &mut [u32],
    width: usize,
    height: usize,
    x: usize,
    y: usize,
    w: usize,
    h: usize,
    color: u32,
)
    requires
        width * height <= old(buffer)@.len(),
    ensures
        final(buffer)@ == rect_painted(
            old(buffer)@,
            width as int,
            height as int,
            x as int,
            y as int,
            w as int,
            h as int,
            color,
        ),
{
    let ghost before = buffer@;
    let len: usize = buffer.len();
    let mut row: usize = 0;
    while row < h && y < height && row < height - y
        invariant
            row <= h,
            y < height ==> row <= height - y,
            y >= height ==> row == 0,
            buffer@ == rect_painted(
                before,
                width as int,
                height as int,
                x as int,
                y as int,
                w as int,
                row as int,
                color,
            ),
            buffer@.len() == before.len(),
            before.len() == len,
            width * height <= len,
        decreases h - row,
    {
        let row_y: usize = y + row;
        let mut col: usize = 0;
        while col < w && x < width && col < width - x
            invariant
                col <= w,
                x < width ==> col <= width - x,
                x >= width ==> col == 0,
                row < h,
                y < height,
                row_y == y + row,
                row_y < height,
                buffer@.len() == before.len(),
                before.len() == len,
                width * height <= len,
                forall|i: int|
                    0 <= i < before.len() ==> #[trigger] buffer@[i] == (if i < width * height && (
                    in_rect(i % width as int, i / width as int, x as int, y as int, w as int, row as int)
                        || in_rect(
                        i % width as int,
                        i / width as int,
                        x as int,
                        row_y as int,
                        col as int,
                        1,
                    )) {
                        color
                    } else {
                        before[i]
                    }),
            decreases w - col,
        {
            let col_x: usize = x + col;
            proof {
                lemma_pixel_in_picture(width as int, height as int, row_y as int, col_x as int);
                lemma_pixel_index(width as int, row_y as int, col_x as int);
                assert(row_y * width <= width * height) by (nonlinear_arith)
                    requires
                        row_y < height,
                        width >= 0,
                ;
            }
            let at: usize = row_y * width + col_x;
            let ghost prev = buffer@;
            buffer[at] = color;
            assert forall|i: int| 0 <= i < before.len() implies #[trigger] buffer@[i] == (if i
                < width * height && (in_rect(
                i % width as int,
                i / width as int,
                x as int,
                y as int,
                w as int,
                row as int,
            ) || in_rect(i % width as int, i / width as int, x as int, row_y as int, col + 1, 1)) {
                color
            } else {
                before[i]
            }) by {
                lemma_index_splits(width as int, i);
                if i != at {
                    assert(buffer@[i] == prev[i]);
                }
            }
            col = col + 1;
        }
        assert(buffer@ =~= rect_painted(
            before,
            width as int,
            height as int,
            x as int,
            y as int,
            w as int,
            row + 1,
            color,
        )) by {
            assert forall|i: int| 0 <= i < before.len() && i < width * height implies 0 <= #[trigger] (
            i % width as int) < width by {
                if width == 0 {
                    assert(width * height == 0) by (nonlinear_arith)
                        requires
                            width == 0,
                    ;
                }
                lemma_index_splits(width as int, i);
            }
        }
        row = row + 1;
    }
    assert(buffer@ =~= rect_painted(
        before,
        width as int,
        height as int,
        x as int,
        y as int,
        w as int,
        h as int,
        color,
    )) by {
        assert forall|i: int| 0 <= i < width * height implies #[trigger] (i / width as int)
            < height by {
            if width == 0 {
                assert(width * height == 0) by (nonlinear_arith)
                    requires
                        width == 0,
                ;
            }
            lemma_index_splits(width as int, i);
            assert(i / (width as int) < height) by (nonlinear_arith)
                requires
                    i == (i / (width as int)) * width + i % (width as int),
                    0 <= i % (width as int),
                    0 <= i < width * height,
                    0 < width,
            ;
        }
    }
}

/// The pixels of one glyph cell whose rows before `rows` are done, and whose row
/// `rows` is done up to column `cols`.
spec fn cell_lit(px: int, py: int, x: int, y: int, c: char, rows: int, cols: int) -> bool {
    text_lit(px, py, x, y, seq![c]) && (py - y < rows || (py - y == rows && px - x < cols))
}

/// Paint one glyph cell, clipped to the picture.
fn draw_glyph(
    buffer: &mut [u32],
    width: usize,
    height: usize,
    x: usize,
    y: usize,
    c: char,
    color: u32,
)
    requires
        width * height <= old(buffer)@.len(),
    ensures
        final(buffer)@ == text_painted(
            old(buffer)@,
            width as int,
            height as int,
            x as int,
            y as int,
            seq![c],
            color,
        ),
{
    let ghost before = buffer@;
    let len: usize = buffer.len();
    let bitmap: [u8; 8] = get_char_bitmap(c);
    proof {
        lemma_glyph_rows(c);
    }
    let mut row: usize = 0;
    while row < 8 && y < height && row < height - y
        invariant
            row <= 8,
            y < height ==> row <= height - y,
            y >= height ==> row == 0,
            bitmap@ == glyph(c),
            glyph(c).len() == 8,
            buffer@.len() == before.len(),
            before.len() == len,
            width * height <= len,
            forall|i: int|
                0 <= i < len ==> #[trigger] buffer@[i] == (if i < width * height && cell_lit(
                    i % width as int,
                    i / width as int,
                    x as int,
                    y as int,
                    c,
                    row as int,
                    0,
                ) {
                    color
                } else {
                    before[i]
                }),
        decreases 8 - row,
    {
        let row_y: usize = y + row;
        let val: u8 = bitmap[row];
        let mut col: usize = 0;
        while col < 8 && x < width && col < width - x
            invariant
                col <= 8,
                x < width ==> col <= width - x,
                x >= width ==> col == 0,
                row < 8,
                val == glyph(c)[row as int],
                glyph(c).len() == 8,
                y < height,
                row_y == y + row,
                row_y < height,
                buffer@.len() == before.len(),
                before.len() == len,
                width * height <= len,
                forall|i: int|
                    0 <= i < len ==> #[trigger] buffer@[i] == (if i < width * height && cell_lit(
                        i % width as int,
                        i / width as int,
                        x as int,
                        y as int,
                        c,
                        row as int,
                        col as int,
                    ) {
                        color
                    } else {
                        before[i]
                    }),
            decreases 8 - col,
        {
            let col_x: usize = x + col;
            proof {
                lemma_pixel_in_picture(width as int, height as int, row_y as int, col_x as int);
                lemma_pixel_index(width as int, row_y as int, col_x as int);
                assert(row_y * width <= width * height) by (nonlinear_arith)
                    requires
                        row_y < height,
                        width >= 0,
                ;
            }
            let at: usize = row_y * width + col_x;
            let ghost prev = buffer@;
            let mask: u8 = 0x80u8 >> (col as u8);
            assert((col as int) as u8 == col as u8);
            assert((col as int) / 8 == 0 && (col as int) % 8 == col);
            assert(seq![c][0] == c);
            if val & mask != 0 {
                buffer[at] = color;
            }
            assert forall|i: int| 0 <= i < len implies #[trigger] buffer@[i] == (if i < width
                * height && cell_lit(
                i % width as int,
                i / width as int,
                x as int,
                y as int,
                c,
                row as int,
                col + 1,
            ) {
                color
            } else {
                before[i]
            }) by {
                lemma_index_splits(width as int, i);
                if i != at {
                    assert(buffer@[i] == prev[i]);
                }
            }
            col = col + 1;
        }
        assert forall|i: int| 0 <= i < len implies #[trigger] buffer@[i] == (if i < width * height
            && cell_lit(
            i % width as int,
            i / width as int,
            x as int,
            y as int,
            c,
            row + 1,
            0,
        ) {
            color
        } else {
            before[i]
        }) by {
            if i < width * height {
                lemma_row_in_picture(width as int, height as int, i);
            }
        }
        row = row + 1;
    }
    assert(buffer@ =~= text_painted(
        before,
        width as int,
        height as int,
        x as int,
        y as int,
        seq![c],
        color,
    )) by {
        assert forall|i: int| 0 <= i < width * height implies #[trigger] (i / width as int)
            < height by {
            lemma_row_in_picture(width as int, height as int, i);
        }
    }
}

/// An index inside the picture stands in one of its rows and columns.
pub proof fn lemma_row_in_picture(width: int, height: int, i: int)
    requires
        0 <= i < width * height,
        0 <= width,
        0 <= height,
    ensures
        width > 0,
        0 <= i / width < height,
        0 <= i % width < width,
{
    if width == 0 {
        assert(width * height == 0) by (nonlinear_arith)
            requires
                width == 0,
        ;
    }
    lemma_index_splits(width, i);
    assert(i / width < height) by (nonlinear_arith)
        requires
            i == (i / width) * width + i % width,
            0 <= i % width,
            0 <= i < width * height,
            0 < width,
    ;
}

/// Draw a line of text in the 8x8 font, clipped to the picture.
pub fn draw_string(
    buffer: &mut [u32],
    width: usize,
    height: usize,
    x: usize,
    y: usize,
    text: &str,
    color: u32,
)
    requires
        width * height <= old(buffer)@.len(),
    ensures
        final(buffer)@ == text_painted(
            old(buffer)@,
            width as int,
            height as int,
            x as int,
            y as int,
            text@,
            color,
        ),
{
    let ghost before = buffer@;
    let mut current_x: usize = x;
    assert(text@.take(0) =~= Seq::<char>::empty());
    assert(buffer@ =~= text_painted(
        before,
        width as int,
        height as int,
        x as int,
        y as int,
        text@.take(0),
        color,
    ));
    for c in it: text.chars()
        invariant
            it.seq() == text@,
            current_x == (if x + 8 * it.index() <= usize::MAX {
                x + 8 * it.index()
            } else {
                usize::MAX as int
            }),
            buffer@ == text_painted(
                before,
                width as int,
                height as int,
                x as int,
                y as int,
                text@.take(it.index()),
                color,
            ),
            buffer@.len() == before.len(),
            width * height <= before.len(),
    {
        let ghost k = it.index();
        let ghost prev = buffer@;
        draw_glyph(buffer, width, height, current_x, y, c, color);
        proof {
            lemma_text_appends(before, width as int, height as int, x as int, y as int, text@, k, current_x as int, color);
        }
        current_x = current_x.saturating_add(8);
    }
    assert(text@.take(text@.len() as int) =~= text@);
}

/// Painting the first `k` characters and then the next one paints `k + 1`.
proof fn lemma_text_appends(
    before: Seq<u32>,
    width: int,
    height: int,
    x: int,
    y: int,
    text: Seq<char>,
    k: int,
    cell_x: int,
    color: u32,
)
    requires
        0 <= k < text.len(),
        0 <= width,
        0 <= height,
        cell_x == x + 8 * k || (cell_x <= x + 8 * k && width <= cell_x),
    ensures
        text_painted(
            text_painted(before, width, height, x, y, text.take(k), color),
            width,
            height,
            cell_x,
            y,
            seq![text[k]],
            color,
        ) == text_painted(before, width, height, x, y, text.take(k + 1), color),
{
    let left = text_painted(
        text_painted(before, width, height, x, y, text.take(k), color),
        width,
        height,
        cell_x,
        y,
        seq![text[k]],
        color,
    );
    let right = text_painted(before, width, height, x, y, text.take(k + 1), color);
    assert forall|i: int| 0 <= i < before.len() implies left[i] == right[i] by {
        if i < width * height {
            lemma_row_in_picture(width, height, i);
            let px = i % width;
            let py = i / width;
            if in_rect(px, py, x, y, 8 * k, 8) {
                assert(text.take(k)[(px - x) / 8] == text.take(k + 1)[(px - x) / 8]);
            } else if in_rect(px, py, x, y, 8 * k + 8, 8) {
                assert((px - x) / 8 == k);
                assert((px - (x + 8 * k)) / 8 == 0);
                assert((px - (x + 8 * k)) % 8 == (px - x) % 8);
                assert(text.take(k + 1)[k] == text[k]);
            }
        }
    }
    assert(left =~= right);
}

/// A line of text on a filled box two pixels larger all round.
pub open spec fn text_on_bg(
    buf: Seq<u32>,
    width: int,
    height: int,
    x: int,
    y: int,
    text: Seq<char>,
    text_color: u32,
    bg_color: u32,
) -> Seq<u32> {
    text_painted(
        rect_painted(buf, width, height, x, y, byte_len(text) * 8 + 4, 12, bg_color),
        width,
        height,
        x + 2,
        y + 2,
        text,
        text_color,
    )
}

/// Draw text over a filled background box.
pub fn draw_text_with_bg(
    buffer: &mut [u32],
    width: usize,
    height: usize,
    x: usize,
    y: usize,
    text: &str,
    text_color: u32,
    bg_color: u32,
)
    requires
        width * height <= old(buffer)@.len(),
        x + 2 <= usize::MAX,
        y + 2 <= usize::MAX,
        byte_len(text@) * 8 + 4 <= usize::MAX,
    ensures
        final(buffer)@ == text_on_bg(
            old(buffer)@,
            width as int,
            height as int,
            x as int,
            y as int,
            text@,
            text_color,
            bg_color,
        ),
{
    let w: usize = text.len() * 8 + 4;
    let h: usize = 12;
    draw_rect(buffer, width, height, x, y, w, h, bg_color);
    draw_string(buffer, width, height, x + 2, y + 2, text, text_color);
}

/// One 8-bit colour channel of a pixel: 2 is red, 1 green, 0 blue.
pub open spec fn channel_of(color: u32, which: int) -> int {
    if which == 2 {
        (color as int / 65536) % 256
    } else if which == 1 {
        (color as int / 256) % 256
    } else {
        color as int % 256
    }
}

/// The channel value `t` of the way from `va` to `vb`, in single precision and then to
/// the nearest integer, halves up.
pub open spec fn mixed(va: int, vb: int, t: (int, int)) -> int {
    let (n, p) = t;
    if vb >= va {
        let step = nearest((vb - va) * n, SINGLE as int);
        round_div(nearest(va * p + step, SINGLE as int), p)
    } else {
        let step = nearest((va - vb) * n, SINGLE as int);
        round_div(nearest(va * p - step, SINGLE as int), p)
    }
}

/// The colour `num / den` of the way from `a` to `b`, channel by channel.
pub open spec fn lerped(a: u32, b: u32, num: int, den: int) -> int {
    let t = quotient(num, den, SINGLE as int);
    mixed(channel_of(a, 2), channel_of(b, 2), t) * 65536 + mixed(
        channel_of(a, 1),
        channel_of(b, 1),
        t,
    ) * 256 + mixed(channel_of(a, 0), channel_of(b, 0), t)
}

/// Whether `t` is a number from zero to one over a power of two.
pub open spec fn part_of_one(t: (int, int)) -> bool {
    &&& 0 <= t.0 <= t.1
    &&& exists|e: nat| t.1 == #[trigger] pow2(e)
}

/// A mixed channel stays between its ends, and so does what it is rounded from.
pub proof fn lemma_mixed_in_range(va: int, vb: int, t: (int, int))
    requires
        0 <= va <= 255,
        0 <= vb <= 255,
        part_of_one(t),
    ensures
        0 < t.1,
        vb >= va ==> {
            let sum = va * t.1 + nearest((vb - va) * t.0, SINGLE as int);
            0 <= sum <= 255 * t.1 && nearest(sum, SINGLE as int) <= 255 * t.1
        },
        vb < va ==> {
            let sum = va * t.1 - nearest((va - vb) * t.0, SINGLE as int);
            0 <= sum <= 255 * t.1 && nearest(sum, SINGLE as int) <= 255 * t.1
        },
        0 <= mixed(va, vb, t) <= 255,
{
    let (n, p) = t;
    let e = choose|e: nat| p == #[trigger] pow2(e);
    let up = vb >= va;
    let by = if up {
        vb - va
    } else {
        va - vb
    };
    lemma_pow2_pos(e);
    assert(0 <= by * n <= by * p) by (nonlinear_arith)
        requires
            0 <= n <= p,
            0 <= by,
    ;
    let step = nearest(by * n, SINGLE as int);
    lemma_nearest_size(by * n, SINGLE as int);
    lemma_nearest_monotone(by * n, by * p, SINGLE as int);
    lemma_nearest_exact(by, e, SINGLE as int);
    assert(va * p + by * p == (va + by) * p && va * p - by * p == (va - by) * p)
        by (nonlinear_arith);
    assert(0 <= va * p <= 255 * p && 0 <= vb * p <= 255 * p) by (nonlinear_arith)
        requires
            0 <= va <= 255,
            0 <= vb <= 255,
            0 < p,
    ;
    let sum = if up {
        va * p + step
    } else {
        va * p - step
    };
    lemma_nearest_size(sum, SINGLE as int);
    lemma_nearest_monotone(sum, 255 * p, SINGLE as int);
    lemma_nearest_exact(255, e, SINGLE as int);
    let top = nearest(sum, SINGLE as int);
    assert(0 <= (2 * top + p) / (2 * p) <= 255) by (nonlinear_arith)
        requires
            0 <= top <= 255 * p,
            0 < p,
    ;
}

fn mix_channel(va: u32, vb: u32, t: (u128, u128)) -> (r: u32)
    requires
        va <= 255,
        vb <= 255,
        part_of_one((t.0 as int, t.1 as int)),
        t.0 <= 0x100_0000,
        t.1 <= 0x40_0000_0000_0000_0000_0000_0000_0000,
    ensures
        r == mixed(va as int, vb as int, (t.0 as int, t.1 as int)),
        r <= 255,
{
    let (n, p): (u128, u128) = t;
    proof {
        lemma_mixed_in_range(va as int, vb as int, (n as int, p as int));
        assert(va * p <= 255 * p) by (nonlinear_arith)
            requires
                va <= 255,
                0 < p,
        ;
    }
    if vb >= va {
        let by: u128 = (vb - va) as u128;
        proof {
            lemma_step_fits(by as int, n as int);
        }
        let step: u128 = round(by * n, SINGLE);
        div_half_up(round(va as u128 * p + step, SINGLE), p) as u32
    } else {
        let by: u128 = (va - vb) as u128;
        proof {
            lemma_step_fits(by as int, n as int);
        }
        let step: u128 = round(by * n, SINGLE);
        div_half_up(round(va as u128 * p - step, SINGLE), p) as u32
    }
}

proof fn lemma_step_fits(by: int, n: int)
    requires
        0 <= by <= 255,
        0 <= n <= 0x100_0000,
    ensures
        0 <= by * n <= 255 * 0x100_0000,
{
    assert(0 <= by * n <= 255 * 0x100_0000) by (nonlinear_arith)
        requires
            0 <= by <= 255,
            0 <= n <= 0x100_0000,
    ;
}

/// How far to go, as a number.
fn part(num: u128, den: u128) -> (t: (u128, u128))
    requires
        num <= den,
        0 < den <= 0x4000_0000_0000_0000_0000_0000,
    ensures
        (t.0 as int, t.1 as int) == quotient(num as int, den as int, SINGLE as int),
        part_of_one((t.0 as int, t.1 as int)),
        t.0 <= 0x100_0000,
        t.1 <= 0x40_0000_0000_0000_0000_0000_0000_0000,
{
    proof {
        lemma_quotient_size(num as int, den as int, SINGLE as int);
        lemma_quotient_at_most(num as int, den as int, SINGLE as int, 1);
        let p = quotient(num as int, den as int, SINGLE as int).1;
        if num > 0 {
            assert(p <= num * p) by (nonlinear_arith)
                requires
                    num >= 1,
                    p >= 1,
            ;
        }
    }
    divide(num, den, SINGLE)
}

/// Blend two colours: `num / den` is how far to go from `a` to `b`.
pub fn lerp(a: u32, b: u32, num: u128, den: u128) -> (r: u32)
    requires
        num <= den,
        0 < den <= 0x4000_0000_0000_0000_0000_0000,
    ensures
        r == lerped(a, b, num as int, den as int),
{
    let t: (u128, u128) = part(num, den);
    let red: u32 = mix_channel((a / 65536) % 256, (b / 65536) % 256, t);
    let green: u32 = mix_channel((a / 256) % 256, (b / 256) % 256, t);
    let blue: u32 = mix_channel(a % 256, b % 256, t);
    red * 65536 + green * 256 + blue
}

/// Blending none of the way keeps `a`'s colour, blending all the way gives `b`'s.
pub proof fn law_lerp_reaches_both_ends(a: u32, b: u32, den: int)
    requires
        a < 0x1000000,
        b < 0x1000000,
        0 < den,
    ensures
        lerped(a, b, 0, den) == a,
        lerped(a, b, den, den) == b,
{
    let none = quotient(0, den, SINGLE as int);
    let all = quotient(den, den, SINGLE as int);
    lemma_quotient_size(0, den, SINGLE as int);
    lemma_quotient_size(den, den, SINGLE as int);
    lemma_quotient_at_most(den, den, SINGLE as int, 1);
    lemma_quotient_at_least(den, den, SINGLE as int, 1);
    let e = choose|e: nat| all.1 == #[trigger] pow2(e);
    lemma_pow2_pos(e);
    assert forall|va: int, vb: int| 0 <= va <= 255 && 0 <= vb <= 255 implies #[trigger] mixed(
        va,
        vb,
        none,
    ) == va && mixed(va, vb, all) == vb by {
        lemma_ends(va, vb, e);
    }
    assert(mixed(channel_of(a, 2), channel_of(b, 2), none) == channel_of(a, 2));
    assert(mixed(channel_of(a, 1), channel_of(b, 1), none) == channel_of(a, 1));
    assert(mixed(channel_of(a, 0), channel_of(b, 0), none) == channel_of(a, 0));
}

proof fn lemma_ends(va: int, vb: int, e: nat)
    requires
        0 <= va <= 255,
        0 <= vb <= 255,
    ensures
        mixed(va, vb, (0, 1)) == va,
        mixed(va, vb, (pow2(e) as int, pow2(e) as int)) == vb,
{
    let p = pow2(e) as int;
    lemma_pow2_pos(e);
    vstd::arithmetic::power2::lemma2_to64();
    assert(pow2(0) == 1);
    lemma_nearest_exact(0, 0, SINGLE as int);
    lemma_nearest_exact(va, 0, SINGLE as int);
    assert((vb - va) * 0 == 0 && (va - vb) * 0 == 0);
    assert(va * 1 == va && 0 * 1 == 0);
    let by = if vb >= va {
        vb - va
    } else {
        va - vb
    };
    lemma_nearest_exact(by, e, SINGLE as int);
    lemma_nearest_exact(vb, e, SINGLE as int);
    assert(va * p + (vb - va) * p == vb * p && va * p - (va - vb) * p == vb * p)
        by (nonlinear_arith);
    assert(0 <= vb * p) by (nonlinear_arith)
        requires
            0 <= vb,
            0 < p,
    ;
    assert((2 * (vb * p) + p) / (2 * p) == vb) by (nonlinear_arith)
        requires
            0 <= vb,
            0 < p,
    ;
}

/// `buf` with `rows` rows of `width` pixels from row `y` darkened toward the
/// panel ground, keeping 14 percent of what was there.
pub open spec fn shaded(buf: Seq<u32>, width: int, y: int, rows: int) -> Seq<u32> {
    Seq::new(
        buf.len(),
        |i: int|
            if width > 0 && y <= i / width < y + rows {
                lerped(buf[i], BG, 86, 100) as u32
            } else {
                buf[i]
            },
    )
}

/// `a * b`, or the largest `usize` where that does not fit.
pub fn product(a: usize, b: usize) -> (r: usize)
    ensures
        r == (if a * b <= usize::MAX {
            a * b
        } else {
            usize::MAX as int
        }),
{
    match a.checked_mul(b) {
        Some(r) => r,
        None => usize::MAX,
    }
}

/// What every channel value becomes on the way to `vb`.
fn tones(vb: u32, t: (u128, u128)) -> (r: Vec<u32>)
    requires
        vb <= 255,
        part_of_one((t.0 as int, t.1 as int)),
        t.0 <= 0x100_0000,
        t.1 <= 0x40_0000_0000_0000_0000_0000_0000_0000,
    ensures
        is_toned(r@, vb as int, (t.0 as int, t.1 as int)),
{
    let mut r: Vec<u32> = Vec::new();
    let mut va: u32 = 0;
    while va < 256
        invariant
            va <= 256,
            vb <= 255,
            part_of_one((t.0 as int, t.1 as int)),
            t.0 <= 0x100_0000,
            t.1 <= 0x40_0000_0000_0000_0000_0000_0000_0000,
            r@.len() == va,
            forall|v: int|
                0 <= v < va ==> #[trigger] r@[v] <= 255 && r@[v] == mixed(
                    v,
                    vb as int,
                    (t.0 as int, t.1 as int),
                ),
        decreases 256 - va,
    {
        r.push(mix_channel(va, vb, t));
        va = va + 1;
    }
    r
}

/// Whether a table holds what every channel value becomes on the way to `vb`.
spec fn is_toned(tones: Seq<u32>, vb: int, t: (int, int)) -> bool {
    &&& tones.len() == 256
    &&& forall|v: int|
        0 <= v < 256 ==> #[trigger] tones[v] <= 255 && tones[v] == mixed(v, vb, t)
}

/// Darken `height` rows from `y` toward the panel ground, keeping a little of
/// what was there so the picture stays visible through the overlay.
pub fn shade(buf: &mut [u32], w: usize, y: usize, height: usize)
    ensures
        final(buf)@ == shaded(old(buf)@, w as int, y as int, height as int),
{
    let ghost before = buf@;
    let len: usize = buf.len();
    let first: usize = product(y, w);
    let past: usize = product(y.saturating_add(height), w);
    let end: usize = if past < len { past } else { len };
    proof {
        assert(w > 0 ==> (past == (y + height) * w || (past == usize::MAX && (y + height) * w
            > usize::MAX))) by (nonlinear_arith)
            requires
                past == (if y + height <= usize::MAX {
                    if (y + height) * w <= usize::MAX {
                        (y + height) * w
                    } else {
                        usize::MAX as int
                    }
                } else {
                    if usize::MAX * w <= usize::MAX {
                        usize::MAX * w
                    } else {
                        usize::MAX as int
                    }
                }),
        ;
    }
    if first >= end {
        assert(buf@ =~= shaded(before, w as int, y as int, height as int)) by {
            assert forall|i: int| 0 <= i < len && w > 0 implies !(y <= #[trigger] (i / w as int) < y
                + height) by {
                lemma_index_splits(w as int, i);
                lemma_row_bounds(w as int, y as int, height as int, i, len as int);
            }
        }
        return ;
    }
    let most: (u128, u128) = part(86, 100);
    let reds: Vec<u32> = tones((BG / 65536) % 256, most);
    let greens: Vec<u32> = tones((BG / 256) % 256, most);
    let blues: Vec<u32> = tones(BG % 256, most);
    let mut i: usize = first;
    assert(w > 0) by {
        if w == 0 {
            assert((y + height) * w == 0) by (nonlinear_arith)
                requires
                    w == 0,
            ;
            assert(usize::MAX * w == 0) by (nonlinear_arith)
                requires
                    w == 0,
            ;
        }
    }
    assert(first == y * w) by {
        assert(y * w <= (y + height) * w) by (nonlinear_arith);
    }
    while i < end
        invariant
            first <= i <= end <= len,
            buf@.len() == before.len(),
            before.len() == len,
            (most.0 as int, most.1 as int) == quotient(86, 100, SINGLE as int),
            is_toned(reds@, channel_of(BG, 2), (most.0 as int, most.1 as int)),
            is_toned(greens@, channel_of(BG, 1), (most.0 as int, most.1 as int)),
            is_toned(blues@, channel_of(BG, 0), (most.0 as int, most.1 as int)),
            forall|k: int|
                0 <= k < len ==> #[trigger] buf@[k] == (if first <= k < i {
                    lerped(before[k], BG, 86, 100) as u32
                } else {
                    before[k]
                }),
        decreases end - i,
    {
        let px: u32 = buf[i];
        let red: u32 = reds[((px / 65536) % 256) as usize];
        let green: u32 = greens[((px / 256) % 256) as usize];
        let blue: u32 = blues[(px % 256) as usize];
        let dark: u32 = red * 65536 + green * 256 + blue;
        buf[i] = dark;
        i = i + 1;
    }
    assert(buf@ =~= shaded(before, w as int, y as int, height as int)) by {
        assert forall|k: int| 0 <= k < len implies ((y <= #[trigger] (k / w as int) < y + height)
            <==> (first <= k < end)) by {
            lemma_index_splits(w as int, k);
            lemma_row_bounds(w as int, y as int, height as int, k, len as int);
            lemma_rows_of_range(w as int, y as int, height as int, k);
        }
    }
}

/// A pixel of rows `y .. y + rows` has an index in those rows' stretch.
proof fn lemma_row_bounds(width: int, y: int, rows: int, i: int, len: int)
    requires
        width > 0,
        0 <= y,
        0 <= rows,
        0 <= i < len,
    ensures
        y <= i / width < y + rows ==> y * width <= i < (y + rows) * width,
{
    lemma_index_splits(width, i);
    if y <= i / width < y + rows {
        assert(y * width <= i < (y + rows) * width) by (nonlinear_arith)
            requires
                y <= i / width,
                i / width + 1 <= y + rows,
                i == (i / width) * width + i % width,
                0 <= i % width < width,
                width > 0,
        ;
    }
}

/// An index in the stretch of rows `y .. y + rows` stands in one of them.
proof fn lemma_rows_of_range(width: int, y: int, rows: int, i: int)
    requires
        width > 0,
        0 <= y,
        0 <= rows,
        0 <= i,
    ensures
        y * width <= i < (y + rows) * width ==> y <= i / width < y + rows,
{
    lemma_index_splits(width, i);
    if y * width <= i < (y + rows) * width {
        assert(y <= i / width < y + rows) by (nonlinear_arith)
            requires
                y * width <= i < (y + rows) * width,
                i == (i / width) * width + i % width,
                0 <= i % width < width,
                width > 0,
        ;
    }
}

/// Whether a pixel lies on the one-pixel border of a box.
pub open spec fn on_outline(px: int, py: int, x: int, y: int, w: int, h: int) -> bool {
    ||| in_rect(px, py, x, y, w, 1)
    ||| in_rect(px, py, x, y + if h > 0 { h - 1 } else { 0 }, w, 1)
    ||| in_rect(px, py, x, y, 1, h)
    ||| in_rect(px, py, x + if w > 0 { w - 1 } else { 0 }, y, 1, h)
}

/// `buf` with the border of a box painted on its `width` by `height` picture.
pub open spec fn outline_painted(
    buf: Seq<u32>,
    width: int,
    height: int,
    x: int,
    y: int,
    w: int,
    h: int,
    color: u32,
) -> Seq<u32> {
    Seq::new(
        buf.len(),
        |i: int|
            if i < width * height && on_outline(i % width, i / width, x, y, w, h) {
                color
            } else {
                buf[i]
            },
    )
}

/// Draw the border of a box, clipped to the picture.
pub fn outline(
    buf: &mut [u32],
    w: usize,
    h: usize,
    x: usize,
    y: usize,
    width: usize,
    height: usize,
    c: u32,
)
    requires
        w * h <= old(buf)@.len(),
    ensures
        final(buf)@ == outline_painted(
            old(buf)@,
            w as int,
            h as int,
            x as int,
            y as int,
            width as int,
            height as int,
            c,
        ),
{
    let ghost before = buf@;
    let bottom: usize = y.saturating_add(height.saturating_sub(1));
    let right: usize = x.saturating_add(width.saturating_sub(1));
    draw_rect(buf, w, h, x, y, width, 1, c);
    draw_rect(buf, w, h, x, bottom, width, 1, c);
    draw_rect(buf, w, h, x, y, 1, height, c);
    draw_rect(buf, w, h, right, y, 1, height, c);
    let ghost after = outline_painted(
        before,
        w as int,
        h as int,
        x as int,
        y as int,
        width as int,
        height as int,
        c,
    );
    assert forall|i: int| 0 <= i < before.len() implies buf@[i] == after[i] by {
        if i < w * h {
            lemma_row_in_picture(w as int, h as int, i);
        }
    }
    assert(buf@ =~= after);
}

} // verus!
