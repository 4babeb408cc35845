//! Pixels, letters and numbers.

use vstd::prelude::*;

use crate::clock::{lemma_seconds_fit, seconds};
use crate::float::{
    lemma_half_even, lemma_nearest_error, lemma_nearest_size, lemma_quotient_at_most,
    lemma_quotient_at_least, lemma_quotient_error, lemma_quotient_size, nearest, quotient,
    round_half_even, DOUBLE, SINGLE,
};
use crate::glyphs::{get_char_bitmap, glyph};
use crate::laws::away;
use crate::order::round_div;
use crate::paint::{all_inked, inks, paint, DrawOp, Ink};
use crate::panel::{law_level_inside_bars, rise};
use crate::raster::{
    byte_len, draw_rect, draw_string, draw_text_with_bg, lerp, lerped, mixed, outline,
    outline_painted, rect_painted, shade, text_painted,
};
use crate::text::{decimal, parts_of_age, parts_of_mhz, push_decimal, push_signed, push_tenths};

verus! {

/// Eight rows as one number, the first row at the top.
pub open spec fn as_number(g: Seq<u8>) -> int {
    ((((((g[0] * 256 + g[1]) * 256 + g[2]) * 256 + g[3]) * 256 + g[4]) * 256 + g[5]) * 256 + g[6])
        * 256 + g[7]
}

/// Every character of the font has its picture, eight rows of eight.
pub proof fn law_font(c: char, bitmap: [u8; 8])
    requires
        call_ensures(get_char_bitmap, (c,), bitmap),
    ensures
        c == ' ' ==> as_number(bitmap@) == 0x0000000000000000,
        c == '.' ==> as_number(bitmap@) == 0x0000000000606000,
        c == ':' ==> as_number(bitmap@) == 0x0018180018180000,
        c == '/' ==> as_number(bitmap@) == 0x0204081020408000,
        c == '+' ==> as_number(bitmap@) == 0x0010107c10100000,
        c == '-' ==> as_number(bitmap@) == 0x0000003e00000000,
        c == '*' ==> as_number(bitmap@) == 0x0000181800000000,
        c == '0' ==> as_number(bitmap@) == 0x3c666e7666663c00,
        c == '1' ==> as_number(bitmap@) == 0x1838181818187e00,
        c == '2' ==> as_number(bitmap@) == 0x3c66060c30607e00,
        c == '3' ==> as_number(bitmap@) == 0x3c66061c06663c00,
        c == '4' ==> as_number(bitmap@) == 0x0c1c3c6c7e0c0c00,
        c == '5' ==> as_number(bitmap@) == 0x7e607c0606663c00,
        c == '6' ==> as_number(bitmap@) == 0x3c66607c66663c00,
        c == '7' ==> as_number(bitmap@) == 0x7e660c1830303000,
        c == '8' ==> as_number(bitmap@) == 0x3c66663c66663c00,
        c == '9' ==> as_number(bitmap@) == 0x3c66663e06663c00,
        c == 'A' || c == 'a' ==> as_number(bitmap@) == 0x183c667e66666600,
        c == 'B' || c == 'b' ==> as_number(bitmap@) == 0x7c66667c66667c00,
        c == 'C' || c == 'c' ==> as_number(bitmap@) == 0x3c66606060663c00,
        c == 'D' || c == 'd' ==> as_number(bitmap@) == 0x786c6666666c7800,
        c == 'E' || c == 'e' ==> as_number(bitmap@) == 0x7e60607c60607e00,
        c == 'F' || c == 'f' ==> as_number(bitmap@) == 0x7e60607c60606000,
        c == 'G' || c == 'g' ==> as_number(bitmap@) == 0x3c66606e66663c00,
        c == 'H' || c == 'h' ==> as_number(bitmap@) == 0x6666667e66666600,
        c == 'I' || c == 'i' ==> as_number(bitmap@) == 0x7e18181818187e00,
        c == 'J' || c == 'j' ==> as_number(bitmap@) == 0x0606060606663c00,
        c == 'K' || c == 'k' ==> as_number(bitmap@) == 0x666c7870786c6600,
        c == 'L' || c == 'l' ==> as_number(bitmap@) == 0x6060606060607e00,
        c == 'M' || c == 'm' ==> as_number(bitmap@) == 0x63777f6b63636300,
        c == 'N' || c == 'n' ==> as_number(bitmap@) == 0x66767e7e6e666600,
        c == 'O' || c == 'o' ==> as_number(bitmap@) == 0x3c66666666663c00,
        c == 'P' || c == 'p' ==> as_number(bitmap@) == 0x7c66667c60606000,
        c == 'Q' || c == 'q' ==> as_number(bitmap@) == 0x3c6666666a6c3e00,
        c == 'R' || c == 'r' ==> as_number(bitmap@) == 0x7c66667c786c6600,
        c == 'S' || c == 's' ==> as_number(bitmap@) == 0x3c66603c06663c00,
        c == 'T' || c == 't' ==> as_number(bitmap@) == 0x7e18181818181800,
        c == 'U' || c == 'u' ==> as_number(bitmap@) == 0x6666666666663c00,
        c == 'V' || c == 'v' ==> as_number(bitmap@) == 0x66666666663c1800,
        c == 'W' || c == 'w' ==> as_number(bitmap@) == 0x6363636b7f776300,
        c == 'X' || c == 'x' ==> as_number(bitmap@) == 0x66663c183c666600,
        c == 'Y' || c == 'y' ==> as_number(bitmap@) == 0x6666663c18181800,
        c == 'Z' || c == 'z' ==> as_number(bitmap@) == 0x7e060c1830607e00,
{
    assert(bitmap@ == glyph(c));
}

/// The place of a pixel in a picture is its row times the width and its column.
proof fn lemma_place(width: int, height: int, px: int, py: int)
    requires
        0 <= px < width,
        0 <= py < height,
    ensures
        0 <= py * width + px < width * height,
        (py * width + px) % width == px,
        (py * width + px) / width == py,
{
    assert(py * width + px < width * height) by (nonlinear_arith)
        requires
            0 <= px < width,
            0 <= py < height,
    ;
    assert(0 <= py * width) by (nonlinear_arith)
        requires
            0 <= py,
            0 < width,
    ;
    vstd::arithmetic::div_mod::lemma_fundamental_div_mod_converse(py * width + px, width, py, px);
}

/// A rectangle colours the pixels of the picture inside it and no others.
pub proof fn law_rectangle(
    buf: &mut [u32],
    width: usize,
    height: usize,
    x: usize,
    y: usize,
    w: usize,
    h: usize,
    color: u32,
    px: int,
    py: int,
)
    requires
        call_ensures(draw_rect, (buf, width, height, x, y, w, h, color), ()),
        width * height <= old(buf)@.len(),
        0 <= px < width,
        0 <= py < height,
    ensures
        final(buf)@.len() == old(buf)@.len(),
        final(buf)@[py * width + px] == (if x <= px < x + w && y <= py < y + h {
            color
        } else {
            old(buf)@[py * width + px]
        }),
{
    lemma_place(width as int, height as int, px, py);
}

/// Whether a text written at column `x` and row `y` lights a pixel: a character takes
/// eight columns and eight rows, and lights what is set in its picture.
pub open spec fn lights(text: Seq<char>, x: int, y: int, px: int, py: int) -> bool {
    &&& x <= px < x + 8 * text.len()
    &&& y <= py < y + 8
    &&& glyph(text[(px - x) / 8])[py - y] & (0x80u8 >> (((px - x) % 8) as u8)) != 0
}

/// A text colours the pixels of the picture that its characters light and no others.
pub proof fn law_text(
    buf: &mut [u32],
    width: usize,
    height: usize,
    x: usize,
    y: usize,
    text: &str,
    color: u32,
    px: int,
    py: int,
)
    requires
        call_ensures(draw_string, (buf, width, height, x, y, text, color), ()),
        width * height <= old(buf)@.len(),
        0 <= px < width,
        0 <= py < height,
    ensures
        final(buf)@.len() == old(buf)@.len(),
        final(buf)@[py * width + px] == (if lights(text@, x as int, y as int, px, py) {
            color
        } else {
            old(buf)@[py * width + px]
        }),
{
    lemma_place(width as int, height as int, px, py);
}

/// A text on a ground stands two pixels inside a box twelve rows high and four columns
/// wider than eight for every byte.
pub proof fn law_text_on_a_ground(
    buf: &mut [u32],
    width: usize,
    height: usize,
    x: usize,
    y: usize,
    text: &str,
    text_color: u32,
    bg_color: u32,
    px: int,
    py: int,
)
    requires
        call_ensures(
            draw_text_with_bg,
            (buf, width, height, x, y, text, text_color, bg_color),
            (),
        ),
        width * height <= old(buf)@.len(),
        0 <= px < width,
        0 <= py < height,
    ensures
        final(buf)@[py * width + px] == (if lights(text@, x + 2, y + 2, px, py) {
            text_color
        } else if x <= px < x + 8 * byte_len(text@) + 4 && y <= py < y + 12 {
            bg_color
        } else {
            old(buf)@[py * width + px]
        }),
{
    lemma_place(width as int, height as int, px, py);
}

/// An outline colours the first and last row and column of its rectangle.
pub proof fn law_outline(
    buf: &mut [u32],
    width: usize,
    height: usize,
    x: usize,
    y: usize,
    w: usize,
    h: usize,
    color: u32,
    px: int,
    py: int,
)
    requires
        call_ensures(outline, (buf, width, height, x, y, w, h, color), ()),
        width * height <= old(buf)@.len(),
        0 < w,
        0 < h,
        0 <= px < width,
        0 <= py < height,
    ensures
        ({
            let inside = x <= px < x + w && y <= py < y + h;
            let edge = px == x || px == x + w - 1 || py == y || py == y + h - 1;
            final(buf)@[py * width + px] == (if inside && edge {
                color
            } else {
                old(buf)@[py * width + px]
            })
        }),
{
    lemma_place(width as int, height as int, px, py);
}

/// Shading takes the pixels of its rows 86 hundredths of the way to the panel's ground
/// and leaves the others.
pub proof fn law_shading(buf: &mut [u32], w: usize, y: usize, rows: usize, i: int)
    requires
        call_ensures(shade, (buf, w, y, rows), ()),
        0 <= i < old(buf)@.len(),
        0 < w,
    ensures
        final(buf)@.len() == old(buf)@.len(),
        final(buf)@[i] == (if y <= i / w as int && i / (w as int) < y + rows {
            lerped(old(buf)@[i], 0x0b1014, 86, 100) as u32
        } else {
            old(buf)@[i]
        }),
{
}

/// The steps of a display list are drawn one after the other, each as what it is.
pub proof fn law_steps_are_drawn_in_order(buf: Seq<u32>, width: int, height: int, list: Seq<Ink>, last: Ink)
    ensures
        all_inked(buf, width, height, Seq::empty()) == buf,
        ({
            let before = all_inked(buf, width, height, list);
            let after = all_inked(buf, width, height, list.push(last));
            &&& last matches Ink::Rect { x, y, w, h, color } ==> after == rect_painted(
                before,
                width,
                height,
                x,
                y,
                w,
                h,
                color,
            )
            &&& last matches Ink::Outline { x, y, w, h, color } ==> after == outline_painted(
                before,
                width,
                height,
                x,
                y,
                w,
                h,
                color,
            )
            &&& last matches Ink::Text { x, y, text, color } ==> after == text_painted(
                before,
                width,
                height,
                x,
                y,
                text,
                color,
            )
        }),
{
    assert(list.push(last).drop_last() =~= list);
}

/// A display list is painted whole.
pub proof fn law_list_is_painted(buf: &mut [u32], width: usize, height: usize, ops: &Vec<DrawOp>)
    requires
        call_ensures(paint, (buf, width, height, ops), ()),
    ensures
        final(buf)@ == all_inked(old(buf)@, width as int, height as int, inks(ops@)),
{
}

/// The number that decimal digits stand for.
pub open spec fn value_of(s: Seq<char>) -> int
    decreases s.len(),
{
    if s.len() == 0 {
        0
    } else {
        10 * value_of(s.drop_last()) + (s.last() as int - '0' as int)
    }
}

/// A number is written in digits that stand for it, without leading zeros.
pub proof fn law_decimal(n: int)
    requires
        0 <= n,
    ensures
        value_of(decimal(n)) == n,
        forall|i: int| 0 <= i < decimal(n).len() ==> '0' <= #[trigger] decimal(n)[i] <= '9',
        decimal(n).len() >= 1,
        n > 0 ==> decimal(n)[0] != '0',
    decreases n,
{
    if n >= 10 {
        law_decimal(n / 10);
        assert(decimal(n).drop_last() =~= decimal(n / 10));
    } else {
        assert(decimal(n).drop_last() =~= Seq::<char>::empty());
        assert(value_of(decimal(n).drop_last()) == 0);
    }
}

/// Numbers are appended as they are written: whole ones in decimal, negative ones with a
/// sign, tenths with a point before the last digit.
pub proof fn law_numbers_are_appended(
    a: &mut String,
    b: &mut String,
    c: &mut String,
    n: u64,
    m: i64,
)
    requires
        call_ensures(push_decimal, (a, n), ()),
        call_ensures(push_signed, (b, m), ()),
        call_ensures(push_tenths, (c, n), ()),
    ensures
        final(a)@ == old(a)@ + decimal(n as int),
        m >= 0 ==> final(b)@ == old(b)@ + decimal(m as int),
        m < 0 ==> final(b)@ == old(b)@ + (seq!['-'] + decimal(-m)),
        final(c)@.len() >= old(c)@.len() + 3,
        final(c)@.take(final(c)@.len() - 2) == old(c)@ + decimal(n as int / 10),
        final(c)@[final(c)@.len() - 2] == '.',
        final(c)@.last() as int - '0' as int == n % 10,
{
    law_decimal(n as int / 10);
    assert(final(c)@.take(final(c)@.len() - 2) =~= old(c)@ + decimal(n as int / 10));
}

/// Between a number and its rounded quotient.
proof fn lemma_parts_close(a: int, b: int, n: int, p: int, places: int, least: int)
    requires
        0 <= a,
        0 < b,
        1 <= p,
        0 <= n,
        0 < places,
        1 <= least,
        (2 * least) * (n * b - a * p) <= a * p,
        (2 * least) * (a * p - n * b) <= a * p,
        10 * (places * a) <= 2 * least * b,
    ensures
        5 * away(round_half_even(places * n, p) * b, places * a) <= 3 * b,
{
    let m = places * n;
    let r = round_half_even(m, p);
    assert(0 <= m) by (nonlinear_arith)
        requires
            m == places * n,
            0 <= n,
            0 < places,
    ;
    lemma_half_even(m, p);
    let e = n * b - a * p;
    // |places * e| * 10 <= b * p
    assert(10 * (places * e) <= b * p && -10 * (places * e) <= b * p) by (nonlinear_arith)
        requires
            (2 * least) * e <= a * p,
            (2 * least) * (-e) <= a * p,
            10 * (places * a) <= 2 * least * b,
            0 < places,
            1 <= least,
            1 <= p,
            0 <= a,
    ;
    // 2 * |r * p - m| <= p
    assert(2 * (r * p) * b <= 2 * m * b + p * b && 2 * (r * p) * b >= 2 * m * b - p * b)
        by (nonlinear_arith)
        requires
            2 * (r * p) <= 2 * m + p,
            2 * (r * p) >= 2 * m - p,
            0 < b,
    ;
    let d = r * b - places * a;
    assert(m * b - (places * a) * p == places * e) by (nonlinear_arith)
        requires
            m == places * n,
            e == n * b - a * p,
    ;
    assert(d * p == (r * p) * b - (places * a) * p) by (nonlinear_arith)
        requires
            d == r * b - places * a,
    ;
    assert(10 * (d * p) <= 6 * (b * p) && -10 * (d * p) <= 6 * (b * p)) by {
        assert(p * b == b * p) by (nonlinear_arith);
        assert(2 * (r * p) * b == 2 * ((r * p) * b) && 2 * m * b == 2 * (m * b)) by (nonlinear_arith);
    }
    assert(5 * d <= 3 * b && -5 * d <= 3 * b) by (nonlinear_arith)
        requires
            10 * (d * p) <= 6 * (b * p),
            -10 * (d * p) <= 6 * (b * p),
            1 <= p,
    ;
}

/// A frequency below ten terahertz is shown within six tenths of the last place shown:
/// rounded, and as close to that as double precision comes.
pub proof fn law_frequency_is_shown(milli_hz: u128, places: u128, r: u64)
    requires
        call_ensures(parts_of_mhz, (milli_hz, places), r),
        0 < places <= 100,
        milli_hz <= 10_000_000_000_000_000,
    ensures
        away(r * 1_000_000_000, places * milli_hz) <= 600_000_000,
{
    let a = milli_hz as int;
    let (n, p) = quotient(a, 1_000_000_000, DOUBLE as int);
    lemma_quotient_error(a, 1_000_000_000, DOUBLE as int);
    lemma_quotient_size(a, 1_000_000_000, DOUBLE as int);
    assert(places * a <= 100 * 10_000_000_000_000_000) by (nonlinear_arith)
        requires
            0 <= places <= 100,
            0 <= a <= 10_000_000_000_000_000,
    ;
    lemma_parts_close(a, 1_000_000_000, n, p, places as int, DOUBLE as int);
}

/// How far an age in seconds may be from the age.
proof fn lemma_seconds_error(ns: int)
    requires
        0 <= ns < 999_000_000_000,
    ensures
        ({
            let (n, p) = seconds(ns);
            &&& 0 <= n
            &&& 1 <= p
            &&& 4_194_304 * (n * 1_000_000_000 - ns * p) <= ns * p
            &&& 4_194_304 * (ns * p - n * 1_000_000_000) <= ns * p
        }),
{
    let whole = ns / 1_000_000_000;
    let rest = ns % 1_000_000_000;
    let r1 = nearest(rest, SINGLE as int);
    let (f, p) = quotient(r1, 1_000_000_000, SINGLE as int);
    let t = whole * p + f;
    let n = nearest(t, SINGLE as int);
    lemma_seconds_fit(ns);
    lemma_nearest_size(rest, SINGLE as int);
    lemma_nearest_error(rest, SINGLE as int);
    lemma_quotient_error(r1, 1_000_000_000, SINGLE as int);
    lemma_quotient_size(r1, 1_000_000_000, SINGLE as int);
    assert(0 <= whole * p) by (nonlinear_arith)
        requires
            0 <= whole,
            1 <= p,
    ;
    lemma_nearest_error(t, SINGLE as int);
    let rp = rest * p;
    let wp = whole * p;
    let qp = r1 * p;
    assert(16_777_216 * (qp - rp) <= rp && 16_777_216 * (rp - qp) <= rp) by (nonlinear_arith)
        requires
            16_777_216 * (r1 - rest) <= rest,
            16_777_216 * (rest - r1) <= rest,
            rp == rest * p,
            qp == r1 * p,
            1 <= p,
    ;
    assert(0 <= rp && 0 <= qp) by (nonlinear_arith)
        requires
            rp == rest * p,
            qp == r1 * p,
            0 <= rest,
            0 <= r1,
            1 <= p,
    ;
    assert(ns * p == 1_000_000_000 * wp + rp) by (nonlinear_arith)
        requires
            ns == 1_000_000_000 * whole + rest,
            wp == whole * p,
            rp == rest * p,
    ;
    let g = f * 1_000_000_000;
    assert(16_777_216 * (g - qp) <= qp && 16_777_216 * (qp - g) <= qp);
    assert(16_777_216 * (n - t) <= t && 16_777_216 * (t - n) <= t);
}

/// An age up to 999 seconds is shown within six tenths of the last place shown, and any
/// longer one as 999 seconds.
pub proof fn law_age_is_shown(age_ns: u64, places: u128, r: u64)
    requires
        call_ensures(parts_of_age, (age_ns, places), r),
        0 < places <= 10,
    ensures
        age_ns >= 999_000_000_000 ==> r == 999 * places,
        age_ns < 999_000_000_000 ==> away(r * 1_000_000_000, places * age_ns) <= 600_000_000,
{
    if age_ns < 999_000_000_000 {
        let a = age_ns as int;
        let (n, p) = seconds(a);
        lemma_seconds_error(a);
        assert(places * a <= 10 * 999_000_000_000) by (nonlinear_arith)
            requires
                0 <= places <= 10,
                0 <= a <= 999_000_000_000,
        ;
        lemma_parts_close(a, 1_000_000_000, n, p, places as int, 2_097_152);
    }
}

/// A value rounded from a quotient that is close to a number is close to that number.
pub proof fn lemma_round_close(top: int, p: int, want: int, b: int, e: int)
    requires
        0 <= top,
        1 <= p,
        0 < b,
        top * b - want * p == e,
        10 * e <= b * p,
        -10 * e <= b * p,
    ensures
        5 * away(round_div(top, p) * b, want) <= 3 * b,
{
    let r = (2 * top + p) / (2 * p);
    vstd::arithmetic::div_mod::lemma_fundamental_div_mod(2 * top + p, 2 * p);
    assert(2 * (r * p) <= 2 * top + p && 2 * (r * p) > 2 * top - p) by (nonlinear_arith)
        requires
            2 * top + p == (2 * p) * r + (2 * top + p) % (2 * p),
            0 <= (2 * top + p) % (2 * p) < 2 * p,
    ;
    let d = r * b - want;
    assert(d * p == (r * p) * b - want * p) by (nonlinear_arith)
        requires
            d == r * b - want,
    ;
    assert(2 * ((r * p) * b) <= 2 * (top * b) + p * b && 2 * ((r * p) * b) >= 2 * (top * b) - p * b)
        by (nonlinear_arith)
        requires
            2 * (r * p) <= 2 * top + p,
            2 * (r * p) >= 2 * top - p,
            0 < b,
    ;
    assert(p * b == b * p) by (nonlinear_arith);
    assert(5 * d <= 3 * b && -5 * d <= 3 * b) by (nonlinear_arith)
        requires
            10 * (d * p) <= 6 * (b * p),
            -10 * (d * p) <= 6 * (b * p),
            1 <= p,
    ;
}

/// A blended channel lies where it should, within six tenths.
proof fn lemma_mixed_close(va: int, vb: int, num: int, den: int)
    requires
        0 <= va <= 255,
        0 <= vb <= 255,
        0 <= num <= den,
        0 < den,
    ensures
        5 * away(
            mixed(va, vb, quotient(num, den, SINGLE as int)) * den,
            va * (den - num) + vb * num,
        ) <= 3 * den,
{
    let (n, p) = quotient(num, den, SINGLE as int);
    lemma_quotient_error(num, den, SINGLE as int);
    lemma_quotient_at_most(num, den, SINGLE as int, 1);
    lemma_quotient_size(num, den, SINGLE as int);
    let up = vb >= va;
    let by = if up {
        vb - va
    } else {
        va - vb
    };
    let step = nearest(by * n, SINGLE as int);
    assert(0 <= by * n <= 255 * p) by (nonlinear_arith)
        requires
            0 <= by <= 255,
            0 <= n <= p,
    ;
    lemma_nearest_error(by * n, SINGLE as int);
    lemma_nearest_size(by * n, SINGLE as int);
    crate::raster::lemma_mixed_in_range(va, vb, (n, p));
    let sum = if up {
        va * p + step
    } else {
        va * p - step
    };
    let top = nearest(sum, SINGLE as int);
    lemma_nearest_error(sum, SINGLE as int);
    lemma_nearest_size(sum, SINGLE as int);
    let want = va * (den - num) + vb * num;
    let x = num * p;
    let e1 = n * den - x;
    let e2 = step - by * n;
    let e3 = top - sum;
    let pd = p * den;
    assert(x <= pd) by (nonlinear_arith)
        requires
            x == num * p,
            pd == p * den,
            0 <= num <= den,
            1 <= p,
    ;
    assert(16_777_216 * e1 <= pd && -16_777_216 * e1 <= pd);
    assert(16_777_216 * e2 <= 255 * p && -16_777_216 * e2 <= 255 * p);
    assert(16_777_216 * e3 <= 255 * p && -16_777_216 * e3 <= 255 * p);
    let f1 = by * e1;
    let f2 = e2 * den;
    let f3 = e3 * den;
    assert(16_777_216 * f1 <= 255 * pd && -16_777_216 * f1 <= 255 * pd) by (nonlinear_arith)
        requires
            f1 == by * e1,
            0 <= by <= 255,
            16_777_216 * e1 <= pd,
            -16_777_216 * e1 <= pd,
    ;
    assert(16_777_216 * f2 <= 255 * pd && -16_777_216 * f2 <= 255 * pd) by (nonlinear_arith)
        requires
            f2 == e2 * den,
            0 < den,
            pd == p * den,
            16_777_216 * e2 <= 255 * p,
            -16_777_216 * e2 <= 255 * p,
    ;
    assert(16_777_216 * f3 <= 255 * pd && -16_777_216 * f3 <= 255 * pd) by (nonlinear_arith)
        requires
            f3 == e3 * den,
            0 < den,
            pd == p * den,
            16_777_216 * e3 <= 255 * p,
            -16_777_216 * e3 <= 255 * p,
    ;
    let e = top * den - want * p;
    let a = (va * p) * den;
    let b = step * den;
    let c = (by * n) * den;
    let d = (by * num) * p;
    assert(f2 == b - c) by (nonlinear_arith)
        requires
            f2 == (step - by * n) * den,
            b == step * den,
            c == (by * n) * den,
    ;
    assert(f1 == c - d) by (nonlinear_arith)
        requires
            f1 == by * (n * den - num * p),
            c == (by * n) * den,
            d == (by * num) * p,
    ;
    if up {
        assert(f3 == top * den - (a + b)) by (nonlinear_arith)
            requires
                f3 == (top - (va * p + step)) * den,
                a == (va * p) * den,
                b == step * den,
        ;
        assert(want == va * den + by * num) by (nonlinear_arith)
            requires
                want == va * (den - num) + vb * num,
                by == vb - va,
        ;
        assert((va * den + by * num) * p == a + d) by (nonlinear_arith)
            requires
                a == (va * p) * den,
                d == (by * num) * p,
        ;
        assert(e == f3 + f2 + f1);
    } else {
        assert(f3 == top * den - (a - b)) by (nonlinear_arith)
            requires
                f3 == (top - (va * p - step)) * den,
                a == (va * p) * den,
                b == step * den,
        ;
        assert(want == va * den - by * num) by (nonlinear_arith)
            requires
                want == va * (den - num) + vb * num,
                by == va - vb,
        ;
        assert((va * den - by * num) * p == a - d) by (nonlinear_arith)
            requires
                a == (va * p) * den,
                d == (by * num) * p,
        ;
        assert(e == f3 - f2 - f1);
    }
    assert(den * p == pd) by (nonlinear_arith)
        requires
            pd == p * den,
    ;
    lemma_round_close(top, p, want, den, e);
}

/// Blending two colours takes each of red, green and blue as far on its way as asked,
/// within six tenths of a step.
pub proof fn law_blending(a: u32, b: u32, num: u128, den: u128, r: u32)
    requires
        call_ensures(lerp, (a, b, num, den), r),
        num <= den,
        0 < den,
    ensures
        r < 0x1_000000,
        5 * away(
            (r as int / 65536) * den,
            (a as int / 65536 % 256) * (den - num) + (b as int / 65536 % 256) * num,
        ) <= 3 * den,
        5 * away(
            (r as int / 256 % 256) * den,
            (a as int / 256 % 256) * (den - num) + (b as int / 256 % 256) * num,
        ) <= 3 * den,
        5 * away(
            (r as int % 256) * den,
            (a as int % 256) * (den - num) + (b as int % 256) * num,
        ) <= 3 * den,
{
    let t = quotient(num as int, den as int, SINGLE as int);
    lemma_quotient_size(num as int, den as int, SINGLE as int);
    lemma_quotient_at_most(num as int, den as int, SINGLE as int, 1);
    let (ra, rb) = (a as int / 65536 % 256, b as int / 65536 % 256);
    let (ga, gb) = (a as int / 256 % 256, b as int / 256 % 256);
    let (ba, bb) = (a as int % 256, b as int % 256);
    lemma_mixed_close(ra, rb, num as int, den as int);
    lemma_mixed_close(ga, gb, num as int, den as int);
    lemma_mixed_close(ba, bb, num as int, den as int);
    crate::raster::lemma_mixed_in_range(ra, rb, t);
    crate::raster::lemma_mixed_in_range(ga, gb, t);
    crate::raster::lemma_mixed_in_range(ba, bb, t);
    let (x, y, z) = (mixed(ra, rb, t), mixed(ga, gb, t), mixed(ba, bb, t));
    assert(r == x * 65536 + y * 256 + z);
    assert(r as int / 65536 == x && r as int / 256 % 256 == y && r as int % 256 == z);
}

/// A level rises in proportion between -100 and -40 dB, within six tenths of a row, and is
/// held to that range.
pub proof fn law_level_rises_in_proportion(level: i32, rows: usize, r: usize)
    requires
        call_ensures(rise, (level, rows), r),
        rows <= 100_000,
    ensures
        level <= -100_000_000 ==> r == 0,
        level >= -40_000_000 ==> r == rows,
        -100_000_000 <= level <= -40_000_000 ==> 5 * away(
            r * 60_000_000,
            (level + 100_000_000) * rows,
        ) <= 3 * 60_000_000,
{
    law_level_inside_bars(level as int, rows as int);
    if -100_000_000 <= level <= -40_000_000 {
        let h = -(level as int);
        let (m, q) = quotient(h, 1_000_000, SINGLE as int);
        lemma_quotient_error(h, 1_000_000, SINGLE as int);
        lemma_quotient_at_least(h, 1_000_000, SINGLE as int, 40);
        lemma_quotient_at_most(h, 1_000_000, SINGLE as int, 100);
        let x = 100 * q - m;
        let (n, p) = quotient(x, 60 * q, SINGLE as int);
        lemma_quotient_error(x, 60 * q, SINGLE as int);
        lemma_quotient_size(x, 60 * q, SINGLE as int);
        let k = rows as int;
        let up = 100_000_000 - h;
        // Over the common base p * q.
        let e1 = m * 1_000_000 - h * q;
        let e2 = n * (60 * q) - x * p;
        let pq = p * q;
        assert(h * q <= 100_000_000 * q) by (nonlinear_arith)
            requires
                h <= 100_000_000,
                1 <= q,
        ;
        assert(16_777_216 * e1 <= 100_000_000 * q && -16_777_216 * e1 <= 100_000_000 * q);
        assert(x * p <= 60 * pq) by (nonlinear_arith)
            requires
                0 <= x <= 60 * q,
                1 <= p,
                pq == p * q,
        ;
        assert(16_777_216 * e2 <= 60 * pq && -16_777_216 * e2 <= 60 * pq);
        let f1 = (e1 * p) * k;
        let f2 = (e2 * 1_000_000) * k;
        assert(16_777_216 * (e1 * p) <= 100_000_000 * pq && -16_777_216 * (e1 * p) <= 100_000_000
            * pq) by (nonlinear_arith)
            requires
                16_777_216 * e1 <= 100_000_000 * q,
                -16_777_216 * e1 <= 100_000_000 * q,
                1 <= p,
                pq == p * q,
        ;
        let g1 = e1 * p;
        assert(0 <= pq) by (nonlinear_arith)
            requires
                pq == p * q,
                1 <= p,
                1 <= q,
        ;
        assert(16_777_216 * f1 <= 10_000_000_000_000 * pq && -16_777_216 * f1 <= 10_000_000_000_000
            * pq) by (nonlinear_arith)
            requires
                f1 == g1 * k,
                16_777_216 * g1 <= 100_000_000 * pq,
                -16_777_216 * g1 <= 100_000_000 * pq,
                0 <= k <= 100_000,
                0 <= pq,
        ;
        assert(16_777_216 * f2 <= 6_000_000_000_000 * pq && -16_777_216 * f2 <= 6_000_000_000_000
            * pq) by (nonlinear_arith)
            requires
                f2 == (e2 * 1_000_000) * k,
                16_777_216 * e2 <= 60 * pq,
                -16_777_216 * e2 <= 60 * pq,
                0 <= k <= 100_000,
                0 <= pq,
        ;
        // top * base - want * p, all times q.
        let top = n * k;
        let want = up * k;
        let e = (top * 60_000_000 - want * p) * q;
        assert(e == f2 - f1) by (nonlinear_arith)
            requires
                e == ((n * k) * 60_000_000 - ((100_000_000 - h) * k) * p) * q,
                f2 == ((n * (60 * q) - (100 * q - m) * p) * 1_000_000) * k,
                f1 == ((m * 1_000_000 - h * q) * p) * k,
        ;
        let d = top * 60_000_000 - want * p;
        assert(10 * d <= 60_000_000 * p && -10 * d <= 60_000_000 * p) by (nonlinear_arith)
            requires
                10 * (d * q) <= 60_000_000 * (p * q),
                -10 * (d * q) <= 60_000_000 * (p * q),
                1 <= q,
        ;
        assert(0 <= top) by (nonlinear_arith)
            requires
                top == n * k,
                0 <= n,
                0 <= k,
        ;
        lemma_round_close(top, p, want, 60_000_000, d);
    }
}

} // verus!
