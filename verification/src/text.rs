//! Numbers and short labels as text.

use vstd::prelude::*;
use vstd::utf8::{encode_utf8, is_ascii_chars, is_ascii_chars_encode_utf8};

use crate::clock::{in_seconds, lemma_seconds_fit, seconds, SECOND_NS};
use crate::float::{
    div_half_even, divide, lemma_half_even, lemma_half_even_exact, lemma_half_even_monotone,
    lemma_quotient_at_most, lemma_quotient_size, quotient, round_half_even, DOUBLE,
};
use crate::raster::byte_len;

verus! {

/// `String::push` of std: the character goes behind the text that was there.
pub assume_specification[ String::push ](text: &mut String, ch: char)
    ensures
        final(text)@ == old(text)@.push(ch),
;

/// The character of a decimal digit.
pub open spec fn digit(d: int) -> char {
    if d == 0 {
        '0'
    } else if d == 1 {
        '1'
    } else if d == 2 {
        '2'
    } else if d == 3 {
        '3'
    } else if d == 4 {
        '4'
    } else if d == 5 {
        '5'
    } else if d == 6 {
        '6'
    } else if d == 7 {
        '7'
    } else if d == 8 {
        '8'
    } else {
        '9'
    }
}

/// A number in decimal, without leading zeros.
pub open spec fn decimal(n: int) -> Seq<char>
    decreases n,
{
    if n < 10 {
        seq![digit(n)]
    } else {
        decimal(n / 10).push(digit(n % 10))
    }
}

/// A signed number in decimal.
pub open spec fn signed_decimal(n: int) -> Seq<char> {
    if n < 0 {
        seq!['-'] + decimal(-n)
    } else {
        decimal(n)
    }
}

/// A number of tenths, written with one decimal place.
pub open spec fn tenths(n: int) -> Seq<char> {
    decimal(n / 10) + seq!['.', digit(n % 10)]
}

/// A character with the 26 upper-case letters in lower case.
pub open spec fn lower(c: char) -> char {
    if 'A' <= c <= 'Z' {
        (c as u32 + 32) as char
    } else {
        c
    }
}

/// A character with the 26 lower-case letters in upper case.
pub open spec fn upper(c: char) -> char {
    if 'a' <= c <= 'z' {
        (c as u32 - 32) as char
    } else {
        c
    }
}

/// A text with the 26 upper-case letters in lower case.
pub open spec fn lower_ascii(s: Seq<char>) -> Seq<char> {
    s.map_values(|c: char| lower(c))
}

/// A text with the 26 lower-case letters in upper case.
pub open spec fn upper_ascii(s: Seq<char>) -> Seq<char> {
    s.map_values(|c: char| upper(c))
}

/// How many parts of one in `places` a frequency in millihertz is, in megahertz, as
/// floating-point formatting has it: the nearest double-precision number, rounded to
/// the places shown.
pub open spec fn mhz_parts(milli_hz: int, places: int) -> int {
    let (n, p) = quotient(milli_hz, 1_000_000_000, DOUBLE as int);
    round_half_even(places * n, p)
}

/// The parts of a frequency fit in a `u64`.
pub proof fn lemma_mhz_parts_fit(milli_hz: int, places: int)
    requires
        0 <= milli_hz <= 1000 * u64::MAX,
        0 < places <= 100,
    ensures
        0 <= mhz_parts(milli_hz, places) <= 5_000_000_000_000_000,
{
    let (n, p) = quotient(milli_hz, 1_000_000_000, DOUBLE as int);
    lemma_quotient_size(milli_hz, 1_000_000_000, DOUBLE as int);
    lemma_quotient_at_most(milli_hz, 1_000_000_000, DOUBLE as int, 20_000_000_000_000);
    lemma_parts_fit(n, p, 20_000_000_000_000, places);
}

/// The parts of a number of at most `k`.
proof fn lemma_parts_fit(n: int, p: int, k: int, places: int)
    requires
        0 <= n <= k * p,
        0 < p,
        0 <= places,
    ensures
        0 <= places * n,
        0 <= round_half_even(places * n, p) <= places * k,
{
    assert(0 <= places * n <= (places * k) * p) by (nonlinear_arith)
        requires
            0 <= n <= k * p,
            0 <= places,
    ;
    lemma_half_even(places * n, p);
    lemma_half_even_monotone(places * n, (places * k) * p, p);
    lemma_half_even_exact(places * k, p);
}

/// How many parts of one in `places` a frequency in millihertz is, in megahertz.
pub fn parts_of_mhz(milli_hz: u128, places: u128) -> (r: u64)
    requires
        milli_hz <= 1000 * u64::MAX,
        0 < places <= 100,
    ensures
        r == mhz_parts(milli_hz as int, places as int),
        r <= 5_000_000_000_000_000,
{
    proof {
        lemma_mhz_parts_fit(milli_hz as int, places as int);
        lemma_quotient_size(milli_hz as int, 1_000_000_000, DOUBLE as int);
    }
    let (n, p): (u128, u128) = divide(milli_hz, 1_000_000_000, DOUBLE);
    proof {
        assert(places * n <= 100 * 0x20_0000_0000_0000) by (nonlinear_arith)
            requires
                places <= 100,
                n <= 0x20_0000_0000_0000,
        ;
        lemma_power_fits(milli_hz as int, p as int, 2 * (DOUBLE * 1_000_000_000));
    }
    div_half_even(places * n, p) as u64
}

/// A power of two that a number above zero can be multiplied by stays within the
/// product.
proof fn lemma_power_fits(a: int, p: int, product: int)
    requires
        0 <= a,
        a == 0 ==> p == 1,
        0 < p,
        a * p <= product,
        1 <= product,
    ensures
        p <= product,
{
    if a > 0 {
        assert(p <= a * p) by (nonlinear_arith)
            requires
                a >= 1,
                p > 0,
        ;
    }
}

/// Ages are shown up to this many seconds.
pub const SHOWN_AGE_S: u64 = 999;

/// How many parts of one in `places` an age in nanoseconds is, in seconds, as
/// floating-point formatting has it.
pub open spec fn age_parts(age_ns: int, places: int) -> int {
    if age_ns >= SHOWN_AGE_S * SECOND_NS {
        places * SHOWN_AGE_S
    } else {
        let (n, p) = seconds(age_ns);
        round_half_even(places * n, p)
    }
}

/// The parts of an age are few.
pub proof fn lemma_age_parts_fit(age_ns: int, places: int)
    requires
        0 <= age_ns,
        0 < places <= 10,
    ensures
        0 <= age_parts(age_ns, places) <= 20_000,
{
    if age_ns < SHOWN_AGE_S * SECOND_NS {
        let (n, p) = seconds(age_ns);
        lemma_seconds_fit(age_ns);
        lemma_parts_fit(n, p, 2000, places);
    }
}

/// How many parts of one in `places` an age in nanoseconds is, in seconds.
pub fn parts_of_age(age_ns: u64, places: u128) -> (r: u64)
    requires
        0 < places <= 10,
    ensures
        r == age_parts(age_ns as int, places as int),
        r <= 20_000,
{
    proof {
        lemma_age_parts_fit(age_ns as int, places as int);
    }
    if age_ns >= SHOWN_AGE_S * SECOND_NS {
        places as u64 * SHOWN_AGE_S
    } else {
        let (n, p): (u128, u128) = in_seconds(age_ns);
        proof {
            lemma_seconds_fit(age_ns as int);
            assert(places * n <= 10 * 0x1_0000_0000_0000_0000_0000) by (nonlinear_arith)
                requires
                    places <= 10,
                    n <= 0x1_0000_0000_0000_0000_0000,
            ;
        }
        div_half_even(places * n, p) as u64
    }
}

fn digit_char(d: u64) -> (c: char)
    requires
        d < 10,
    ensures
        c == digit(d as int),
{
    if d == 0 {
        '0'
    } else if d == 1 {
        '1'
    } else if d == 2 {
        '2'
    } else if d == 3 {
        '3'
    } else if d == 4 {
        '4'
    } else if d == 5 {
        '5'
    } else if d == 6 {
        '6'
    } else if d == 7 {
        '7'
    } else if d == 8 {
        '8'
    } else {
        '9'
    }
}

/// Append a number in decimal.
pub fn push_decimal(text: &mut String, n: u64)
    ensures
        final(text)@ == old(text)@ + decimal(n as int),
    decreases n,
{
    let ghost before = text@;
    if n >= 10 {
        push_decimal(text, n / 10);
    }
    text.push(digit_char(n % 10));
    assert(text@ =~= before + decimal(n as int));
}

/// Append a signed number in decimal.
pub fn push_signed(text: &mut String, n: i64)
    requires
        n > i64::MIN,
    ensures
        final(text)@ == old(text)@ + signed_decimal(n as int),
{
    let ghost before = text@;
    if n < 0 {
        text.push('-');
        push_decimal(text, (-n) as u64);
        assert(text@ =~= before + signed_decimal(n as int));
    } else {
        push_decimal(text, n as u64);
    }
}

/// Append a number of tenths with one decimal place.
pub fn push_tenths(text: &mut String, n: u64)
    ensures
        final(text)@ == old(text)@ + tenths(n as int),
{
    let ghost before = text@;
    push_decimal(text, n / 10);
    text.push('.');
    text.push(digit_char(n % 10));
    assert(text@ =~= before + tenths(n as int));
}

/// Decimals are ASCII and no longer than twenty digits for any `u64`.
pub proof fn lemma_decimal_short(n: int)
    requires
        0 <= n <= u64::MAX,
    ensures
        is_ascii_chars(decimal(n)),
        1 <= decimal(n).len() <= 20,
{
    reveal_with_fuel(ten_to, 21);
    assert(ten_to(20) == 100_000_000_000_000_000_000);
    lemma_decimal_digits(n, 20);
}

proof fn lemma_decimal_digits(n: int, places: int)
    requires
        0 <= n,
        places >= 1,
        n < ten_to(places),
    ensures
        is_ascii_chars(decimal(n)),
        1 <= decimal(n).len() <= places,
    decreases places,
{
    reveal_with_fuel(ten_to, 2);
    if n >= 10 {
        lemma_decimal_digits(n / 10, places - 1);
    }
}

spec fn ten_to(places: int) -> int
    decreases places,
{
    if places <= 0 {
        1
    } else {
        10 * ten_to(places - 1)
    }
}

/// ASCII text has one byte per character.
pub proof fn lemma_ascii_len(text: Seq<char>)
    requires
        is_ascii_chars(text),
    ensures
        byte_len(text) == text.len(),
{
    is_ascii_chars_encode_utf8(text);
}

/// Bytes of joined texts add up.
pub proof fn lemma_byte_len_concat(a: Seq<char>, b: Seq<char>)
    ensures
        byte_len(a + b) == byte_len(a) + byte_len(b),
    decreases a.len(),
{
    reveal_with_fuel(encode_utf8, 2);
    if a.len() == 0 {
        assert(a + b =~= b);
    } else {
        assert((a + b).drop_first() =~= a.drop_first() + b);
        lemma_byte_len_concat(a.drop_first(), b);
    }
}

/// A number of tenths is ASCII and short.
pub proof fn lemma_tenths_short(n: int)
    requires
        0 <= n <= u64::MAX,
    ensures
        is_ascii_chars(tenths(n)),
        3 <= tenths(n).len() <= 22,
{
    lemma_decimal_short(n / 10);
    vstd::utf8::is_ascii_chars_concat(
        tenths(n),
        decimal(n / 10),
        seq!['.', digit(n % 10)],
    );
}

/// A signed number is ASCII and short.
pub proof fn lemma_signed_short(n: int)
    requires
        -u64::MAX <= n <= u64::MAX,
    ensures
        is_ascii_chars(signed_decimal(n)),
        1 <= signed_decimal(n).len() <= 21,
{
    if n < 0 {
        lemma_decimal_short(-n);
        vstd::utf8::is_ascii_chars_concat(signed_decimal(n), seq!['-'], decimal(-n));
    } else {
        lemma_decimal_short(n);
    }
}

} // verus!
