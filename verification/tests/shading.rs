//! Colours, glyphs and numbers as text.

use fpv_viewer::clock::in_seconds;
use fpv_viewer::float::{div_half_even, div_half_up, divide, round, DOUBLE, SINGLE};
use fpv_viewer::glyphs::get_char_bitmap;
use fpv_viewer::order::sort_ascending;
use fpv_viewer::raster::{lerp, outline, shade, BG};
use fpv_viewer::text::{parts_of_age, parts_of_mhz, push_decimal, push_signed, push_tenths};

fn float_lerp(a: u32, b: u32, t: f32) -> u32 {
    let ch = |shift: u32| -> u32 {
        let va = ((a >> shift) & 0xff) as f32;
        let vb = ((b >> shift) & 0xff) as f32;
        (va + (vb - va) * t).round().clamp(0.0, 255.0) as u32
    };
    (ch(16) << 16) | (ch(8) << 8) | ch(0)
}

#[test]
fn shading_agrees_with_floating_point() {
    for v in 0..=255u32 {
        let px = (v << 16) | (v << 8) | v;
        let mut buf = vec![px];
        shade(&mut buf, 1, 0, 1);
        assert_eq!(buf[0], float_lerp(px, BG, 0.86));
    }
}

#[test]
fn mixing_reaches_both_ends() {
    assert_eq!(lerp(0x123456, 0xabcdef, 0, 45), 0x123456);
    assert_eq!(lerp(0x123456, 0xabcdef, 45, 45), 0xabcdef);
    assert_eq!(lerp(0x000000, 0xffffff, 1, 2), 0x808080);
    // The top byte of a colour is not mixed.
    assert_eq!(lerp(0xff000000, 0x00000000, 1, 2), 0);
    for n in 0..=30u128 {
        assert_eq!(lerp(0x7c8c94, 0x1e2a31, n, 30), float_lerp(0x7c8c94, 0x1e2a31, n as f32 / 30.0));
    }
}

#[test]
fn shading_keeps_to_its_rows() {
    let mut buf = vec![0xffffffu32; 4 * 5];
    shade(&mut buf, 4, 2, 2);
    assert!(buf[..8].iter().all(|p| *p == 0xffffff));
    assert!(buf[8..16].iter().all(|p| *p != 0xffffff));
    assert!(buf[16..].iter().all(|p| *p == 0xffffff));
    // Rows beyond the buffer are no error.
    shade(&mut buf, 4, 4, usize::MAX);
    assert!(buf[16..].iter().all(|p| *p != 0xffffff));
    shade(&mut buf, 0, 0, 3);
}

#[test]
fn outlines_are_hollow() {
    let mut buf = vec![0u32; 8 * 8];
    outline(&mut buf, 8, 8, 1, 1, 4, 3, 9);
    let lit: Vec<usize> = (0..64).filter(|i| buf[*i] == 9).collect();
    assert_eq!(lit, vec![9, 10, 11, 12, 17, 20, 25, 26, 27, 28]);
}

#[test]
fn glyphs_ignore_case() {
    for (u, l) in ('A'..='Z').zip('a'..='z') {
        assert_eq!(get_char_bitmap(u), get_char_bitmap(l));
        assert_ne!(get_char_bitmap(u), [0u8; 8]);
    }
    assert_eq!(get_char_bitmap('?'), [0u8; 8]);
    assert_eq!(get_char_bitmap('·'), [0u8; 8]);
    assert_ne!(get_char_bitmap('*'), [0u8; 8]);
    assert_eq!(get_char_bitmap('5'), [0x7e, 0x60, 0x7c, 0x06, 0x06, 0x66, 0x3c, 0x00]);
}

#[test]
fn numbers_are_written_out() {
    for n in [0u64, 7, 10, 99, 100, 5_865_000_000, u64::MAX] {
        let mut s = String::from("x");
        push_decimal(&mut s, n);
        assert_eq!(s, format!("x{n}"));
    }
    for n in [0i64, -1, -40, 1234, i64::MAX, i64::MIN + 1] {
        let mut s = String::new();
        push_signed(&mut s, n);
        assert_eq!(s, format!("{n}"));
    }
    let mut s = String::new();
    push_tenths(&mut s, 58_652);
    assert_eq!(s, "5865.2");
}

#[test]
fn halves_round_to_even() {
    assert_eq!(div_half_even(25, 10), 2);
    assert_eq!(div_half_even(35, 10), 4);
    assert_eq!(div_half_even(24, 10), 2);
    assert_eq!(div_half_even(26, 10), 3);
    assert_eq!(div_half_even(u64::MAX as u128, 1), u64::MAX as u128);
    assert_eq!((div_half_up(24, 10), div_half_up(25, 10), div_half_up(35, 10)), (2, 3, 4));
    // As printing does it.
    for quarter in [1u32, 3, 5, 7, 4001, 4003] {
        let v = quarter as f64 * 0.25;
        let mut s = String::new();
        push_tenths(&mut s, div_half_even(quarter as u128 * 25, 10) as u64);
        assert_eq!(s, format!("{v:.1}"));
    }
}

#[test]
fn sorting_keeps_every_number() {
    let v = vec![5, -3, 5, 0, i64::MAX, i64::MIN, -3];
    let mut expected = v.clone();
    expected.sort();
    assert_eq!(sort_ascending(&v), expected);
}

#[test]
fn letters_and_digits_look_different() {
    let all: Vec<char> = ('A'..='Z').chain('0'..='9').collect();
    for (i, a) in all.iter().enumerate() {
        assert_ne!(get_char_bitmap(*a), [0u8; 8]);
        for b in &all[i + 1..] {
            assert_ne!(get_char_bitmap(*a), get_char_bitmap(*b));
        }
    }
    for c in (0u32..0x300).filter_map(char::from_u32) {
        assert_eq!(get_char_bitmap(c)[7], 0);
    }
    assert_eq!(get_char_bitmap(' '), get_char_bitmap('?'));
}

#[test]
fn frequencies_are_printed_as_floats_are() {
    let written = |hz: u64| {
        let mut s = String::new();
        push_tenths(&mut s, parts_of_mhz(hz as u128 * 1000, 10));
        s
    };
    assert_eq!(written(5_800_050_000), "5800.1");
    for k in 0..4000u64 {
        for hz in [k * 50_000, 5_600_000_000 + k * 50_000, 1_080_000_000 + k * 49_999, k] {
            assert_eq!(written(hz), format!("{:.1}", hz as f64 / 1e6));
            let hundredths = parts_of_mhz(hz as u128 * 1000, 100);
            let two = format!("{}.{:02}", hundredths / 100, hundredths % 100);
            assert_eq!(two, format!("{:.2}", hz as f64 / 1e6));
        }
    }
    for hz in [u64::MAX, u64::MAX / 3, 1 << 53, (1 << 53) - 1] {
        assert_eq!(written(hz).len(), format!("{:.1}", hz as f64 / 1e6).len());
    }
}

/// Numbers that jump about the whole range of 64 bits.
fn scattered(count: u64) -> impl Iterator<Item = u64> {
    (1..=count).map(|k| k.wrapping_mul(0x9e37_79b9_7f4a_7c15) >> (k % 50))
}

#[test]
fn quotients_are_rounded_as_floats_are() {
    for (a, b) in scattered(4000).zip(scattered(4007).skip(7)) {
        let (a, b) = ((a >> 14) % (1 << 24), (b >> 14) % (1 << 24) + 1);
        let (n, p) = divide(a as u128, b as u128, DOUBLE);
        assert_eq!(n as f64 / p as f64, a as f64 / b as f64);
        let (n, p) = divide(a as u128, b as u128, SINGLE);
        assert_eq!(n as f32 / p as f32, a as f32 / b as f32);
    }
    assert_eq!(divide(0, 3, SINGLE), (0, 1));
    assert_eq!(divide(1, 1, SINGLE), (0x80_0000, 0x80_0000));
}

#[test]
fn integers_are_rounded_as_floats_are() {
    for n in scattered(4000).chain([0, 1, 0x100_0000, 0x100_0001, 0x100_0003, u64::MAX]) {
        assert_eq!(round(n as u128, SINGLE), n as f32 as u128);
        assert_eq!(round(n as u128, DOUBLE), n as f64 as u128);
    }
}

#[test]
fn ages_are_printed_as_floats_are() {
    let tenths = |ns: u64| {
        let mut s = String::new();
        push_tenths(&mut s, parts_of_age(ns, 10));
        s
    };
    assert_eq!(tenths(50_000_000), "0.1");
    assert_eq!(tenths(250_000_000), "0.2");
    assert_eq!(parts_of_age(3_499_999_999, 1), 4);
    assert_eq!(parts_of_age(u64::MAX, 1), 999);
    let steps = (0..6000u64).map(|k| k * 50_000_000);
    for ns in steps.chain(scattered(6000).map(|n| n % 1_100_000_000_000)) {
        let age = std::time::Duration::from_nanos(ns).as_secs_f32();
        assert_eq!(tenths(ns), format!("{:.1}", age.min(999.0)));
        assert_eq!(format!("{}", parts_of_age(ns, 1)), format!("{:.0}", age.min(999.0)));
        if ns < 999_000_000_000 {
            let (n, p) = in_seconds(ns);
            assert_eq!(n as f32 / p as f32, age);
        }
    }
}

#[test]
fn fading_agrees_with_floating_point() {
    for k in 0..3000u64 {
        let ns = k * 10_000_019;
        if ns < 30_000_000_000 {
            let (n, p) = in_seconds(ns);
            let age = std::time::Duration::from_nanos(ns).as_secs_f32();
            let float = float_lerp(0x7c8c94, 0x1e2a31, (age / 30.0).clamp(0.0, 1.0));
            assert_eq!(lerp(0x7c8c94, 0x1e2a31, n, 30 * p), float);
        }
    }
}
