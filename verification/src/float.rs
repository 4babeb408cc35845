//! Floating-point arithmetic on numbers that are not negative, done with integers.
//!
//! A number is a numerator over a power of two. Its precision is given by the least
//! numerator that uses all of its significant bits.

use vstd::arithmetic::power2::{lemma_pow2_pos, lemma_pow2_unfold, pow2};
use vstd::prelude::*;

use crate::order::round_div;

verus! {

/// Single precision: 24 significant bits.
pub const SINGLE: u128 = 0x80_0000;

/// Double precision: 53 significant bits.
pub const DOUBLE: u128 = 0x10_0000_0000_0000;

/// `a / b` to the nearest integer, exact halves to the even one.
pub open spec fn round_half_even(a: int, b: int) -> int {
    let q = a / b;
    let r = a % b;
    if 2 * r < b {
        q
    } else if 2 * r > b {
        q + 1
    } else if q % 2 == 0 {
        q
    } else {
        q + 1
    }
}

/// `a / b` over the first power of two from `p` on at which it reaches `goal / b`.
pub open spec fn scaled(a: int, b: int, goal: int, p: int) -> (int, int)
    decreases 2 * goal - a,
{
    if a <= 0 || a >= goal {
        (round_half_even(a, b), p)
    } else {
        scaled(2 * a, b, goal, 2 * p)
    }
}

/// The floating-point number nearest to `a / b`, which is below `2 * least`.
pub open spec fn quotient(a: int, b: int, least: int) -> (int, int) {
    scaled(a, b, least * b, 1)
}

/// `n` in multiples of the first unit from `unit` on of which it takes less than
/// `top / unit`.
pub open spec fn kept(n: int, unit: int, top: int) -> int
    decreases 2 * n - top,
{
    if n < top || top <= 0 {
        round_half_even(n, unit) * unit
    } else {
        kept(n, 2 * unit, 2 * top)
    }
}

/// The floating-point number nearest to an integer. The numerator of a sum or a product
/// over a power of two is rounded by it too.
pub open spec fn nearest(n: int, least: int) -> int {
    kept(n, 1, 2 * least)
}

/// A rounded quotient lies within a half of the quotient.
pub proof fn lemma_half_even(a: int, b: int)
    requires
        0 <= a,
        0 < b,
    ensures
        0 <= round_half_even(a, b),
        2 * a - b <= 2 * (round_half_even(a, b) * b) <= 2 * a + b,
{
    let q = a / b;
    vstd::arithmetic::div_mod::lemma_fundamental_div_mod(a, b);
    vstd::arithmetic::div_mod::lemma_div_pos_is_pos(a, b);
    assert(q * b == b * q && (q + 1) * b == b * q + b) by (nonlinear_arith);
}

/// A larger quotient is not rounded to less.
pub proof fn lemma_half_even_monotone(a: int, c: int, b: int)
    requires
        a <= c,
        0 < b,
    ensures
        round_half_even(a, b) <= round_half_even(c, b),
{
    vstd::arithmetic::div_mod::lemma_div_is_ordered(a, c, b);
    vstd::arithmetic::div_mod::lemma_fundamental_div_mod(a, b);
    vstd::arithmetic::div_mod::lemma_fundamental_div_mod(c, b);
}

/// A whole quotient is kept.
pub proof fn lemma_half_even_exact(k: int, b: int)
    requires
        0 < b,
    ensures
        round_half_even(k * b, b) == k,
{
    vstd::arithmetic::div_mod::lemma_fundamental_div_mod_converse(k * b, b, k, 0);
}

/// A factor on both sides of a quotient changes nothing.
proof fn lemma_half_even_scales(a: int, b: int, k: int)
    requires
        0 < b,
        0 < k,
    ensures
        round_half_even(k * a, k * b) == round_half_even(a, b),
{
    let q = a / b;
    let r = a % b;
    vstd::arithmetic::div_mod::lemma_fundamental_div_mod(a, b);
    assert(k * a == q * (k * b) + k * r) by (nonlinear_arith)
        requires
            a == b * q + r,
    ;
    assert(0 <= k * r < k * b) by (nonlinear_arith)
        requires
            0 <= r < b,
            0 < k,
    ;
    vstd::arithmetic::div_mod::lemma_fundamental_div_mod_converse(k * a, k * b, q, k * r);
    assert(k * b - 2 * (k * r) == k * (b - 2 * r)) by (nonlinear_arith);
    let by = b - 2 * r;
    assert((by > 0 ==> k * by > 0) && (by < 0 ==> k * by < 0) && (by == 0 ==> k * by == 0))
        by (nonlinear_arith)
        requires
            0 < k,
    ;
}

/// A factor on both sides of a quotient changes nothing.
proof fn lemma_quotient_scales(a: int, b: int, least: int, k: int)
    requires
        0 < b,
        0 < k,
    ensures
        quotient(k * a, k * b, least) == quotient(a, b, least),
{
    assert(least * (k * b) == k * (least * b)) by (nonlinear_arith);
    lemma_scaled_scales(a, b, least * b, 1, k);
}

proof fn lemma_scaled_scales(a: int, b: int, goal: int, p: int, k: int)
    requires
        0 < b,
        0 < k,
    ensures
        scaled(k * a, k * b, k * goal, p) == scaled(a, b, goal, p),
    decreases 2 * goal - a,
{
    assert((a <= 0 <==> k * a <= 0) && (a >= goal <==> k * a >= k * goal)) by (nonlinear_arith)
        requires
            0 < k,
    ;
    if a <= 0 || a >= goal {
        lemma_half_even_scales(a, b, k);
    } else {
        assert(k * (2 * a) == 2 * (k * a)) by (nonlinear_arith);
        lemma_scaled_scales(2 * a, b, goal, 2 * p, k);
    }
}

/// A quotient of at most `k` is rounded to at most `k`.
pub proof fn lemma_quotient_at_most(a: int, b: int, least: int, k: int)
    requires
        0 < b,
        a <= k * b,
    ensures
        quotient(a, b, least).0 <= k * quotient(a, b, least).1,
{
    assert(k * 1 == k);
    lemma_scaled_at_most(a, b, least * b, 1, k);
}

proof fn lemma_scaled_at_most(a: int, b: int, goal: int, p: int, k: int)
    requires
        0 < b,
        a <= (k * p) * b,
    ensures
        scaled(a, b, goal, p).0 <= k * scaled(a, b, goal, p).1,
    decreases 2 * goal - a,
{
    if a <= 0 || a >= goal {
        lemma_half_even_monotone(a, (k * p) * b, b);
        lemma_half_even_exact(k * p, b);
    } else {
        assert((k * (2 * p)) * b == 2 * ((k * p) * b)) by (nonlinear_arith);
        lemma_scaled_at_most(2 * a, b, goal, 2 * p, k);
    }
}

/// A quotient of at least `k` is rounded to at least `k`.
pub proof fn lemma_quotient_at_least(a: int, b: int, least: int, k: int)
    requires
        0 < b,
        a >= k * b,
    ensures
        quotient(a, b, least).0 >= k * quotient(a, b, least).1,
{
    assert(k * 1 == k);
    lemma_scaled_at_least(a, b, least * b, 1, k);
}

proof fn lemma_scaled_at_least(a: int, b: int, goal: int, p: int, k: int)
    requires
        0 < b,
        a >= (k * p) * b,
    ensures
        scaled(a, b, goal, p).0 >= k * scaled(a, b, goal, p).1,
    decreases 2 * goal - a,
{
    if a <= 0 || a >= goal {
        lemma_half_even_monotone((k * p) * b, a, b);
        lemma_half_even_exact(k * p, b);
    } else {
        assert((k * (2 * p)) * b == 2 * ((k * p) * b)) by (nonlinear_arith);
        lemma_scaled_at_least(2 * a, b, goal, 2 * p, k);
    }
}

/// The numerator and the power of two of a rounded quotient.
pub proof fn lemma_quotient_size(a: int, b: int, least: int)
    requires
        0 <= a <= 2 * (least * b),
        0 < b,
        0 < least,
    ensures
        0 <= quotient(a, b, least).0 <= 2 * least,
        1 <= quotient(a, b, least).1,
        a == 0 ==> quotient(a, b, least) == (0int, 1int),
        a * quotient(a, b, least).1 <= 2 * (least * b),
        exists|e: nat| quotient(a, b, least).1 == #[trigger] pow2(e),
{
    vstd::arithmetic::power2::lemma2_to64();
    if a == 0 {
        lemma_half_even_exact(0, b);
        assert(0 * b == 0);
    }
    assert(1 == pow2(0));
    lemma_scaled_size(a, b, least, 1, a, 0);
}

proof fn lemma_scaled_size(a: int, b: int, least: int, p: int, start: int, e: nat)
    requires
        0 <= a <= 2 * (least * b),
        a == start * p,
        0 < b,
        0 < least,
        p == pow2(e),
    ensures
        0 <= scaled(a, b, least * b, p).0 <= 2 * least,
        p <= scaled(a, b, least * b, p).1,
        start * scaled(a, b, least * b, p).1 <= 2 * (least * b),
        exists|f: nat| scaled(a, b, least * b, p).1 == #[trigger] pow2(f),
    decreases 2 * (least * b) - a,
{
    lemma_pow2_pos(e);
    if a <= 0 || a >= least * b {
        lemma_half_even(a, b);
        assert((2 * least) * b == 2 * (least * b)) by (nonlinear_arith);
        lemma_half_even_monotone(a, (2 * least) * b, b);
        lemma_half_even_exact(2 * least, b);
    } else {
        lemma_pow2_unfold(e + 1);
        assert(2 * (start * p) == start * (2 * p)) by (nonlinear_arith);
        lemma_scaled_size(2 * a, b, least, 2 * p, start, e + 1);
    }
}

/// A larger quotient is not rounded to less.
pub proof fn lemma_quotient_monotone(a: int, b: int, c: int, d: int, least: int)
    requires
        0 <= a,
        0 <= c <= 2 * (least * d),
        a * d <= c * b,
        0 < b,
        0 < d,
        0 < least,
    ensures
        quotient(a, b, least).0 * quotient(c, d, least).1 <= quotient(c, d, least).0 * quotient(
            a,
            b,
            least,
        ).1,
{
    assert(b * d > 0) by (nonlinear_arith)
        requires
            0 < b,
            0 < d,
    ;
    assert(0 <= d * a) by (nonlinear_arith)
        requires
            0 <= a,
            0 < d,
    ;
    assert(d * a == a * d && d * b == b * d) by (nonlinear_arith);
    assert(b * c == c * b);
    assert(b * c <= 2 * (least * (b * d))) by (nonlinear_arith)
        requires
            c <= 2 * (least * d),
            0 < b,
    ;
    lemma_quotient_scales(a, b, least, d);
    lemma_quotient_scales(c, d, least, b);
    lemma_scaled_monotone(d * a, b * c, b * d, least, 1);
}

/// A quotient short of the goal is rounded to at most the goal.
proof fn lemma_scaled_short(a: int, b: int, least: int, p: int)
    requires
        0 <= a < least * b,
        0 < b,
        0 < p,
        0 < least,
    ensures
        0 <= scaled(a, b, least * b, p).0,
        p <= scaled(a, b, least * b, p).1,
        scaled(a, b, least * b, p).0 * p <= least * scaled(a, b, least * b, p).1,
    decreases 2 * (least * b) - a,
{
    let (n, q) = scaled(a, b, least * b, p);
    if a == 0 {
        lemma_half_even_exact(0, b);
        assert(0 * b == 0 && 0 * p == 0);
        assert(0 <= least * p) by (nonlinear_arith)
            requires
                0 < least,
                0 < p,
        ;
    } else if 2 * a < least * b {
        lemma_scaled_short(2 * a, b, least, 2 * p);
        assert(n * (2 * p) == 2 * (n * p)) by (nonlinear_arith);
        assert(0 <= n * p) by (nonlinear_arith)
            requires
                0 <= n,
                0 < p,
        ;
    } else {
        lemma_half_even(2 * a, b);
        assert((2 * least) * b == 2 * (least * b)) by (nonlinear_arith);
        lemma_half_even_monotone(2 * a, (2 * least) * b, b);
        lemma_half_even_exact(2 * least, b);
        assert(scaled(2 * a, b, least * b, 2 * p) == (n, 2 * p));
        assert(n * p <= least * (2 * p)) by (nonlinear_arith)
            requires
                n <= 2 * least,
                0 < p,
        ;
    }
}

proof fn lemma_scaled_monotone(a: int, c: int, b: int, least: int, p: int)
    requires
        0 <= a <= c <= 2 * (least * b),
        0 < b,
        0 < least,
        0 < p,
    ensures
        scaled(a, b, least * b, p).0 * scaled(c, b, least * b, p).1 <= scaled(
            c,
            b,
            least * b,
            p,
        ).0 * scaled(a, b, least * b, p).1,
    decreases 2 * (least * b) - a, 2 * (least * b) - c,
{
    let (n, q) = scaled(a, b, least * b, p);
    let (m, r) = scaled(c, b, least * b, p);
    if a >= least * b {
        lemma_half_even_monotone(a, c, b);
        assert(n * p <= m * p) by (nonlinear_arith)
            requires
                n <= m,
                0 < p,
        ;
    } else if c >= least * b {
        lemma_scaled_short(a, b, least, p);
        lemma_half_even_monotone(least * b, c, b);
        lemma_half_even_exact(least, b);
        assert(least * q <= m * q) by (nonlinear_arith)
            requires
                least <= m,
                0 < q,
        ;
    } else if a == 0 {
        lemma_half_even_exact(0, b);
        assert(0 * b == 0 && 0 * r == 0);
        lemma_scaled_short(c, b, least, p);
        assert(0 <= m * q) by (nonlinear_arith)
            requires
                0 <= m,
                0 < q,
        ;
    } else {
        lemma_scaled_monotone(2 * a, 2 * c, b, least, 2 * p);
    }
}

/// How far a rounded quotient may be from the quotient.
pub proof fn lemma_quotient_error(a: int, b: int, least: int)
    requires
        0 <= a,
        0 < b,
        0 < least,
    ensures
        ({
            let (n, p) = quotient(a, b, least);
            &&& 1 <= p
            &&& (2 * least) * (n * b - a * p) <= a * p
            &&& (2 * least) * (a * p - n * b) <= a * p
        }),
{
    lemma_scaled_error(a, b, least, 1, a);
}

proof fn lemma_scaled_error(a: int, b: int, least: int, p: int, start: int)
    requires
        0 <= a,
        a == start * p,
        0 < b,
        0 < least,
        0 < p,
    ensures
        ({
            let (n, q) = scaled(a, b, least * b, p);
            &&& p <= q
            &&& (2 * least) * (n * b - start * q) <= start * q
            &&& (2 * least) * (start * q - n * b) <= start * q
        }),
    decreases 2 * (least * b) - a,
{
    if a == 0 || a >= least * b {
        let n = round_half_even(a, b);
        lemma_half_even(a, b);
        if a == 0 {
            lemma_half_even_exact(0, b);
            assert(0 * b == 0);
        } else {
            let by = n * b - a;
            assert((2 * least) * by <= a && (2 * least) * (-by) <= a) by (nonlinear_arith)
                requires
                    2 * by <= b,
                    -2 * by <= b,
                    least * b <= a,
                    0 < least,
            ;
        }
    } else {
        assert(2 * (start * p) == start * (2 * p)) by (nonlinear_arith);
        lemma_scaled_error(2 * a, b, least, 2 * p, start);
    }
}

/// How far a rounded integer may be from the integer.
pub proof fn lemma_nearest_error(n: int, least: int)
    requires
        0 <= n,
        0 < least,
    ensures
        (2 * least) * (nearest(n, least) - n) <= n,
        (2 * least) * (n - nearest(n, least)) <= n,
{
    lemma_kept_error(n, 1, least);
}

proof fn lemma_kept_error(n: int, unit: int, least: int)
    requires
        0 <= n,
        0 < unit,
        0 < least,
        unit == 1 || n >= least * unit,
    ensures
        (2 * least) * (kept(n, unit, 2 * (least * unit)) - n) <= n,
        (2 * least) * (n - kept(n, unit, 2 * (least * unit))) <= n,
    decreases 2 * n - 2 * (least * unit),
{
    let top = 2 * (least * unit);
    assert(least * unit >= unit) by (nonlinear_arith)
        requires
            least >= 1,
            unit >= 1,
    ;
    if n < top {
        let q = round_half_even(n, unit);
        lemma_half_even(n, unit);
        let by = q * unit - n;
        assert(kept(n, unit, top) - n == by && n - kept(n, unit, top) == -by);
        if unit == 1 {
            lemma_half_even_exact(n, 1);
            assert(by == 0);
            assert((2 * least) * by == 0) by (nonlinear_arith)
                requires
                    by == 0,
            ;
        } else {
            assert((2 * least) * by <= n && (2 * least) * (-by) <= n) by (nonlinear_arith)
                requires
                    2 * by <= unit,
                    -2 * by <= unit,
                    least * unit <= n,
                    0 < least,
            ;
        }
    } else {
        assert(least * (2 * unit) == 2 * (least * unit)) by (nonlinear_arith);
        lemma_kept_error(n, 2 * unit, least);
    }
}

/// A rounded integer is not above twice the integer.
pub proof fn lemma_nearest_size(n: int, least: int)
    requires
        0 <= n,
        0 < least,
    ensures
        0 <= nearest(n, least) <= 2 * n,
{
    lemma_kept_size(n, 1, least);
}

proof fn lemma_kept_size(n: int, unit: int, least: int)
    requires
        0 <= n,
        0 < unit,
        0 < least,
        unit == 1 || n >= least * unit,
    ensures
        0 <= kept(n, unit, 2 * (least * unit)) <= 2 * n,
    decreases 2 * n - 2 * (least * unit),
{
    let top = 2 * (least * unit);
    assert(least * unit >= unit) by (nonlinear_arith)
        requires
            least >= 1,
            unit >= 1,
    ;
    if n < top {
        let q = round_half_even(n, unit);
        lemma_half_even(n, unit);
        assert(0 <= q * unit) by (nonlinear_arith)
            requires
                0 <= q,
                0 < unit,
        ;
        if unit == 1 {
            lemma_half_even_exact(n, 1);
        }
    } else {
        assert(least * (2 * unit) == 2 * (least * unit)) by (nonlinear_arith);
        lemma_kept_size(n, 2 * unit, least);
    }
}

/// A larger integer is not rounded to less.
pub proof fn lemma_nearest_monotone(n: int, m: int, least: int)
    requires
        n <= m,
        0 < least,
    ensures
        nearest(n, least) <= nearest(m, least),
{
    lemma_kept_monotone(n, m, 1, least);
}

/// An integer that takes all significant bits is rounded to one that does.
proof fn lemma_kept_least(n: int, unit: int, least: int)
    requires
        least * unit <= n,
        0 < unit,
        0 < least,
    ensures
        least * unit <= kept(n, unit, 2 * (least * unit)),
    decreases 2 * n - 2 * (least * unit),
{
    assert(least * unit > 0) by (nonlinear_arith)
        requires
            least > 0,
            unit > 0,
    ;
    if n < 2 * (least * unit) {
        let q = round_half_even(n, unit);
        lemma_half_even_monotone(least * unit, n, unit);
        lemma_half_even_exact(least, unit);
        assert(least * unit <= q * unit) by (nonlinear_arith)
            requires
                least <= q,
                unit > 0,
        ;
    } else {
        assert(least * (2 * unit) == 2 * (least * unit)) by (nonlinear_arith);
        lemma_kept_least(n, 2 * unit, least);
    }
}

proof fn lemma_kept_monotone(n: int, m: int, unit: int, least: int)
    requires
        n <= m,
        0 < unit,
        0 < least,
    ensures
        kept(n, unit, 2 * (least * unit)) <= kept(m, unit, 2 * (least * unit)),
    decreases 2 * m - 2 * (least * unit),
{
    let top = 2 * (least * unit);
    assert(least * unit > 0) by (nonlinear_arith)
        requires
            least > 0,
            unit > 0,
    ;
    assert(least * (2 * unit) == top) by (nonlinear_arith)
        requires
            top == 2 * (least * unit),
    ;
    if m < top {
        let q = round_half_even(n, unit);
        let r = round_half_even(m, unit);
        lemma_half_even_monotone(n, m, unit);
        assert(q * unit <= r * unit) by (nonlinear_arith)
            requires
                q <= r,
                unit > 0,
        ;
    } else if n >= top {
        lemma_kept_monotone(n, m, 2 * unit, least);
    } else {
        let q = round_half_even(n, unit);
        assert((2 * least) * unit == top) by (nonlinear_arith)
            requires
                top == 2 * (least * unit),
        ;
        lemma_half_even_monotone(n, (2 * least) * unit, unit);
        lemma_half_even_exact(2 * least, unit);
        assert(q * unit <= (2 * least) * unit) by (nonlinear_arith)
            requires
                q <= 2 * least,
                unit > 0,
        ;
        lemma_kept_least(m, 2 * unit, least);
    }
}

/// An integer of few enough bits, times a power of two, is kept.
pub proof fn lemma_nearest_exact(v: int, e: nat, least: int)
    requires
        v < 2 * least,
        0 < least,
    ensures
        nearest(v * pow2(e), least) == v * pow2(e),
{
    assert(v * pow2(e) == (v * pow2(e)) * 1);
    lemma_kept_exact(v, e, 1, least);
}

proof fn lemma_kept_exact(v: int, e: nat, unit: int, least: int)
    requires
        v < 2 * least,
        0 < least,
        0 < unit,
    ensures
        kept((v * pow2(e)) * unit, unit, 2 * (least * unit)) == (v * pow2(e)) * unit,
    decreases e,
{
    let n = (v * pow2(e)) * unit;
    if n < 2 * (least * unit) {
        lemma_half_even_exact(v * pow2(e), unit);
    } else {
        if e == 0 {
            vstd::arithmetic::power2::lemma2_to64();
            assert(v * 1 == v);
            assert(v * unit < 2 * (least * unit)) by (nonlinear_arith)
                requires
                    v < 2 * least,
                    unit > 0,
            ;
        }
        lemma_pow2_unfold(e);
        let half = pow2((e - 1) as nat) as int;
        assert((v * (2 * half)) * unit == (v * half) * (2 * unit)) by (nonlinear_arith);
        assert(least * (2 * unit) == 2 * (least * unit)) by (nonlinear_arith);
        assert(least * unit > 0) by (nonlinear_arith)
            requires
                least > 0,
                unit > 0,
        ;
        lemma_kept_exact(v, (e - 1) as nat, 2 * unit, least);
    }
}

/// Rounding goes along with a factor of a power of two.
pub proof fn lemma_nearest_scales(n: int, e: nat, least: int)
    requires
        0 < least,
    ensures
        nearest(n * pow2(e), least) == nearest(n, least) * pow2(e),
    decreases e,
{
    if e == 0 {
        vstd::arithmetic::power2::lemma2_to64();
        assert(n * 1 == n && nearest(n, least) * 1 == nearest(n, least));
    } else {
        let f = (e - 1) as nat;
        let p = pow2(f) as int;
        lemma_nearest_scales(n, f, least);
        lemma_pow2_unfold(e);
        assert(n * (2 * p) == 2 * (n * p)) by (nonlinear_arith);
        let m = nearest(n, least);
        assert(m * (2 * p) == 2 * (m * p)) by (nonlinear_arith);
        lemma_nearest_doubles(n * p, least);
    }
}

proof fn lemma_nearest_doubles(n: int, least: int)
    requires
        0 < least,
    ensures
        nearest(2 * n, least) == 2 * nearest(n, least),
{
    if 2 * n < 2 * least {
        lemma_half_even_exact(2 * n, 1);
        lemma_half_even_exact(n, 1);
    } else {
        lemma_kept_doubles(n, 1, 2 * least);
    }
}

proof fn lemma_kept_doubles(n: int, unit: int, top: int)
    requires
        0 < unit,
        0 < top,
    ensures
        kept(2 * n, 2 * unit, 2 * top) == 2 * kept(n, unit, top),
    decreases 2 * n - top,
{
    if n < top {
        lemma_half_even_scales(n, unit, 2);
        let q = round_half_even(n, unit);
        assert(q * (2 * unit) == 2 * (q * unit)) by (nonlinear_arith);
    } else {
        lemma_kept_doubles(n, 2 * unit, 2 * top);
    }
}

/// A larger quotient is not rounded to less, halves up.
pub proof fn lemma_round_div_monotone(a: int, p: int, c: int, q: int)
    requires
        0 <= a,
        0 <= c,
        0 < p,
        0 < q,
        a * q <= c * p,
    ensures
        round_div(a, p) <= round_div(c, q),
{
    let r = (2 * a + p) / (2 * p);
    vstd::arithmetic::div_mod::lemma_fundamental_div_mod(2 * a + p, 2 * p);
    assert((2 * p) * r <= 2 * a + p);
    assert(((2 * p) * r) * q <= (2 * a + p) * q) by (nonlinear_arith)
        requires
            (2 * p) * r <= 2 * a + p,
            0 < q,
    ;
    assert(((2 * p) * r) * q == p * (r * (2 * q)) && (2 * a + p) * q == 2 * (a * q) + p * q && (2
        * c + q) * p == 2 * (c * p) + p * q && p * (2 * c + q) == (2 * c + q) * p)
        by (nonlinear_arith);
    assert(r * (2 * q) <= 2 * c + q) by (nonlinear_arith)
        requires
            p * (r * (2 * q)) <= p * (2 * c + q),
            0 < p,
    ;
    vstd::arithmetic::div_mod::lemma_div_is_ordered(r * (2 * q), 2 * c + q, 2 * q);
    vstd::arithmetic::div_mod::lemma_fundamental_div_mod_converse(r * (2 * q), 2 * q, r, 0);
}

/// Round a quotient, halves to even.
pub fn div_half_even(a: u128, b: u128) -> (r: u128)
    requires
        0 < b <= 0x7000_0000_0000_0000_0000_0000_0000_0000,
        a <= 0x7000_0000_0000_0000_0000_0000_0000_0000,
    ensures
        r == round_half_even(a as int, b as int),
        r <= a / b + 1,
{
    let q: u128 = a / b;
    let rest: u128 = a % b;
    proof {
        assert(q <= a) by (nonlinear_arith)
            requires
                q == a / b,
                0 < b,
        ;
    }
    if 2 * rest < b {
        q
    } else if 2 * rest > b {
        q + 1
    } else if q % 2 == 0 {
        q
    } else {
        q + 1
    }
}

/// Round a quotient, halves up.
pub fn div_half_up(a: u128, b: u128) -> (r: u128)
    requires
        0 < b <= 0x7000_0000_0000_0000_0000_0000_0000_0000,
        a <= 0x7000_0000_0000_0000_0000_0000_0000_0000,
    ensures
        r == round_div(a as int, b as int),
{
    let q: u128 = a / b;
    let rest: u128 = a % b;
    proof {
        assert(q <= a) by (nonlinear_arith)
            requires
                q == a / b,
                0 < b,
        ;
        vstd::arithmetic::div_mod::lemma_fundamental_div_mod(a as int, b as int);
        let up = if 2 * rest < b {
            q as int
        } else {
            q + 1
        };
        let over = 2 * a + b - up * (2 * b);
        assert(q * (2 * b) == 2 * (b * q)) by (nonlinear_arith);
        assert((q + 1) * (2 * b) == 2 * (b * q) + 2 * b) by (nonlinear_arith);
        vstd::arithmetic::div_mod::lemma_fundamental_div_mod_converse(
            2 * a + b,
            2 * b,
            up,
            over,
        );
    }
    if 2 * rest < b {
        q
    } else {
        q + 1
    }
}

/// The floating-point number nearest to a quotient.
pub fn divide(a: u128, b: u128, least: u128) -> (r: (u128, u128))
    requires
        0 < b,
        0 < least,
        (least <= DOUBLE && b <= 0x2_0000_0000_0000_0000) || (least <= SINGLE && b
            <= 0x10_0000_0000_0000_0000_0000_0000),
        a <= 2 * (least * b),
    ensures
        (r.0 as int, r.1 as int) == quotient(a as int, b as int, least as int),
{
    let mut n: u128 = a;
    let mut p: u128 = 1;
    proof {
        assert(0 < least * b <= 0x1000_0000_0000_0000_0000_0000_0000_0000) by (nonlinear_arith)
            requires
                0 < b,
                0 < least,
                (least <= 0x10_0000_0000_0000 && b <= 0x2_0000_0000_0000_0000) || (least
                    <= 0x80_0000 && b <= 0x10_0000_0000_0000_0000_0000_0000),
        ;
    }
    let goal: u128 = least * b;
    while n > 0 && n < goal
        invariant
            goal == least * b,
            0 < goal <= 0x1000_0000_0000_0000_0000_0000_0000_0000,
            n <= 2 * goal,
            1 <= p,
            p == 1 || p <= n,
            scaled(n as int, b as int, goal as int, p as int) == quotient(
                a as int,
                b as int,
                least as int,
            ),
        decreases 2 * goal - n,
    {
        n = 2 * n;
        p = 2 * p;
    }
    (div_half_even(n, b), p)
}

/// The floating-point number nearest to an integer.
pub fn round(n: u128, least: u128) -> (r: u128)
    requires
        n <= 0x6000_0000_0000_0000_0000_0000_0000_0000,
        0 < least <= DOUBLE,
    ensures
        r == nearest(n as int, least as int),
{
    let mut unit: u128 = 1;
    let mut top: u128 = 2 * least;
    while n >= top
        invariant
            n <= 0x6000_0000_0000_0000_0000_0000_0000_0000,
            0 < unit,
            top == 2 * least || top <= 2 * n,
            0 < least <= DOUBLE,
            unit == 1 || top <= 2 * n,
            2 * unit <= top,
            kept(n as int, unit as int, top as int) == nearest(n as int, least as int),
        decreases 2 * n - top,
    {
        unit = 2 * unit;
        top = 2 * top;
    }
    proof {
        let q = round_half_even(n as int, unit as int);
        lemma_half_even(n as int, unit as int);
        assert(2 * (q * unit) <= 2 * n + unit);
    }
    div_half_even(n, unit) * unit
}

} // verus!
