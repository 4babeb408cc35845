//! The clock, as far as the library reads it.

use std::time::Instant;

use vstd::prelude::*;

use crate::float::{
    divide, lemma_nearest_size, lemma_quotient_at_most, lemma_quotient_size, nearest, quotient,
    round, SINGLE,
};

verus! {

/// A moment of the machine's monotonic clock.
#[verifier::external_type_specification]
#[verifier::external_body]
pub struct ExInstant(Instant);

/// `Instant::now` of std: the present moment. Nothing is promised of it, since it
/// rests on the clock.
#[verifier::external_body]
pub(crate) fn now() -> (t: Instant) {
    Instant::now()
}

/// `Instant::elapsed` of std: the time since `t`, in nanoseconds. Nothing is
/// promised of it, since it rests on the clock.
#[verifier::external_body]
pub(crate) fn elapsed_ns(t: &Instant) -> (ns: u64) {
    t.elapsed().as_nanos() as u64
}

/// Nanoseconds of a second.
pub const SECOND_NS: u64 = 1_000_000_000;

/// An age in seconds, in single precision: its whole seconds and the rest, each
/// rounded, and their rounded sum. Seconds are whole below 2^24 of them.
pub open spec fn seconds(age_ns: int) -> (int, int) {
    let rest = nearest(age_ns % (SECOND_NS as int), SINGLE as int);
    let (n, p) = quotient(rest, SECOND_NS as int, SINGLE as int);
    (nearest((age_ns / (SECOND_NS as int)) * p + n, SINGLE as int), p)
}

/// The size of an age of less than 999 seconds.
pub proof fn lemma_seconds_fit(age_ns: int)
    requires
        0 <= age_ns < 999_000_000_000,
    ensures
        0 <= seconds(age_ns).0 <= 2000 * seconds(age_ns).1,
        seconds(age_ns).0 <= 0x1_0000_0000_0000_0000_0000,
        1 <= seconds(age_ns).1 <= 0x80_0000_0000_0000,
{
    let whole = age_ns / 1_000_000_000;
    let rest = nearest(age_ns % 1_000_000_000, SINGLE as int);
    let (n, p) = quotient(rest, 1_000_000_000, SINGLE as int);
    lemma_nearest_size(age_ns % 1_000_000_000, SINGLE as int);
    lemma_quotient_size(rest, 1_000_000_000, SINGLE as int);
    lemma_quotient_at_most(rest, 1_000_000_000, SINGLE as int, 2);
    assert(0 <= whole * p <= 998 * p) by (nonlinear_arith)
        requires
            0 <= whole <= 998,
            1 <= p,
    ;
    lemma_nearest_size(whole * p + n, SINGLE as int);
    if rest > 0 {
        assert(p <= rest * p) by (nonlinear_arith)
            requires
                rest >= 1,
                p >= 1,
        ;
    }
}

/// An age in seconds, in single precision.
pub fn in_seconds(age_ns: u64) -> (r: (u128, u128))
    requires
        age_ns < 999_000_000_000,
    ensures
        (r.0 as int, r.1 as int) == seconds(age_ns as int),
{
    let left: u128 = (age_ns % SECOND_NS) as u128;
    let whole: u128 = (age_ns / SECOND_NS) as u128;
    proof {
        lemma_seconds_fit(age_ns as int);
        lemma_nearest_size(left as int, SINGLE as int);
        let rest = nearest(left as int, SINGLE as int);
        lemma_quotient_size(rest, 1_000_000_000, SINGLE as int);
    }
    let rest: u128 = round(left, SINGLE);
    let (n, p): (u128, u128) = divide(rest, SECOND_NS as u128, SINGLE);
    proof {
        assert(whole * p <= 998 * 0x80_0000_0000_0000) by (nonlinear_arith)
            requires
                whole <= 998,
                p <= 0x80_0000_0000_0000,
        ;
    }
    (round(whole * p + n, SINGLE), p)
}

} // verus!
