//! The frequency axis: its segments, columns and ticks.

use vstd::prelude::*;

use crate::axis::{
    as_ticks, axis_for, axis_ok, axis_x, begins, denominator, falls_short, first_tick, has_margin,
    law_axis_ends_at_its_edge, law_axis_segments_readable, law_neighbours_share_a_segment,
    law_segments_fit_their_channels, law_tick_labels_never_touch, lemma_column, lemma_shown_ok,
    mark_short, marked, marks_after, narrow, parts, seg_dist, seg_index, share, shared_px, shown,
    sum_width, taken, thinned, tick_step, ticks_from, ticks_upto, touches, unmarked_width,
    wide_width, width, Axis, Seg,
};
use crate::float::{
    lemma_nearest_error, lemma_nearest_size, lemma_quotient_at_most, lemma_quotient_error,
    lemma_quotient_size, nearest, quotient, DOUBLE,
};
use crate::laws::away;
use crate::laws::drawing::lemma_round_close;
use crate::order::{ascending, lemma_first_min, round_div};
use crate::text::decimal;

verus! {

/// The segments of an axis lie in order of frequency and of column, six columns or more
/// apart and each 24 or more wide, from the first column on. Each begins 10 MHz below its
/// lowest channel and ends 10 MHz above its highest.
pub proof fn law_segments(channels_hz: &Vec<i64>, x0: usize, x1: usize, axis: Axis, k: int)
    requires
        call_ensures(Axis::new, (channels_hz, x0, x1), axis),
        forall|i: int|
            0 <= i < channels_hz@.len() ==> 0 <= #[trigger] channels_hz@[i] <= 30_000_000_000,
        channels_hz@.len() > 0,
        x0 <= x1 <= 1_048_576,
        0 <= k < axis.segs@.len(),
    ensures
        axis.segs@[0].x0 == x0,
        axis.segs@[k].x0 + 24 <= axis.segs@[k].x1,
        k + 1 < axis.segs@.len() ==> axis.segs@[k].x1 + 6 <= axis.segs@[k + 1].x0
            && axis.segs@[k].hi_hz < axis.segs@[k + 1].lo_hz,
        channels_hz@.contains((axis.segs@[k].lo_hz + 10_000_000) as i64),
        channels_hz@.contains((axis.segs@[k].hi_hz - 10_000_000) as i64),
        forall|i: int|
            0 <= i < channels_hz@.len() && axis.segs@[k].lo_hz <= #[trigger] channels_hz@[i]
                <= axis.segs@[k].hi_hz ==> axis.segs@[k].lo_hz + 10_000_000 <= channels_hz@[i]
                <= axis.segs@[k].hi_hz - 10_000_000,
{
    assert forall|i: int| 0 <= i < channels_hz@.len() implies has_margin(
        #[trigger] channels_hz@[i],
    ) by {}
    law_axis_segments_readable(channels_hz@, x0 as int, x1 as int);
    law_segments_fit_their_channels(channels_hz@, x0 as int, x1 as int, k);
    assert(axis.segs@ == axis_for(channels_hz@, x0 as int, x1 as int));
    let s = axis.segs@[k];
    if k + 1 < axis.segs@.len() {
        assert(s.hi_hz < axis.segs@[k + 1].lo_hz);
    }
}

/// Two neighbouring channels share a segment exactly where they are no more than 150 MHz
/// apart.
pub proof fn law_segments_break_at_gaps(
    channels_hz: &Vec<i64>,
    x0: usize,
    x1: usize,
    axis: Axis,
    i: int,
)
    requires
        call_ensures(Axis::new, (channels_hz, x0, x1), axis),
        forall|k: int|
            0 <= k < channels_hz@.len() ==> 0 <= #[trigger] channels_hz@[k] <= 30_000_000_000,
        0 < i < channels_hz@.len(),
    ensures
        (exists|k: int|
            0 <= k < axis.segs@.len() && (#[trigger] axis.segs@[k]).lo_hz <= ascending(
                channels_hz@,
            )[i - 1] && ascending(channels_hz@)[i] <= axis.segs@[k].hi_hz) <==> ascending(
            channels_hz@,
        )[i] - ascending(channels_hz@)[i - 1] <= 150_000_000,
{
    assert forall|k: int| 0 <= k < channels_hz@.len() implies has_margin(
        #[trigger] channels_hz@[k],
    ) by {}
    law_neighbours_share_a_segment(channels_hz@, x0 as int, x1 as int, i);
    assert(axis.segs@ == axis_for(channels_hz@, x0 as int, x1 as int));
    let f = ascending(channels_hz@);
    if f[i] - f[i - 1] <= 150_000_000 {
        let k = choose|k: int|
            0 <= k < axis_for(channels_hz@, x0 as int, x1 as int).len() && (#[trigger] axis_for(
                channels_hz@,
                x0 as int,
                x1 as int,
            )[k]).lo_hz <= f[i - 1] && f[i] <= axis_for(channels_hz@, x0 as int, x1 as int)[k].hi_hz;
        assert(axis.segs@[k].lo_hz <= f[i - 1] && f[i] <= axis.segs@[k].hi_hz);
    }
}

/// Without channels the axis shows the 5.8 GHz band.
pub proof fn law_axis_without_channels(channels_hz: &Vec<i64>, x0: usize, x1: usize, axis: Axis)
    requires
        call_ensures(Axis::new, (channels_hz, x0, x1), axis),
        channels_hz@.len() == 0,
    ensures
        axis.segs@.len() == 1,
        axis.segs@[0].lo_hz == 5_635_000_000,
        axis.segs@[0].hi_hz == 5_955_000_000,
{
    assert(axis.segs@ == axis_for(channels_hz@, x0 as int, x1 as int));
}

/// How many parts the columns are divided in: five, or one for every segment where there
/// are more.
pub open spec fn fifths(segments: int) -> int {
    if segments > 5 {
        segments
    } else {
        5
    }
}

/// Every segment has at least a fifth of the columns that are shared out, or an even share
/// where there are more than five, to the column below. Where that is 24 columns or more,
/// the axis ends in its last column.
pub proof fn law_least_share(channels_hz: &Vec<i64>, x0: usize, x1: usize, axis: Axis, k: int)
    requires
        call_ensures(Axis::new, (channels_hz, x0, x1), axis),
        forall|i: int|
            0 <= i < channels_hz@.len() ==> 0 <= #[trigger] channels_hz@[i] <= 30_000_000_000,
        x0 <= x1 <= 1_048_576,
        0 <= k < axis.segs@.len(),
        6 * (axis.segs@.len() - 1) <= x1 - x0,
    ensures
        ({
            let free = x1 - x0 - 6 * (axis.segs@.len() - 1);
            let n = axis.segs@.len() as int;
            &&& axis.segs@[k].x1 - axis.segs@[k].x0 >= free / fifths(n)
            &&& free >= 24 * fifths(n) ==> axis.segs@.last().x1 == x1
        }),
{
    assert(axis.segs@ == axis_for(channels_hz@, x0 as int, x1 as int));
    law_axis_segments_readable(channels_hz@, x0 as int, x1 as int);
    let s = shown(channels_hz@);
    let free = x1 - x0 - 6 * (axis.segs@.len() - 1);
    assert(shared_px(s, x0 as int, x1 as int) == free);
    assert(parts(s) == fifths(axis.segs@.len() as int));
    assert(axis.segs@[k].x0 + shared_px(s, x0 as int, x1 as int) / parts(s) <= axis.segs@[k].x1);
    if free >= 24 * fifths(axis.segs@.len() as int) {
        law_axis_ends_at_its_edge(channels_hz@, x0 as int, x1 as int);
    }
}

proof fn lemma_none_marked(s: Seq<(i64, i64)>, marks: Seq<bool>, k: int)
    requires
        0 <= k <= s.len(),
        marks.len() == s.len(),
        forall|i: int| 0 <= i < s.len() ==> !(#[trigger] marks[i]),
    ensures
        marked(marks, k) == 0,
        unmarked_width(s, marks, k) == sum_width(s, k),
    decreases k,
{
    if k > 0 {
        lemma_none_marked(s, marks, k - 1);
        assert(!marks[k - 1]);
    }
}

proof fn lemma_none_narrow(s: Seq<(i64, i64)>, rounds: int)
    requires
        s.len() <= 5,
        forall|i: int|
            0 <= i < s.len() ==> 5 * width(#[trigger] s[i]) >= sum_width(s, s.len() as int),
    ensures
        marks_after(s, rounds).len() == s.len(),
        forall|i: int| 0 <= i < s.len() ==> !(#[trigger] marks_after(s, rounds)[i]),
    decreases rounds,
{
    if rounds > 0 {
        lemma_none_narrow(s, rounds - 1);
        let before = marks_after(s, rounds - 1);
        lemma_none_marked(s, before, s.len() as int);
        assert forall|i: int| 0 <= i < s.len() implies !(#[trigger] mark_short(s, before)[i]) by {
            assert(5 * width(s[i]) >= sum_width(s, s.len() as int));
            assert(!before[i]);
            assert(width(s[i]) * 5 == 5 * width(s[i]));
            assert(!falls_short(s, before, i));
        }
    }
}

/// Hertz of the first `n` segments together.
pub open spec fn total_hz(segs: Seq<Seg>, n: int) -> int
    decreases n,
{
    if n <= 0 {
        0
    } else {
        total_hz(segs, n - 1) + (segs[n - 1].hi_hz - segs[n - 1].lo_hz)
    }
}

proof fn lemma_total(segs: Seq<Seg>, s: Seq<(i64, i64)>, n: int)
    requires
        0 <= n <= s.len(),
        segs.len() == s.len(),
        forall|i: int|
            0 <= i < s.len() ==> (#[trigger] segs[i]).lo_hz == s[i].0 && segs[i].hi_hz == s[i].1,
    ensures
        total_hz(segs, n) == sum_width(s, n),
    decreases n,
{
    if n > 0 {
        lemma_total(segs, s, n - 1);
        assert(segs[n - 1].lo_hz == s[n - 1].0);
    }
}

/// Where no segment is narrower than a fifth of the spectrum shown and each comes to 24
/// columns or more, every one has columns in proportion to its width, to the column.
pub proof fn law_segments_are_in_proportion(
    channels_hz: &Vec<i64>,
    x0: usize,
    x1: usize,
    axis: Axis,
    k: int,
)
    requires
        call_ensures(Axis::new, (channels_hz, x0, x1), axis),
        forall|i: int|
            0 <= i < channels_hz@.len() ==> 0 <= #[trigger] channels_hz@[i] <= 30_000_000_000,
        x0 <= x1 <= 1_048_576,
        0 <= k < axis.segs@.len() <= 5,
        6 * (axis.segs@.len() - 1) <= x1 - x0,
        forall|i: int|
            0 <= i < axis.segs@.len() ==> 5 * ((#[trigger] axis.segs@[i]).hi_hz - axis.segs@[i].lo_hz)
                >= total_hz(axis.segs@, axis.segs@.len() as int),
        ({
            let free = x1 - x0 - 6 * (axis.segs@.len() - 1);
            let mine = axis.segs@[k].hi_hz - axis.segs@[k].lo_hz;
            free * mine >= 24 * total_hz(axis.segs@, axis.segs@.len() as int)
        }),
    ensures
        ({
            let free = x1 - x0 - 6 * (axis.segs@.len() - 1);
            let mine = axis.segs@[k].hi_hz - axis.segs@[k].lo_hz;
            let all = total_hz(axis.segs@, axis.segs@.len() as int);
            away((axis.segs@[k].x1 - axis.segs@[k].x0) * all, free * mine) <= all
        }),
{
    let segs = axis.segs@;
    let s = shown(channels_hz@);
    let n = s.len() as int;
    assert(segs == axis_for(channels_hz@, x0 as int, x1 as int));
    law_axis_segments_readable(channels_hz@, x0 as int, x1 as int);
    lemma_shown_ok(channels_hz@);
    assert forall|i: int| 0 <= i < s.len() implies (#[trigger] segs[i]).lo_hz == s[i].0
        && segs[i].hi_hz == s[i].1 by {}
    lemma_total(segs, s, n);
    assert forall|i: int| 0 <= i < s.len() implies 5 * width(#[trigger] s[i]) >= sum_width(s, n) by {
        assert(segs[i].lo_hz == s[i].0);
    }
    lemma_none_narrow(s, n);
    lemma_none_marked(s, narrow(s), n);
    let px = shared_px(s, x0 as int, x1 as int);
    let all = sum_width(s, n);
    let mine = width(s[k]);
    assert(wide_width(s) == all && denominator(s) == 5 * all);
    assert(!narrow(s)[k]);
    assert(share(s, k) == mine * 5);
    let d = 5 * all;
    let b = begins(s, x0 as int, px, k);
    let t = taken(s, px, k);
    assert(px * (mine * 5) == 5 * (px * mine)) by (nonlinear_arith);
    assert(24 * d == 5 * (24 * all));
    assert(t == 5 * (px * mine));
    crate::axis::lemma_begins_here(s, x0 as int, px, k);
    lemma_rounded_step(b, t, d);
    let got = segs[k].x1 - segs[k].x0;
    assert(got == round_div(b + t, d) - round_div(b, d));
    assert(got * d == 5 * (got * all)) by (nonlinear_arith)
        requires
            d == 5 * all,
    ;
}

/// Rounding both ends of a stretch changes its length by less than one.
proof fn lemma_rounded_step(b: int, t: int, d: int)
    requires
        0 <= b,
        0 <= t,
        0 < d,
    ensures
        away((round_div(b + t, d) - round_div(b, d)) * d, t) <= d,
{
    let x = (2 * b + d) / (2 * d);
    let y = (2 * (b + t) + d) / (2 * d);
    vstd::arithmetic::div_mod::lemma_fundamental_div_mod(2 * b + d, 2 * d);
    vstd::arithmetic::div_mod::lemma_fundamental_div_mod(2 * (b + t) + d, 2 * d);
    assert((2 * d) * x == 2 * (x * d) && (2 * d) * y == 2 * (y * d) && (y - x) * d == y * d - x * d)
        by (nonlinear_arith);
}

/// A frequency that a segment holds is looked up in it.
proof fn lemma_holds_its_own(segs: Seq<Seg>, k: int, f: int)
    requires
        axis_ok(segs),
        0 <= k < segs.len(),
        1000 * segs[k].lo_hz <= f <= 1000 * segs[k].hi_hz,
    ensures
        seg_index(segs, f) == k,
{
    let far = Seq::new(segs.len(), |i: int| seg_dist(segs[i], f));
    lemma_first_min(far);
    let i = seg_index(segs, f);
    assert(far[i] <= far[k]);
    assert(segs[i].lo_hz < segs[i].hi_hz && segs[k].lo_hz < segs[k].hi_hz);
    if i < k {
        assert(segs[i].hi_hz < segs[k].lo_hz);
    } else if k < i {
        assert(segs[k].hi_hz < segs[i].lo_hz);
    }
}

/// A frequency stands in its segment's columns in proportion to where it lies between the
/// segment's edges, within six tenths of a column.
pub proof fn law_column(axis: &Axis, milli_hz: i128, x: usize, k: int)
    requires
        call_ensures(Axis::x, (axis, milli_hz), x),
        axis_ok(axis.segs@),
        0 <= k < axis.segs@.len(),
        1000 * axis.segs@[k].lo_hz <= milli_hz <= 1000 * axis.segs@[k].hi_hz,
    ensures
        ({
            let s = axis.segs@[k];
            let wide = 1000 * (s.hi_hz - s.lo_hz);
            5 * away(x * wide, s.x0 * wide + (milli_hz - 1000 * s.lo_hz) * (s.x1 - s.x0)) <= 3 * wide
        }),
{
    let segs = axis.segs@;
    let s = segs[k];
    lemma_holds_its_own(segs, k, milli_hz as int);
    let wide = 1000 * (s.hi_hz - s.lo_hz);
    let part = milli_hz - 1000 * s.lo_hz;
    let x0 = s.x0 as int;
    let px = s.x1 - s.x0;
    assert(0 < wide);
    if part == 0 {
        assert(0 * px == 0);
        assert(x * wide == x0 * wide);
    } else if part == wide {
        assert(x0 * wide + wide * px == (x0 + px) * wide) by (nonlinear_arith);
    } else {
        lemma_column(part, wide, x0, px);
        let (n, p) = quotient(part, wide, DOUBLE as int);
        let off = nearest(n * px, DOUBLE as int);
        let sum = x0 * p + off;
        let top = nearest(sum, DOUBLE as int);
        lemma_quotient_error(part, wide, DOUBLE as int);
        lemma_quotient_at_most(part, wide, DOUBLE as int, 1);
        lemma_quotient_size(part, wide, DOUBLE as int);
        assert(0 <= n * px <= 400_000_000 * p) by (nonlinear_arith)
            requires
                0 <= n <= p,
                0 <= px <= 400_000_000,
        ;
        lemma_nearest_error(n * px, DOUBLE as int);
        assert(0 <= x0 * p) by (nonlinear_arith)
            requires
                0 <= x0,
                0 <= p,
        ;
        assert((x0 + px) * p <= 400_000_000 * p) by (nonlinear_arith)
            requires
                x0 + px <= 400_000_000,
                0 <= p,
        ;
        lemma_nearest_error(sum, DOUBLE as int);
        let e1 = n * wide - part * p;
        let e2 = off - n * px;
        let e3 = top - sum;
        let pw = p * wide;
        assert(part * p <= pw) by (nonlinear_arith)
            requires
                pw == p * wide,
                0 <= part <= wide,
                0 <= p,
        ;
        assert(0x20_0000_0000_0000 * e1 <= pw && -0x20_0000_0000_0000 * e1 <= pw);
        assert(0x20_0000_0000_0000 * e2 <= 400_000_000 * p && -0x20_0000_0000_0000 * e2
            <= 400_000_000 * p);
        assert(0x20_0000_0000_0000 * e3 <= 400_000_000 * p && -0x20_0000_0000_0000 * e3
            <= 400_000_000 * p);
        let f1 = e1 * px;
        let f2 = e2 * wide;
        let f3 = e3 * wide;
        assert(0 <= pw) by (nonlinear_arith)
            requires
                pw == p * wide,
                0 <= p,
                0 < wide,
        ;
        assert(0x20_0000_0000_0000 * f1 <= 400_000_000 * pw && -0x20_0000_0000_0000 * f1
            <= 400_000_000 * pw) by (nonlinear_arith)
            requires
                f1 == e1 * px,
                0 <= px <= 400_000_000,
                0x20_0000_0000_0000 * e1 <= pw,
                -0x20_0000_0000_0000 * e1 <= pw,
                0 <= pw,
        ;
        assert(0x20_0000_0000_0000 * f2 <= 400_000_000 * pw && -0x20_0000_0000_0000 * f2
            <= 400_000_000 * pw) by (nonlinear_arith)
            requires
                f2 == e2 * wide,
                pw == p * wide,
                0 < wide,
                0x20_0000_0000_0000 * e2 <= 400_000_000 * p,
                -0x20_0000_0000_0000 * e2 <= 400_000_000 * p,
        ;
        assert(0x20_0000_0000_0000 * f3 <= 400_000_000 * pw && -0x20_0000_0000_0000 * f3
            <= 400_000_000 * pw) by (nonlinear_arith)
            requires
                f3 == e3 * wide,
                pw == p * wide,
                0 < wide,
                0x20_0000_0000_0000 * e3 <= 400_000_000 * p,
                -0x20_0000_0000_0000 * e3 <= 400_000_000 * p,
        ;
        let want = x0 * wide + part * px;
        let a = (x0 * p) * wide;
        let b = off * wide;
        let c = (n * px) * wide;
        let d = (part * px) * p;
        assert(f3 == top * wide - (a + b)) by (nonlinear_arith)
            requires
                f3 == (top - (x0 * p + off)) * wide,
                a == (x0 * p) * wide,
                b == off * wide,
        ;
        assert(f2 == b - c) by (nonlinear_arith)
            requires
                f2 == (off - n * px) * wide,
                b == off * wide,
                c == (n * px) * wide,
        ;
        assert(f1 == c - d) by (nonlinear_arith)
            requires
                f1 == (n * wide - part * p) * px,
                c == (n * px) * wide,
                d == (part * px) * p,
        ;
        assert(want * p == a + d) by (nonlinear_arith)
            requires
                want == x0 * wide + part * px,
                a == (x0 * p) * wide,
                d == (part * px) * p,
        ;
        assert(wide * p == pw) by (nonlinear_arith)
            requires
                pw == p * wide,
        ;
        lemma_nearest_size(sum, DOUBLE as int);
        lemma_round_close(top, p, want, wide, f3 + f2 + f1);
    }
}

/// A frequency below the axis stands in its first column, and one above it in its last.
pub proof fn law_column_off_the_axis(axis: &Axis, milli_hz: i128, x: usize)
    requires
        call_ensures(Axis::x, (axis, milli_hz), x),
        axis_ok(axis.segs@),
    ensures
        milli_hz < 1000 * axis.segs@[0].lo_hz ==> x == axis.segs@[0].x0,
        milli_hz > 1000 * axis.segs@.last().hi_hz ==> x == axis.segs@.last().x1,
{
    let segs = axis.segs@;
    let f = milli_hz as int;
    let far = Seq::new(segs.len(), |i: int| seg_dist(segs[i], f));
    lemma_first_min(far);
    let i = seg_index(segs, f);
    let n = segs.len() - 1;
    assert(far[i] <= far[0] && far[i] <= far[n]);
    assert(segs[0].lo_hz < segs[0].hi_hz && segs[n].lo_hz < segs[n].hi_hz && segs[i].lo_hz
        < segs[i].hi_hz);
    if i > 0 {
        assert(segs[0].hi_hz < segs[i].lo_hz);
    }
    if i < n {
        assert(segs[i].hi_hz < segs[n].lo_hz);
    }
}

/// Whether labels `mhz` megahertz apart have 44 columns between them in a segment.
pub open spec fn has_room(s: Seg, mhz: int) -> bool {
    mhz * (1_000_000 * (s.x1 - s.x0)) >= 44 * (s.hi_hz - s.lo_hz)
}

/// The megahertz between two ticks of a segment: the first of 50, 100, 200 and 500 with
/// room for the labels, else a thousand.
pub open spec fn spacing(s: Seg) -> int {
    if has_room(s, 50) {
        50
    } else if has_room(s, 100) {
        100
    } else if has_room(s, 200) {
        200
    } else if has_room(s, 500) {
        500
    } else {
        1000
    }
}

proof fn lemma_ticks_from(segs: Seq<Seg>, s: Seg, mhz: int, step: int, want: int)
    requires
        0 < step,
        mhz <= want,
        (want - mhz) % step == 0,
        want * 1_000_000 <= s.hi_hz,
    ensures
        ticks_from(segs, s, mhz, step).contains((axis_x(segs, want * 1_000_000_000), want)),
    decreases want - mhz,
{
    let t = (axis_x(segs, want * 1_000_000_000), want);
    let all = ticks_from(segs, s, mhz, step);
    if mhz == want {
        assert(all[0] == t);
    } else {
        vstd::arithmetic::div_mod::lemma_fundamental_div_mod(want - mhz, step);
        let q = (want - mhz) / step;
        assert(q >= 1) by (nonlinear_arith)
            requires
                want - mhz == step * q,
                want - mhz > 0,
                step > 0,
        ;
        assert(want - (mhz + step) == step * (q - 1)) by (nonlinear_arith)
            requires
                want - mhz == step * q,
        ;
        vstd::arithmetic::div_mod::lemma_mod_multiples_basic(q - 1, step);
        assert(step * (q - 1) == (q - 1) * step) by (nonlinear_arith);
        assert(0 <= step * (q - 1)) by (nonlinear_arith)
            requires
                q >= 1,
                step > 0,
        ;
        lemma_ticks_from(segs, s, mhz + step, step, want);
        let rest = ticks_from(segs, s, mhz + step, step);
        let i = choose|i: int| 0 <= i < rest.len() && rest[i] == t;
        assert(all[i + 1] == t);
    }
}

proof fn lemma_ticks_upto(segs: Seq<Seg>, n: int, k: int, t: (int, int))
    requires
        0 <= k < n <= segs.len(),
        ticks_from(segs, segs[k], first_tick(segs[k]), tick_step(segs[k])).contains(t),
    ensures
        ticks_upto(segs, n).contains(t),
    decreases n,
{
    let mine = ticks_from(segs, segs[n - 1], first_tick(segs[n - 1]), tick_step(segs[n - 1]));
    let front = ticks_upto(segs, n - 1);
    if k == n - 1 {
        let i = choose|i: int| 0 <= i < mine.len() && mine[i] == t;
        assert(ticks_upto(segs, n)[front.len() + i] == t);
    } else {
        lemma_ticks_upto(segs, n - 1, k, t);
        let i = choose|i: int| 0 <= i < front.len() && front[i] == t;
        assert(ticks_upto(segs, n)[i] == t);
    }
}

/// Whether a tick is shown, or one before it whose label would touch it.
pub open spec fn shown_or_covered(ticks: Seq<(int, int)>, t: (int, int)) -> bool {
    exists|i: int|
        0 <= i < ticks.len() && (#[trigger] ticks[i] == t || t.0 - ticks[i].0 < 4 * (decimal(
            ticks[i].1,
        ).len() + decimal(t.1).len()))
}

proof fn lemma_thinned_complete(ticks: Seq<(int, int)>, t: (int, int))
    requires
        ticks.contains(t),
    ensures
        shown_or_covered(thinned(ticks), t),
    decreases ticks.len(),
{
    let front = ticks.drop_last();
    let kept = thinned(front);
    let all = thinned(ticks);
    let i = choose|i: int| 0 <= i < ticks.len() && ticks[i] == t;
    if i < ticks.len() - 1 {
        assert(front[i] == t);
        lemma_thinned_complete(front, t);
        let j = choose|j: int|
            0 <= j < kept.len() && (#[trigger] kept[j] == t || t.0 - kept[j].0 < 4 * (decimal(
                kept[j].1,
            ).len() + decimal(t.1).len()));
        assert(all[j] == kept[j]);
    } else if kept.len() > 0 && touches(kept.last(), ticks.last()) {
        assert(all[kept.len() - 1] == kept.last());
    } else {
        assert(all[kept.len() as int] == t);
    }
}

/// Every multiple of a segment's spacing that lies in it has a tick, unless the label of
/// another would touch its own.
pub proof fn law_ticks_are_there(axis: &Axis, out: Vec<(usize, i64)>, k: int, mhz: int)
    requires
        call_ensures(Axis::ticks, (axis,), out),
        axis_ok(axis.segs@),
        0 <= k < axis.segs@.len(),
        mhz % spacing(axis.segs@[k]) == 0,
        axis.segs@[k].lo_hz <= mhz * 1_000_000 <= axis.segs@[k].hi_hz,
    ensures
        shown_or_covered(as_ticks(out@), (axis_x(axis.segs@, mhz * 1_000_000_000), mhz)),
{
    let segs = axis.segs@;
    let s = segs[k];
    let step = tick_step(s);
    assert(step == spacing(s));
    let unit = step * 1_000_000;
    let q = (s.lo_hz + unit - 1) / unit;
    let first = first_tick(s);
    assert(first == q * step);
    let m = mhz / step;
    vstd::arithmetic::div_mod::lemma_fundamental_div_mod(mhz, step);
    vstd::arithmetic::div_mod::lemma_fundamental_div_mod(s.lo_hz + unit - 1, unit);
    assert(mhz == step * m);
    assert(unit * m == mhz * 1_000_000) by (nonlinear_arith)
        requires
            unit == step * 1_000_000,
            mhz == step * m,
    ;
    assert(q <= m) by (nonlinear_arith)
        requires
            unit * q <= s.lo_hz + unit - 1,
            s.lo_hz <= unit * m,
            unit > 0,
    ;
    assert(mhz - first == (m - q) * step) by (nonlinear_arith)
        requires
            mhz == step * m,
            first == q * step,
    ;
    assert(0 <= (m - q) * step) by (nonlinear_arith)
        requires
            q <= m,
            step > 0,
    ;
    vstd::arithmetic::div_mod::lemma_mod_multiples_basic(m - q, step);
    lemma_ticks_from(segs, s, first, step, mhz);
    let t = (axis_x(segs, mhz * 1_000_000_000), mhz);
    lemma_ticks_upto(segs, segs.len() as int, k, t);
    lemma_thinned_complete(ticks_upto(segs, segs.len() as int), t);
}

/// The labels of two neighbouring ticks never touch, at eight columns a digit, and every
/// tick stands in the column of its frequency.
pub proof fn law_labels_stand_clear(axis: &Axis, out: Vec<(usize, i64)>, k: int)
    requires
        call_ensures(Axis::ticks, (axis,), out),
        0 <= k < out@.len(),
    ensures
        out@[k].0 == axis_x(axis.segs@, out@[k].1 * 1_000_000_000),
        k > 0 ==> out@[k].0 - out@[k - 1].0 >= 4 * (decimal(out@[k - 1].1 as int).len() + decimal(
            out@[k].1 as int,
        ).len()),
{
    law_tick_labels_never_touch(axis.segs@, k);
    let ticks = as_ticks(out@);
    assert(ticks[k] == (out@[k].0 as int, out@[k].1 as int));
    if k > 0 {
        assert(ticks[k - 1] == (out@[k - 1].0 as int, out@[k - 1].1 as int));
    }
}

/// A probe's bar is a column narrower than 5 MHz of its segment are wide, within six
/// tenths of a column, and never less than one column.
pub proof fn law_bar_width(axis: &Axis, milli_hz: i128, px: usize, k: int)
    requires
        call_ensures(Axis::bar_px, (axis, milli_hz), px),
        axis_ok(axis.segs@),
        0 <= k < axis.segs@.len(),
        1000 * axis.segs@[k].lo_hz <= milli_hz <= 1000 * axis.segs@[k].hi_hz,
    ensures
        ({
            let s = axis.segs@[k];
            let wide = s.hi_hz - s.lo_hz;
            &&& px >= 1
            &&& px > 1 ==> 5 * away((px + 1) * wide, 5_000_000 * (s.x1 - s.x0)) <= 3 * wide
            &&& px == 1 ==> 10 * (5_000_000 * (s.x1 - s.x0)) <= 26 * wide
        }),
{
    let segs = axis.segs@;
    let s = segs[k];
    lemma_holds_its_own(segs, k, milli_hz as int);
    let wide = s.hi_hz - s.lo_hz;
    let cols = s.x1 - s.x0;
    let (n, p) = quotient(cols, wide, DOUBLE as int);
    lemma_quotient_error(cols, wide, DOUBLE as int);
    lemma_quotient_at_most(cols, wide, DOUBLE as int, 20);
    lemma_quotient_size(cols, wide, DOUBLE as int);
    let m = 5_000_000 * n;
    let top = nearest(m, DOUBLE as int);
    lemma_nearest_error(m, DOUBLE as int);
    lemma_nearest_size(m, DOUBLE as int);
    let e1 = n * wide - cols * p;
    let e2 = top - m;
    let pw = p * wide;
    assert(cols * p <= 20 * pw) by (nonlinear_arith)
        requires
            pw == p * wide,
            0 <= cols <= 20 * wide,
            0 <= p,
    ;
    assert(0x20_0000_0000_0000 * e1 <= 20 * pw && -0x20_0000_0000_0000 * e1 <= 20 * pw);
    assert(0x20_0000_0000_0000 * e2 <= 100_000_000 * p && -0x20_0000_0000_0000 * e2 <= 100_000_000
        * p);
    let f2 = e2 * wide;
    assert(0x20_0000_0000_0000 * f2 <= 100_000_000 * pw && -0x20_0000_0000_0000 * f2 <= 100_000_000
        * pw) by (nonlinear_arith)
        requires
            f2 == e2 * wide,
            pw == p * wide,
            0 < wide,
            0x20_0000_0000_0000 * e2 <= 100_000_000 * p,
            -0x20_0000_0000_0000 * e2 <= 100_000_000 * p,
    ;
    let want = 5_000_000 * cols;
    assert(top * wide - want * p == f2 + 5_000_000 * e1) by (nonlinear_arith)
        requires
            f2 == (top - 5_000_000 * n) * wide,
            e1 == n * wide - cols * p,
            want == 5_000_000 * cols,
    ;
    assert(wide * p == pw) by (nonlinear_arith)
        requires
            pw == p * wide,
    ;
    assert(0 <= pw) by (nonlinear_arith)
        requires
            pw == p * wide,
            0 <= p,
            0 < wide,
    ;
    lemma_round_close(top, p, want, wide, f2 + 5_000_000 * e1);
    let step = round_div(top, p);
    if px == 1 {
        assert(step <= 2);
        assert(step * wide <= 2 * wide) by (nonlinear_arith)
            requires
                step <= 2,
                0 < wide,
        ;
    } else {
        assert(step == px + 1);
    }
}

} // verus!
