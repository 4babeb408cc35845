//! The panel's frequency axis.
//!
//! Channels of the same stretch of spectrum share a segment; bands far apart get
//! a segment each, so the empty gigahertz between them take no pixels. Segment
//! edges are whole hertz. A position is looked up by a frequency in millihertz.

use vstd::arithmetic::power2::pow2;
use vstd::prelude::*;

use crate::float::{
    div_half_up, divide, lemma_nearest_exact, lemma_nearest_monotone, lemma_nearest_scales,
    lemma_nearest_size, lemma_quotient_at_most, lemma_quotient_monotone, lemma_quotient_size,
    lemma_round_div_monotone, nearest, quotient, round, DOUBLE,
};
use crate::order::{
    ascending, first_min, is_first_min, lemma_ascending, lemma_ascending_unique, lemma_first_min,
    round_div, sort_ascending,
};
use crate::text::decimal;

verus! {

/// Channels further apart than this start a new axis segment, so the empty
/// gigahertz between 1.3 and 3.3 GHz do not squash the bands.
pub const SEGMENT_GAP_HZ: i64 = 150_000_000;

/// Spectrum shown beyond the outermost channels of a segment.
pub const SEGMENT_MARGIN_HZ: i64 = 10_000_000;

/// Probe spacing the sweep uses; bars are drawn this wide.
pub const PROBE_STEP_HZ: i64 = 5_000_000;

/// Pixels left free between two segments.
pub const SEGMENT_GAP_PX: usize = 6;

/// The narrowest a segment is drawn.
pub const SEGMENT_MIN_PX: usize = 24;

/// Pixels two tick labels need between them.
pub const TICK_SPACING_PX: i64 = 44;

/// Highest channel frequency the axis can lay out.
pub const MAX_CHANNEL_HZ: i64 = 30_000_000_000;

/// Furthest a frequency can lie from zero and still be looked up, in millihertz.
pub const MAX_MILLI_HZ: i128 = 1_000_000_000_000_000_000_000_000_000_000;

/// Widest picture the axis can lay out.
pub const MAX_PIXELS: usize = 1_048_576;

/// One contiguous stretch of spectrum and the pixel columns it takes.
#[derive(Debug, Clone, Copy)]
pub struct Seg {
    pub lo_hz: i64,
    pub hi_hz: i64,
    pub x0: usize,
    pub x1: usize,
}

/// A frequency axis in pieces: one contiguous span per group of bands, each given
/// pixels in proportion to its width but not less than a least share, with a small gap
/// between.
#[derive(Debug, Clone)]
pub struct Axis {
    pub segs: Vec<Seg>,
}

/// The groups that ascending frequencies fall into, as first and last of each.
pub open spec fn spans(f: Seq<i64>) -> Seq<(i64, i64)>
    decreases f.len(),
{
    if f.len() == 0 {
        Seq::empty()
    } else {
        let s = spans(f.drop_last());
        let hz = f.last();
        if s.len() > 0 && hz - s.last().1 <= SEGMENT_GAP_HZ {
            s.update(s.len() - 1, (s.last().0, hz))
        } else {
            s.push((hz, hz))
        }
    }
}

/// A group with the margin shown on either side of it.
pub open spec fn widened(p: (i64, i64)) -> (i64, i64) {
    ((p.0 - SEGMENT_MARGIN_HZ) as i64, (p.1 + SEGMENT_MARGIN_HZ) as i64)
}

/// The stretches of spectrum shown for a set of channels: the 5.8 GHz band where
/// there are none.
pub open spec fn shown(channels_hz: Seq<i64>) -> Seq<(i64, i64)> {
    let s = if channels_hz.len() == 0 {
        seq![(5_645_000_000i64, 5_945_000_000i64)]
    } else {
        spans(ascending(channels_hz))
    };
    Seq::new(s.len(), |i: int| widened(s[i]))
}

/// Width of a stretch in hertz.
pub open spec fn width(p: (i64, i64)) -> int {
    p.1 - p.0
}

/// Width of the first `upto` stretches together.
pub open spec fn sum_width(s: Seq<(i64, i64)>, upto: int) -> int
    decreases upto,
{
    if upto <= 0 {
        0
    } else {
        sum_width(s, upto - 1) + width(s[upto - 1])
    }
}

/// The inverse of the least share of a stretch: every stretch gets at least a fifth of
/// the axis, so a narrow band beside a wide one stays readable. More than five get an
/// even share.
pub open spec fn parts(s: Seq<(i64, i64)>) -> int {
    if s.len() < 5 {
        5
    } else {
        s.len() as int
    }
}

/// How many of the first `upto` stretches are marked.
pub open spec fn marked(marks: Seq<bool>, upto: int) -> int
    decreases upto,
{
    if upto <= 0 {
        0
    } else {
        marked(marks, upto - 1) + if marks[upto - 1] {
            1int
        } else {
            0
        }
    }
}

/// Width of those of the first `upto` stretches that are not marked.
pub open spec fn unmarked_width(s: Seq<(i64, i64)>, marks: Seq<bool>, upto: int) -> int
    decreases upto,
{
    if upto <= 0 {
        0
    } else {
        unmarked_width(s, marks, upto - 1) + if marks[upto - 1] {
            0
        } else {
            width(s[upto - 1])
        }
    }
}

/// Whether a stretch would get less than the least share if the marked ones got just
/// that and the others shared the rest in proportion to their widths.
pub open spec fn falls_short(s: Seq<(i64, i64)>, marks: Seq<bool>, i: int) -> bool {
    let n = s.len() as int;
    width(s[i]) * (parts(s) - marked(marks, n)) < unmarked_width(s, marks, n)
}

/// The marks with those added that fall short.
pub open spec fn mark_short(s: Seq<(i64, i64)>, marks: Seq<bool>) -> Seq<bool> {
    Seq::new(s.len(), |i: int| marks[i] || falls_short(s, marks, i))
}

/// The marks after some rounds, beginning with none.
pub open spec fn marks_after(s: Seq<(i64, i64)>, rounds: int) -> Seq<bool>
    decreases rounds,
{
    if rounds <= 0 {
        Seq::new(s.len(), |i: int| false)
    } else {
        mark_short(s, marks_after(s, rounds - 1))
    }
}

/// The stretches that get the least share. Marking settles after as many rounds as
/// there are stretches.
pub open spec fn narrow(s: Seq<(i64, i64)>) -> Seq<bool> {
    marks_after(s, s.len() as int)
}

/// Width of the stretches that share in proportion to it.
pub open spec fn wide_width(s: Seq<(i64, i64)>) -> int {
    unmarked_width(s, narrow(s), s.len() as int)
}

/// The common denominator of all shares and positions.
pub open spec fn denominator(s: Seq<(i64, i64)>) -> int {
    parts(s) * wide_width(s)
}

/// A stretch's share of the axis, over `denominator`: the least share for the narrow
/// ones, and what they leave in proportion to width for the others.
pub open spec fn share(s: Seq<(i64, i64)>, i: int) -> int {
    if narrow(s)[i] {
        wide_width(s)
    } else {
        width(s[i]) * (parts(s) - marked(narrow(s), s.len() as int))
    }
}

/// The pixels shared out between the stretches.
pub open spec fn shared_px(s: Seq<(i64, i64)>, x0: int, x1: int) -> int {
    let free = x1 - x0 - SEGMENT_GAP_PX * (s.len() - 1);
    if free > 0 {
        free
    } else {
        0
    }
}

/// Pixels a stretch takes, over `denominator`.
pub open spec fn taken(s: Seq<(i64, i64)>, px: int, i: int) -> int {
    let fair = px * share(s, i);
    let least = SEGMENT_MIN_PX * denominator(s);
    if fair > least {
        fair
    } else {
        least
    }
}

/// Where a stretch begins, over `denominator`.
pub open spec fn begins(s: Seq<(i64, i64)>, x0: int, px: int, i: int) -> int
    decreases i,
{
    if i <= 0 {
        x0 * denominator(s)
    } else {
        begins(s, x0, px, i - 1) + taken(s, px, i - 1) + SEGMENT_GAP_PX * denominator(s)
    }
}

/// The axis for a set of channels over the pixel columns `x0` to `x1`.
pub open spec fn axis_for(channels_hz: Seq<i64>, x0: int, x1: int) -> Seq<Seg> {
    let s = shown(channels_hz);
    let px = shared_px(s, x0, x1);
    Seq::new(
        s.len(),
        |i: int|
            Seg {
                lo_hz: s[i].0,
                hi_hz: s[i].1,
                x0: round_div(begins(s, x0, px, i), denominator(s)) as usize,
                x1: round_div(begins(s, x0, px, i) + taken(s, px, i), denominator(s)) as usize,
            },
    )
}

/// Groups stand apart and in order, each inside `lo .. hi`.
spec fn apart(s: Seq<(i64, i64)>, lo: int, hi: int) -> bool {
    &&& forall|i: int| 0 <= i < s.len() ==> lo <= (#[trigger] s[i]).0 <= s[i].1 <= hi
    &&& forall|i: int, j: int|
        0 <= i < j < s.len() ==> (#[trigger] s[j]).0 - (#[trigger] s[i]).1 > SEGMENT_GAP_HZ
}

proof fn lemma_spans_apart(f: Seq<i64>, lo: int, hi: int)
    requires
        forall|i: int| 0 <= i < f.len() ==> lo <= #[trigger] f[i] <= hi,
        forall|i: int, j: int| 0 <= i < j < f.len() ==> f[i] <= f[j],
    ensures
        apart(spans(f), lo, hi),
        f.len() > 0 ==> spans(f).len() > 0 && spans(f).last().1 == f.last(),
        spans(f).len() <= f.len(),
    decreases f.len(),
{
    if f.len() > 0 {
        let g = f.drop_last();
        lemma_spans_apart(g, lo, hi);
        let s = spans(g);
        let hz = f.last();
        if g.len() > 0 {
            assert(g.last() <= hz);
        }
        let t = spans(f);
        if s.len() > 0 && hz - s.last().1 <= SEGMENT_GAP_HZ {
            assert forall|i: int, j: int| 0 <= i < j < t.len() implies (#[trigger] t[j]).0 - (
            #[trigger] t[i]).1 > SEGMENT_GAP_HZ by {
                assert(s[j].0 - s[i].1 > SEGMENT_GAP_HZ);
            }
        } else if s.len() > 0 {
            assert forall|i: int, j: int| 0 <= i < j < t.len() implies (#[trigger] t[j]).0 - (
            #[trigger] t[i]).1 > SEGMENT_GAP_HZ by {
                if j == s.len() {
                    if i < s.len() - 1 {
                        assert(s[s.len() - 1].0 - s[i].1 > SEGMENT_GAP_HZ);
                    }
                } else {
                    assert(s[j].0 - s[i].1 > SEGMENT_GAP_HZ);
                }
            }
        }
    }
}

/// What holds of the stretches shown for channels in range.
pub open spec fn shown_ok(s: Seq<(i64, i64)>) -> bool {
    &&& 0 < s.len() <= 240
    &&& forall|i: int|
        0 <= i < s.len() ==> -SEGMENT_MARGIN_HZ <= (#[trigger] s[i]).0 && s[i].0 + 2
            * SEGMENT_MARGIN_HZ <= s[i].1 <= MAX_CHANNEL_HZ + SEGMENT_MARGIN_HZ
    &&& forall|i: int, j: int|
        0 <= i < j < s.len() ==> (#[trigger] s[i]).1 + 130_000_000 < (#[trigger] s[j]).0
}

/// Stretches that stand apart are no wider together than from first to last.
proof fn lemma_sum_width_bound(s: Seq<(i64, i64)>, k: int)
    requires
        0 < k <= s.len(),
        forall|i: int|
            0 <= i < s.len() ==> -SEGMENT_MARGIN_HZ <= (#[trigger] s[i]).0 && s[i].0 + 2
                * SEGMENT_MARGIN_HZ <= s[i].1 <= MAX_CHANNEL_HZ + SEGMENT_MARGIN_HZ,
        forall|i: int, j: int|
            0 <= i < j < s.len() ==> (#[trigger] s[i]).1 + 130_000_000 < (#[trigger] s[j]).0,
    ensures
        0 < sum_width(s, k) <= s[k - 1].1 - s[0].0,
        (k - 1) * 130_000_000 <= s[k - 1].1 - s[0].0,
    decreases k,
{
    reveal_with_fuel(sum_width, 2);
    assert(s[k - 1].0 < s[k - 1].1);
    if k > 1 {
        lemma_sum_width_bound(s, k - 1);
        assert(s[k - 2].1 + 130_000_000 < s[k - 1].0);
    }
}

pub proof fn lemma_shown_ok(channels_hz: Seq<i64>)
    requires
        forall|i: int|
            0 <= i < channels_hz.len() ==> 0 <= #[trigger] channels_hz[i] <= MAX_CHANNEL_HZ,
    ensures
        shown_ok(shown(channels_hz)),
{
    let s = shown(channels_hz);
    if channels_hz.len() > 0 {
        let f = ascending(channels_hz);
        lemma_ascending(channels_hz);
        assert forall|i: int| 0 <= i < f.len() implies 0 <= #[trigger] f[i] <= MAX_CHANNEL_HZ by {
            assert(f.contains(f[i]));
            assert(channels_hz.contains(f[i]));
        }
        lemma_spans_apart(f, 0, MAX_CHANNEL_HZ as int);
        let g = spans(f);
        assert forall|i: int| 0 <= i < s.len() implies -SEGMENT_MARGIN_HZ <= (#[trigger] s[i]).0
            && s[i].0 + 2 * SEGMENT_MARGIN_HZ <= s[i].1 <= MAX_CHANNEL_HZ + SEGMENT_MARGIN_HZ by {
            assert(0 <= g[i].0 <= g[i].1 <= MAX_CHANNEL_HZ);
        }
        assert forall|i: int, j: int| 0 <= i < j < s.len() implies (#[trigger] s[i]).1 + 130_000_000
            < (#[trigger] s[j]).0 by {
            assert(g[j].0 - g[i].1 > SEGMENT_GAP_HZ);
            assert(0 <= g[i].0 <= g[i].1 <= MAX_CHANNEL_HZ);
            assert(0 <= g[j].0 <= g[j].1 <= MAX_CHANNEL_HZ);
        }
        lemma_sum_width_bound(s, s.len() as int);
    }
}

/// Counts and widths of marks lie within those of all stretches.
proof fn lemma_mark_bounds(s: Seq<(i64, i64)>, marks: Seq<bool>, k: int)
    requires
        shown_ok(s),
        0 <= k <= s.len(),
    ensures
        0 <= marked(marks, k) <= k,
        0 <= unmarked_width(s, marks, k) <= sum_width(s, k),
        marked(marks, k) == k <==> unmarked_width(s, marks, k) == 0,
        forall|i: int|
            0 <= i < k && !(#[trigger] marks[i]) ==> marked(marks, k) < k && 0 < width(s[i])
                <= unmarked_width(s, marks, k),
    decreases k,
{
    if k > 0 {
        lemma_mark_bounds(s, marks, k - 1);
        assert(s[k - 1].0 < s[k - 1].1);
    }
}

/// More marks count more; as many are the same.
proof fn lemma_more_marks(s: Seq<(i64, i64)>, a: Seq<bool>, b: Seq<bool>, k: int)
    requires
        0 <= k <= s.len(),
        forall|i: int| 0 <= i < k && a[i] ==> #[trigger] b[i],
    ensures
        marked(a, k) <= marked(b, k),
        marked(a, k) == marked(b, k) ==> forall|i: int| 0 <= i < k ==> a[i] == #[trigger] b[i],
    decreases k,
{
    if k > 0 {
        lemma_more_marks(s, a, b, k - 1);
        assert(a[k - 1] ==> b[k - 1]);
    }
}

/// If every one of the first `k` stretches is marked or falls short, those that are
/// not marked are narrower than an even share of what is left.
proof fn lemma_all_short(s: Seq<(i64, i64)>, marks: Seq<bool>, k: int)
    requires
        0 <= k <= s.len(),
        forall|i: int| 0 <= i < k ==> marks[i] || #[trigger] falls_short(s, marks, i),
    ensures
        ({
            let n = s.len() as int;
            let open = k - marked(marks, k);
            unmarked_width(s, marks, k) * (parts(s) - marked(marks, n)) + open <= open
                * unmarked_width(s, marks, n)
        }),
    decreases k,
{
    let n = s.len() as int;
    let left = parts(s) - marked(marks, n);
    let rest = unmarked_width(s, marks, n);
    if k > 0 {
        lemma_all_short(s, marks, k - 1);
        if !marks[k - 1] {
            assert(falls_short(s, marks, k - 1));
            let open = k - 1 - marked(marks, k - 1);
            let u = unmarked_width(s, marks, k - 1);
            let w = width(s[k - 1]);
            assert((u + w) * left == u * left + w * left) by (nonlinear_arith);
            assert((open + 1) * rest == open * rest + rest) by (nonlinear_arith);
        }
    } else {
        assert(0 * left == 0 && 0 * rest == 0);
    }
}

/// Marking those that fall short always leaves a stretch unmarked.
proof fn lemma_some_left(s: Seq<(i64, i64)>, marks: Seq<bool>)
    requires
        shown_ok(s),
        marks.len() == s.len(),
        marked(marks, s.len() as int) < s.len(),
    ensures
        marked(mark_short(s, marks), s.len() as int) < s.len(),
{
    let n = s.len() as int;
    let next = mark_short(s, marks);
    lemma_mark_bounds(s, next, n);
    lemma_mark_bounds(s, marks, n);
    if marked(next, n) == n {
        assert forall|i: int| 0 <= i < n implies marks[i] || #[trigger] falls_short(
            s,
            marks,
            i,
        ) by {
            assert(next[i]);
        }
        lemma_all_short(s, marks, n);
        let open = n - marked(marks, n);
        let rest = unmarked_width(s, marks, n);
        let left = parts(s) - marked(marks, n);
        assert(open * rest <= rest * left) by (nonlinear_arith)
            requires
                open <= left,
                0 <= rest,
        ;
    }
}

/// After some rounds a stretch is left, and either nothing changes any more or as many
/// are marked as there were rounds.
proof fn lemma_rounds(s: Seq<(i64, i64)>, rounds: int)
    requires
        shown_ok(s),
        0 <= rounds,
    ensures
        marks_after(s, rounds).len() == s.len(),
        marked(marks_after(s, rounds), s.len() as int) < s.len(),
        mark_short(s, marks_after(s, rounds)) == marks_after(s, rounds) || marked(
            marks_after(s, rounds),
            s.len() as int,
        ) >= rounds,
    decreases rounds,
{
    let n = s.len() as int;
    let marks = marks_after(s, rounds);
    lemma_mark_bounds(s, marks, n);
    if rounds > 0 {
        let before = marks_after(s, rounds - 1);
        lemma_rounds(s, rounds - 1);
        lemma_some_left(s, before);
        if mark_short(s, before) != before {
            lemma_more_marks(s, before, marks, n);
            if marked(before, n) == marked(marks, n) {
                assert(marks =~= before);
            }
        }
    } else {
        assert(!marks[0]);
    }
}

/// The bounds the layout arithmetic rests on.
proof fn lemma_shares(s: Seq<(i64, i64)>)
    requires
        shown_ok(s),
    ensures
        narrow(s).len() == s.len(),
        0 < wide_width(s) <= 30_100_000_000,
        0 <= marked(narrow(s), s.len() as int) < s.len() <= parts(s) <= 240,
        forall|i: int|
            0 <= i < s.len() && !(#[trigger] narrow(s)[i]) ==> 0 < width(s[i]) <= wide_width(s)
                && width(s[i]) * (parts(s) - marked(narrow(s), s.len() as int)) >= wide_width(s),
{
    let n = s.len() as int;
    lemma_sum_width_bound(s, n);
    assert(s[0].0 >= -SEGMENT_MARGIN_HZ);
    assert(s[n - 1].1 <= MAX_CHANNEL_HZ + SEGMENT_MARGIN_HZ);
    lemma_rounds(s, n);
    lemma_mark_bounds(s, narrow(s), n);
    assert forall|i: int| 0 <= i < s.len() && !(#[trigger] narrow(s)[i]) implies 0 < width(s[i])
        <= wide_width(s) && width(s[i]) * (parts(s) - marked(narrow(s), s.len() as int))
        >= wide_width(s) by {
        assert(mark_short(s, narrow(s))[i] == narrow(s)[i]);
        assert(!falls_short(s, narrow(s), i));
    }
}

/// `a * b` within the product of its bounds.
proof fn lemma_product_bound(a: int, b: int, x: int, y: int)
    requires
        0 <= a <= x,
        0 <= b <= y,
    ensures
        0 <= a * b <= x * y,
{
    assert(0 <= a * b <= x * y) by (nonlinear_arith)
        requires
            0 <= a <= x,
            0 <= b <= y,
    ;
}

/// The widest a segment can be drawn on an axis of `px` shared pixels.
spec fn widest(px: int) -> int {
    if px > SEGMENT_MIN_PX {
        px
    } else {
        SEGMENT_MIN_PX as int
    }
}

/// The size of every number the layout computes, and the least of every share.
proof fn lemma_layout(s: Seq<(i64, i64)>, px: int)
    requires
        shown_ok(s),
        0 <= px <= MAX_PIXELS,
    ensures
        0 < denominator(s) <= 7_224_000_000_000,
        forall|i: int|
            0 <= i < s.len() ==> {
                &&& 0 <= #[trigger] share(s, i) <= denominator(s)
                &&& denominator(s) <= parts(s) * share(s, i)
                &&& 0 <= px * share(s, i) <= px * denominator(s)
                &&& SEGMENT_MIN_PX * denominator(s) <= taken(s, px, i) <= widest(px) * denominator(s)
            },
{
    let p = parts(s);
    let rest = wide_width(s);
    let d = denominator(s);
    let left = p - marked(narrow(s), s.len() as int);
    lemma_shares(s);
    lemma_product_bound(p, rest, 240, 30_100_000_000);
    assert(d > 0) by (nonlinear_arith)
        requires
            d == p * rest,
            p > 0,
            rest > 0,
    ;
    assert forall|i: int| 0 <= i < s.len() implies {
        &&& 0 <= #[trigger] share(s, i) <= denominator(s)
        &&& denominator(s) <= parts(s) * share(s, i)
        &&& 0 <= px * share(s, i) <= px * denominator(s)
        &&& SEGMENT_MIN_PX * denominator(s) <= taken(s, px, i) <= widest(px) * denominator(s)
    } by {
        let w = width(s[i]);
        let sh = share(s, i);
        assert(narrow(s)[i] || !narrow(s)[i]);
        if narrow(s)[i] {
            assert(rest <= p * rest) by (nonlinear_arith)
                requires
                    p >= 1,
                    rest > 0,
            ;
        } else {
            assert(0 <= w * left <= p * rest) by (nonlinear_arith)
                requires
                    0 < w <= rest,
                    0 <= left <= p,
            ;
            assert(p * rest <= p * (w * left)) by (nonlinear_arith)
                requires
                    rest <= w * left,
                    0 <= p,
            ;
        }
        assert(0 <= px * sh <= px * d) by (nonlinear_arith)
            requires
                0 <= sh <= d,
                0 <= px,
        ;
        assert(px * d <= widest(px) * d && SEGMENT_MIN_PX * d <= widest(px) * d)
            by (nonlinear_arith)
            requires
                px <= widest(px),
                SEGMENT_MIN_PX <= widest(px),
                d > 0,
        ;
    }
}

/// Where a segment begins lies between its predecessors' least and greatest widths.
proof fn lemma_begins(s: Seq<(i64, i64)>, x0: int, px: int, i: int)
    requires
        shown_ok(s),
        0 <= px <= MAX_PIXELS,
        0 <= x0 <= MAX_PIXELS,
        0 <= i < s.len(),
    ensures
        x0 * denominator(s) <= begins(s, x0, px, i),
        begins(s, x0, px, i) <= (x0 + i * (widest(px) + SEGMENT_GAP_PX)) * denominator(s),
        begins(s, x0, px, i) <= 300_000_000 * denominator(s),
    decreases i,
{
    let d = denominator(s);
    lemma_layout(s, px);
    if i > 0 {
        lemma_begins(s, x0, px, i - 1);
        assert(share(s, i - 1) >= 0);
        let w = widest(px) + SEGMENT_GAP_PX;
        assert((x0 + (i - 1) * w) * d + w * d == (x0 + i * w) * d) by (nonlinear_arith);
        assert(w * d == widest(px) * d + SEGMENT_GAP_PX * d) by (nonlinear_arith)
            requires
                w == widest(px) + SEGMENT_GAP_PX,
        ;
    } else {
        assert((x0 + 0 * (widest(px) + SEGMENT_GAP_PX)) * d == x0 * d);
    }
    let w = widest(px) + SEGMENT_GAP_PX;
    assert(x0 + i * w <= 300_000_000) by (nonlinear_arith)
        requires
            x0 <= 1_048_576,
            0 <= i <= 240,
            0 <= w <= 1_048_582,
    ;
    assert((x0 + i * w) * d <= 300_000_000 * d) by (nonlinear_arith)
        requires
            x0 + i * w <= 300_000_000,
            d > 0,
    ;
}

/// No segment begins left of the axis or ends beyond what a column can be.
pub proof fn lemma_begins_here(s: Seq<(i64, i64)>, x0: int, px: int, i: int)
    requires
        shown_ok(s),
        0 <= px <= MAX_PIXELS,
        0 <= x0 <= MAX_PIXELS,
        0 <= i < s.len(),
    ensures
        0 <= begins(s, x0, px, i),
        0 < denominator(s),
        0 <= round_div(begins(s, x0, px, i), denominator(s)),
        round_div(begins(s, x0, px, i), denominator(s)) <= round_div(
            begins(s, x0, px, i) + taken(s, px, i),
            denominator(s),
        ) <= 400_000_000,
{
    lemma_layout(s, px);
    lemma_begins(s, x0, px, i);
    lemma_seg_edges(s, x0, px, i);
    assert(0 <= x0 * denominator(s)) by (nonlinear_arith)
        requires
            0 <= x0,
            0 < denominator(s),
    ;
}

/// Rounding a quotient keeps order and whole steps.
pub proof fn lemma_round_div(a: int, b: int, k: int, d: int)
    requires
        0 <= a,
        0 <= k,
        a + k * d <= b,
        0 < d,
    ensures
        0 <= round_div(a, d),
        round_div(a, d) + k <= round_div(b, d),
{
    assert(0 <= k * d) by (nonlinear_arith)
        requires
            0 <= k,
            0 < d,
    ;
    assert(0 <= (2 * a + d) / (2 * d)) by (nonlinear_arith)
        requires
            0 <= a,
            0 < d,
    ;
    assert((2 * a + d) / (2 * d) + k <= (2 * b + d) / (2 * d)) by (nonlinear_arith)
        requires
            a + k * d <= b,
            0 < d,
    ;
}

/// A rounded quotient is no larger than a whole bound on it.
pub proof fn lemma_round_div_upper(a: int, k: int, d: int)
    requires
        0 <= a <= k * d,
        0 < d,
    ensures
        0 <= round_div(a, d) <= k,
{
    assert(0 <= (2 * a + d) / (2 * d) <= k) by (nonlinear_arith)
        requires
            0 <= a <= k * d,
            0 < d,
    ;
}

/// What an axis laid out for channels in range looks like: segments in order of
/// frequency and of position, none narrower than the least width.
pub open spec fn axis_ok(segs: Seq<Seg>) -> bool {
    &&& segs.len() > 0
    &&& forall|i: int|
        0 <= i < segs.len() ==> {
            &&& -SEGMENT_MARGIN_HZ <= (#[trigger] segs[i]).lo_hz
            &&& segs[i].lo_hz + 2 * SEGMENT_MARGIN_HZ <= segs[i].hi_hz
            &&& segs[i].hi_hz <= MAX_CHANNEL_HZ + SEGMENT_MARGIN_HZ
            &&& segs[i].x0 + SEGMENT_MIN_PX <= segs[i].x1
            &&& segs[i].x1 <= 400_000_000
        }
    &&& forall|i: int, j: int|
        0 <= i < j < segs.len() ==> (#[trigger] segs[i]).hi_hz < (#[trigger] segs[j]).lo_hz
            && segs[i].x1 + SEGMENT_GAP_PX <= segs[j].x0
}

/// Positions before the casts: each segment's edges, and the next one's start.
proof fn lemma_seg_edges(s: Seq<(i64, i64)>, x0: int, px: int, i: int)
    requires
        shown_ok(s),
        0 <= px <= MAX_PIXELS,
        0 <= x0 <= MAX_PIXELS,
        0 <= i < s.len(),
    ensures
        x0 <= round_div(begins(s, x0, px, i), denominator(s)),
        round_div(begins(s, x0, px, i), denominator(s)) + SEGMENT_MIN_PX <= round_div(
            begins(s, x0, px, i) + taken(s, px, i),
            denominator(s),
        ),
        round_div(begins(s, x0, px, i) + taken(s, px, i), denominator(s)) <= 400_000_000,
        i + 1 < s.len() ==> round_div(begins(s, x0, px, i) + taken(s, px, i), denominator(s))
            + SEGMENT_GAP_PX <= round_div(begins(s, x0, px, i + 1), denominator(s)),
{
    let d = denominator(s);
    let b = begins(s, x0, px, i);
    lemma_layout(s, px);
    lemma_begins(s, x0, px, i);
    assert(share(s, i) >= 0);
    assert(x0 * d >= 0) by (nonlinear_arith)
        requires
            x0 >= 0,
            d > 0,
    ;
    lemma_round_div(0, b, x0, d);
    assert(round_div(0, d) == 0) by (nonlinear_arith)
        requires
            d > 0,
    ;
    lemma_round_div(b, b + taken(s, px, i), SEGMENT_MIN_PX as int, d);
    assert(widest(px) * d <= 1_048_576 * d) by (nonlinear_arith)
        requires
            widest(px) <= 1_048_576,
            d > 0,
    ;
    lemma_round_div_upper(b + taken(s, px, i), 400_000_000, d);
    if i + 1 < s.len() {
        lemma_round_div(
            b + taken(s, px, i),
            begins(s, x0, px, i + 1),
            SEGMENT_GAP_PX as int,
            d,
        );
    }
}

/// Segments never run backwards on the screen.
proof fn lemma_segs_in_order(s: Seq<(i64, i64)>, x0: int, px: int, i: int, j: int)
    requires
        shown_ok(s),
        0 <= px <= MAX_PIXELS,
        0 <= x0 <= MAX_PIXELS,
        0 <= i < j < s.len(),
    ensures
        round_div(begins(s, x0, px, i) + taken(s, px, i), denominator(s)) + SEGMENT_GAP_PX
            <= round_div(begins(s, x0, px, j), denominator(s)),
    decreases j - i,
{
    lemma_seg_edges(s, x0, px, i);
    if i + 1 < j {
        lemma_seg_edges(s, x0, px, i + 1);
        lemma_segs_in_order(s, x0, px, i + 1, j);
    }
}

/// A segment is drawn at least as wide as the least share of the pixels, to the pixel
/// below.
proof fn lemma_seg_share(s: Seq<(i64, i64)>, x0: int, px: int, i: int)
    requires
        shown_ok(s),
        0 <= px <= MAX_PIXELS,
        0 <= x0 <= MAX_PIXELS,
        0 <= i < s.len(),
    ensures
        round_div(begins(s, x0, px, i), denominator(s)) + px / parts(s) <= round_div(
            begins(s, x0, px, i) + taken(s, px, i),
            denominator(s),
        ),
{
    let d = denominator(s);
    let p = parts(s);
    let b = begins(s, x0, px, i);
    let q = px / p;
    let sh = share(s, i);
    lemma_layout(s, px);
    lemma_begins(s, x0, px, i);
    assert(0 <= q && q * p <= px) by (nonlinear_arith)
        requires
            q == px / p,
            p > 0,
            px >= 0,
    ;
    assert(d <= p * sh);
    assert(q * d <= px * sh) by (nonlinear_arith)
        requires
            0 <= q,
            q * p <= px,
            d <= p * sh,
            0 <= sh,
    ;
    assert(x0 * d >= 0) by (nonlinear_arith)
        requires
            x0 >= 0,
            d > 0,
    ;
    lemma_round_div(b, b + taken(s, px, i), q, d);
}

/// An axis has a segment for every group of channels: in order, none narrower
/// than its least width, none left of where the axis begins. Up to five segments get
/// at least a fifth of the shared pixels each, and more an even share, to the pixel
/// below.
pub proof fn law_axis_segments_readable(channels_hz: Seq<i64>, x0: int, x1: int)
    requires
        forall|i: int|
            0 <= i < channels_hz.len() ==> 0 <= #[trigger] channels_hz[i] <= MAX_CHANNEL_HZ,
        0 <= x0 <= x1 <= MAX_PIXELS,
    ensures
        axis_ok(axis_for(channels_hz, x0, x1)),
        axis_for(channels_hz, x0, x1).len() <= 240,
        axis_for(channels_hz, x0, x1)[0].x0 == x0,
        forall|i: int|
            0 <= i < axis_for(channels_hz, x0, x1).len() ==> (#[trigger] axis_for(
                channels_hz,
                x0,
                x1,
            )[i]).x0 + shared_px(shown(channels_hz), x0, x1) / parts(shown(channels_hz))
                <= axis_for(channels_hz, x0, x1)[i].x1,
{
    let s = shown(channels_hz);
    lemma_shown_ok(channels_hz);
    let px = shared_px(s, x0, x1);
    let segs = axis_for(channels_hz, x0, x1);
    assert forall|i: int| 0 <= i < segs.len() implies (#[trigger] segs[i]).x0 + px / parts(s)
        <= segs[i].x1 by {
        lemma_seg_edges(s, x0, px, i);
        lemma_seg_share(s, x0, px, i);
    }
    assert forall|i: int| 0 <= i < segs.len() implies {
        &&& -SEGMENT_MARGIN_HZ <= (#[trigger] segs[i]).lo_hz
        &&& segs[i].lo_hz + 2 * SEGMENT_MARGIN_HZ <= segs[i].hi_hz
        &&& segs[i].hi_hz <= MAX_CHANNEL_HZ + SEGMENT_MARGIN_HZ
        &&& segs[i].x0 + SEGMENT_MIN_PX <= segs[i].x1
        &&& segs[i].x1 <= 400_000_000
    } by {
        lemma_seg_edges(s, x0, px, i);
        assert(s[i].0 >= -SEGMENT_MARGIN_HZ);
    }
    assert forall|i: int, j: int| 0 <= i < j < segs.len() implies (#[trigger] segs[i]).hi_hz < (
    #[trigger] segs[j]).lo_hz && segs[i].x1 + SEGMENT_GAP_PX <= segs[j].x0 by {
        lemma_seg_edges(s, x0, px, i);
        lemma_seg_edges(s, x0, px, j);
        lemma_segs_in_order(s, x0, px, i, j);
        assert(s[i].1 + 130_000_000 < s[j].0);
    }
    lemma_seg_edges(s, x0, px, 0);
    let d = denominator(s);
    lemma_layout(s, px);
    assert(round_div(x0 * d, d) == x0) by {
        assert(x0 * d >= 0) by (nonlinear_arith)
            requires
                x0 >= 0,
                d > 0,
        ;
        lemma_round_div(0, x0 * d, x0, d);
        lemma_round_div_upper(x0 * d, x0, d);
        assert(round_div(0, d) == 0) by (nonlinear_arith)
            requires
                d > 0,
        ;
    }
}

/// Whether a frequency lies in a group.
spec fn in_group(p: (i64, i64), hz: i64) -> bool {
    p.0 <= hz <= p.1
}

/// Whether some group holds a frequency.
spec fn grouped(g: Seq<(i64, i64)>, hz: i64) -> bool {
    exists|k: int| 0 <= k < g.len() && in_group(#[trigger] g[k], hz)
}

/// Whether a group begins and ends with one of the frequencies.
spec fn ends_among(f: Seq<i64>, p: (i64, i64)) -> bool {
    f.contains(p.0) && f.contains(p.1)
}

/// Whether a group that holds a frequency holds the next one exactly where that is
/// near enough.
spec fn goes_on(f: Seq<i64>, p: (i64, i64), i: int) -> bool {
    in_group(p, f[i - 1]) ==> in_group(p, f[i]) == (f[i] - f[i - 1] <= SEGMENT_GAP_HZ)
}

/// Ascending frequencies fall into groups that hold them all, begin and end with one of
/// them, and part two neighbours exactly where they are too far apart.
proof fn lemma_spans(f: Seq<i64>)
    requires
        forall|i: int, j: int| 0 <= i < j < f.len() ==> f[i] <= f[j],
    ensures
        forall|k: int| 0 <= k < spans(f).len() ==> #[trigger] ends_among(f, spans(f)[k]),
        forall|i: int| 0 <= i < f.len() ==> #[trigger] grouped(spans(f), f[i]),
        forall|i: int, k: int|
            0 < i < f.len() && 0 <= k < spans(f).len() ==> #[trigger] goes_on(f, spans(f)[k], i),
    decreases f.len(),
{
    if f.len() > 0 {
        let g = f.drop_last();
        let n = f.len() - 1;
        let hz = f.last();
        lemma_spans(g);
        lemma_spans_apart(g, i64::MIN as int, i64::MAX as int);
        lemma_spans_apart(f, i64::MIN as int, i64::MAX as int);
        let s = spans(g);
        let t = spans(f);
        let m = s.len() - 1;
        if n > 0 {
            assert(g[n - 1] == g.last());
        }
        assert forall|k: int| 0 <= k < t.len() implies #[trigger] ends_among(f, t[k]) by {
            assert(f.contains(hz)) by {
                assert(f[n] == hz);
            }
            if k < s.len() {
                assert(ends_among(g, s[k]));
                let a = choose|a: int| 0 <= a < g.len() && g[a] == s[k].0;
                let b = choose|b: int| 0 <= b < g.len() && g[b] == s[k].1;
                assert(f[a] == s[k].0 && f[b] == s[k].1);
            }
        }
        assert forall|i: int| 0 <= i < f.len() implies #[trigger] grouped(t, f[i]) by {
            if i == n {
                assert(in_group(t[t.len() - 1], f[i]));
            } else {
                assert(grouped(s, g[i]));
                let k = choose|k: int| 0 <= k < s.len() && in_group(#[trigger] s[k], g[i]);
                assert(f[i] <= f[n]);
                assert(in_group(t[k], f[i]));
            }
        }
        assert forall|i: int, k: int| 0 < i < f.len() && 0 <= k < t.len() implies #[trigger] goes_on(
            f,
            t[k],
            i,
        ) by {
            if i == n {
                if k < m {
                    assert(s[m].0 - s[k].1 > SEGMENT_GAP_HZ);
                }
            } else {
                assert(g[i] == f[i] && g[i - 1] == f[i - 1]);
                assert(g[i] <= g[n - 1]);
                if k < s.len() {
                    assert(goes_on(g, s[k], i));
                }
            }
        }
    }
}

/// Whether there are whole hertz a margin below and above a channel.
pub open spec fn has_margin(hz: i64) -> bool {
    i64::MIN + SEGMENT_MARGIN_HZ <= hz <= i64::MAX - SEGMENT_MARGIN_HZ
}

/// Two neighbouring channels share a segment exactly where they are no further apart
/// than the gap that starts a new one.
pub proof fn law_neighbours_share_a_segment(channels_hz: Seq<i64>, x0: int, x1: int, i: int)
    requires
        forall|k: int| 0 <= k < channels_hz.len() ==> has_margin(#[trigger] channels_hz[k]),
        0 < i < channels_hz.len(),
    ensures
        (exists|k: int|
            0 <= k < axis_for(channels_hz, x0, x1).len() && (#[trigger] axis_for(
                channels_hz,
                x0,
                x1,
            )[k]).lo_hz <= ascending(channels_hz)[i - 1] && ascending(channels_hz)[i]
                <= axis_for(channels_hz, x0, x1)[k].hi_hz) == (ascending(channels_hz)[i]
            - ascending(channels_hz)[i - 1] <= SEGMENT_GAP_HZ),
{
    let f = ascending(channels_hz);
    let segs = axis_for(channels_hz, x0, x1);
    let g = spans(f);
    lemma_sorted_channels(channels_hz);
    lemma_spans(f);
    lemma_spans_apart(f, i64::MIN + SEGMENT_MARGIN_HZ, i64::MAX - SEGMENT_MARGIN_HZ);
    let a = f[i - 1];
    let b = f[i];
    assert(grouped(g, f[i - 1]));
    let j = choose|j: int| 0 <= j < g.len() && in_group(#[trigger] g[j], a);
    assert(goes_on(f, g[j], i));
    assert(has_margin(g[j].0) && has_margin(g[j].1));
    if b - a <= SEGMENT_GAP_HZ {
        assert(segs[j].lo_hz <= a && b <= segs[j].hi_hz);
    } else {
        assert forall|k: int| 0 <= k < segs.len() implies !((#[trigger] segs[k]).lo_hz <= a && b
            <= segs[k].hi_hz) by {
            assert(has_margin(g[k].0) && has_margin(g[k].1));
            assert(ends_among(f, g[k]));
            if segs[k].lo_hz <= a && b <= segs[k].hi_hz {
                if k < j {
                    assert(g[j].0 - g[k].1 > SEGMENT_GAP_HZ);
                } else if j < k {
                    assert(g[k].0 - g[j].1 > SEGMENT_GAP_HZ);
                } else {
                    let e = choose|e: int| 0 <= e < f.len() && f[e] == g[k].1;
                    if e > i {
                        assert(f[i] <= f[e]);
                    } else if e < i {
                        assert(e <= i - 1);
                    }
                }
            }
        }
    }
}

/// A segment begins a margin below its lowest channel and ends a margin above its
/// highest, shows every channel between, and ends below the next segment.
pub proof fn law_segments_fit_their_channels(channels_hz: Seq<i64>, x0: int, x1: int, k: int)
    requires
        forall|i: int| 0 <= i < channels_hz.len() ==> has_margin(#[trigger] channels_hz[i]),
        channels_hz.len() > 0,
        0 <= k < axis_for(channels_hz, x0, x1).len(),
    ensures
        ({
            let s = axis_for(channels_hz, x0, x1)[k];
            &&& channels_hz.contains((s.lo_hz + SEGMENT_MARGIN_HZ) as i64)
            &&& channels_hz.contains((s.hi_hz - SEGMENT_MARGIN_HZ) as i64)
            &&& forall|i: int|
                0 <= i < channels_hz.len() && s.lo_hz <= #[trigger] channels_hz[i] <= s.hi_hz
                    ==> s.lo_hz + SEGMENT_MARGIN_HZ <= channels_hz[i] <= s.hi_hz
                    - SEGMENT_MARGIN_HZ
            &&& k + 1 < axis_for(channels_hz, x0, x1).len() ==> s.hi_hz < axis_for(
                channels_hz,
                x0,
                x1,
            )[k + 1].lo_hz
        }),
{
    let f = ascending(channels_hz);
    let g = spans(f);
    lemma_sorted_channels(channels_hz);
    lemma_spans(f);
    lemma_spans_apart(f, i64::MIN + SEGMENT_MARGIN_HZ, i64::MAX - SEGMENT_MARGIN_HZ);
    assert(ends_among(f, g[k]));
    assert(has_margin(g[k].0) && has_margin(g[k].1));
    let s = axis_for(channels_hz, x0, x1)[k];
    if k + 1 < g.len() {
        assert(g[k + 1].0 - g[k].1 > SEGMENT_GAP_HZ);
        assert(has_margin(g[k + 1].0));
    }
    assert forall|i: int|
        0 <= i < channels_hz.len() && s.lo_hz <= #[trigger] channels_hz[i]
            <= s.hi_hz implies s.lo_hz + SEGMENT_MARGIN_HZ <= channels_hz[i] <= s.hi_hz
        - SEGMENT_MARGIN_HZ by {
        assert(channels_hz.contains(channels_hz[i]));
        assert(f.contains(channels_hz[i]));
        let e = choose|e: int| 0 <= e < f.len() && f[e] == channels_hz[i];
        assert(grouped(g, f[e]));
        let j = choose|j: int| 0 <= j < g.len() && in_group(#[trigger] g[j], f[e]);
        if j < k {
            assert(g[k].0 - g[j].1 > SEGMENT_GAP_HZ);
        } else if k < j {
            assert(g[j].0 - g[k].1 > SEGMENT_GAP_HZ);
        }
    }
}

/// Every channel is shown in some segment.
pub proof fn law_every_channel_is_shown(channels_hz: Seq<i64>, x0: int, x1: int, i: int)
    requires
        forall|k: int| 0 <= k < channels_hz.len() ==> has_margin(#[trigger] channels_hz[k]),
        0 <= i < channels_hz.len(),
    ensures
        exists|k: int|
            0 <= k < axis_for(channels_hz, x0, x1).len() && (#[trigger] axis_for(
                channels_hz,
                x0,
                x1,
            )[k]).lo_hz <= channels_hz[i] <= axis_for(channels_hz, x0, x1)[k].hi_hz,
{
    let f = ascending(channels_hz);
    let g = spans(f);
    let segs = axis_for(channels_hz, x0, x1);
    lemma_sorted_channels(channels_hz);
    lemma_spans(f);
    lemma_spans_apart(f, i64::MIN + SEGMENT_MARGIN_HZ, i64::MAX - SEGMENT_MARGIN_HZ);
    assert(channels_hz.contains(channels_hz[i]));
    assert(f.contains(channels_hz[i]));
    let e = choose|e: int| 0 <= e < f.len() && f[e] == channels_hz[i];
    assert(grouped(g, f[e]));
    let j = choose|j: int| 0 <= j < g.len() && in_group(#[trigger] g[j], f[e]);
    assert(has_margin(g[j].0) && has_margin(g[j].1));
    assert(segs[j].lo_hz <= channels_hz[i] <= segs[j].hi_hz);
}

/// The order the channels are given in makes no difference.
pub proof fn law_channel_order_does_not_matter(a: Seq<i64>, b: Seq<i64>, x0: int, x1: int)
    requires
        a.to_multiset() == b.to_multiset(),
    ensures
        axis_for(a, x0, x1) == axis_for(b, x0, x1),
{
    lemma_ascending(a);
    lemma_ascending(b);
    lemma_ascending_unique(b, ascending(a));
    a.to_multiset_ensures();
    b.to_multiset_ensures();
}

/// Channels with room for the margin, sorted, are in order and have it too.
proof fn lemma_sorted_channels(channels_hz: Seq<i64>)
    requires
        forall|i: int| 0 <= i < channels_hz.len() ==> has_margin(#[trigger] channels_hz[i]),
    ensures
        ascending(channels_hz).len() == channels_hz.len(),
        forall|x: i64| ascending(channels_hz).contains(x) <==> channels_hz.contains(x),
        forall|i: int|
            0 <= i < channels_hz.len() ==> has_margin(#[trigger] ascending(channels_hz)[i]),
        forall|i: int, j: int|
            0 <= i < j < channels_hz.len() ==> ascending(channels_hz)[i] <= ascending(
                channels_hz,
            )[j],
{
    lemma_ascending(channels_hz);
    let f = ascending(channels_hz);
    assert forall|i: int| 0 <= i < channels_hz.len() implies has_margin(#[trigger] f[i]) by {
        assert(f.contains(f[i]));
        assert(channels_hz.contains(f[i]));
        let k = choose|k: int| 0 <= k < channels_hz.len() && channels_hz[k] == f[i];
        assert(has_margin(channels_hz[k]));
    }
}

/// Shares of the first `upto` stretches together, over `denominator`.
pub open spec fn sum_share(s: Seq<(i64, i64)>, upto: int) -> int
    decreases upto,
{
    if upto <= 0 {
        0
    } else {
        sum_share(s, upto - 1) + share(s, upto - 1)
    }
}

proof fn lemma_sum_share(s: Seq<(i64, i64)>, k: int)
    requires
        0 <= k <= s.len(),
    ensures
        sum_share(s, k) == unmarked_width(s, narrow(s), k) * (parts(s) - marked(
            narrow(s),
            s.len() as int,
        )) + marked(narrow(s), k) * wide_width(s),
    decreases k,
{
    let marks = narrow(s);
    let left = parts(s) - marked(marks, s.len() as int);
    let rest = wide_width(s);
    if k > 0 {
        lemma_sum_share(s, k - 1);
        let w = width(s[k - 1]);
        let u = unmarked_width(s, marks, k - 1);
        let m = marked(marks, k - 1);
        assert((u + w) * left == u * left + w * left) by (nonlinear_arith);
        assert((m + 1) * rest == m * rest + rest) by (nonlinear_arith);
    } else {
        assert(0 * left == 0 && 0 * rest == 0);
    }
}

/// The shares of all stretches add up to the whole axis.
pub proof fn law_shares_fill_the_axis(s: Seq<(i64, i64)>)
    ensures
        sum_share(s, s.len() as int) == denominator(s),
{
    let n = s.len() as int;
    lemma_sum_share(s, n);
    let p = parts(s);
    let rest = wide_width(s);
    let m = marked(narrow(s), n);
    assert(rest * (p - m) + m * rest == p * rest) by (nonlinear_arith);
}

proof fn lemma_begins_sum(s: Seq<(i64, i64)>, x0: int, px: int, k: int)
    requires
        0 <= k < s.len(),
        forall|i: int|
            0 <= i < s.len() ==> SEGMENT_MIN_PX * denominator(s) <= px * #[trigger] share(s, i),
    ensures
        begins(s, x0, px, k) == x0 * denominator(s) + px * sum_share(s, k) + SEGMENT_GAP_PX * k
            * denominator(s),
    decreases k,
{
    let d = denominator(s);
    if k > 0 {
        lemma_begins_sum(s, x0, px, k - 1);
        assert(SEGMENT_MIN_PX * d <= px * share(s, k - 1));
        let a = sum_share(s, k - 1);
        let b = share(s, k - 1);
        assert(px * (a + b) == px * a + px * b) by (nonlinear_arith);
        assert(SEGMENT_GAP_PX * k * d == SEGMENT_GAP_PX * (k - 1) * d + SEGMENT_GAP_PX * d)
            by (nonlinear_arith);
    } else {
        assert(px * 0 == 0);
        assert(SEGMENT_GAP_PX * 0 * d == 0);
    }
}

/// Where the least share of the pixels is at least a segment's least width, the axis
/// ends exactly where it was asked to.
pub proof fn law_axis_ends_at_its_edge(channels_hz: Seq<i64>, x0: int, x1: int)
    requires
        forall|i: int|
            0 <= i < channels_hz.len() ==> 0 <= #[trigger] channels_hz[i] <= MAX_CHANNEL_HZ,
        0 <= x0 <= x1 <= MAX_PIXELS,
        SEGMENT_MIN_PX * parts(shown(channels_hz)) <= shared_px(shown(channels_hz), x0, x1),
    ensures
        axis_for(channels_hz, x0, x1).last().x1 == x1,
{
    let s = shown(channels_hz);
    let n = s.len() as int;
    let px = shared_px(s, x0, x1);
    let d = denominator(s);
    lemma_shown_ok(channels_hz);
    lemma_layout(s, px);
    assert forall|i: int| 0 <= i < s.len() implies SEGMENT_MIN_PX * d <= px * #[trigger] share(
        s,
        i,
    ) by {
        let sh = share(s, i);
        let k = parts(s);
        assert(SEGMENT_MIN_PX * d <= SEGMENT_MIN_PX * (k * sh));
        assert(SEGMENT_MIN_PX * (k * sh) == (SEGMENT_MIN_PX * k) * sh) by (nonlinear_arith);
        assert((SEGMENT_MIN_PX * k) * sh <= px * sh) by (nonlinear_arith)
            requires
                SEGMENT_MIN_PX * k <= px,
                0 <= sh,
        ;
    }
    lemma_begins_sum(s, x0, px, n - 1);
    law_shares_fill_the_axis(s);
    lemma_seg_edges(s, x0, px, n - 1);
    assert(SEGMENT_MIN_PX * d <= px * share(s, n - 1));
    let a = sum_share(s, n - 1);
    let b = share(s, n - 1);
    assert(px * (a + b) == px * a + px * b) by (nonlinear_arith);
    assert(x0 * d + px * d + SEGMENT_GAP_PX * (n - 1) * d == x1 * d) by (nonlinear_arith)
        requires
            px == x1 - x0 - SEGMENT_GAP_PX * (n - 1),
    ;
    assert(x1 * d >= 0) by (nonlinear_arith)
        requires
            x1 >= 0,
            d > 0,
    ;
    lemma_round_div(0, x1 * d, x1, d);
    lemma_round_div_upper(x1 * d, x1, d);
    assert(round_div(0, d) == 0) by (nonlinear_arith)
        requires
            d > 0,
    ;
}

/// How far a frequency lies outside a segment, in millihertz.
pub open spec fn seg_dist(s: Seg, milli_hz: int) -> int {
    if milli_hz < 1000 * s.lo_hz {
        1000 * s.lo_hz - milli_hz
    } else if milli_hz > 1000 * s.hi_hz {
        milli_hz - 1000 * s.hi_hz
    } else {
        0
    }
}

/// The segment a frequency is drawn in: the one that holds it, else the nearest.
pub open spec fn seg_index(segs: Seq<Seg>, milli_hz: int) -> int {
    first_min(Seq::new(segs.len(), |i: int| seg_dist(segs[i], milli_hz)))
}

/// Column `part / width` of the way over the `px` columns from `x0`, in double precision.
pub open spec fn column(part: int, width: int, x0: int, px: int) -> int {
    let (n, p) = quotient(part, width, DOUBLE as int);
    let off = nearest(n * px, DOUBLE as int);
    round_div(nearest(x0 * p + off, DOUBLE as int), p)
}

/// Column of a frequency inside one segment, held to the segment's edges.
pub open spec fn x_in_seg(s: Seg, milli_hz: int) -> int {
    if milli_hz <= 1000 * s.lo_hz {
        s.x0 as int
    } else if milli_hz >= 1000 * s.hi_hz {
        s.x1 as int
    } else {
        column(milli_hz - 1000 * s.lo_hz, 1000 * (s.hi_hz - s.lo_hz), s.x0 as int, s.x1 - s.x0)
    }
}

/// Column of a frequency on the axis.
pub open spec fn axis_x(segs: Seq<Seg>, milli_hz: int) -> int {
    x_in_seg(segs[seg_index(segs, milli_hz)], milli_hz)
}

/// Pixels of one probe step in a segment, in double precision.
pub open spec fn probe_px(s: Seg) -> int {
    let (n, p) = quotient(s.x1 - s.x0, s.hi_hz - s.lo_hz, DOUBLE as int);
    round_div(nearest(PROBE_STEP_HZ * n, DOUBLE as int), p)
}

/// Width of one probe's bar at a frequency: a probe step less a pixel, and never
/// less than one pixel.
pub open spec fn bar_width(segs: Seq<Seg>, milli_hz: int) -> int {
    let step = probe_px(segs[seg_index(segs, milli_hz)]);
    if step >= 2 {
        step - 1
    } else {
        1
    }
}

/// Whether ticks `mhz` megahertz apart leave room for their labels.
pub open spec fn step_clears(s: Seg, mhz: int) -> bool {
    mhz * (1_000_000 * (s.x1 - s.x0)) >= TICK_SPACING_PX * (s.hi_hz - s.lo_hz)
}

/// Megahertz between two ticks of a segment.
pub open spec fn tick_step(s: Seg) -> int {
    if step_clears(s, 50) {
        50
    } else if step_clears(s, 100) {
        100
    } else if step_clears(s, 200) {
        200
    } else if step_clears(s, 500) {
        500
    } else {
        1000
    }
}

/// The first multiple of `step` megahertz not below a segment's lower edge.
pub open spec fn first_tick(s: Seg) -> int {
    let step = tick_step(s);
    ((s.lo_hz + step * 1_000_000 - 1) / (step * 1_000_000)) * step
}

/// The ticks of one segment from `mhz` on, as column and label.
pub open spec fn ticks_from(segs: Seq<Seg>, s: Seg, mhz: int, step: int) -> Seq<(int, int)>
    decreases s.hi_hz + step * 1_000_000 - mhz * 1_000_000,
{
    if step <= 0 || mhz * 1_000_000 > s.hi_hz {
        Seq::empty()
    } else {
        seq![(axis_x(segs, mhz * 1_000_000_000), mhz)] + ticks_from(segs, s, mhz + step, step)
    }
}

/// Ticks as plain numbers.
pub open spec fn as_ticks(v: Seq<(usize, i64)>) -> Seq<(int, int)> {
    Seq::new(v.len(), |i: int| (v[i].0 as int, v[i].1 as int))
}

/// The ticks of the first `upto` segments.
pub open spec fn ticks_upto(segs: Seq<Seg>, upto: int) -> Seq<(int, int)>
    decreases upto,
{
    if upto <= 0 {
        Seq::empty()
    } else {
        let s = segs[upto - 1];
        ticks_upto(segs, upto - 1) + ticks_from(segs, s, first_tick(s), tick_step(s))
    }
}

/// Digits of a label.
pub open spec fn digits(mhz: int) -> int {
    decimal(mhz).len() as int
}

/// Whether the labels of two ticks would touch: a digit is eight pixels wide, and a
/// label is centred on its tick.
pub open spec fn touches(a: (int, int), b: (int, int)) -> bool {
    b.0 - a.0 < 4 * (digits(a.1) + digits(b.1))
}

/// Ticks without those whose label would touch the one kept before.
pub open spec fn thinned(ticks: Seq<(int, int)>) -> Seq<(int, int)>
    decreases ticks.len(),
{
    if ticks.len() == 0 {
        ticks
    } else {
        let kept = thinned(ticks.drop_last());
        if kept.len() > 0 && touches(kept.last(), ticks.last()) {
            kept
        } else {
            kept.push(ticks.last())
        }
    }
}

/// The ticks of an axis.
pub open spec fn axis_ticks(segs: Seq<Seg>) -> Seq<(int, int)> {
    thinned(ticks_upto(segs, segs.len() as int))
}

/// How many digits a label has.
fn count_digits(mhz: i64) -> (n: i64)
    requires
        0 <= mhz <= 40_000,
    ensures
        n == digits(mhz as int),
        1 <= n <= 5,
{
    proof {
        reveal_with_fuel(decimal, 5);
    }
    if mhz < 10 {
        1
    } else if mhz < 100 {
        2
    } else if mhz < 1000 {
        3
    } else if mhz < 10_000 {
        4
    } else {
        5
    }
}

/// Group ascending frequencies.
fn group(f: &Vec<i64>) -> (groups: Vec<(i64, i64)>)
    requires
        forall|i: int| 0 <= i < f@.len() ==> 0 <= #[trigger] f@[i] <= MAX_CHANNEL_HZ,
        forall|i: int, j: int| 0 <= i < j < f@.len() ==> f@[i] <= f@[j],
    ensures
        groups@ == spans(f@),
{
    let mut groups: Vec<(i64, i64)> = Vec::new();
    let mut i: usize = 0;
    while i < f.len()
        invariant
            i <= f.len(),
            groups@ == spans(f@.take(i as int)),
            forall|k: int| 0 <= k < f@.len() ==> 0 <= #[trigger] f@[k] <= MAX_CHANNEL_HZ,
            forall|j: int, k: int| 0 <= j < k < f@.len() ==> f@[j] <= f@[k],
        decreases f.len() - i,
    {
        let hz: i64 = f[i];
        let ghost before = groups@;
        proof {
            let seen = f@.take(i + 1);
            assert(seen.drop_last() =~= f@.take(i as int));
            assert(seen.last() == hz);
            lemma_spans_apart(f@.take(i as int), 0, MAX_CHANNEL_HZ as int);
        }
        let len: usize = groups.len();
        if len > 0 && hz - groups[len - 1].1 <= SEGMENT_GAP_HZ {
            let lo: i64 = groups[len - 1].0;
            groups.set(len - 1, (lo, hz));
        } else {
            groups.push((hz, hz));
        }
        i = i + 1;
    }
    proof {
        assert(f@.take(f@.len() as int) =~= f@);
    }
    groups
}

/// The stretches of spectrum to show.
fn stretches(channels_hz: &Vec<i64>) -> (s: Vec<(i64, i64)>)
    requires
        forall|i: int|
            0 <= i < channels_hz@.len() ==> 0 <= #[trigger] channels_hz@[i] <= MAX_CHANNEL_HZ,
    ensures
        s@ == shown(channels_hz@),
{
    let groups: Vec<(i64, i64)> = if channels_hz.len() == 0 {
        let mut whole: Vec<(i64, i64)> = Vec::new();
        whole.push((5_645_000_000i64, 5_945_000_000i64));
        whole
    } else {
        let f: Vec<i64> = sort_ascending(channels_hz);
        proof {
            lemma_ascending(channels_hz@);
            assert forall|i: int| 0 <= i < f@.len() implies 0 <= #[trigger] f@[i]
                <= MAX_CHANNEL_HZ by {
                assert(f@.contains(f@[i]));
                assert(channels_hz@.contains(f@[i]));
            }
            lemma_spans_apart(f@, 0, MAX_CHANNEL_HZ as int);
        }
        group(&f)
    };
    let ghost g = groups@;
    assert(forall|i: int|
        0 <= i < g.len() ==> 0 <= (#[trigger] g[i]).0 <= MAX_CHANNEL_HZ && 0 <= g[i].1
            <= MAX_CHANNEL_HZ);
    let mut s: Vec<(i64, i64)> = Vec::new();
    let mut i: usize = 0;
    while i < groups.len()
        invariant
            i <= groups.len(),
            g == groups@,
            s@ == Seq::new(i as nat, |k: int| widened(g[k])),
            forall|k: int|
                0 <= k < g.len() ==> 0 <= (#[trigger] g[k]).0 <= MAX_CHANNEL_HZ && 0 <= g[k].1
                    <= MAX_CHANNEL_HZ,
        decreases groups.len() - i,
    {
        let lo: i64 = groups[i].0;
        let hi: i64 = groups[i].1;
        assert(g[i as int].0 == lo);
        s.push((lo - SEGMENT_MARGIN_HZ, hi + SEGMENT_MARGIN_HZ));
        i = i + 1;
    }
    assert(s@ =~= shown(channels_hz@));
    s
}

/// How many stretches are marked, and how wide the others are together.
fn tally(s: &Vec<(i64, i64)>, marks: &Vec<bool>) -> (r: (i128, i128))
    requires
        shown_ok(s@),
        marks@.len() == s@.len(),
    ensures
        r.0 == marked(marks@, s@.len() as int),
        r.1 == unmarked_width(s@, marks@, s@.len() as int),
        0 <= r.0 <= s@.len(),
        0 <= r.1 <= 30_100_000_000,
{
    let mut count: i128 = 0;
    let mut rest: i128 = 0;
    let mut i: usize = 0;
    proof {
        assert(s@[0].0 >= -SEGMENT_MARGIN_HZ);
    }
    while i < s.len()
        invariant
            i <= s.len(),
            shown_ok(s@),
            marks@.len() == s@.len(),
            count == marked(marks@, i as int),
            rest == unmarked_width(s@, marks@, i as int),
            0 <= count <= i,
            0 <= rest <= 30_100_000_000,
            s@[0].0 >= -SEGMENT_MARGIN_HZ,
        decreases s.len() - i,
    {
        assert(s@[i as int].0 < s@[i as int].1);
        proof {
            lemma_mark_bounds(s@, marks@, i + 1);
            lemma_sum_width_bound(s@, i + 1);
        }
        if marks[i] {
            count = count + 1;
        } else {
            rest = rest + (s[i].1 - s[i].0) as i128;
        }
        i = i + 1;
    }
    (count, rest)
}

/// Mark the stretches that fall short.
fn mark_once(s: &Vec<(i64, i64)>, marks: &Vec<bool>) -> (next: Vec<bool>)
    requires
        shown_ok(s@),
        marks@.len() == s@.len(),
    ensures
        next@ == mark_short(s@, marks@),
{
    let (count, rest) = tally(s, marks);
    let parts_here: i128 = if s.len() < 5 {
        5
    } else {
        s.len() as i128
    };
    let left: i128 = parts_here - count;
    let mut next: Vec<bool> = Vec::new();
    let mut i: usize = 0;
    while i < s.len()
        invariant
            i <= s.len(),
            shown_ok(s@),
            marks@.len() == s@.len(),
            0 <= left <= 240,
            left == parts(s@) - marked(marks@, s@.len() as int),
            rest == unmarked_width(s@, marks@, s@.len() as int),
            next@ == mark_short(s@, marks@).take(i as int),
        decreases s.len() - i,
    {
        assert(s@[i as int].0 < s@[i as int].1);
        let w: i128 = (s[i].1 - s[i].0) as i128;
        proof {
            lemma_product_bound(w as int, left as int, 40_000_000_000, 240);
        }
        next.push(marks[i] || w * left < rest);
        i = i + 1;
        assert(mark_short(s@, marks@).take(i as int) =~= mark_short(s@, marks@).take(i - 1).push(
            mark_short(s@, marks@)[i - 1],
        ));
    }
    assert(mark_short(s@, marks@).take(s@.len() as int) =~= mark_short(s@, marks@));
    next
}

/// Mark the stretches that get the least share.
fn find_narrow(s: &Vec<(i64, i64)>) -> (marks: Vec<bool>)
    requires
        shown_ok(s@),
    ensures
        marks@ == narrow(s@),
        marks@.len() == s@.len(),
{
    let mut marks: Vec<bool> = Vec::new();
    while marks.len() < s.len()
        invariant
            marks@.len() <= s@.len(),
            forall|i: int| 0 <= i < marks@.len() ==> !(#[trigger] marks@[i]),
        decreases s@.len() - marks@.len(),
    {
        marks.push(false);
    }
    assert(marks@ =~= marks_after(s@, 0));
    let mut rounds: usize = 0;
    while rounds < s.len()
        invariant
            rounds <= s.len(),
            shown_ok(s@),
            marks@.len() == s@.len(),
            marks@ == marks_after(s@, rounds as int),
        decreases s.len() - rounds,
    {
        marks = mark_once(s, &marks);
        rounds = rounds + 1;
    }
    marks
}

/// Round a quotient of non-negative numbers.
fn rounded(a: i128, d: i128) -> (r: i128)
    requires
        0 <= a <= 1_000_000_000_000_000_000_000_000_000_000_000_000,
        0 < d <= 1_000_000_000_000_000_000_000_000_000_000_000_000,
    ensures
        r == round_div(a as int, d as int),
        0 <= r <= a,
{
    proof {
        assert((2 * a + d) / (2 * d) <= a) by (nonlinear_arith)
            requires
                0 <= a,
                0 < d,
        ;
    }
    (2 * a + d) / (2 * d)
}

impl View for Axis {
    type V = Seq<Seg>;

    open spec fn view(&self) -> Seq<Seg> {
        self.segs@
    }
}

impl Axis {
    /// Lay the axis out for a set of channels over the pixel columns `x0` to `x1`.
    pub fn new(channels_hz: &Vec<i64>, x0: usize, x1: usize) -> (axis: Axis)
        requires
            forall|i: int|
                0 <= i < channels_hz@.len() ==> 0 <= #[trigger] channels_hz@[i] <= MAX_CHANNEL_HZ,
            x0 <= x1 <= MAX_PIXELS,
        ensures
            axis@ == axis_for(channels_hz@, x0 as int, x1 as int),
            axis_ok(axis@),
    {
        proof {
            lemma_shown_ok(channels_hz@);
            law_axis_segments_readable(channels_hz@, x0 as int, x1 as int);
        }
        let s: Vec<(i64, i64)> = stretches(channels_hz);
        let gaps: usize = SEGMENT_GAP_PX * (s.len() - 1);
        let px: usize = if x1 - x0 > gaps {
            x1 - x0 - gaps
        } else {
            0
        };
        let marks: Vec<bool> = find_narrow(&s);
        let (count, rest) = tally(&s, &marks);
        let parts_here: i128 = if s.len() < 5 {
            5
        } else {
            s.len() as i128
        };
        proof {
            lemma_shares(s@);
            lemma_layout(s@, px as int);
        }
        let left: i128 = parts_here - count;
        let d: i128 = parts_here * rest;
        proof {
            lemma_product_bound(x0 as int, d as int, 1_048_576, 7_224_000_000_000);
        }
        let mut segs: Vec<Seg> = Vec::new();
        let mut at: i128 = x0 as i128 * d;
        let mut i: usize = 0;
        proof {
            lemma_begins(s@, x0 as int, px as int, 0);
            assert(x0 * d >= 0) by (nonlinear_arith)
                requires
                    d > 0,
            ;
        }
        while i < s.len()
            invariant
                i <= s.len(),
                shown_ok(s@),
                x0 <= x1 <= MAX_PIXELS,
                px <= MAX_PIXELS,
                s@ == shown(channels_hz@),
                px == shared_px(s@, x0 as int, x1 as int),
                marks@ == narrow(s@),
                marks@.len() == s@.len(),
                rest == wide_width(s@),
                left == parts(s@) - marked(narrow(s@), s@.len() as int),
                d == denominator(s@),
                0 < d <= 7_224_000_000_000,
                i < s.len() ==> at == begins(s@, x0 as int, px as int, i as int),
                segs@ == axis_for(channels_hz@, x0 as int, x1 as int).take(i as int),
            decreases s.len() - i,
        {
            let w: i128 = (s[i].1 - s[i].0) as i128;
            proof {
                lemma_shares(s@);
                lemma_layout(s@, px as int);
                lemma_begins(s@, x0 as int, px as int, i as int);
                lemma_seg_edges(s@, x0 as int, px as int, i as int);
                assert(s@[i as int].0 < s@[i as int].1);
                assert(share(s@, i as int) >= 0);
                lemma_product_bound(w as int, left as int, 40_000_000_000, 240);
                assert(px * d <= 1_048_576 * d) by (nonlinear_arith)
                    requires
                        px <= 1_048_576,
                        d > 0,
                ;
                assert(widest(px as int) * d <= 1_048_576 * d) by (nonlinear_arith)
                    requires
                        widest(px as int) <= 1_048_576,
                        d > 0,
                ;
                assert(x0 * d >= 0) by (nonlinear_arith)
                    requires
                        d > 0,
                ;
            }
            let share_here: i128 = if marks[i] {
                rest
            } else {
                w * left
            };
            let fair: i128 = px as i128 * share_here;
            let least: i128 = SEGMENT_MIN_PX as i128 * d;
            let taken_here: i128 = if fair > least {
                fair
            } else {
                least
            };
            let from: i128 = rounded(at, d);
            let to: i128 = rounded(at + taken_here, d);
            segs.push(
                Seg { lo_hz: s[i].0, hi_hz: s[i].1, x0: from as usize, x1: to as usize },
            );
            at = at + taken_here + SEGMENT_GAP_PX as i128 * d;
            i = i + 1;
            proof {
                let whole = axis_for(channels_hz@, x0 as int, x1 as int);
                assert(whole.take(i as int) =~= whole.take(i - 1).push(whole[i - 1]));
            }
        }
        proof {
            let whole = axis_for(channels_hz@, x0 as int, x1 as int);
            assert(whole.take(whole.len() as int) =~= whole);
        }
        Axis { segs }
    }

    /// The segment a frequency is drawn in: the one that holds it, else the nearest.
    pub fn seg_for(&self, milli_hz: i128) -> (s: &Seg)
        requires
            axis_ok(self@),
            -MAX_MILLI_HZ <= milli_hz <= MAX_MILLI_HZ,
        ensures
            *s == self@[seg_index(self@, milli_hz as int)],
            0 <= seg_index(self@, milli_hz as int) < self@.len(),
    {
        let ghost far = Seq::new(self@.len(), |i: int| seg_dist(self@[i], milli_hz as int));
        let mut best: usize = 0;
        let mut best_dist: i128 = dist(&self.segs[0], milli_hz);
        let mut i: usize = 1;
        while i < self.segs.len()
            invariant
                1 <= i <= self.segs.len(),
                axis_ok(self@),
                -MAX_MILLI_HZ <= milli_hz <= MAX_MILLI_HZ,
                far == Seq::new(self@.len(), |k: int| seg_dist(self@[k], milli_hz as int)),
                best < i,
                best_dist == far[best as int],
                forall|j: int| 0 <= j < i ==> far[best as int] <= #[trigger] far[j],
                forall|j: int| 0 <= j < best ==> far[best as int] < #[trigger] far[j],
            decreases self.segs.len() - i,
        {
            let here: i128 = dist(&self.segs[i], milli_hz);
            if here < best_dist {
                best = i;
                best_dist = here;
            }
            i = i + 1;
        }
        proof {
            assert(is_first_min(far, best as int));
            lemma_first_min(far);
        }
        &self.segs[best]
    }

    /// Column of a frequency, held to the edges of its segment.
    pub fn x(&self, milli_hz: i128) -> (x: usize)
        requires
            axis_ok(self@),
            -MAX_MILLI_HZ <= milli_hz <= MAX_MILLI_HZ,
        ensures
            x == axis_x(self@, milli_hz as int),
            self@[seg_index(self@, milli_hz as int)].x0 <= x,
            x <= self@[seg_index(self@, milli_hz as int)].x1,
            x <= 400_000_000,
    {
        let s: Seg = *self.seg_for(milli_hz);
        assert(axis_ok(self@) && self@[seg_index(self@, milli_hz as int)] == s);
        let lo: i128 = 1000 * s.lo_hz as i128;
        let hi: i128 = 1000 * s.hi_hz as i128;
        if milli_hz <= lo {
            s.x0
        } else if milli_hz >= hi {
            s.x1
        } else {
            let px: u128 = (s.x1 - s.x0) as u128;
            let x0: u128 = s.x0 as u128;
            let part: u128 = (milli_hz - lo) as u128;
            let width: u128 = (hi - lo) as u128;
            proof {
                lemma_quotient_size(part as int, width as int, DOUBLE as int);
                lemma_column(part as int, width as int, x0 as int, px as int);
            }
            let (n, p): (u128, u128) = divide(part, width, DOUBLE);
            proof {
                assert(p <= part * p) by (nonlinear_arith)
                    requires
                        part >= 1,
                        p >= 0,
                ;
                assert(n * px <= 0x20_0000_0000_0000 * 400_000_000) by (nonlinear_arith)
                    requires
                        0 <= n <= 0x20_0000_0000_0000,
                        0 <= px <= 400_000_000,
                ;
                assert((x0 + px) * p <= 400_000_000 * p && 0 <= x0 * p <= 400_000_000 * p)
                    by (nonlinear_arith)
                    requires
                        0 <= x0,
                        0 <= px,
                        x0 + px <= 400_000_000,
                        0 <= p,
                ;
            }
            let off: u128 = round(n * px, DOUBLE);
            div_half_up(round(x0 * p + off, DOUBLE), p) as usize
        }
    }

    /// Width of one probe's bar at a frequency.
    pub fn bar_px(&self, milli_hz: i128) -> (px: usize)
        requires
            axis_ok(self@),
            -MAX_MILLI_HZ <= milli_hz <= MAX_MILLI_HZ,
        ensures
            px == bar_width(self@, milli_hz as int),
            1 <= px <= 400_000_000,
    {
        let s: Seg = *self.seg_for(milli_hz);
        assert(axis_ok(self@) && self@[seg_index(self@, milli_hz as int)] == s);
        let px: u128 = (s.x1 - s.x0) as u128;
        let width: u128 = (s.hi_hz - s.lo_hz) as u128;
        proof {
            lemma_quotient_size(px as int, width as int, DOUBLE as int);
            lemma_quotient_at_most(px as int, width as int, DOUBLE as int, 20);
        }
        let (n, p): (u128, u128) = divide(px, width, DOUBLE);
        proof {
            let probe = PROBE_STEP_HZ * n;
            assert(p <= px * p) by (nonlinear_arith)
                requires
                    px >= 1,
                    p >= 0,
            ;
            lemma_nearest_size(probe, DOUBLE as int);
            lemma_round_div_upper(nearest(probe, DOUBLE as int), 200_000_000, p as int);
        }
        let step: u128 = div_half_up(round(PROBE_STEP_HZ as u128 * n, DOUBLE), p);
        if step >= 2 {
            step as usize - 1
        } else {
            1
        }
    }

    /// Tick positions with their MHz labels, spaced so labels never touch.
    pub fn ticks(&self) -> (out: Vec<(usize, i64)>)
        requires
            axis_ok(self@),
        ensures
            as_ticks(out@) == axis_ticks(self@),
            forall|k: int|
                0 <= k < out@.len() ==> (#[trigger] out@[k]).0 <= 400_000_000 && 0 <= out@[k].1
                    <= 40_000,
    {
        let mut out: Vec<(usize, i64)> = Vec::new();
        let ghost mut all: Seq<(int, int)> = Seq::empty();
        assert(as_ticks(out@) =~= Seq::empty());
        let mut i: usize = 0;
        while i < self.segs.len()
            invariant
                i <= self.segs.len(),
                axis_ok(self@),
                all == ticks_upto(self@, i as int),
                as_ticks(out@) == thinned(all),
                forall|k: int|
                    0 <= k < out@.len() ==> (#[trigger] out@[k]).0 <= 400_000_000 && 0 <= out@[k].1
                        <= 40_000,
            decreases self.segs.len() - i,
        {
            let s: Seg = self.segs[i];
            assert(self@[i as int] == s);
            let step: i64 = step_for(&s);
            let unit: i64 = step * 1_000_000;
            proof {
                assert(-10_000_000 + unit - 1 >= 0);
            }
            let first: i64 = ((s.lo_hz + unit - 1) / unit) * step;
            let ghost before = all;
            let mut mhz: i64 = first;
            proof {
                let q = (s.lo_hz + unit - 1) / (unit as int);
                assert(q * unit <= s.lo_hz + unit - 1 && q >= 0) by (nonlinear_arith)
                    requires
                        q == (s.lo_hz + unit - 1) / (unit as int),
                        unit > 0,
                        s.lo_hz + unit - 1 >= 0,
                ;
                assert(q * step * 1_000_000 == q * unit) by (nonlinear_arith)
                    requires
                        unit == step * 1_000_000,
                ;
            }
            while mhz * 1_000_000 <= s.hi_hz
                invariant
                    axis_ok(self@),
                    50 <= step <= 1000,
                    0 <= mhz <= 40_000,
                    -10_000_000 <= s.hi_hz <= 30_010_000_000,
                    before + ticks_from(self@, s, first as int, step as int) == all + ticks_from(
                        self@,
                        s,
                        mhz as int,
                        step as int,
                    ),
                    as_ticks(out@) == thinned(all),
                    forall|k: int|
                        0 <= k < out@.len() ==> (#[trigger] out@[k]).0 <= 400_000_000 && 0
                            <= out@[k].1 <= 40_000,
                decreases s.hi_hz + step * 1_000_000 - mhz * 1_000_000,
            {
                let x: usize = self.x(mhz as i128 * 1_000_000_000);
                let ghost prev = as_ticks(out@);
                let ghost tick = (x as int, mhz as int);
                let len: usize = out.len();
                let clear: bool = if len == 0 {
                    true
                } else {
                    let last: (usize, i64) = out[len - 1];
                    let need: i64 = 4 * (count_digits(last.1) + count_digits(mhz));
                    x as i64 - last.0 as i64 >= need
                };
                proof {
                    assert(prev.len() > 0 ==> prev.last() == (out@[len - 1].0 as int, out@[len
                        - 1].1 as int));
                    assert(clear == !(prev.len() > 0 && touches(prev.last(), tick)));
                }
                if clear {
                    out.push((x, mhz));
                }
                proof {
                    let next = all.push(tick);
                    assert(next.drop_last() =~= all);
                    assert(next.last() == tick);
                    assert(clear ==> as_ticks(out@) =~= prev.push(tick));
                    assert(all + ticks_from(self@, s, mhz as int, step as int) =~= next
                        + ticks_from(self@, s, mhz + step, step as int));
                    all = next;
                }
                mhz = mhz + step;
            }
            assert(all =~= before + ticks_from(self@, s, first as int, step as int));
            i = i + 1;
        }
        out
    }
}

/// Megahertz between two ticks of a segment.
fn step_for(s: &Seg) -> (mhz: i64)
    requires
        s.lo_hz <= s.hi_hz,
        -SEGMENT_MARGIN_HZ <= s.lo_hz,
        s.hi_hz <= MAX_CHANNEL_HZ + SEGMENT_MARGIN_HZ,
        s.x0 <= s.x1 <= 400_000_000,
    ensures
        mhz == tick_step(*s),
        50 <= mhz <= 1000,
{
    let px: i128 = 1_000_000 * (s.x1 - s.x0) as i128;
    let need: i128 = TICK_SPACING_PX as i128 * (s.hi_hz - s.lo_hz) as i128;
    if 50 * px >= need {
        50
    } else if 100 * px >= need {
        100
    } else if 200 * px >= need {
        200
    } else if 500 * px >= need {
        500
    } else {
        1000
    }
}

/// How far a frequency lies outside a segment, in millihertz.
pub fn dist(s: &Seg, milli_hz: i128) -> (d: i128)
    requires
        -MAX_MILLI_HZ <= milli_hz <= MAX_MILLI_HZ,
        -SEGMENT_MARGIN_HZ <= s.lo_hz <= s.hi_hz <= MAX_CHANNEL_HZ + SEGMENT_MARGIN_HZ,
    ensures
        d == seg_dist(*s, milli_hz as int),
{
    let lo: i128 = 1000 * s.lo_hz as i128;
    let hi: i128 = 1000 * s.hi_hz as i128;
    if milli_hz < lo {
        lo - milli_hz
    } else if milli_hz > hi {
        milli_hz - hi
    } else {
        0
    }
}

/// A column lies in its stretch, and so does what it is rounded from.
pub proof fn lemma_column(part: int, width: int, x0: int, px: int)
    requires
        0 <= part <= width,
        0 < width,
        0 <= x0,
        0 <= px,
        x0 + px <= 400_000_000,
    ensures
        x0 <= column(part, width, x0, px) <= x0 + px,
        ({
            let (n, p) = quotient(part, width, DOUBLE as int);
            let off = nearest(n * px, DOUBLE as int);
            &&& 0 <= off
            &&& x0 * p + off <= (x0 + px) * p
            &&& 0 <= nearest(x0 * p + off, DOUBLE as int) <= (x0 + px) * p
        }),
{
    let (n, p) = quotient(part, width, DOUBLE as int);
    let off = nearest(n * px, DOUBLE as int);
    lemma_quotient_size(part, width, DOUBLE as int);
    lemma_quotient_at_most(part, width, DOUBLE as int, 1);
    let e = choose|e: nat| p == #[trigger] pow2(e);
    assert(0 <= n * px <= px * p) by (nonlinear_arith)
        requires
            0 <= n <= p,
            0 <= px,
    ;
    lemma_nearest_size(n * px, DOUBLE as int);
    lemma_nearest_monotone(n * px, px * p, DOUBLE as int);
    lemma_nearest_exact(px, e, DOUBLE as int);
    assert((x0 + px) * p == x0 * p + px * p) by (nonlinear_arith);
    assert(0 <= x0 * p) by (nonlinear_arith)
        requires
            0 <= x0,
            0 <= p,
    ;
    let sum = x0 * p + off;
    lemma_nearest_monotone(x0 * p, sum, DOUBLE as int);
    lemma_nearest_monotone(sum, (x0 + px) * p, DOUBLE as int);
    lemma_nearest_exact(x0, e, DOUBLE as int);
    lemma_nearest_exact(x0 + px, e, DOUBLE as int);
    let top = nearest(sum, DOUBLE as int);
    lemma_round_div_upper(top, x0 + px, p);
    lemma_round_div(0, top, x0, p);
}

/// A larger part lies no further left.
proof fn lemma_column_monotone(part: int, more: int, width: int, x0: int, px: int)
    requires
        0 <= part <= more <= width,
        0 < width,
        0 <= x0,
        0 <= px,
        x0 + px <= 400_000_000,
    ensures
        column(part, width, x0, px) <= column(more, width, x0, px),
{
    let (n, p) = quotient(part, width, DOUBLE as int);
    let (m, q) = quotient(more, width, DOUBLE as int);
    let off = nearest(n * px, DOUBLE as int);
    let far = nearest(m * px, DOUBLE as int);
    lemma_quotient_size(part, width, DOUBLE as int);
    lemma_quotient_size(more, width, DOUBLE as int);
    assert(part * width <= more * width) by (nonlinear_arith)
        requires
            part <= more,
            0 < width,
    ;
    lemma_quotient_monotone(part, width, more, width, DOUBLE as int);
    lemma_column(part, width, x0, px);
    lemma_column(more, width, x0, px);
    let e = choose|e: nat| p == #[trigger] pow2(e);
    let f = choose|f: nat| q == #[trigger] pow2(f);
    assert((n * px) * q <= (m * px) * p) by (nonlinear_arith)
        requires
            n * q <= m * p,
            0 <= px,
    ;
    lemma_nearest_monotone((n * px) * q, (m * px) * p, DOUBLE as int);
    lemma_nearest_scales(n * px, f, DOUBLE as int);
    lemma_nearest_scales(m * px, e, DOUBLE as int);
    let a = x0 * p + off;
    let b = x0 * q + far;
    assert(a * q <= b * p) by (nonlinear_arith)
        requires
            a == x0 * p + off,
            b == x0 * q + far,
            off * q <= far * p,
    ;
    lemma_nearest_monotone(a * q, b * p, DOUBLE as int);
    lemma_nearest_scales(a, f, DOUBLE as int);
    lemma_nearest_scales(b, e, DOUBLE as int);
    lemma_round_div_monotone(nearest(a, DOUBLE as int), p, nearest(b, DOUBLE as int), q);
}

/// Inside a segment, a higher frequency is never drawn further left.
proof fn lemma_x_in_seg_monotone(s: Seg, f: int, g: int)
    requires
        f <= g,
        s.lo_hz < s.hi_hz,
        s.x0 <= s.x1 <= 400_000_000,
    ensures
        s.x0 <= x_in_seg(s, f) <= x_in_seg(s, g) <= s.x1,
{
    let px = s.x1 - s.x0;
    let lo = 1000 * s.lo_hz;
    let hi = 1000 * s.hi_hz;
    if lo < f && f < hi {
        lemma_column(f - lo, hi - lo, s.x0 as int, px);
    }
    if lo < g && g < hi {
        lemma_column(g - lo, hi - lo, s.x0 as int, px);
        if lo < f {
            lemma_column_monotone(f - lo, g - lo, hi - lo, s.x0 as int, px);
        }
    }
}

/// A higher frequency is never drawn further left.
pub proof fn law_axis_is_monotonic(segs: Seq<Seg>, f: int, g: int)
    requires
        axis_ok(segs),
        f <= g,
    ensures
        axis_x(segs, f) <= axis_x(segs, g),
{
    let df = Seq::new(segs.len(), |i: int| seg_dist(segs[i], f));
    let dg = Seq::new(segs.len(), |i: int| seg_dist(segs[i], g));
    lemma_first_min(df);
    lemma_first_min(dg);
    let i = seg_index(segs, f);
    let j = seg_index(segs, g);
    assert(segs[i].lo_hz < segs[i].hi_hz && segs[j].lo_hz < segs[j].hi_hz);
    lemma_x_in_seg_monotone(segs[i], f, g);
    lemma_x_in_seg_monotone(segs[j], f, g);
    if i > j {
        assert(df[i] < df[j]);
        assert(dg[j] <= dg[i]);
        assert(segs[j].hi_hz < segs[i].lo_hz);
    } else if i < j {
        assert(segs[i].x1 + SEGMENT_GAP_PX <= segs[j].x0);
    }
}

/// A channel inside a segment is drawn inside that segment's columns.
pub proof fn law_axis_x_stays_in_segment(segs: Seq<Seg>, i: int, f: int)
    requires
        axis_ok(segs),
        0 <= i < segs.len(),
        1000 * segs[i].lo_hz <= f <= 1000 * segs[i].hi_hz,
    ensures
        segs[i].x0 <= axis_x(segs, f) <= segs[i].x1,
{
    let df = Seq::new(segs.len(), |k: int| seg_dist(segs[k], f));
    lemma_first_min(df);
    let k = seg_index(segs, f);
    assert(df[k] <= df[i]);
    assert(segs[k].lo_hz < segs[k].hi_hz && segs[i].lo_hz < segs[i].hi_hz);
    if k < i {
        assert(segs[k].hi_hz < segs[i].lo_hz);
    } else if i < k {
        assert(segs[i].hi_hz < segs[k].lo_hz);
    }
    lemma_x_in_seg_monotone(segs[i], f, f);
}

/// What thinning keeps are ticks it was given, none touching the one before.
pub proof fn lemma_thinned(ticks: Seq<(int, int)>)
    ensures
        thinned(ticks).len() <= ticks.len(),
        forall|k: int|
            0 <= k < thinned(ticks).len() ==> ticks.contains(#[trigger] thinned(ticks)[k]),
        forall|k: int|
            0 < k < thinned(ticks).len() ==> !touches(
                thinned(ticks)[k - 1],
                #[trigger] thinned(ticks)[k],
            ),
    decreases ticks.len(),
{
    if ticks.len() > 0 {
        let front = ticks.drop_last();
        lemma_thinned(front);
        let kept = thinned(front);
        let t = thinned(ticks);
        assert(ticks[ticks.len() - 1] == ticks.last());
        assert forall|k: int| 0 <= k < t.len() implies ticks.contains(#[trigger] t[k]) by {
            if k < kept.len() {
                assert(t[k] == kept[k]);
                let j = choose|j: int| 0 <= j < front.len() && front[j] == kept[k];
                assert(ticks[j] == t[k]);
            }
        }
        assert forall|k: int| 0 < k < t.len() implies !touches(t[k - 1], #[trigger] t[k]) by {
            assert(t[k - 1] == kept[k - 1]);
            if k < kept.len() {
                assert(t[k] == kept[k]);
            }
        }
    }
}

proof fn lemma_ticks_from_placed(segs: Seq<Seg>, s: Seg, mhz: int, step: int)
    ensures
        forall|k: int|
            0 <= k < ticks_from(segs, s, mhz, step).len() ==> (#[trigger] ticks_from(
                segs,
                s,
                mhz,
                step,
            )[k]).0 == axis_x(segs, ticks_from(segs, s, mhz, step)[k].1 * 1_000_000_000),
    decreases s.hi_hz + step * 1_000_000 - mhz * 1_000_000,
{
    if step > 0 && mhz * 1_000_000 <= s.hi_hz {
        lemma_ticks_from_placed(segs, s, mhz + step, step);
        let rest = ticks_from(segs, s, mhz + step, step);
        let t = ticks_from(segs, s, mhz, step);
        assert(forall|k: int| 0 < k < t.len() ==> #[trigger] t[k] == rest[k - 1]);
    }
}

proof fn lemma_ticks_placed(segs: Seq<Seg>, upto: int)
    ensures
        forall|k: int|
            0 <= k < ticks_upto(segs, upto).len() ==> (#[trigger] ticks_upto(segs, upto)[k]).0
                == axis_x(segs, ticks_upto(segs, upto)[k].1 * 1_000_000_000),
    decreases upto,
{
    if upto > 0 {
        let s = segs[upto - 1];
        lemma_ticks_placed(segs, upto - 1);
        lemma_ticks_from_placed(segs, s, first_tick(s), tick_step(s));
        let front = ticks_upto(segs, upto - 1);
        let back = ticks_from(segs, s, first_tick(s), tick_step(s));
        let t = ticks_upto(segs, upto);
        assert(forall|k: int|
            0 <= k < t.len() ==> #[trigger] t[k] == (if k < front.len() {
                front[k]
            } else {
                back[k - front.len()]
            }));
    }
}

/// The labels of two neighbouring ticks never touch, whichever segments they are in,
/// and every tick stands where its frequency does.
pub proof fn law_tick_labels_never_touch(segs: Seq<Seg>, k: int)
    requires
        0 <= k < axis_ticks(segs).len(),
    ensures
        k > 0 ==> axis_ticks(segs)[k].0 - axis_ticks(segs)[k - 1].0 >= 4 * (digits(
            axis_ticks(segs)[k - 1].1,
        ) + digits(axis_ticks(segs)[k].1)),
        axis_ticks(segs)[k].0 == axis_x(segs, axis_ticks(segs)[k].1 * 1_000_000_000),
{
    let all = ticks_upto(segs, segs.len() as int);
    lemma_thinned(all);
    lemma_ticks_placed(segs, segs.len() as int);
    assert(all.contains(axis_ticks(segs)[k]));
    let j = choose|j: int| 0 <= j < all.len() && all[j] == axis_ticks(segs)[k];
    assert(all[j].0 == axis_x(segs, all[j].1 * 1_000_000_000));
}

} // verus!
