//! Where the sweep tunes.

use vstd::prelude::*;

use crate::axis::MAX_CHANNEL_HZ;
use crate::band_scan::distance;
use crate::bands::{catalog, entry_freqs, ScanBands};
use crate::order::{
    ascending, first_min, gap, is_first_min, lemma_ascending, lemma_first_min, sort_ascending,
};

verus! {

/// Usable part of a capture: a carrier anywhere inside four fifths of the sample rate
/// is both found and reported at the right frequency.
pub open spec fn usable_span(rate: int) -> int {
    rate * 4 / 5
}

/// Usable part of a capture, in the unit of the rate.
pub fn usable_span_of(rate: u64) -> (span: u64)
    ensures
        span == usable_span(rate as int),
        span <= rate,
{
    rate / 5 * 4 + rate % 5 * 4 / 5
}

/// Ascending numbers, each once.
pub open spec fn deduped(s: Seq<i64>) -> Seq<i64>
    decreases s.len(),
{
    if s.len() == 0 {
        Seq::empty()
    } else {
        let front = deduped(s.drop_last());
        if front.len() > 0 && front.last() == s.last() {
            front
        } else {
            front.push(s.last())
        }
    }
}

/// How many of the leading channels fit one window with the first, at least `i`.
pub open spec fn absorbed(s: Seq<i64>, span_milli_hz: int, i: int) -> int
    decreases s.len() - i,
{
    if i < s.len() && 1000 * (s[i] - s[0]) <= span_milli_hz {
        absorbed(s, span_milli_hz, i + 1)
    } else {
        i
    }
}

/// The windows over rising channels, left to right: each takes the leftmost channel
/// not yet covered and every channel within the span of it, and sits at the middle
/// of those.
pub open spec fn centers(s: Seq<i64>, span_milli_hz: int) -> Seq<int>
    decreases s.len(),
{
    if s.len() == 0 {
        Seq::empty()
    } else {
        let n = absorbed(s, span_milli_hz, 1);
        if 0 < n <= s.len() {
            seq![500 * (s[0] + s[n - 1])] + centers(s.skip(n), span_milli_hz)
        } else {
            Seq::empty()
        }
    }
}

/// The tune plan for a set of channels.
pub open spec fn planned(channels_hz: Seq<i64>, span_milli_hz: int) -> Seq<int> {
    centers(deduped(ascending(channels_hz)), span_milli_hz)
}

/// Numbers run strictly upwards.
pub open spec fn rises(s: Seq<i64>) -> bool {
    forall|i: int, j: int| 0 <= i < j < s.len() ==> s[i] < s[j]
}

proof fn lemma_absorbed(s: Seq<i64>, span: int, i: int)
    requires
        rises(s),
        1 <= i <= s.len(),
        0 <= span,
        forall|k: int| 0 <= k < i ==> 1000 * (#[trigger] s[k] - s[0]) <= span,
    ensures
        i <= absorbed(s, span, i) <= s.len(),
        forall|k: int| 0 <= k < absorbed(s, span, i) ==> 1000 * (#[trigger] s[k] - s[0]) <= span,
        absorbed(s, span, i) < s.len() ==> 1000 * (s[absorbed(s, span, i)] - s[0]) > span,
    decreases s.len() - i,
{
    if i < s.len() && 1000 * (s[i] - s[0]) <= span {
        lemma_absorbed(s, span, i + 1);
    }
}

pub proof fn lemma_deduped(s: Seq<i64>)
    requires
        forall|i: int, j: int| 0 <= i < j < s.len() ==> s[i] <= s[j],
    ensures
        rises(deduped(s)),
        deduped(s).len() <= s.len(),
        s.len() > 0 ==> deduped(s).len() > 0 && deduped(s).last() == s.last(),
        forall|x: i64| deduped(s).contains(x) <==> s.contains(x),
    decreases s.len(),
{
    if s.len() > 0 {
        let front = s.drop_last();
        lemma_deduped(front);
        let d = deduped(front);
        let r = deduped(s);
        if front.len() > 0 {
            assert(front.last() <= s.last());
        }
        assert forall|x: i64| r.contains(x) <==> s.contains(x) by {
            if s.contains(x) {
                let i = choose|i: int| 0 <= i < s.len() && s[i] == x;
                if i < front.len() {
                    assert(front[i] == x);
                    assert(front.contains(x));
                    assert(d.contains(x));
                    let j = choose|j: int| 0 <= j < d.len() && d[j] == x;
                    assert(r[j] == x);
                } else {
                    assert(r[r.len() - 1] == x);
                }
            }
            if r.contains(x) {
                let j = choose|j: int| 0 <= j < r.len() && r[j] == x;
                if j < d.len() {
                    assert(d[j] == x);
                    assert(front.contains(x));
                    let i = choose|i: int| 0 <= i < front.len() && front[i] == x;
                    assert(s[i] == x);
                } else {
                    assert(s[s.len() - 1] == x);
                }
            }
        }
        assert forall|i: int, j: int| 0 <= i < j < r.len() implies r[i] < r[j] by {
            if j == d.len() {
                if i < d.len() - 1 {
                    assert(d[i] < d[d.len() - 1]);
                }
            } else {
                assert(d[i] < d[j]);
            }
        }
    }
}

/// The leftmost channel of each window.
spec fn anchors(s: Seq<i64>, span: int) -> Seq<i64>
    decreases s.len(),
{
    if s.len() == 0 {
        Seq::empty()
    } else {
        let n = absorbed(s, span, 1);
        if 0 < n <= s.len() {
            seq![s[0]] + anchors(s.skip(n), span)
        } else {
            Seq::empty()
        }
    }
}

proof fn lemma_centers(s: Seq<i64>, span: int)
    requires
        rises(s),
        0 <= span,
    ensures
        centers(s, span).len() <= s.len(),
        centers(s, span).len() == anchors(s, span).len(),
        s.len() > 0 ==> centers(s, span).len() > 0,
        forall|k: int|
            0 <= k < centers(s, span).len() ==> 1000 * s[0] <= #[trigger] centers(s, span)[k],
        forall|k: int|
            0 <= k < centers(s, span).len() ==> #[trigger] centers(s, span)[k] <= 1000
                * s.last(),
        forall|i: int, j: int|
            0 <= i < j < centers(s, span).len() ==> centers(s, span)[i] < centers(s, span)[j],
        covers(s, centers(s, span), span),
        forall|k: int| 0 <= k < anchors(s, span).len() ==> s.contains(#[trigger] anchors(s, span)[k]),
        forall|i: int, j: int|
            0 <= i < j < anchors(s, span).len() ==> 1000 * (#[trigger] anchors(s, span)[j]
                - #[trigger] anchors(s, span)[i]) > span,
    decreases s.len(),
{
    if s.len() > 0 {
        lemma_absorbed(s, span, 1);
        let n = absorbed(s, span, 1);
        let rest = s.skip(n);
        assert(rises(rest)) by {
            assert forall|i: int, j: int| 0 <= i < j < rest.len() implies rest[i] < rest[j] by {
                assert(s[n + i] < s[n + j]);
            }
        }
        lemma_centers(rest, span);
        let all = centers(s, span);
        let tail = centers(rest, span);
        let mid = 500 * (s[0] + s[n - 1]);
        assert(all =~= seq![mid] + tail);
        assert(s[n - 1] >= s[0]) by {
            if n > 1 {
                assert(s[0] < s[n - 1]);
            }
        }
        if rest.len() > 0 {
            assert(s[n - 1] < s[n]);
            assert(rest.last() == s.last());
            assert(rest[0] == s[n]);
            assert(s[0] < s[n]);
        } else {
            assert(s[n - 1] == s.last());
        }
        assert forall|k: int| 0 <= k < all.len() implies 1000 * s[0] <= #[trigger] all[k] by {
            if k > 0 {
                assert(all[k] == tail[k - 1]);
            }
        }
        assert forall|k: int| 0 <= k < all.len() implies #[trigger] all[k] <= 1000 * s.last() by {
            if k > 0 {
                assert(all[k] == tail[k - 1]);
            } else if n < s.len() {
                assert(s[n - 1] < s[s.len() - 1]);
            }
        }
        assert forall|i: int, j: int| 0 <= i < j < all.len() implies all[i] < all[j] by {
            assert(all[j] == tail[j - 1]);
            if i == 0 {
                assert(1000 * rest[0] <= tail[j - 1]);
            } else {
                assert(all[i] == tail[i - 1]);
                assert(tail[i - 1] < tail[j - 1]);
            }
        }
        assert forall|c: int| 0 <= c < s.len() implies held(#[trigger] s[c], all, span) by {
            if c < n {
                assert(1000 * (s[n - 1] - s[0]) <= span);
                if c > 0 {
                    assert(s[0] < s[c]);
                }
                if c < n - 1 {
                    assert(s[c] < s[n - 1]);
                }
                assert(2 * gap(1000 * s[c], all[0]) <= span);
            } else {
                assert(rest[c - n] == s[c]);
                assert(held(rest[c - n], tail, span));
                let k = choose|k: int|
                    0 <= k < tail.len() && 2 * gap(1000 * rest[c - n], #[trigger] tail[k]) <= span;
                assert(all[k + 1] == tail[k]);
            }
        }
        let front = anchors(rest, span);
        let marks = anchors(s, span);
        assert(marks =~= seq![s[0]] + front);
        assert forall|k: int| 0 <= k < marks.len() implies s.contains(#[trigger] marks[k]) by {
            if k == 0 {
                assert(s[0] == marks[0]);
            } else {
                assert(marks[k] == front[k - 1]);
                assert(rest.contains(front[k - 1]));
                let i = choose|i: int| 0 <= i < rest.len() && rest[i] == front[k - 1];
                assert(s[n + i] == marks[k]);
            }
        }
        assert forall|i: int, j: int| 0 <= i < j < marks.len() implies 1000 * (
        #[trigger] marks[j] - #[trigger] marks[i]) > span by {
            assert(marks[j] == front[j - 1]);
            if i == 0 {
                assert(rest.contains(front[j - 1]));
                let q = choose|q: int| 0 <= q < rest.len() && rest[q] == front[j - 1];
                assert(rest[q] == s[n + q]);
                if q > 0 {
                    assert(s[n] < s[n + q]);
                }
            } else {
                assert(marks[i] == front[i - 1]);
            }
        }
    }
}

/// Whether some tune's window holds a channel.
pub open spec fn held(hz: i64, tunes: Seq<int>, span_milli_hz: int) -> bool {
    exists|k: int|
        0 <= k < tunes.len() && 2 * gap(1000 * hz, #[trigger] tunes[k]) <= span_milli_hz
}

/// Whether a plan of tunes puts every channel inside some window.
pub open spec fn covers(channels_hz: Seq<i64>, tunes: Seq<int>, span_milli_hz: int) -> bool {
    forall|c: int|
        0 <= c < channels_hz.len() ==> held(#[trigger] channels_hz[c], tunes, span_milli_hz)
}

proof fn lemma_planned_base(channels_hz: Seq<i64>, span: int)
    requires
        0 <= span,
    ensures
        rises(deduped(ascending(channels_hz))),
        deduped(ascending(channels_hz)).len() <= channels_hz.len(),
        forall|x: i64| deduped(ascending(channels_hz)).contains(x) <==> channels_hz.contains(x),
{
    lemma_ascending(channels_hz);
    lemma_deduped(ascending(channels_hz));
}

/// Every channel sits inside some planned window.
pub proof fn law_plan_covers_every_channel(channels_hz: Seq<i64>, span_milli_hz: int)
    requires
        0 <= span_milli_hz,
    ensures
        covers(channels_hz, planned(channels_hz, span_milli_hz), span_milli_hz),
{
    let s = deduped(ascending(channels_hz));
    lemma_planned_base(channels_hz, span_milli_hz);
    lemma_centers(s, span_milli_hz);
    let tunes = planned(channels_hz, span_milli_hz);
    assert forall|c: int| 0 <= c < channels_hz.len() implies held(
        #[trigger] channels_hz[c],
        tunes,
        span_milli_hz,
    ) by {
        assert(channels_hz.contains(channels_hz[c]));
        assert(s.contains(channels_hz[c]));
        let i = choose|i: int| 0 <= i < s.len() && s[i] == channels_hz[c];
        assert(held(s[i], tunes, span_milli_hz));
    }
}

/// Hops ascend so synthesisers retune monotonically, and two never share a centre.
pub proof fn law_plan_ascends(channels_hz: Seq<i64>, span_milli_hz: int)
    requires
        0 <= span_milli_hz,
    ensures
        forall|i: int, j: int|
            0 <= i < j < planned(channels_hz, span_milli_hz).len() ==> planned(
                channels_hz,
                span_milli_hz,
            )[i] < planned(channels_hz, span_milli_hz)[j],
{
    lemma_planned_base(channels_hz, span_milli_hz);
    lemma_centers(deduped(ascending(channels_hz)), span_milli_hz);
}

/// No plan that covers every channel has fewer tunes, and one tune per channel is
/// never exceeded.
pub proof fn law_plan_is_shortest(channels_hz: Seq<i64>, span_milli_hz: int, other: Seq<int>)
    requires
        0 <= span_milli_hz,
        covers(channels_hz, other, span_milli_hz),
    ensures
        planned(channels_hz, span_milli_hz).len() <= other.len(),
        planned(channels_hz, span_milli_hz).len() <= channels_hz.len(),
{
    let s = deduped(ascending(channels_hz));
    lemma_planned_base(channels_hz, span_milli_hz);
    lemma_centers(s, span_milli_hz);
    let marks = anchors(s, span_milli_hz);
    let serves = |i: int, k: int|
        0 <= k < other.len() && 2 * gap(1000 * marks[i], other[k]) <= span_milli_hz;
    let which = Seq::new(marks.len(), |i: int| choose|k: int| #[trigger] serves(i, k));
    assert forall|i: int| 0 <= i < marks.len() implies serves(i, #[trigger] which[i]) by {
        assert(s.contains(marks[i]));
        assert(channels_hz.contains(marks[i]));
        let c = choose|c: int| 0 <= c < channels_hz.len() && channels_hz[c] == marks[i];
        assert(held(channels_hz[c], other, span_milli_hz));
        let k = choose|k: int|
            0 <= k < other.len() && 2 * gap(1000 * channels_hz[c], #[trigger] other[k])
                <= span_milli_hz;
        assert(serves(i, k));
    }
    assert(which.no_duplicates()) by {
        assert forall|i: int, j: int|
            0 <= i < which.len() && 0 <= j < which.len() && i != j implies which[i] != which[j] by {
            assert(serves(i, which[i]) && serves(j, which[j]));
            if i < j {
                assert(1000 * (marks[j] - marks[i]) > span_milli_hz);
            } else {
                assert(1000 * (marks[i] - marks[j]) > span_milli_hz);
            }
        }
    }
    which.unique_seq_to_set();
    vstd::set_lib::lemma_int_range(0, other.len() as int);
    assert forall|x: int| which.to_set().contains(x) implies vstd::set_lib::set_int_range(
        0,
        other.len() as int,
    ).contains(x) by {
        assert(which.contains(x));
        let i = choose|i: int| 0 <= i < which.len() && which[i] == x;
        assert(serves(i, which[i]));
    }
    vstd::set_lib::lemma_len_subset(
        which.to_set(),
        vstd::set_lib::set_int_range(0, other.len() as int),
    );
}

/// Ascending numbers, each once.
fn dedup(s: &Vec<i64>) -> (r: Vec<i64>)
    ensures
        r@ == deduped(s@),
{
    let mut r: Vec<i64> = Vec::new();
    let mut i: usize = 0;
    while i < s.len()
        invariant
            i <= s@.len(),
            r@ == deduped(s@.take(i as int)),
        decreases s@.len() - i,
    {
        proof {
            assert(s@.take(i + 1).drop_last() =~= s@.take(i as int));
            assert(s@.take(i + 1).last() == s@[i as int]);
        }
        let n: usize = r.len();
        if n == 0 || r[n - 1] != s[i] {
            r.push(s[i]);
        }
        i = i + 1;
    }
    assert(s@.take(s@.len() as int) =~= s@);
    r
}

/// Tunes as plain numbers.
pub open spec fn as_tunes(v: Seq<i64>) -> Seq<int> {
    Seq::new(v.len(), |i: int| v[i] as int)
}

/// Plan the fewest tune centres that put every channel inside some capture window of
/// a given width.
pub fn plan_tune_centers(channels_hz: &Vec<i64>, span_milli_hz: u64) -> (r: Vec<i64>)
    requires
        forall|i: int|
            0 <= i < channels_hz@.len() ==> 0 <= #[trigger] channels_hz@[i] <= MAX_CHANNEL_HZ,
    ensures
        as_tunes(r@) == planned(channels_hz@, span_milli_hz as int),
        forall|i: int| 0 <= i < r@.len() ==> 0 <= #[trigger] r@[i] <= 1000 * MAX_CHANNEL_HZ,
{
    let sorted: Vec<i64> = sort_ascending(channels_hz);
    let s: Vec<i64> = dedup(&sorted);
    proof {
        lemma_planned_base(channels_hz@, span_milli_hz as int);
        lemma_centers(s@, span_milli_hz as int);
        assert forall|i: int| 0 <= i < s@.len() implies 0 <= #[trigger] s@[i]
            <= MAX_CHANNEL_HZ by {
            assert(s@.contains(s@[i]));
            assert(channels_hz@.contains(s@[i]));
        }
    }
    let mut r: Vec<i64> = Vec::new();
    let mut i: usize = 0;
    proof {
        assert(s@.skip(0) =~= s@);
        assert(as_tunes(r@) + centers(s@, span_milli_hz as int) =~= planned(
            channels_hz@,
            span_milli_hz as int,
        ));
    }
    while i < s.len()
        invariant
            i <= s@.len(),
            rises(s@),
            forall|k: int| 0 <= k < s@.len() ==> 0 <= #[trigger] s@[k] <= MAX_CHANNEL_HZ,
            as_tunes(r@) + centers(s@.skip(i as int), span_milli_hz as int) == planned(
                channels_hz@,
                span_milli_hz as int,
            ),
            forall|k: int| 0 <= k < r@.len() ==> 0 <= #[trigger] r@[k] <= 1000 * MAX_CHANNEL_HZ,
        decreases s@.len() - i,
    {
        let ghost rest = s@.skip(i as int);
        let first: i64 = s[i];
        proof {
            assert(rises(rest)) by {
                assert forall|a: int, b: int| 0 <= a < b < rest.len() implies rest[a]
                    < rest[b] by {
                    assert(s@[i + a] < s@[i + b]);
                }
            }
            lemma_absorbed(rest, span_milli_hz as int, 1);
            assert(0 <= s@[i as int] <= MAX_CHANNEL_HZ);
        }
        let mut j: usize = i + 1;
        let mut last: i64 = first;
        while j < s.len() && 1000 * (s[j] - first) as u64 <= span_milli_hz
            invariant
                i < j <= s@.len(),
                rest == s@.skip(i as int),
                rises(s@),
                first == s@[i as int],
                last == s@[j - 1],
                forall|k: int| 0 <= k < s@.len() ==> 0 <= #[trigger] s@[k] <= MAX_CHANNEL_HZ,
                absorbed(rest, span_milli_hz as int, 1) == absorbed(
                    rest,
                    span_milli_hz as int,
                    j - i,
                ),
            ensures
                i < j <= s@.len(),
                last == s@[j - 1],
                absorbed(rest, span_milli_hz as int, 1) == j - i,
            decreases s@.len() - j,
        {
            proof {
                assert(rest[j - i] == s@[j as int]);
                assert(rest[0] == first);
                assert(0 <= s@[j as int] <= MAX_CHANNEL_HZ && 0 <= s@[i as int]);
                assert(s@[i as int] < s@[j as int]);
            }
            last = s[j];
            j = j + 1;
        }
        proof {
            assert(0 <= s@[j - 1] <= MAX_CHANNEL_HZ);
        }
        let ghost before = as_tunes(r@);
        let mid: i64 = 500 * (first + last);
        r.push(mid);
        proof {
            assert(rest.skip(j - i) =~= s@.skip(j as int));
            assert(rest[j - i - 1] == last);
            assert(as_tunes(r@) =~= before.push(mid as int));
            assert(before + centers(rest, span_milli_hz as int) =~= as_tunes(r@) + centers(
                s@.skip(j as int),
                span_milli_hz as int,
            ));
        }
        i = j;
    }
    proof {
        assert(s@.skip(s@.len() as int) =~= Seq::<i64>::empty());
        assert(as_tunes(r@) =~= planned(channels_hz@, span_milli_hz as int));
    }
    r
}

/// Build the hop list for the auto-scan loop, covering every channel in `bands` with
/// as few tunes as the instantaneous bandwidth allows.
pub fn build_scan_hops(rate_milli_hz: u64, bands: ScanBands) -> (r: Vec<i64>)
    ensures
        as_tunes(r@) == planned(
            entry_freqs(catalog(bands.whole())),
            usable_span(rate_milli_hz as int),
        ),
        forall|i: int| 0 <= i < r@.len() ==> 0 <= #[trigger] r@[i] <= 1000 * MAX_CHANNEL_HZ,
{
    let channels: Vec<i64> = bands.channel_freqs_hz();
    proof {
        assert forall|i: int| 0 <= i < channels@.len() implies 0 <= #[trigger] channels@[i]
            <= MAX_CHANNEL_HZ by {
            assert(0 < channels@[i] <= 5_945_000_000);
        }
    }
    plan_tune_centers(&channels, usable_span_of(rate_milli_hz))
}

/// A packet this far from a planned hop, or nearer, belongs to it.
pub const HOP_SNAP_MILLI_HZ: i64 = 1_000_000_000;

/// Whole hertz of a frequency, none below zero.
pub open spec fn whole_hz(milli_hz: int) -> int {
    if milli_hz < 0 {
        0
    } else {
        milli_hz / 1000
    }
}

/// Distances of the planned hops from a frequency.
pub open spec fn hop_gaps(hops: Seq<i64>, milli_hz: int) -> Seq<int> {
    Seq::new(hops.len(), |i: int| gap(milli_hz, hops[i] as int))
}

/// The hop a packet belongs to, in whole hertz: the nearest planned one within
/// tolerance, else where the packet says it is.
pub open spec fn hop_of(hops: Seq<i64>, milli_hz: int) -> int {
    let far = hop_gaps(hops, milli_hz);
    if hops.len() > 0 && far[first_min(far)] <= HOP_SNAP_MILLI_HZ {
        whole_hz(hops[first_min(far)] as int)
    } else {
        whole_hz(milli_hz)
    }
}

fn hertz(milli_hz: i64) -> (hz: u64)
    ensures
        hz == whole_hz(milli_hz as int),
{
    if milli_hz < 0 {
        0
    } else {
        milli_hz as u64 / 1000
    }
}

/// Snap an observed packet centre to the nearest expected hop within tolerance.
/// Hardware synthesisers report exact PLL frequencies with small fractional offsets
/// from the commanded centre. Use this only for hop bookkeeping; signal processing
/// must use the packet's measured centre.
pub fn snap_to_nearest_hop(milli_hz: i64, hops: &Vec<i64>) -> (hz: u64)
    ensures
        hz == hop_of(hops@, milli_hz as int),
{
    let ghost far = hop_gaps(hops@, milli_hz as int);
    if hops.len() == 0 {
        return hertz(milli_hz);
    }
    let mut best: usize = 0;
    let mut i: usize = 1;
    while i < hops.len()
        invariant
            1 <= i <= hops@.len(),
            best < i,
            far == hop_gaps(hops@, milli_hz as int),
            forall|j: int| 0 <= j < i ==> far[best as int] <= #[trigger] far[j],
            forall|j: int| 0 <= j < best ==> far[best as int] < #[trigger] far[j],
        decreases hops@.len() - i,
    {
        if distance(milli_hz as i128, hops[i] as i128) < distance(
            milli_hz as i128,
            hops[best] as i128,
        ) {
            best = i;
        }
        i = i + 1;
    }
    proof {
        assert(is_first_min(far, best as int));
        lemma_first_min(far);
    }
    if distance(milli_hz as i128, hops[best] as i128) <= HOP_SNAP_MILLI_HZ as i128 {
        hertz(hops[best])
    } else {
        hertz(milli_hz)
    }
}

/// A packet at a planned centre belongs to that hop.
pub proof fn law_exact_packet_is_its_hop(hops: Seq<i64>, k: int)
    requires
        0 <= k < hops.len(),
    ensures
        hop_of(hops, hops[k] as int) == whole_hz(hops[k] as int),
{
    let far = hop_gaps(hops, hops[k] as int);
    lemma_first_min(far);
    assert(far[k] == 0);
    assert(far[first_min(far)] <= far[k]);
}

} // verus!
