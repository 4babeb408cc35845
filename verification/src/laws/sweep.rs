//! What a sweep leaves behind: bars, hits and visits on the panel.

use std::time::Instant;

use vstd::prelude::*;

use crate::band_scan::{
    band_rank, bands_of, bar_gaps, bar_key, bars_kept, channel_gaps, distinct, find_hit, hit_from,
    hit_merged, hits_after, hits_kept, keys_rise, law_probed_bar_shows_its_level,
    law_result_is_shown, law_revisit_replaces_own_bars, lemma_filter_apart, lemma_filter_rises,
    lemma_hit_from, lemma_level_after, level_at, levels, nearest_tune, outside_window,
    same_carrier, BandScan, Channel, Detection, PanelMode, Probe, SAME_TUNE_MILLI_HZ,
};
use crate::laws::away;
use crate::order::{ascending, first_min, gap, lemma_ascending, lemma_first_min, with_key};

verus! {

/// Whether a panel took in one packet, at whatever moment.
pub open spec fn took_in(
    b: &mut BandScan,
    center_milli_hz: i64,
    first_of_hop: bool,
    probes: &[Probe],
    results: &[Detection],
) -> bool {
    ||| call_ensures(
        BandScan::record_hop,
        (b, center_milli_hz, first_of_hop, probes, results),
        (),
    )
    ||| exists|at: Instant| #[trigger]
        call_ensures(
            BandScan::record_hop_at,
            (b, center_milli_hz, first_of_hop, probes, results, at),
            (),
        )
}

/// Whether a frequency is shown at a multiple of 100 kHz: the nearest one, and of two
/// equally near the one further from zero.
pub open spec fn shown_at(milli_hz: int, key: i64) -> bool {
    &&& away(milli_hz, key * 100_000_000) <= 50_000_000
    &&& milli_hz - key * 100_000_000 == 50_000_000 ==> milli_hz < 0
    &&& key * 100_000_000 - milli_hz == 50_000_000 ==> milli_hz > 0
}

proof fn lemma_shown_at(center: i64, offset: i64, key: i64)
    ensures
        shown_at(center + offset, key) <==> key == bar_key(center as int, offset as int),
{
    let f = center + offset;
    let size = if f < 0 {
        -f
    } else {
        f as int
    };
    let q = (2 * size + 100_000_000) / 200_000_000;
    assert(q * 200_000_000 <= 2 * size + 100_000_000 < (q + 1) * 200_000_000);
}

proof fn lemma_level_is_a_bar(bars: Seq<(i64, i32)>, key: i64, level: i32)
    requires
        keys_rise(bars),
    ensures
        bars.contains((key, level)) <==> level_at(bars, key) == Some(level),
    decreases bars.len(),
{
    if bars.len() > 0 {
        let front = bars.drop_last();
        assert forall|i: int, j: int| 0 <= i < j < front.len() implies (#[trigger] front[i]).0 < (
        #[trigger] front[j]).0 by {
            assert(bars[i].0 < bars[j].0);
        }
        lemma_level_is_a_bar(front, key, level);
        let n = bars.len() - 1;
        if bars.contains((key, level)) {
            let i = choose|i: int| 0 <= i < bars.len() && bars[i] == (key, level);
            if i < n {
                assert(front[i] == (key, level));
                assert(bars[i].0 < bars[n].0);
            }
        }
        if front.contains((key, level)) {
            let i = choose|i: int| 0 <= i < front.len() && front[i] == (key, level);
            assert(bars[i] == (key, level));
        }
        if bars[n] == (key, level) {
            assert(bars.contains((key, level)));
        }
    }
}

/// A bar that a packet did not probe stays as it was, level and all, unless the packet is
/// the first of its hop and the bar lies no further from the hop's centre than half the
/// captured span and 5 MHz: then it goes.
pub proof fn law_unprobed_bars(
    b: &mut BandScan,
    center_milli_hz: i64,
    first_of_hop: bool,
    probes: &[Probe],
    results: &[Detection],
    key: i64,
    level: i32,
)
    requires
        old(b).wf(),
        final(b).wf(),
        took_in(b, center_milli_hz, first_of_hop, probes, results),
        forall|i: int|
            0 <= i < probes@.len() ==> !shown_at(
                center_milli_hz + (#[trigger] probes@[i]).offset_milli_hz,
                key,
            ),
    ensures
        final(b).energies@.contains((key, level)) <==> old(b).energies@.contains((key, level)) && (
        first_of_hop ==> 2 * away(key * 100_000_000, center_milli_hz as int) > old(b).span_milli_hz
            + 2 * 5_000_000_000),
{
    let bars = old(b).energies@;
    let span = old(b).span_milli_hz as int;
    let center = center_milli_hz as int;
    assert forall|i: int| 0 <= i < probes@.len() implies bar_key(
        center,
        (#[trigger] probes@[i]).offset_milli_hz as int,
    ) != key by {
        lemma_shown_at(center_milli_hz, probes@[i].offset_milli_hz, key);
    }
    lemma_level_is_a_bar(bars, key, level);
    lemma_level_is_a_bar(final(b).energies@, key, level);
    if first_of_hop {
        law_revisit_replaces_own_bars(bars, center, span, probes@, key);
        assert(outside_window(key, center, span) <==> 2 * away(key * 100_000_000, center) > span + 2
            * 5_000_000_000);
    } else {
        lemma_level_after(bars, center, probes@, key);
    }
}

/// A bar that a packet probed shows the level of the last probe that fell on it, and no
/// other.
pub proof fn law_probed_bars(
    b: &mut BandScan,
    center_milli_hz: i64,
    first_of_hop: bool,
    probes: &[Probe],
    results: &[Detection],
    i: int,
    key: i64,
    level: i32,
)
    requires
        old(b).wf(),
        final(b).wf(),
        took_in(b, center_milli_hz, first_of_hop, probes, results),
        0 <= i < probes@.len(),
        shown_at(center_milli_hz + probes@[i].offset_milli_hz, key),
        forall|j: int|
            i < j < probes@.len() ==> !shown_at(
                center_milli_hz + (#[trigger] probes@[j]).offset_milli_hz,
                key,
            ),
    ensures
        final(b).energies@.contains((key, level)) <==> level == probes@[i].level_udb,
{
    let center = center_milli_hz as int;
    let bars = if first_of_hop {
        bars_kept(old(b).energies@, center, old(b).span_milli_hz as int)
    } else {
        old(b).energies@
    };
    lemma_filter_rises(
        old(b).energies@,
        |x: (i64, i32)| outside_window(x.0, center, old(b).span_milli_hz as int),
    );
    lemma_shown_at(center_milli_hz, probes@[i].offset_milli_hz, key);
    assert forall|j: int| i < j < probes@.len() implies bar_key(
        center,
        (#[trigger] probes@[j]).offset_milli_hz as int,
    ) != bar_key(center, probes@[i].offset_milli_hz as int) by {
        lemma_shown_at(center_milli_hz, probes@[j].offset_milli_hz, key);
    }
    law_probed_bar_shows_its_level(bars, center, probes@, i);
    lemma_level_is_a_bar(final(b).energies@, key, level);
}

/// What hits come to after the results of a packet.
proof fn lemma_hits_after(hits: Seq<(i64, Detection)>, center: i64, results: Seq<Detection>)
    ensures
        forall|h: (i64, Detection)| #[trigger]
            hits_after(hits, center, results).contains(h) ==> hits.contains(h) || (h.0 == center
                && results.contains(h.1)),
        forall|h: (i64, Detection)|
            hits.contains(h) && (forall|j: int|
                0 <= j < results.len() ==> away(
                    h.1.frequency_hz as int,
                    (#[trigger] results[j]).frequency_hz as int,
                ) >= 3_000_000) ==> #[trigger] hits_after(hits, center, results).contains(h),
    decreases results.len(),
{
    if results.len() > 0 {
        let front = results.drop_last();
        let r = results.last();
        let mid = hits_after(hits, center, front);
        let after = hits_after(hits, center, results);
        lemma_hits_after(hits, center, front);
        law_result_is_shown(mid, center, r);
        let k = hit_from(mid, r.frequency_hz as int, 0);
        lemma_hit_from(mid, r.frequency_hz as int, 0);
        assert forall|h: (i64, Detection)| #[trigger] after.contains(h) implies hits.contains(h) || (
        h.0 == center && results.contains(h.1)) by {
            let e = choose|e: int| 0 <= e < after.len() && after[e] == h;
            if e != k || after[k] != (center, r) {
                assert(mid.contains(after[e]));
                if !hits.contains(h) {
                    let j = choose|j: int| 0 <= j < front.len() && front[j] == h.1;
                    assert(results[j] == h.1);
                }
            } else {
                assert(results[results.len() - 1] == h.1);
            }
        }
        assert forall|h: (i64, Detection)|
            hits.contains(h) && (forall|j: int|
                0 <= j < results.len() ==> away(
                    h.1.frequency_hz as int,
                    (#[trigger] results[j]).frequency_hz as int,
                ) >= 3_000_000) implies #[trigger] after.contains(h) by {
            assert forall|j: int| 0 <= j < front.len() implies away(
                h.1.frequency_hz as int,
                (#[trigger] front[j]).frequency_hz as int,
            ) >= 3_000_000 by {
                assert(front[j] == results[j]);
            }
            assert(mid.contains(h));
            let e = choose|e: int| 0 <= e < mid.len() && mid[e] == h;
            assert(away(
                h.1.frequency_hz as int,
                results[results.len() - 1].frequency_hz as int,
            ) >= 3_000_000);
            assert(after.contains(mid[e]));
        }
    }
}

/// A hit survives a packet whose results are all 3 MHz or more away from it, unless the
/// packet is the first of a hop to the very tune that produced it, to the hertz. Whatever
/// else is a hit afterwards is one of the packet's results, at the packet's centre. So a
/// revisited tune loses its own old hits and no others.
pub proof fn law_hits_over_a_packet(
    b: &mut BandScan,
    center_milli_hz: i64,
    first_of_hop: bool,
    probes: &[Probe],
    results: &[Detection],
    h: (i64, Detection),
)
    requires
        old(b).wf(),
        took_in(b, center_milli_hz, first_of_hop, probes, results),
    ensures
        ({
            let own = first_of_hop && away(h.0 as int, center_milli_hz as int) <= 1_000;
            &&& old(b).detections@.contains(h) && !own && (forall|j: int|
                0 <= j < results@.len() ==> away(
                    h.1.frequency_hz as int,
                    (#[trigger] results@[j]).frequency_hz as int,
                ) >= 3_000_000) ==> final(b).detections@.contains(h)
            &&& final(b).detections@.contains(h) ==> (old(b).detections@.contains(h) && !own) || (h.0
                == center_milli_hz && results@.contains(h.1))
        }),
{
    let hits = old(b).detections@;
    let p = |x: (i64, Detection)| gap(x.0 as int, center_milli_hz as int) > SAME_TUNE_MILLI_HZ;
    let kept = hits_kept(hits, center_milli_hz as int);
    lemma_filter_apart(hits, p);
    assert(kept == hits.filter(p));
    if first_of_hop {
        lemma_hits_after(kept, center_milli_hz, results@);
        if kept.contains(h) {
            let e = choose|e: int| 0 <= e < kept.len() && kept[e] == h;
            assert(hits.contains(kept[e]) && p(kept[e]));
        }
        if hits.contains(h) && p(h) {
            let e = choose|e: int| 0 <= e < hits.len() && hits[e] == h;
            assert(kept.contains(hits[e]));
        }
    } else {
        lemma_hits_after(hits, center_milli_hz, results@);
    }
}

/// The last result of a packet is shown: by itself, or by a hit less than 3 MHz off that
/// is as strong and as sure.
pub proof fn law_last_result_is_shown(
    b: &mut BandScan,
    center_milli_hz: i64,
    first_of_hop: bool,
    probes: &[Probe],
    results: &[Detection],
)
    requires
        old(b).wf(),
        took_in(b, center_milli_hz, first_of_hop, probes, results),
        results@.len() > 0,
    ensures
        exists|k: int|
            0 <= k < final(b).detections@.len() && {
                let h = #[trigger] final(b).detections@[k];
                let r = results@.last();
                h == (center_milli_hz, r) || (away(
                    h.1.frequency_hz as int,
                    r.frequency_hz as int,
                ) < 3_000_000 && h.1.rssi_udb >= r.rssi_udb && h.1.confidence_ppb
                    >= r.confidence_ppb)
            },
{
    let hits = if first_of_hop {
        hits_kept(old(b).detections@, center_milli_hz as int)
    } else {
        old(b).detections@
    };
    let mid = hits_after(hits, center_milli_hz, results@.drop_last());
    let r = results@.last();
    let k = hit_from(mid, r.frequency_hz as int, 0);
    law_result_is_shown(mid, center_milli_hz, r);
    lemma_hit_from(mid, r.frequency_hz as int, 0);
    assert(final(b).detections@ == hit_merged(mid, center_milli_hz, r));
    let h = final(b).detections@[k];
    assert(away(h.1.frequency_hz as int, r.frequency_hz as int) < 3_000_000);
}

/// A result that is stronger or surer than the one hit near it takes that hit's place; a
/// result that is neither changes nothing.
pub proof fn law_better_result_takes_over(
    b: &mut BandScan,
    center_milli_hz: i64,
    probes: &[Probe],
    results: &[Detection],
    k: int,
)
    requires
        old(b).wf(),
        took_in(b, center_milli_hz, false, probes, results),
        results@.len() == 1,
        0 <= k < old(b).detections@.len(),
        away(
            old(b).detections@[k].1.frequency_hz as int,
            results@[0].frequency_hz as int,
        ) < 3_000_000,
        forall|j: int|
            0 <= j < old(b).detections@.len() && j != k ==> away(
                (#[trigger] old(b).detections@[j]).1.frequency_hz as int,
                results@[0].frequency_hz as int,
            ) >= 3_000_000,
    ensures
        ({
            let known = old(b).detections@[k].1;
            let r = results@[0];
            final(b).detections@ == (if r.rssi_udb > known.rssi_udb || r.confidence_ppb
                > known.confidence_ppb {
                old(b).detections@.update(k, (center_milli_hz, r))
            } else {
                old(b).detections@
            })
        }),
{
    let hits = old(b).detections@;
    let r = results@[0];
    let hz = r.frequency_hz as int;
    assert(results@.drop_last() =~= Seq::<Detection>::empty());
    assert(hits_after(hits, center_milli_hz, results@.drop_last()) == hits);
    assert(results@.last() == r);
    let f = hit_from(hits, hz, 0);
    lemma_hit_from(hits, hz, 0);
    if f < hits.len() && f != k {
        assert(away(hits[f].1.frequency_hz as int, hz) >= 3_000_000);
    }
    assert(same_carrier(hits[k].1.frequency_hz as int, hz));
    assert(f == k);
    let later = hits.skip(k + 1);
    let p = |x: (i64, Detection)| !same_carrier(x.1.frequency_hz as int, hz);
    assert forall|j: int| 0 <= j < later.len() implies p(#[trigger] later[j]) by {
        assert(later[j] == hits[j + k + 1]);
    }
    lemma_filter_all(later, p);
    assert(hits.take(k).push((center_milli_hz, r)) + later =~= hits.update(
        k,
        (center_milli_hz, r),
    ));
}

proof fn lemma_filter_all(s: Seq<(i64, Detection)>, p: spec_fn((i64, Detection)) -> bool)
    requires
        forall|j: int| 0 <= j < s.len() ==> p(#[trigger] s[j]),
    ensures
        s.filter(p) == s,
    decreases s.len(),
{
    reveal(Seq::filter);
    if s.len() > 0 {
        assert(p(s[s.len() - 1]));
        let front = s.drop_last();
        assert forall|j: int| 0 <= j < front.len() implies p(#[trigger] front[j]) by {
            assert(front[j] == s[j]);
        }
        lemma_filter_all(front, p);
        assert(front.push(s.last()) =~= s);
    }
}

/// No two hits on a panel are less than 3 MHz apart.
pub proof fn law_hits_stand_apart(b: &BandScan, i: int, j: int)
    requires
        b.wf(),
        0 <= i < j < b.detections@.len(),
    ensures
        away(
            b.detections@[i].1.frequency_hz as int,
            b.detections@[j].1.frequency_hz as int,
        ) >= 3_000_000,
{
}

/// A packet marks the planned tune nearest to its centre, the first of equally near ones,
/// as visited then and as the active one. Every other tune keeps its last visit.
pub proof fn law_packet_marks_its_tune(
    b: &mut BandScan,
    center_milli_hz: i64,
    first_of_hop: bool,
    probes: &[Probe],
    results: &[Detection],
    at: Instant,
    j: int,
)
    requires
        old(b).wf(),
        call_ensures(
            BandScan::record_hop_at,
            (b, center_milli_hz, first_of_hop, probes, results, at),
            (),
        ),
        0 <= j < old(b).tunes@.len(),
    ensures
        ({
            let k = final(b).active_tune->0 as int;
            &&& final(b).active_tune is Some
            &&& 0 <= k < old(b).tunes@.len()
            &&& away(old(b).tunes@[k] as int, center_milli_hz as int) <= away(
                old(b).tunes@[j] as int,
                center_milli_hz as int,
            )
            &&& j < k ==> away(old(b).tunes@[k] as int, center_milli_hz as int) < away(
                old(b).tunes@[j] as int,
                center_milli_hz as int,
            )
            &&& final(b).visited@[j] == (if j == k {
                Some(at)
            } else {
                old(b).visited@[j]
            })
        }),
{
    let far = Seq::new(
        old(b).tunes@.len(),
        |i: int| gap(old(b).tunes@[i] as int, center_milli_hz as int),
    );
    lemma_first_min(far);
    assert(old(b).tunes.len() == old(b).tunes@.len());
    let k = final(b).active_tune->0 as int;
    assert(k == nearest_tune(old(b).tunes@, center_milli_hz as int));
    assert(far[k] <= far[j]);
    if j < k {
        assert(far[k] < far[j]);
    }
}

/// A packet touches neither the channels, the plan, the lock, the skips nor the end of
/// the last sweep.
pub proof fn law_packet_leaves_the_rest(
    b: &mut BandScan,
    center_milli_hz: i64,
    first_of_hop: bool,
    probes: &[Probe],
    results: &[Detection],
)
    requires
        took_in(b, center_milli_hz, first_of_hop, probes, results),
    ensures
        final(b).channels@ == old(b).channels@,
        final(b).rows@ == old(b).rows@,
        final(b).tunes@ == old(b).tunes@,
        final(b).span_milli_hz == old(b).span_milli_hz,
        final(b).lock_milli_hz == old(b).lock_milli_hz,
        final(b).skipped@ == old(b).skipped@,
        final(b).last_sweep_end == old(b).last_sweep_end,
{
}

/// The end of a sweep is remembered, no tune is active any more, and all else stays.
pub proof fn law_sweep_end_is_remembered(b: &mut BandScan, at: Instant)
    requires
        call_ensures(BandScan::end_sweep_at, (b, at), ()),
    ensures
        final(b).last_sweep_end == Some(at),
        final(b).active_tune is None,
        final(b).energies == old(b).energies,
        final(b).detections == old(b).detections,
        final(b).tunes == old(b).tunes,
        final(b).span_milli_hz == old(b).span_milli_hz,
        final(b).visited == old(b).visited,
        final(b).lock_milli_hz == old(b).lock_milli_hz,
        final(b).skipped == old(b).skipped,
        final(b).channels == old(b).channels,
        final(b).rows == old(b).rows,
{
}

/// A sweep that ended without a moment given ended at some moment.
pub proof fn law_sweep_ends(b: &mut BandScan)
    requires
        call_ensures(BandScan::end_sweep, (b,), ()),
    ensures
        final(b).last_sweep_end is Some,
        final(b).active_tune is None,
        final(b).energies == old(b).energies,
        final(b).detections == old(b).detections,
        final(b).visited == old(b).visited,
{
}

/// A plan that is the old one keeps the visits; any other forgets them and the active
/// tune. The bars and hits stay either way.
pub proof fn law_new_plan_forgets_visits(b: &mut BandScan, tunes: Vec<i64>, span_milli_hz: u64, k: int)
    requires
        old(b).wf(),
        final(b).wf(),
        call_ensures(BandScan::set_plan, (b, tunes, span_milli_hz), ()),
        0 <= k < tunes@.len(),
    ensures
        final(b).tunes@ == tunes@,
        final(b).span_milli_hz == span_milli_hz,
        tunes@ == old(b).tunes@ ==> final(b).visited@[k] == old(b).visited@[k]
            && final(b).active_tune == old(b).active_tune,
        tunes@ != old(b).tunes@ ==> final(b).visited@[k] is None && final(b).active_tune is None,
        final(b).energies@ == old(b).energies@,
        final(b).detections@ == old(b).detections@,
{
}

/// The level near a frequency is that of the bar nearest to it, the lower of two equally
/// near ones, where that is within 3 MHz; there is none where no bar is.
pub proof fn law_level_near_a_frequency(b: &BandScan, milli_hz: i64, r: Option<i32>)
    requires
        b.wf(),
        call_ensures(BandScan::energy_near, (b, milli_hz), r),
    ensures
        r is None <==> forall|i: int|
            0 <= i < b.energies@.len() ==> away(
                (#[trigger] b.energies@[i]).0 * 100_000_000,
                milli_hz as int,
            ) > 3_000_000_000,
        r matches Some(level) ==> exists|i: int|
            0 <= i < b.energies@.len() && (#[trigger] b.energies@[i]).1 == level && (forall|j: int|
                0 <= j < b.energies@.len() && j != i ==> {
                    let here = away(b.energies@[i].0 * 100_000_000, milli_hz as int);
                    let there = away((#[trigger] b.energies@[j]).0 * 100_000_000, milli_hz as int);
                    if j < i {
                        here < there
                    } else {
                        here <= there
                    }
                }),
{
    let far = bar_gaps(b.energies@, milli_hz as int);
    if b.energies@.len() > 0 {
        lemma_first_min(far);
        let i = first_min(far);
        assert forall|j: int| 0 <= j < b.energies@.len() implies #[trigger] far[j] == away(
            b.energies@[j].0 * 100_000_000,
            milli_hz as int,
        ) by {}
        assert(far[i] == away(b.energies@[i].0 * 100_000_000, milli_hz as int));
        if r is None {
            assert forall|j: int| 0 <= j < b.energies@.len() implies away(
                (#[trigger] b.energies@[j]).0 * 100_000_000,
                milli_hz as int,
            ) > 3_000_000_000 by {
                assert(far[i] <= far[j]);
            }
        } else {
            assert(b.energies@[i].1 == r->0);
            assert forall|j: int| 0 <= j < b.energies@.len() && j != i implies {
                let here = away(b.energies@[i].0 * 100_000_000, milli_hz as int);
                let there = away((#[trigger] b.energies@[j]).0 * 100_000_000, milli_hz as int);
                if j < i {
                    here < there
                } else {
                    here <= there
                }
            } by {
                assert(far[i] <= far[j]);
                if j < i {
                    assert(far[i] < far[j]);
                }
            }
        }
    }
}

/// The channel at a frequency is the one nearest to it, the first of equally near ones,
/// where that is within 3 MHz; there is none where no channel is.
pub proof fn law_channel_at_a_frequency(b: &BandScan, milli_hz: i128, r: Option<usize>)
    requires
        b.wf(),
        call_ensures(BandScan::channel_at, (b, milli_hz), r),
    ensures
        r is None <==> forall|i: int|
            0 <= i < b.channels@.len() ==> away(
                1000 * (#[trigger] b.channels@[i]).hz,
                milli_hz as int,
            ) > 3_000_000_000,
        r matches Some(i) ==> i < b.channels@.len() && away(
            1000 * b.channels@[i as int].hz,
            milli_hz as int,
        ) <= 3_000_000_000 && (forall|j: int|
            0 <= j < b.channels@.len() && j != i ==> {
                let here = away(1000 * b.channels@[i as int].hz, milli_hz as int);
                let there = away(1000 * (#[trigger] b.channels@[j]).hz, milli_hz as int);
                if j < i {
                    here < there
                } else {
                    here <= there
                }
            }),
{
    let far = channel_gaps(b.channels@, milli_hz as int);
    if b.channels@.len() > 0 {
        lemma_first_min(far);
        let i = first_min(far);
        assert(far[i] == away(1000 * b.channels@[i].hz, milli_hz as int));
        assert forall|j: int| 0 <= j < b.channels@.len() implies away(
            1000 * (#[trigger] b.channels@[j]).hz,
            milli_hz as int,
        ) == far[j] && far[i] <= far[j] && (j < i ==> far[i] < far[j]) by {
            assert(far[i] <= far[j]);
        }
    }
}

/// A frequency goes by the name of the channel at it, and by none where there is no
/// channel.
pub proof fn law_frequency_goes_by_its_channel(
    b: &BandScan,
    milli_hz: i128,
    at: Option<usize>,
    name: String,
)
    requires
        b.wf(),
        call_ensures(BandScan::channel_at, (b, milli_hz), at),
        call_ensures(BandScan::name_at, (b, milli_hz), name),
    ensures
        at matches Some(i) ==> name@ == b.channels@[i as int].name@,
        at is None ==> name@.len() == 0,
{
}

/// The floor is the level that a quarter of the bars come before when they are put in
/// ascending order, and -100 dB where there are no bars.
pub proof fn law_floor_is_the_lower_quartile(b: &BandScan, r: i32)
    requires
        call_ensures(BandScan::floor_udb, (b,), r),
    ensures
        b.energies@.len() == 0 ==> r == -100_000_000,
        b.energies@.len() > 0 ==> exists|f: Seq<i64>|
            {
                &&& #[trigger] f.to_multiset() == Seq::new(
                    b.energies@.len(),
                    |i: int| b.energies@[i].1 as i64,
                ).to_multiset()
                &&& forall|i: int, j: int| 0 <= i < j < f.len() ==> f[i] <= f[j]
                &&& f[b.energies@.len() as int / 4] == r
            },
{
    let all = Seq::new(b.energies@.len(), |i: int| b.energies@[i].1 as i64);
    assert(all =~= levels(b.energies@));
    let f = ascending(all);
    lemma_ascending(all);
    assert(f.to_multiset() == all.to_multiset());
}

/// The panel takes no row over the picture where it is off, 34 as a strip, and as the
/// full panel 190 and nine for every band, but never more than the picture has and, as
/// the full panel, never more than half of that.
pub proof fn law_overlay_height(b: &BandScan, mode: PanelMode, frame_h: usize, h: usize)
    requires
        call_ensures(BandScan::overlay_height, (b, mode, frame_h), h),
    ensures
        mode is Off ==> h == 0,
        mode is Strip ==> h == (if frame_h < 34 {
            frame_h
        } else {
            34
        }),
        mode is Full ==> h == (if frame_h / 2 < 190 + 9 * b.rows@.len() {
            (frame_h / 2) as int
        } else {
            190 + 9 * b.rows@.len() as int
        }),
{
}

/// The full panel wants 190 rows and nine for every band.
pub proof fn law_full_height(b: &BandScan, h: usize)
    requires
        call_ensures(BandScan::full_height, (b,), h),
    ensures
        h == 190 + 9 * b.rows@.len(),
{
}

/// The bands in the order people use them.
pub open spec fn band_order() -> Seq<char> {
    seq!['A', 'B', 'E', 'F', 'R', 'L', 'D', '1', '3', 'W']
}

/// The rows of a new panel follow the order people use; a band outside that order comes
/// after all of them.
pub proof fn law_rows_follow_the_band_order(
    channels: Vec<Channel>,
    b: BandScan,
    i: int,
    j: int,
    p: int,
)
    requires
        call_ensures(BandScan::new, (channels,), b),
        0 <= i < b.rows@.len(),
        0 <= j < b.rows@.len(),
        0 <= p < band_order().len(),
        b.rows@[i] == band_order()[p],
        !band_order().take(p + 1).contains(b.rows@[j]),
    ensures
        i < j,
{
    let x = b.rows@[i];
    let y = b.rows@[j];
    let key = |c: char| band_rank(c);
    assert(band_rank(x) == p);
    assert(band_rank(y) > p) by {
        if band_rank(y) <= p {
            assert(band_order()[band_rank(y)] == y);
            assert(band_order().take(p + 1)[band_rank(y)] == y);
        }
    }
    if j < i {
        assert(key(b.rows@[j]) <= key(b.rows@[i]));
    }
}

/// A new panel has a row for the band of every channel.
pub proof fn law_every_band_has_a_row(channels: Vec<Channel>, b: BandScan, i: int)
    requires
        call_ensures(BandScan::new, (channels,), b),
        0 <= i < b.channels@.len(),
    ensures
        b.rows@.contains(b.channels@[i].band),
{
    let letters = bands_of(b.channels@);
    let band = b.channels@[i].band;
    assert(letters[i] == band);
    lemma_distinct_holds(letters, band);
    broadcast use {Seq::lemma_filter_contains, Seq::lemma_filter_contains_rev};

    let key = |c: char| band_rank(c);
    let k = band_rank(band);
    let seen = distinct(letters);
    assert(with_key(seen, key, k) == with_key(b.rows@, key, k));
    let at = choose|at: int| 0 <= at < seen.len() && seen[at] == band;
    assert(key(seen[at]) == k);
    assert(with_key(seen, key, k).contains(seen[at]));
    let mine = with_key(b.rows@, key, k);
    let e = choose|e: int| 0 <= e < mine.len() && mine[e] == band;
    assert(b.rows@.contains(mine[e]));
}

proof fn lemma_distinct_holds(s: Seq<char>, c: char)
    requires
        s.contains(c),
    ensures
        distinct(s).contains(c),
    decreases s.len(),
{
    let front = distinct(s.drop_last());
    let i = choose|i: int| 0 <= i < s.len() && s[i] == c;
    if i < s.len() - 1 {
        assert(s.drop_last()[i] == c);
        lemma_distinct_holds(s.drop_last(), c);
        let e = choose|e: int| 0 <= e < front.len() && front[e] == c;
        assert(distinct(s)[e] == c);
    } else if !front.contains(s.last()) {
        assert(distinct(s)[front.len() as int] == c);
    }
}

/// A new panel shows the channels it was given in order of frequency, and nothing else.
pub proof fn law_new_panel_is_empty(channels: Vec<Channel>, b: BandScan, i: int, j: int)
    requires
        call_ensures(BandScan::new, (channels,), b),
        0 <= i < j < b.channels@.len(),
    ensures
        b.channels@[i].hz <= b.channels@[j].hz,
        b.channels@.to_multiset() == channels@.to_multiset(),
        b.tunes@.len() == 0,
        b.energies@.len() == 0,
        b.detections@.len() == 0,
        b.skipped@.len() == 0,
        b.active_tune is None,
        b.lock_milli_hz is None,
        b.last_sweep_end is None,
{
    let key = |c: Channel| c.hz as int;
    assert(key(b.channels@[i]) <= key(b.channels@[j]));
}

/// A lock is what it was set to.
pub proof fn law_lock_is_set(b: &mut BandScan, milli_hz: Option<u64>)
    requires
        call_ensures(BandScan::set_lock, (b, milli_hz), ()),
    ensures
        final(b).lock_milli_hz == milli_hz,
        final(b).energies@ == old(b).energies@,
        final(b).detections@ == old(b).detections@,
        final(b).skipped@ == old(b).skipped@,
{
}

/// `B` goes from the strip to the full panel, on to none, and back to the strip.
pub proof fn law_panel_mode_order(m: PanelMode, r: PanelMode)
    requires
        call_ensures(PanelMode::next, (m,), r),
    ensures
        m is Strip ==> r is Full,
        m is Full ==> r is Off,
        m is Off ==> r is Strip,
{
}

/// A mode that was stored is loaded again, whatever it was.
pub proof fn law_stored_mode_is_loaded(m: PanelMode, v: u8, r: PanelMode)
    requires
        call_ensures(PanelMode::store, (m,), v),
        call_ensures(PanelMode::load, (v,), r),
    ensures
        r == m,
{
}

/// A result of a carrier that no hit is near goes behind the hits there are.
pub proof fn law_new_carrier_goes_last(
    b: &mut BandScan,
    center_milli_hz: i64,
    probes: &[Probe],
    results: &[Detection],
)
    requires
        old(b).wf(),
        took_in(b, center_milli_hz, false, probes, results),
        results@.len() == 1,
        forall|j: int|
            0 <= j < old(b).detections@.len() ==> away(
                (#[trigger] old(b).detections@[j]).1.frequency_hz as int,
                results@[0].frequency_hz as int,
            ) >= 3_000_000,
    ensures
        final(b).detections@ == old(b).detections@.push((center_milli_hz, results@[0])),
{
    let hits = old(b).detections@;
    let hz = results@[0].frequency_hz as int;
    assert(results@.drop_last() =~= Seq::<Detection>::empty());
    assert(hits_after(hits, center_milli_hz, results@.drop_last()) == hits);
    let f = hit_from(hits, hz, 0);
    lemma_hit_from(hits, hz, 0);
    if f < hits.len() {
        assert(away(hits[f].1.frequency_hz as int, hz) >= 3_000_000);
    }
}

/// The results of a packet are taken in one after the other: the last of them alone, after
/// the others, comes to the same.
pub proof fn law_results_come_one_by_one(
    all: &mut BandScan,
    most: &mut BandScan,
    last: &mut BandScan,
    center_milli_hz: i64,
    first_of_hop: bool,
    probes: &[Probe],
    none: &[Probe],
    results: &[Detection],
    front: &[Detection],
    one: &[Detection],
)
    requires
        results@.len() > 0,
        front@ == results@.drop_last(),
        one@ == seq![results@.last()],
        old(all).detections@ == old(most).detections@,
        old(last).detections@ == final(most).detections@,
        took_in(all, center_milli_hz, first_of_hop, probes, results),
        took_in(most, center_milli_hz, first_of_hop, probes, front),
        took_in(last, center_milli_hz, false, none, one),
    ensures
        final(all).detections@ == final(last).detections@,
{
    assert(one@.drop_last() =~= Seq::<Detection>::empty());
    assert(one@.last() == results@.last());
    reveal_with_fuel(hits_after, 2);
}

/// A packet without results that is the first of its hop keeps the hits of other tunes, in
/// their order, and no others; a later one keeps all.
pub proof fn law_quiet_packet(
    b: &mut BandScan,
    center_milli_hz: i64,
    first_of_hop: bool,
    probes: &[Probe],
    results: &[Detection],
)
    requires
        took_in(b, center_milli_hz, first_of_hop, probes, results),
        results@.len() == 0,
    ensures
        !first_of_hop ==> final(b).detections@ == old(b).detections@,
        first_of_hop ==> final(b).detections@ == from_elsewhere(
            old(b).detections@,
            center_milli_hz as int,
        ),
{
    let p = |x: (i64, Detection)| gap(x.0 as int, center_milli_hz as int) > SAME_TUNE_MILLI_HZ;
    assert(hits_kept(old(b).detections@, center_milli_hz as int) == old(b).detections@.filter(p));
    lemma_from_elsewhere(old(b).detections@, center_milli_hz as int, p);
}

/// The hits that tunes more than a hertz from a centre produced, in their order.
pub open spec fn from_elsewhere(hits: Seq<(i64, Detection)>, center: int) -> Seq<(i64, Detection)>
    decreases hits.len(),
{
    if hits.len() == 0 {
        hits
    } else if away(hits.last().0 as int, center) > 1_000 {
        from_elsewhere(hits.drop_last(), center).push(hits.last())
    } else {
        from_elsewhere(hits.drop_last(), center)
    }
}

proof fn lemma_from_elsewhere(
    hits: Seq<(i64, Detection)>,
    center: int,
    p: spec_fn((i64, Detection)) -> bool,
)
    requires
        forall|h: (i64, Detection)| #[trigger] p(h) <==> away(h.0 as int, center) > 1_000,
    ensures
        hits.filter(p) == from_elsewhere(hits, center),
    decreases hits.len(),
{
    reveal(Seq::filter);
    if hits.len() > 0 {
        lemma_from_elsewhere(hits.drop_last(), center, p);
        assert(p(hits.last()) <==> away(hits.last().0 as int, center) > 1_000);
    } else {
        assert(hits.filter(p) =~= hits);
    }
}

/// Channels of one frequency keep the order they were given in.
pub proof fn law_equal_channels_keep_their_order(channels: Vec<Channel>, b: BandScan, hz: i64)
    requires
        call_ensures(BandScan::new, (channels,), b),
    ensures
        at_frequency(b.channels@, hz) == at_frequency(channels@, hz),
{
    let key = |c: Channel| c.hz as int;
    assert(with_key(channels@, key, hz as int) == with_key(b.channels@, key, hz as int));
    lemma_at_frequency(channels@, hz);
    lemma_at_frequency(b.channels@, hz);
}

/// The channels at a frequency, in their order.
pub open spec fn at_frequency(channels: Seq<Channel>, hz: i64) -> Seq<Channel>
    decreases channels.len(),
{
    if channels.len() == 0 {
        channels
    } else if channels.last().hz == hz {
        at_frequency(channels.drop_last(), hz).push(channels.last())
    } else {
        at_frequency(channels.drop_last(), hz)
    }
}

proof fn lemma_at_frequency(channels: Seq<Channel>, hz: i64)
    ensures
        with_key(channels, |c: Channel| c.hz as int, hz as int) == at_frequency(channels, hz),
    decreases channels.len(),
{
    reveal(Seq::filter);
    let key = |c: Channel| c.hz as int;
    if channels.len() > 0 {
        lemma_at_frequency(channels.drop_last(), hz);
    } else {
        assert(with_key(channels, key, hz as int) =~= channels);
    }
}

/// The hit of a carrier is the first less than 3 MHz from it.
pub proof fn law_found_hit_is_the_first_near(hits: &Vec<(i64, Detection)>, hz: u64, r: Option<usize>)
    requires
        call_ensures(find_hit, (hits, hz), r),
    ensures
        r is None <==> forall|k: int|
            0 <= k < hits@.len() ==> away(
                (#[trigger] hits@[k]).1.frequency_hz as int,
                hz as int,
            ) >= 3_000_000,
        r matches Some(k) ==> k < hits@.len() && away(
            hits@[k as int].1.frequency_hz as int,
            hz as int,
        ) < 3_000_000 && forall|j: int|
            0 <= j < k ==> away((#[trigger] hits@[j]).1.frequency_hz as int, hz as int)
                >= 3_000_000,
{
    lemma_hit_from(hits@, hz as int, 0);
    let f = hit_from(hits@, hz as int, 0);
    if f < hits@.len() {
        assert(away(hits@[f].1.frequency_hz as int, hz as int) < 3_000_000);
    }
}

} // verus!
