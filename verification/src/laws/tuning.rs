//! The channel table, tune plans and capture rates.

use vstd::arithmetic::power2::{lemma_pow2_pos, lemma_pow2_unfold, pow2};
use vstd::prelude::*;
use vstd::utf8::is_ascii_chars;

use crate::band_scan::{Channel, Signal};
use crate::bands::{
    band_letter, carrier_label, catalog, choose_channel, entries, entry_freqs,
    get_fpv_channel_name, look_up_typed, named_channel, parse_standard, resolve_channel, snap_to,
    snap_to_nearest_fpv_channel, standard_from_word, table_gaps, Band, ScanBands,
};
use crate::laws::away;
use crate::order::{ascending, first_min, lemma_ascending, lemma_first_min, sort_ascending};
use crate::plan::{
    absorbed, as_tunes, build_scan_hops, centers, covers, deduped, held, hop_gaps,
    law_plan_ascends, law_plan_covers_every_channel, law_plan_is_shortest, lemma_deduped,
    plan_tune_centers, planned, snap_to_nearest_hop, usable_span, usable_span_of,
};
use crate::rates::{
    aaronia_sweep_budget, capped_rate, check_every, detect_packets_per_hop, iq_rate,
    law_locked_rate_holds_its_channel, law_locked_rate_is_lowest, locked_capture_rate, narrowed,
    nearest_iq_sample_rate, nearest_rate, rate_gaps, rate_holds, DemodKind, SweepBudget,
};
use crate::text::lower_ascii;
use crate::viewer::display_milli_hz;

verus! {

/// Every band goes by the letter people know it by.
pub proof fn law_band_letters(band: Band, c: char)
    requires
        call_ensures(band_letter, (band,), c),
    ensures
        band is BandA <==> c == 'A',
        band is BandB <==> c == 'B',
        band is BandE <==> c == 'E',
        band is Fatshark <==> c == 'F',
        band is Raceband <==> c == 'R',
        band is Lowband <==> c == 'L',
        band is BandD <==> c == 'D',
        band is Band1200 <==> c == '1',
        band is Band3300 <==> c == '3',
        band is Band1200Wide <==> c == 'W',
        band is Other <==> c == '-',
{
}

/// Whether `r` is what a frequency snaps to among others, all in hertz but itself: the
/// nearest of them, the first of equally near ones, where that is less than 15 MHz off,
/// and otherwise itself.
pub open spec fn snaps_to(freqs_hz: Seq<i64>, milli_hz: int, r: int) -> bool {
    if exists|i: int|
        0 <= i < freqs_hz.len() && away(1000 * #[trigger] freqs_hz[i], milli_hz) < 15_000_000_000 {
        exists|k: int|
            0 <= k < freqs_hz.len() && r == 1000 * #[trigger] freqs_hz[k] && (forall|j: int|
                0 <= j < freqs_hz.len() ==> away(r, milli_hz) <= away(
                    1000 * #[trigger] freqs_hz[j],
                    milli_hz,
                ) && (j < k ==> away(r, milli_hz) < away(1000 * freqs_hz[j], milli_hz)))
    } else {
        r == milli_hz
    }
}

proof fn lemma_snaps_to(freqs_hz: Seq<i64>, milli_hz: int)
    ensures
        snaps_to(freqs_hz, milli_hz, crate::bands::snapped(freqs_hz, milli_hz)),
{
    let far = table_gaps(freqs_hz, milli_hz);
    if freqs_hz.len() > 0 {
        lemma_first_min(far);
        let k = first_min(far);
        assert forall|j: int| 0 <= j < freqs_hz.len() implies far[j] == away(
            1000 * #[trigger] freqs_hz[j],
            milli_hz,
        ) && far[k] <= far[j] && (j < k ==> far[k] < far[j]) by {
            assert(far[k] <= far[j]);
        }
        assert(far[k] == away(1000 * freqs_hz[k], milli_hz));
    }
}

/// A frequency snaps to the nearest of a list that is less than 15 MHz off, or stays.
pub proof fn law_snapping(freqs: &Vec<i64>, milli_hz: u64, r: u64)
    requires
        call_ensures(snap_to, (freqs, milli_hz), r),
    ensures
        snaps_to(freqs@, milli_hz as int, r as int),
{
    lemma_snaps_to(freqs@, milli_hz as int);
}

/// A frequency snaps to the nearest channel of the table that is less than 15 MHz off, or
/// stays. A measured carrier is shown at what it snaps to; without one the tuned
/// frequency is shown.
pub proof fn law_snapping_to_the_table(
    milli_hz: u64,
    r: u64,
    refined: Option<u64>,
    center_milli_hz: i64,
    offset_milli_hz: i64,
    f: i64,
)
    requires
        call_ensures(snap_to_nearest_fpv_channel, (milli_hz,), r),
        call_ensures(display_milli_hz, (refined, center_milli_hz, offset_milli_hz), f),
    ensures
        snaps_to(entry_freqs(catalog(true)), milli_hz as int, r as int),
        refined matches Some(carrier) ==> snaps_to(
            entry_freqs(catalog(true)),
            carrier as int,
            f as int,
        ),
        refined is None ==> f == center_milli_hz + offset_milli_hz,
{
    lemma_snaps_to(entry_freqs(catalog(true)), milli_hz as int);
    if let Some(carrier) = refined {
        lemma_snaps_to(entry_freqs(catalog(true)), carrier as int);
    }
}

/// The name of a frequency is the label of the carrier at its nearest megahertz.
pub proof fn law_name_of_the_nearest_megahertz(milli_hz: u64, r: Option<String>, mhz: u64)
    requires
        call_ensures(get_fpv_channel_name, (milli_hz,), r),
        1_000_000_000 * mhz - 500_000_000 <= milli_hz < 1_000_000_000 * mhz + 500_000_000,
    ensures
        match carrier_label((1_000_000 * mhz) as u64) {
            Some(text) => r matches Some(s) && s@ == text,
            None => r is None,
        },
{
    let f = milli_hz as int;
    assert((2 * f + 1_000_000_000) / 2_000_000_000 == mhz);
}

/// A channel argument is a name of the table, or else a frequency above a megahertz; it
/// is refused where it is neither.
pub proof fn law_channel_argument(
    ch: &str,
    named: Option<u64>,
    raw_milli_hz: Option<u64>,
    r: Result<u64, String>,
)
    requires
        call_ensures(choose_channel, (ch, named, raw_milli_hz), r),
    ensures
        named matches Some(f) ==> (r matches Ok(milli_hz) && milli_hz == 1000 * f),
        named is None && (raw_milli_hz matches Some(f) && f > 1_000_000_000) ==> r == Ok::<
            u64,
            String,
        >(raw_milli_hz->0),
        named is None && !(raw_milli_hz matches Some(f) && f > 1_000_000_000) ==> (r matches Err(e)
            && e@ == "unrecognised channel '"@ + ch@
            + "'; expected a catalog channel (A/B/E/F/R/L/D/U/N/W/T/S) or a frequency in Hz"@),
{
}

/// The same with the name looked up.
pub proof fn law_channel_argument_is_looked_up(
    ch: &str,
    raw_milli_hz: Option<u64>,
    r: Result<u64, String>,
)
    requires
        call_ensures(resolve_channel, (ch, raw_milli_hz), r),
    ensures
        named_channel(ch@) matches Some(f) ==> (r matches Ok(milli_hz) && milli_hz == 1000 * f),
        named_channel(ch@) is None && (raw_milli_hz matches Some(f) && f > 1_000_000_000)
            ==> r == Ok::<u64, String>(raw_milli_hz->0),
        named_channel(ch@) is None && !(raw_milli_hz matches Some(f) && f > 1_000_000_000)
            ==> r is Err,
{
}

/// `pal` and `ntsc` name their standards and nothing else names one.
pub proof fn law_standard_words(word: &str, r: Option<Signal>)
    requires
        call_ensures(standard_from_word, (word,), r),
    ensures
        r == Some(Signal::Pal) <==> word@ == "pal"@,
        r == Some(Signal::Ntsc) <==> word@ == "ntsc"@,
        r is None <==> word@ != "pal"@ && word@ != "ntsc"@,
{
    reveal_strlit("pal");
    reveal_strlit("ntsc");
    assert("pal"@.len() != "ntsc"@.len());
}

/// A standard may be written in either case; anything else is refused by name.
pub proof fn law_standard_argument(s: &str, r: Result<Signal, String>)
    requires
        call_ensures(parse_standard, (s,), r),
        is_ascii_chars(s@),
    ensures
        r == Ok::<Signal, String>(Signal::Pal) <==> lower_ascii(s@) == "pal"@,
        r == Ok::<Signal, String>(Signal::Ntsc) <==> lower_ascii(s@) == "ntsc"@,
        r matches Err(e) ==> e@ == "unknown standard '"@ + s@ + "'; expected 'pal' or 'ntsc'"@,
        r matches Ok(t) ==> t !is Other,
{
    reveal_strlit("pal");
    reveal_strlit("ntsc");
    assert("pal"@.len() != "ntsc"@.len());
}

/// A typed text is looked up whole, and known to go on where a longer name of the table
/// begins with it.
pub proof fn law_typed_text_is_looked_up(typed: &str, r: (Option<u64>, bool))
    requires
        call_ensures(look_up_typed, (typed,), r),
    ensures
        r.0 == named_channel(typed@),
        r.1 <==> exists|i: int|
            0 <= i < catalog(true).len() && (#[trigger] catalog(true)[i]).0.len() > typed@.len()
                && catalog(true)[i].0.take(typed@.len() as int) == typed@,
        forall|i: int|
            0 <= i < catalog(true).len() && (#[trigger] catalog(true)[i]).0 == typed@ ==> r.0
                == Some(catalog(true)[i].2),
{
    assert(r.1 == crate::bands::has_longer_name(catalog(true), typed@));
}

/// Whether a channel lies within half the span of some tune.
pub open spec fn is_reached(hz: i64, tunes: Seq<i64>, span_milli_hz: int) -> bool {
    exists|k: int|
        0 <= k < tunes.len() && 2 * away(1000 * hz, #[trigger] tunes[k] as int) <= span_milli_hz
}

/// Whether every one of some channels lies within half the span of some tune.
pub open spec fn all_reached(channels_hz: Seq<i64>, tunes: Seq<i64>, span_milli_hz: int) -> bool {
    forall|c: int|
        0 <= c < channels_hz.len() ==> is_reached(#[trigger] channels_hz[c], tunes, span_milli_hz)
}

pub proof fn lemma_reached(channels_hz: Seq<i64>, tunes: Seq<i64>, span: int)
    ensures
        all_reached(channels_hz, tunes, span) <==> covers(channels_hz, as_tunes(tunes), span),
{
    let t = as_tunes(tunes);
    assert forall|hz: i64| is_reached(hz, tunes, span) <==> #[trigger] held(hz, t, span) by {
        if is_reached(hz, tunes, span) {
            let k = choose|k: int|
                0 <= k < tunes.len() && 2 * away(1000 * hz, #[trigger] tunes[k] as int) <= span;
            assert(t[k] == tunes[k]);
        }
        if held(hz, t, span) {
            let k = choose|k: int|
                0 <= k < t.len() && 2 * crate::order::gap(1000 * hz, #[trigger] t[k]) <= span;
            assert(2 * away(1000 * hz, tunes[k] as int) <= span);
        }
    }
    if all_reached(channels_hz, tunes, span) {
        assert forall|c: int| 0 <= c < channels_hz.len() implies held(
            #[trigger] channels_hz[c],
            t,
            span,
        ) by {
            assert(is_reached(channels_hz[c], tunes, span));
        }
    }
    if covers(channels_hz, t, span) {
        assert forall|c: int| 0 <= c < channels_hz.len() implies is_reached(
            #[trigger] channels_hz[c],
            tunes,
            span,
        ) by {
            assert(held(channels_hz[c], t, span));
        }
    }
}

/// A plan reaches every channel, with as few tunes as can be, in ascending order.
pub proof fn law_plan_reaches_every_channel(
    channels_hz: &Vec<i64>,
    span_milli_hz: u64,
    r: Vec<i64>,
    other: Seq<i64>,
    i: int,
    j: int,
)
    requires
        call_ensures(plan_tune_centers, (channels_hz, span_milli_hz), r),
        0 <= i < j < r@.len(),
    ensures
        all_reached(channels_hz@, r@, span_milli_hz as int),
        all_reached(channels_hz@, other, span_milli_hz as int) ==> r@.len() <= other.len(),
        r@[i] < r@[j],
{
    let span = span_milli_hz as int;
    law_plan_covers_every_channel(channels_hz@, span);
    law_plan_ascends(channels_hz@, span);
    lemma_reached(channels_hz@, r@, span);
    lemma_reached(channels_hz@, other, span);
    assert(planned(channels_hz@, span)[i] == r@[i] && planned(channels_hz@, span)[j] == r@[j]);
    if all_reached(channels_hz@, other, span) {
        law_plan_is_shortest(channels_hz@, span, as_tunes(other));
    }
}

/// Every tune of a plan stands midway between two channels that the span holds.
pub proof fn law_tunes_are_centred(channels_hz: &Vec<i64>, span_milli_hz: u64, r: Vec<i64>, k: int)
    requires
        call_ensures(plan_tune_centers, (channels_hz, span_milli_hz), r),
        0 <= k < r@.len(),
    ensures
        exists|a: int, b: int|
            0 <= a < channels_hz@.len() && 0 <= b < channels_hz@.len() && 0 <= 1000 * (channels_hz@[b]
                - channels_hz@[a]) <= span_milli_hz && 2 * r@[k] == 1000 * (
            #[trigger] channels_hz@[a] + #[trigger] channels_hz@[b]),
{
    let span = span_milli_hz as int;
    let f = ascending(channels_hz@);
    let s = deduped(f);
    lemma_ascending(channels_hz@);
    lemma_deduped(f);
    lemma_centred(s, span, k);
    assert(planned(channels_hz@, span)[k] == r@[k]);
    let (a, b) = choose|a: int, b: int|
        0 <= a <= b < s.len() && 1000 * (s[b] - s[a]) <= span && 2 * centers(s, span)[k] == 1000 * (
        #[trigger] s[a] + #[trigger] s[b]);
    assert(a < b ==> s[a] < s[b]);
    assert(s.contains(s[a]) && s.contains(s[b]));
    assert(f.contains(s[a]) && f.contains(s[b]));
    assert(channels_hz@.contains(s[a]) && channels_hz@.contains(s[b]));
    let x = choose|x: int| 0 <= x < channels_hz@.len() && channels_hz@[x] == s[a];
    let y = choose|y: int| 0 <= y < channels_hz@.len() && channels_hz@[y] == s[b];
    assert(2 * r@[k] == 1000 * (channels_hz@[x] + channels_hz@[y]));
}

proof fn lemma_absorbed(s: Seq<i64>, span: int, i: int)
    requires
        s.len() > 0,
        1 <= i <= s.len(),
        1000 * (s[i - 1] - s[0]) <= span || i == 1,
    ensures
        i <= absorbed(s, span, i) <= s.len(),
        absorbed(s, span, i) == 1 || 1000 * (s[absorbed(s, span, i) - 1] - s[0]) <= span,
    decreases s.len() - i,
{
    if i < s.len() && 1000 * (s[i] - s[0]) <= span {
        lemma_absorbed(s, span, i + 1);
    }
}

proof fn lemma_centred(s: Seq<i64>, span: int, k: int)
    requires
        0 <= span,
        0 <= k < centers(s, span).len(),
    ensures
        exists|a: int, b: int|
            0 <= a <= b < s.len() && 1000 * (s[b] - s[a]) <= span && 2 * centers(s, span)[k] == 1000 * (
            #[trigger] s[a] + #[trigger] s[b]),
    decreases s.len(),
{
    let n = absorbed(s, span, 1);
    lemma_absorbed(s, span, 1);
    if k == 0 {
        assert(2 * centers(s, span)[0] == 1000 * (s[0] + s[n - 1]));
    } else {
        let rest = s.skip(n);
        lemma_centred(rest, span, k - 1);
        let (a, b) = choose|a: int, b: int|
            0 <= a <= b < rest.len() && 1000 * (rest[b] - rest[a]) <= span && 2 * centers(
                rest,
                span,
            )[k - 1] == 1000 * (#[trigger] rest[a] + #[trigger] rest[b]);
        assert(rest[a] == s[a + n] && rest[b] == s[b + n]);
        assert(2 * centers(s, span)[k] == 1000 * (s[a + n] + s[b + n]));
    }
}

/// Four fifths of a capture are usable.
pub proof fn law_usable_span(rate: u64, span: u64)
    requires
        call_ensures(usable_span_of, (rate,), span),
    ensures
        5 * span <= 4 * rate < 5 * span + 5,
{
}

/// A sweep's hops reach every channel of the bands swept, with as few tunes as can be at
/// four fifths of the rate.
pub proof fn law_hops_reach_every_channel(
    rate_milli_hz: u64,
    bands: ScanBands,
    r: Vec<i64>,
    other: Seq<i64>,
)
    requires
        call_ensures(build_scan_hops, (rate_milli_hz, bands), r),
    ensures
        all_reached(entry_freqs(catalog(bands is All)), r@, 4 * rate_milli_hz as int / 5),
        all_reached(entry_freqs(catalog(bands is All)), other, 4 * rate_milli_hz as int / 5)
            ==> r@.len() <= other.len(),
{
    let span = usable_span(rate_milli_hz as int);
    let channels = entry_freqs(catalog(bands is All));
    assert(span == 4 * rate_milli_hz as int / 5);
    law_plan_covers_every_channel(channels, span);
    lemma_reached(channels, r@, span);
    lemma_reached(channels, other, span);
    if all_reached(channels, other, span) {
        law_plan_is_shortest(channels, span, as_tunes(other));
    }
}

/// A packet belongs to the hop nearest to its centre where that is within a megahertz, and
/// otherwise to its own centre; either is told in whole hertz, none below zero.
pub proof fn law_packet_belongs_to_a_hop(milli_hz: i64, hops: &Vec<i64>, hz: u64, k: int)
    requires
        call_ensures(snap_to_nearest_hop, (milli_hz, hops), hz),
        0 <= k < hops@.len(),
        forall|j: int|
            0 <= j < hops@.len() ==> away(hops@[k] as int, milli_hz as int) <= away(
                #[trigger] hops@[j] as int,
                milli_hz as int,
            ) && (j < k ==> away(hops@[k] as int, milli_hz as int) < away(
                hops@[j] as int,
                milli_hz as int,
            )),
    ensures
        ({
            let f = if away(hops@[k] as int, milli_hz as int) <= 1_000_000_000 {
                hops@[k] as int
            } else {
                milli_hz as int
            };
            hz == (if f < 0 {
                0
            } else {
                f / 1000
            })
        }),
{
    let far = hop_gaps(hops@, milli_hz as int);
    lemma_first_min(far);
    assert forall|j: int| 0 <= j < hops@.len() implies #[trigger] far[j] == away(
        hops@[j] as int,
        milli_hz as int,
    ) by {}
    assert(crate::order::is_first_min(far, k));
}

/// A packet of a sweep without hops belongs to its own centre.
pub proof fn law_packet_without_hops(milli_hz: i64, hops: &Vec<i64>, hz: u64)
    requires
        call_ensures(snap_to_nearest_hop, (milli_hz, hops), hz),
        hops@.len() == 0,
    ensures
        milli_hz >= 0 ==> hz == milli_hz as int / 1000,
        milli_hz < 0 ==> hz == 0,
{
}

/// The rates the hardware has, in hertz: the highest and its halves.
pub open spec fn hardware_rates() -> Seq<int> {
    seq![
        61_440_000,
        30_720_000,
        15_360_000,
        7_680_000,
        3_840_000,
        1_920_000,
        960_000,
        480_000,
        240_000,
        120_000,
    ]
}

/// The rate used is the hardware rate nearest to the one asked for, the higher of two
/// equally near ones.
pub proof fn law_nearest_hardware_rate(requested_milli_hz: u64, hz: u64, i: int)
    requires
        call_ensures(nearest_iq_sample_rate, (requested_milli_hz,), hz),
        0 <= i < hardware_rates().len(),
    ensures
        hardware_rates().contains(hz as int),
        away(1000 * hz, requested_milli_hz as int) <= away(
            1000 * hardware_rates()[i],
            requested_milli_hz as int,
        ),
        away(1000 * hz, requested_milli_hz as int) == away(
            1000 * hardware_rates()[i],
            requested_milli_hz as int,
        ) ==> hz >= hardware_rates()[i],
{
    let far = rate_gaps(requested_milli_hz as int, 1);
    lemma_first_min(far);
    let k = first_min(far);
    assert(forall|j: int| 0 <= j < 10 ==> #[trigger] hardware_rates()[j] == iq_rate(j));
    assert(hardware_rates()[k] == hz);
    assert(hardware_rates()[i] == iq_rate(i));
    assert(far[k] <= far[i]);
    if i < k {
        assert(far[k] < far[i]);
    }
}

/// The rate for a locked picture is never above the sweep's. It is the sweep's own with
/// the PLL or without a deviation, and otherwise holds the channel: two fifths of it are
/// the deviation and 2 MHz, or more, unless it is the sweep's own.
pub proof fn law_locked_rate(
    scan_rate_milli_hz: u64,
    deviation_milli_hz: u64,
    demod: DemodKind,
    r: u64,
)
    requires
        call_ensures(locked_capture_rate, (scan_rate_milli_hz, deviation_milli_hz, demod), r),
    ensures
        r <= scan_rate_milli_hz,
        demod is Pll || deviation_milli_hz == 0 ==> r == scan_rate_milli_hz,
        r == scan_rate_milli_hz || 2 * r >= 5 * (deviation_milli_hz + 2_000_000_000),
{
    law_locked_rate_holds_its_channel(
        scan_rate_milli_hz as int,
        deviation_milli_hz as int,
        demod,
    );
}

/// From a hardware rate, the rate for a locked picture is no higher than any lower
/// hardware rate that holds the channel.
pub proof fn law_locked_rate_is_as_low_as_can_be(
    i: int,
    j: int,
    scan_rate_milli_hz: u64,
    deviation_milli_hz: u64,
    demod: DemodKind,
    r: u64,
)
    requires
        0 <= i <= j < hardware_rates().len(),
        scan_rate_milli_hz == 1000 * hardware_rates()[i],
        demod !is Pll,
        deviation_milli_hz > 0,
        2 * (1000 * hardware_rates()[j]) >= 5 * (deviation_milli_hz + 2_000_000_000),
        call_ensures(locked_capture_rate, (scan_rate_milli_hz, deviation_milli_hz, demod), r),
    ensures
        r <= 1000 * hardware_rates()[j],
{
    assert(hardware_rates()[i] == iq_rate(i) && hardware_rates()[j] == iq_rate(j));
    law_locked_rate_is_lowest(i, j, deviation_milli_hz as int, demod);
}

/// Up to 30.72 MSPS a hop is looked at six times, above that twice.
pub proof fn law_packets_per_hop(rate_milli_hz: u64, n: usize)
    requires
        call_ensures(detect_packets_per_hop, (rate_milli_hz,), n),
    ensures
        n == (if 0 < rate_milli_hz <= 30_720_000_000 {
            6
        } else {
            2int
        }),
{
}

/// Up to 30.72 MSPS every sweep dwells 25 ms for six packets. Above that every fourth
/// sweep dwells 60 ms for six, and the others 25 ms for two.
pub proof fn law_sweep_budget(n: u32, rate_milli_hz: u64, b: SweepBudget)
    requires
        call_ensures(aaronia_sweep_budget, (n, rate_milli_hz), b),
    ensures
        0 < rate_milli_hz <= 30_720_000_000 ==> b.dwell_ms == 25 && b.packets_per_hop == 6,
        !(0 < rate_milli_hz <= 30_720_000_000) && n % 4 == 3 ==> b.dwell_ms == 60
            && b.packets_per_hop == 6,
        !(0 < rate_milli_hz <= 30_720_000_000) && n % 4 != 3 ==> b.dwell_ms == 25
            && b.packets_per_hop == 2,
{
}

/// A rate above the ceiling is taken down to it, and that is said; one that was not named
/// is the ceiling.
pub proof fn law_rate_is_capped(requested: Option<u64>, ceiling: u64, r: (u64, bool))
    requires
        call_ensures(capped_rate, (requested, ceiling), r),
    ensures
        r.0 <= ceiling,
        requested matches Some(rate) ==> (rate <= ceiling ==> r == (rate, false)) && (rate > ceiling
            ==> r == (ceiling, true)),
        requested is None ==> r == (ceiling, false),
{
}

/// The lock is checked every half second, to the nearest packet, and with every packet
/// where packets are longer.
pub proof fn law_lock_is_checked_twice_a_second(rate_hz: u32, packet_len: usize, n: u64)
    requires
        call_ensures(check_every, (rate_hz, packet_len), n),
        0 < packet_len <= 0x1000_0000_0000_0000,
    ensures
        n >= 1,
        n > 1 ==> away(2 * (n * packet_len), rate_hz as int) <= packet_len,
        n == 1 ==> rate_hz < 3 * packet_len,
{
    let len = packet_len as int;
    let d = 4 * len;
    let q = (2 * rate_hz + 2 * len) / d;
    vstd::arithmetic::div_mod::lemma_fundamental_div_mod(2 * rate_hz + 2 * len, d);
    assert(q * d == 4 * (q * len)) by (nonlinear_arith)
        requires
            d == 4 * len,
    ;
    assert(d * q == q * d) by (nonlinear_arith);
    assert(crate::order::round_div(rate_hz as int, 2 * len) == q);
    if n == 1 {
        assert(q <= 1);
        assert(q * len <= len) by (nonlinear_arith)
            requires
                q <= 1,
                0 < len,
        ;
    }
}

/// The bands swept give their channels' frequencies as the table has them.
pub proof fn law_swept_channels(bands: ScanBands, freqs: Vec<i64>, channels: Vec<Channel>, i: int)
    requires
        call_ensures(ScanBands::channel_freqs_hz, (bands,), freqs),
        call_ensures(ScanBands::channels, (bands,), channels),
        0 <= i < freqs@.len(),
    ensures
        freqs@.len() == catalog(bands is All).len(),
        channels@.len() == freqs@.len(),
        freqs@[i] == catalog(bands is All)[i].2,
        channels@[i].hz == freqs@[i],
        channels@[i].name@ == catalog(bands is All)[i].0,
        channels@[i].band == catalog(bands is All)[i].1,
        bands is Band58 ==> 5_645_000_000 <= freqs@[i] <= 5_945_000_000,
{
    assert(entries(channels@)[i] == catalog(bands is All)[i]);
    assert(0 <= channels@[i].hz);
    assert(0 < freqs@[i]);
}

/// Sorting gives the same numbers in ascending order.
pub proof fn law_sorting(v: &Vec<i64>, r: Vec<i64>, i: int, j: int)
    requires
        call_ensures(sort_ascending, (v,), r),
        0 <= i < j < r@.len(),
    ensures
        r@[i] <= r@[j],
        r@.to_multiset() == v@.to_multiset(),
{
    lemma_ascending(v@);
}

/// Whether a rate is a hardware rate and, to the hertz, a half, a quarter or a smaller such
/// part of another, all in millihertz.
pub open spec fn is_part_of(r: int, scan_rate: int) -> bool {
    exists|i: int, k: nat|
        0 <= i < hardware_rates().len() && 1 <= k && r == 1000 * #[trigger] hardware_rates()[i]
            && away(r * #[trigger] pow2(k), scan_rate) <= 1000 * pow2(k)
}

/// The rate for a locked picture is the sweep's own, or a hardware rate that is a half, a
/// quarter or a smaller such part of it, to the hertz.
pub proof fn law_locked_rate_is_a_part(
    scan_rate_milli_hz: u64,
    deviation_milli_hz: u64,
    demod: DemodKind,
    r: u64,
)
    requires
        call_ensures(locked_capture_rate, (scan_rate_milli_hz, deviation_milli_hz, demod), r),
    ensures
        r == scan_rate_milli_hz || is_part_of(r as int, scan_rate_milli_hz as int),
{
    if demod !is Pll && deviation_milli_hz > 0 {
        vstd::arithmetic::power2::lemma2_to64();
        assert(pow2(1) == 2);
        lemma_narrowed_part(
            scan_rate_milli_hz as int,
            deviation_milli_hz as int,
            scan_rate_milli_hz as int,
            1,
        );
    }
}

proof fn lemma_narrowed_part(rate: int, deviation: int, chosen: int, k: nat)
    requires
        0 < deviation,
        1 <= k,
        chosen == rate || is_part_of(chosen, rate),
    ensures
        ({
            let r = narrowed(rate, deviation, chosen, pow2(k) as int);
            r == rate || is_part_of(r, rate)
        }),
    decreases 8 * rate - 10 * (deviation + 2_000_000_000) * pow2(k),
{
    let parts = pow2(k) as int;
    lemma_pow2_pos(k);
    let far = rate_gaps(rate, parts);
    lemma_first_min(far);
    let i = first_min(far);
    let below = 1000 * nearest_rate(rate, parts);
    let need = 10 * (deviation + 2_000_000_000);
    if 4 * rate >= need * parts && away(below * parts, rate) <= 1000 * parts && rate_holds(
        below,
        deviation,
    ) {
        assert(hardware_rates()[i] == iq_rate(i));
        assert(below == 1000 * hardware_rates()[i]);
        assert(is_part_of(below, rate));
        lemma_pow2_unfold((k + 1) as nat);
        assert(need * (2 * parts) == 2 * (need * parts) && need * parts > 0) by (nonlinear_arith)
            requires
                need > 0,
                parts > 0,
        ;
        lemma_narrowed_part(rate, deviation, below, (k + 1) as nat);
    }
}

} // verus!
