//! The live band-scan panel's model: what the sweep is seeing.
//!
//! Every element is data the scanner already produces. The bars are the sweep's
//! per-probe levels, detections are the detector's hits as reported, tune windows
//! are the planner's. Nothing here measures anything new.
//!
//! Frequencies are whole hertz where a channel table or a detector gives them so,
//! and millihertz (`milli_hz`) where a tuner does. Levels are millionths of a
//! decibel (`udb`), confidences parts per billion.

use std::collections::HashSet;
use std::time::Instant;

use vstd::prelude::*;

use crate::axis::{MAX_CHANNEL_HZ, MAX_MILLI_HZ, PROBE_STEP_HZ};
use crate::clock::now;
use crate::order::{
    ascending, first_min, gap, is_first_min, lemma_first_min, lemma_stable_insert, round_div,
    sort_ascending, stably_sorted,
};
use crate::raster::byte_len;

verus! {

/// How the panel is shown over a locked picture.
#[derive(Debug, Clone, Copy, PartialEq, Eq, Structural)]
pub enum PanelMode {
    Strip,
    Full,
    Off,
}

impl PanelMode {
    /// The mode that follows in the cycle strip, full, off.
    pub open spec fn following(self) -> PanelMode {
        match self {
            PanelMode::Strip => PanelMode::Full,
            PanelMode::Full => PanelMode::Off,
            PanelMode::Off => PanelMode::Strip,
        }
    }

    /// The number a mode is remembered by.
    pub open spec fn code(self) -> u8 {
        match self {
            PanelMode::Strip => 0,
            PanelMode::Full => 1,
            PanelMode::Off => 2,
        }
    }

    /// The mode a remembered number stands for.
    pub open spec fn of_code(v: u8) -> PanelMode {
        if v == 1 {
            PanelMode::Full
        } else if v == 2 {
            PanelMode::Off
        } else {
            PanelMode::Strip
        }
    }

    /// `B` cycles strip, full, off, strip.
    pub fn next(self) -> (r: PanelMode)
        ensures
            r == self.following(),
    {
        match self {
            PanelMode::Strip => PanelMode::Full,
            PanelMode::Full => PanelMode::Off,
            PanelMode::Off => PanelMode::Strip,
        }
    }

    /// The mode remembered as `v`; anything unknown is the strip.
    pub fn load(v: u8) -> (r: PanelMode)
        ensures
            r == PanelMode::of_code(v),
    {
        match v {
            1 => PanelMode::Full,
            2 => PanelMode::Off,
            _ => PanelMode::Strip,
        }
    }

    /// The number to remember the mode by.
    pub fn store(self) -> (v: u8)
        ensures
            v == self.code(),
    {
        match self {
            PanelMode::Strip => 0,
            PanelMode::Full => 1,
            PanelMode::Off => 2,
        }
    }

    /// The mode's name as shown to the operator.
    pub fn label(self) -> (s: &'static str)
        ensures
            s@ == (match self {
                PanelMode::Strip => "strip"@,
                PanelMode::Full => "full"@,
                PanelMode::Off => "off"@,
            }),
    {
        match self {
            PanelMode::Strip => "strip",
            PanelMode::Full => "full",
            PanelMode::Off => "off",
        }
    }
}

/// Three presses come back to where they started, and fewer do not.
pub proof fn law_panel_mode_cycles(m: PanelMode)
    ensures
        m.following().following().following() == m,
        m.following().following() != m,
        m.following() != m,
{
}

/// A remembered mode is read back.
pub proof fn law_panel_mode_survives_storing(m: PanelMode)
    ensures
        PanelMode::of_code(m.code()) == m,
{
}

/// One channel from the table: its name as people say it, its band letter, and
/// where it is.
#[derive(Debug, Clone)]
pub struct Channel {
    pub name: String,
    pub band: char,
    pub hz: i64,
}

/// The broadcast standard of a hit.
#[derive(Debug, Clone, Copy, PartialEq, Eq, Structural)]
pub enum Signal {
    Ntsc,
    Pal,
    Other,
}

/// What the detector reports of one carrier.
#[derive(Debug, Clone, Copy, PartialEq, Eq, Structural)]
pub struct Detection {
    pub frequency_hz: u64,
    pub confidence_ppb: u32,
    pub rssi_udb: i32,
    pub signal: Signal,
}

/// The level of one probe of a packet.
#[derive(Debug, Clone, Copy, PartialEq, Eq, Structural)]
pub struct Probe {
    pub offset_milli_hz: i64,
    pub level_udb: i32,
}

/// Height of the strip overlay in pixels.
pub const STRIP_H: usize = 34;

/// Levels within this distance of a channel count as "under" it, and two hits
/// this close are the same carrier.
pub const CHANNEL_REACH_HZ: i64 = 3_000_000;

/// `CHANNEL_REACH_HZ` in millihertz.
pub const CHANNEL_REACH_MILLI_HZ: i64 = 3_000_000_000;

/// Bars are kept to the nearest 100 kHz.
pub const BAR_STEP_MILLI_HZ: i64 = 100_000_000;

/// Hits belong to a tune whose centre is no further off than this.
pub const SAME_TUNE_MILLI_HZ: i64 = 1_000;

/// Confidence at or above which a hit is drawn as confirmed video.
pub const CONFIRM_AT_PPB: u32 = 800_000_000;

/// The floor shown where no level is known.
pub const NO_FLOOR_UDB: i32 = -100_000_000;

/// Longest channel name the panel can place.
pub const MAX_NAME_BYTES: usize = 1_048_576;

/// Everything the panel knows. It outlives individual sweeps and rides into lock
/// mode.
#[derive(Debug, Clone)]
pub struct BandScan {
    /// Ascending by frequency.
    pub channels: Vec<Channel>,
    /// The bands of the channels, one grid row each.
    pub rows: Vec<char>,
    /// The planned tunes.
    pub tunes: Vec<i64>,
    pub span_milli_hz: u64,
    /// Latest level per probe, keyed by frequency in steps of 100 kHz, ascending.
    pub energies: Vec<(i64, i32)>,
    /// When each tune was last visited.
    pub visited: Vec<Option<Instant>>,
    pub active_tune: Option<usize>,
    /// Hits with the tune centre that produced them, so revisiting a tune replaces
    /// its own hits and leaves the others alone.
    pub detections: Vec<(i64, Detection)>,
    pub lock_milli_hz: Option<u64>,
    /// Frequencies the operator skipped, ascending.
    pub skipped: Vec<u64>,
    pub last_sweep_end: Option<Instant>,
}

/// Place of a band letter in the order people use; unknown letters come last.
pub open spec fn band_rank(b: char) -> int {
    if b == 'A' {
        0
    } else if b == 'B' {
        1
    } else if b == 'E' {
        2
    } else if b == 'F' {
        3
    } else if b == 'R' {
        4
    } else if b == 'L' {
        5
    } else if b == 'D' {
        6
    } else if b == '1' {
        7
    } else if b == '3' {
        8
    } else if b == 'W' {
        9
    } else {
        10
    }
}

/// The letters of a sequence, each at its first place.
pub open spec fn distinct(s: Seq<char>) -> Seq<char>
    decreases s.len(),
{
    if s.len() == 0 {
        Seq::empty()
    } else {
        let front = distinct(s.drop_last());
        if front.contains(s.last()) {
            front
        } else {
            front.push(s.last())
        }
    }
}

/// The band letters of a channel list.
pub open spec fn bands_of(channels: Seq<Channel>) -> Seq<char> {
    Seq::new(channels.len(), |i: int| channels[i].band)
}

/// The frequencies of a channel list.
pub open spec fn hz_of(channels: Seq<Channel>) -> Seq<i64> {
    Seq::new(channels.len(), |i: int| channels[i].hz)
}

/// Whether channels can be laid out: frequencies in range, names of sane length.
pub open spec fn channels_fit(channels: Seq<Channel>) -> bool {
    forall|i: int|
        0 <= i < channels.len() ==> 0 <= (#[trigger] channels[i]).hz <= MAX_CHANNEL_HZ && byte_len(
            channels[i].name@,
        ) <= MAX_NAME_BYTES
}

/// Keys run strictly upwards.
pub open spec fn keys_rise(bars: Seq<(i64, i32)>) -> bool {
    forall|i: int, j: int|
        0 <= i < j < bars.len() ==> (#[trigger] bars[i]).0 < (#[trigger] bars[j]).0
}

/// No two hits are the same carrier.
pub open spec fn hits_apart(hits: Seq<(i64, Detection)>) -> bool {
    forall|i: int, j: int|
        0 <= i < j < hits.len() ==> gap(
            (#[trigger] hits[i]).1.frequency_hz as int,
            (#[trigger] hits[j]).1.frequency_hz as int,
        ) >= CHANNEL_REACH_HZ
}

/// Numbers run strictly upwards.
pub open spec fn rising(s: Seq<u64>) -> bool {
    forall|i: int, j: int| 0 <= i < j < s.len() ==> s[i] < s[j]
}

impl BandScan {
    /// The panel's invariant.
    pub open spec fn wf(&self) -> bool {
        &&& channels_fit(self.channels@)
        &&& crate::order::keys_ascend(self.channels@, |c: Channel| c.hz as int)
        &&& stably_sorted(distinct(bands_of(self.channels@)), self.rows@, |b: char| band_rank(b))
        &&& self.rows@.len() <= 0x110000
        &&& self.visited@.len() == self.tunes@.len()
        &&& (self.active_tune matches Some(k) ==> k < self.tunes@.len())
        &&& keys_rise(self.energies@)
        &&& hits_apart(self.detections@)
        &&& rising(self.skipped@)
    }
}

/// `distinct` repeats nothing.
proof fn lemma_distinct(s: Seq<char>)
    ensures
        distinct(s).no_duplicates(),
    decreases s.len(),
{
    if s.len() > 0 {
        lemma_distinct(s.drop_last());
    }
}

proof fn lemma_letter_range(c: char)
    ensures
        0 <= c as int <= 0x10ffff,
{
}

/// There are only so many letters.
proof fn lemma_letters_run_out(s: Seq<char>)
    requires
        s.no_duplicates(),
    ensures
        s.len() <= 0x110000,
{
    let t = Seq::new(s.len(), |i: int| s[i] as int);
    assert(t.no_duplicates()) by {
        assert forall|i: int, j: int| 0 <= i < t.len() && 0 <= j < t.len() && i != j implies t[i]
            != t[j] by {
            assert(s[i] != s[j]);
        }
    }
    t.unique_seq_to_set();
    vstd::set_lib::lemma_int_range(0, 0x110000);
    assert forall|x: int| t.to_set().contains(x) implies vstd::set_lib::set_int_range(
        0,
        0x110000,
    ).contains(x) by {
        assert(t.contains(x));
        let i = choose|i: int| 0 <= i < t.len() && t[i] == x;
        lemma_letter_range(s[i]);
    }
    vstd::set_lib::lemma_len_subset(t.to_set(), vstd::set_lib::set_int_range(0, 0x110000));
}

fn rank(b: char) -> (r: u8)
    ensures
        r == band_rank(b),
{
    if b == 'A' {
        0
    } else if b == 'B' {
        1
    } else if b == 'E' {
        2
    } else if b == 'F' {
        3
    } else if b == 'R' {
        4
    } else if b == 'L' {
        5
    } else if b == 'D' {
        6
    } else if b == '1' {
        7
    } else if b == '3' {
        8
    } else if b == 'W' {
        9
    } else {
        10
    }
}

/// Sort channels by frequency, equals keeping their order.
fn sort_channels(channels: Vec<Channel>) -> (out: Vec<Channel>)
    ensures
        stably_sorted(channels@, out@, |c: Channel| c.hz as int),
        out@.to_multiset() == channels@.to_multiset(),
{
    let ghost all = channels@;
    let ghost key = |c: Channel| c.hz as int;
    let mut rest: Vec<Channel> = channels;
    let mut out: Vec<Channel> = Vec::new();
    let ghost mut done: int = 0;
    proof {
        assert(all.take(0) =~= Seq::<Channel>::empty());
        assert(all.skip(0) =~= all);
        assert(stably_sorted(all.take(0), out@, key));
    }
    while rest.len() > 0
        invariant
            0 <= done <= all.len(),
            rest@ == all.skip(done),
            key == |c: Channel| c.hz as int,
            stably_sorted(all.take(done), out@, key),
            out@.to_multiset() == all.take(done).to_multiset(),
        decreases rest.len(),
    {
        let c: Channel = rest.remove(0);
        proof {
            assert(all.skip(done).remove(0) =~= all.skip(done + 1));
            assert(c == all[done]);
        }
        let mut pos: usize = out.len();
        while pos > 0 && out[pos - 1].hz > c.hz
            invariant
                pos <= out.len(),
                forall|i: int| pos <= i < out@.len() ==> c.hz < (#[trigger] out@[i]).hz,
            decreases pos,
        {
            pos = pos - 1;
        }
        proof {
            assert(all.take(done + 1) =~= all.take(done).push(c));
            assert forall|i: int| 0 <= i < pos implies key(#[trigger] out@[i]) <= key(c) by {
                if i < pos - 1 {
                    assert(key(out@[i]) <= key(out@[pos - 1]));
                }
            }
            lemma_stable_insert(all.take(done), out@, pos as int, c, key);
            crate::order::lemma_insert_multiset(out@, pos as int, c);
            all.take(done).to_multiset_ensures();
            done = done + 1;
        }
        out.insert(pos, c);
    }
    proof {
        assert(all.take(done) =~= all);
    }
    out
}

/// The bands of a channel list, each once, in the order people use.
fn band_rows(channels: &Vec<Channel>) -> (rows: Vec<char>)
    ensures
        stably_sorted(distinct(bands_of(channels@)), rows@, |b: char| band_rank(b)),
        rows@.len() <= 0x110000,
{
    let ghost bands = bands_of(channels@);
    let mut seen: Vec<char> = Vec::new();
    let mut i: usize = 0;
    while i < channels.len()
        invariant
            i <= channels.len(),
            bands == bands_of(channels@),
            seen@ == distinct(bands.take(i as int)),
        decreases channels.len() - i,
    {
        let b: char = channels[i].band;
        let mut known: bool = false;
        let mut j: usize = 0;
        while j < seen.len()
            invariant
                j <= seen.len(),
                known <==> seen@.take(j as int).contains(b),
            decreases seen.len() - j,
        {
            proof {
                assert(seen@.take(j + 1) =~= seen@.take(j as int).push(seen@[j as int]));
                assert(seen@.take(j + 1)[j as int] == seen@[j as int]);
                assert forall|x: char| seen@.take(j as int).contains(x) implies seen@.take(
                    j + 1,
                ).contains(x) by {
                    let k = choose|k: int| 0 <= k < j && seen@.take(j as int)[k] == x;
                    assert(seen@.take(j + 1)[k] == x);
                }
            }
            if seen[j] == b {
                known = true;
            }
            j = j + 1;
        }
        proof {
            assert(seen@.take(seen@.len() as int) =~= seen@);
            assert(bands.take(i + 1).drop_last() =~= bands.take(i as int));
            assert(bands.take(i + 1).last() == b);
        }
        if !known {
            seen.push(b);
        }
        i = i + 1;
    }
    proof {
        assert(bands.take(bands.len() as int) =~= bands);
        lemma_distinct(bands);
        lemma_letters_run_out(seen@);
    }
    let ghost key = |b: char| band_rank(b);
    let mut rows: Vec<char> = Vec::new();
    i = 0;
    proof {
        assert(seen@.take(0) =~= Seq::<char>::empty());
        assert(stably_sorted(seen@.take(0), rows@, key));
    }
    while i < seen.len()
        invariant
            i <= seen.len(),
            rows@.len() == i,
            key == |b: char| band_rank(b),
            stably_sorted(seen@.take(i as int), rows@, key),
        decreases seen.len() - i,
    {
        let b: char = seen[i];
        let mut pos: usize = rows.len();
        while pos > 0 && rank(rows[pos - 1]) > rank(b)
            invariant
                pos <= rows.len(),
                forall|k: int| pos <= k < rows@.len() ==> band_rank(b) < band_rank(#[trigger] rows@[k]),
            decreases pos,
        {
            pos = pos - 1;
        }
        proof {
            assert(seen@.take(i + 1) =~= seen@.take(i as int).push(b));
            assert forall|k: int| 0 <= k < pos implies key(#[trigger] rows@[k]) <= key(b) by {
                if k < pos - 1 {
                    assert(key(rows@[k]) <= key(rows@[pos - 1]));
                }
            }
            lemma_stable_insert(seen@.take(i as int), rows@, pos as int, b, key);
        }
        rows.insert(pos, b);
        i = i + 1;
    }
    proof {
        assert(seen@.take(seen@.len() as int) =~= seen@);
    }
    rows
}

impl BandScan {
    /// A panel for a channel table, with nothing seen yet.
    pub fn new(channels: Vec<Channel>) -> (r: BandScan)
        requires
            channels_fit(channels@),
        ensures
            r.wf(),
            stably_sorted(channels@, r.channels@, |c: Channel| c.hz as int),
            r.channels@.to_multiset() == channels@.to_multiset(),
            r.tunes@ == Seq::<i64>::empty(),
            r.span_milli_hz == 0,
            r.energies@ == Seq::<(i64, i32)>::empty(),
            r.active_tune is None,
            r.detections@ == Seq::<(i64, Detection)>::empty(),
            r.lock_milli_hz is None,
            r.skipped@ == Seq::<u64>::empty(),
            r.last_sweep_end is None,
    {
        let sorted: Vec<Channel> = sort_channels(channels);
        proof {
            assert forall|i: int| 0 <= i < sorted@.len() implies 0 <= (#[trigger] sorted@[i]).hz
                <= MAX_CHANNEL_HZ && byte_len(sorted@[i].name@) <= MAX_NAME_BYTES by {
                sorted@.to_multiset_ensures();
                channels@.to_multiset_ensures();
                assert(sorted@.contains(sorted@[i]));
                assert(channels@.to_multiset().count(sorted@[i]) > 0);
                assert(channels@.contains(sorted@[i]));
            }
        }
        let rows: Vec<char> = band_rows(&sorted);
        BandScan {
            channels: sorted,
            rows,
            tunes: Vec::new(),
            span_milli_hz: 0,
            energies: Vec::new(),
            visited: Vec::new(),
            active_tune: None,
            detections: Vec::new(),
            lock_milli_hz: None,
            skipped: Vec::new(),
            last_sweep_end: None,
        }
    }
}

/// The planned tune nearest to a centre; the first of equally near ones.
pub open spec fn nearest_tune(tunes: Seq<i64>, center: int) -> int {
    first_min(Seq::new(tunes.len(), |i: int| gap(tunes[i] as int, center)))
}

/// The bar a probe belongs to.
pub open spec fn bar_key(center: int, offset: int) -> i64 {
    round_div(center + offset, BAR_STEP_MILLI_HZ as int) as i64
}

/// Whether a bar lies outside the window of a tune: further from its centre than
/// half the span and one probe step.
pub open spec fn outside_window(key: i64, center: int, span: int) -> bool {
    2 * gap(key * BAR_STEP_MILLI_HZ, center) > span + 2 * (1000 * PROBE_STEP_HZ)
}

/// The bars outside a tune's window.
pub open spec fn bars_kept(bars: Seq<(i64, i32)>, center: int, span: int) -> Seq<(i64, i32)> {
    bars.filter(|b: (i64, i32)| outside_window(b.0, center, span))
}

/// The bars with one level set, keys still rising.
pub open spec fn bar_set(bars: Seq<(i64, i32)>, key: i64, level: i32) -> Seq<(i64, i32)>
    decreases bars.len(),
{
    if bars.len() == 0 || bars.last().0 < key {
        bars.push((key, level))
    } else if bars.last().0 == key {
        bars.drop_last().push((key, level))
    } else {
        bar_set(bars.drop_last(), key, level).push(bars.last())
    }
}

/// The bars after all probes of a packet, first to last.
pub open spec fn bars_after(bars: Seq<(i64, i32)>, center: int, probes: Seq<Probe>) -> Seq<
    (i64, i32),
>
    decreases probes.len(),
{
    if probes.len() == 0 {
        bars
    } else {
        bar_set(
            bars_after(bars, center, probes.drop_last()),
            bar_key(center, probes.last().offset_milli_hz as int),
            probes.last().level_udb,
        )
    }
}

/// The level of a bar, if there is one.
pub open spec fn level_at(bars: Seq<(i64, i32)>, key: i64) -> Option<i32>
    decreases bars.len(),
{
    if bars.len() == 0 {
        None
    } else if bars.last().0 == key {
        Some(bars.last().1)
    } else {
        level_at(bars.drop_last(), key)
    }
}

/// Whether two carriers are the same one.
pub open spec fn same_carrier(a_hz: int, b_hz: int) -> bool {
    gap(a_hz, b_hz) < CHANNEL_REACH_HZ
}

/// Index of the first hit from `i` on that is the carrier at `hz`; the length where
/// there is none.
pub open spec fn hit_from(hits: Seq<(i64, Detection)>, hz: int, i: int) -> int
    decreases hits.len() - i,
{
    if i >= hits.len() {
        hits.len() as int
    } else if same_carrier(hits[i].1.frequency_hz as int, hz) {
        i
    } else {
        hit_from(hits, hz, i + 1)
    }
}

/// The hits of other carriers than the one at `hz`.
pub open spec fn other_carriers(hits: Seq<(i64, Detection)>, hz: int) -> Seq<(i64, Detection)> {
    hits.filter(|h: (i64, Detection)| !same_carrier(h.1.frequency_hz as int, hz))
}

/// The hits with one result merged in: a known carrier takes it over where it is
/// stronger or surer, and whatever else is then the same carrier goes; a new carrier
/// goes last.
pub open spec fn hit_merged(hits: Seq<(i64, Detection)>, center: i64, r: Detection) -> Seq<
    (i64, Detection),
> {
    let k = hit_from(hits, r.frequency_hz as int, 0);
    if k == hits.len() {
        hits.push((center, r))
    } else if r.rssi_udb > hits[k].1.rssi_udb || r.confidence_ppb > hits[k].1.confidence_ppb {
        hits.take(k).push((center, r)) + other_carriers(hits.skip(k + 1), r.frequency_hz as int)
    } else {
        hits
    }
}

/// The hits after all results of a packet, first to last.
pub open spec fn hits_after(
    hits: Seq<(i64, Detection)>,
    center: i64,
    results: Seq<Detection>,
) -> Seq<(i64, Detection)>
    decreases results.len(),
{
    if results.len() == 0 {
        hits
    } else {
        hit_merged(hits_after(hits, center, results.drop_last()), center, results.last())
    }
}

/// The hits that other tunes produced.
pub open spec fn hits_kept(hits: Seq<(i64, Detection)>, center: int) -> Seq<(i64, Detection)> {
    hits.filter(|h: (i64, Detection)| gap(h.0 as int, center) > SAME_TUNE_MILLI_HZ)
}

/// Setting a level is seen at its key and nowhere else.
pub proof fn law_bar_set(bars: Seq<(i64, i32)>, key: i64, level: i32, other: i64)
    requires
        keys_rise(bars),
    ensures
        level_at(bar_set(bars, key, level), other) == (if other == key {
            Some(level)
        } else {
            level_at(bars, other)
        }),
    decreases bars.len(),
{
    reveal_with_fuel(level_at, 2);
    let set = bar_set(bars, key, level);
    if bars.len() == 0 || bars.last().0 < key {
        assert(set.drop_last() =~= bars);
    } else if bars.last().0 == key {
        assert(set.drop_last() =~= bars.drop_last());
    } else {
        assert(keys_rise(bars.drop_last())) by {
            assert forall|i: int, j: int| 0 <= i < j < bars.drop_last().len() implies (
            #[trigger] bars.drop_last()[i]).0 < (#[trigger] bars.drop_last()[j]).0 by {
                assert(bars[i].0 < bars[j].0);
            }
        }
        law_bar_set(bars.drop_last(), key, level, other);
        assert(set.drop_last() =~= bar_set(bars.drop_last(), key, level));
    }
}

proof fn lemma_bar_set_rises(bars: Seq<(i64, i32)>, key: i64, level: i32)
    requires
        keys_rise(bars),
    ensures
        keys_rise(bar_set(bars, key, level)),
        bars.len() > 0 ==> (bar_set(bars, key, level).last().0 == bars.last().0 || bar_set(
            bars,
            key,
            level,
        ).last().0 == key),
    decreases bars.len(),
{
    let set = bar_set(bars, key, level);
    if bars.len() == 0 || bars.last().0 < key {
        assert forall|i: int, j: int| 0 <= i < j < set.len() implies (#[trigger] set[i]).0 < (
        #[trigger] set[j]).0 by {
            if j == bars.len() {
                if i < bars.len() - 1 {
                    assert(bars[i].0 < bars[bars.len() - 1].0);
                }
            } else {
                assert(bars[i].0 < bars[j].0);
            }
        }
    } else if bars.last().0 == key {
        assert forall|i: int, j: int| 0 <= i < j < set.len() implies (#[trigger] set[i]).0 < (
        #[trigger] set[j]).0 by {
            assert(bars[i].0 < bars[j].0);
        }
    } else {
        let front = bars.drop_last();
        assert forall|i: int, j: int| 0 <= i < j < front.len() implies (#[trigger] front[i]).0 < (
        #[trigger] front[j]).0 by {
            assert(bars[i].0 < bars[j].0);
        }
        lemma_bar_set_rises(front, key, level);
        let inner = bar_set(front, key, level);
        if front.len() > 0 {
            assert(bars[front.len() - 1].0 < bars[bars.len() - 1].0);
        }
        assert(inner.last().0 < bars.last().0);
        assert forall|i: int, j: int| 0 <= i < j < set.len() implies (#[trigger] set[i]).0 < (
        #[trigger] set[j]).0 by {
            if j == inner.len() {
                if i < inner.len() - 1 {
                    assert(inner[i].0 < inner[inner.len() - 1].0);
                }
            } else {
                assert(inner[i].0 < inner[j].0);
            }
        }
    }
}

/// Filtering keeps rising keys rising.
pub proof fn lemma_filter_rises(bars: Seq<(i64, i32)>, p: spec_fn((i64, i32)) -> bool)
    requires
        keys_rise(bars),
    ensures
        keys_rise(bars.filter(p)),
        forall|i: int| 0 <= i < bars.filter(p).len() ==> bars.contains(#[trigger] bars.filter(p)[i]),
    decreases bars.len(),
{
    reveal(Seq::filter);
    if bars.len() > 0 {
        let front = bars.drop_last();
        assert forall|i: int, j: int| 0 <= i < j < front.len() implies (#[trigger] front[i]).0 < (
        #[trigger] front[j]).0 by {
            assert(bars[i].0 < bars[j].0);
        }
        lemma_filter_rises(front, p);
        let kept = front.filter(p);
        let all = bars.filter(p);
        assert forall|i: int| 0 <= i < all.len() implies bars.contains(#[trigger] all[i]) by {
            if i < kept.len() {
                assert(front.contains(kept[i]));
                let k = choose|k: int| 0 <= k < front.len() && front[k] == kept[i];
                assert(bars[k] == all[i]);
            } else {
                assert(bars[bars.len() - 1] == all[i]);
            }
        }
        assert forall|i: int, j: int| 0 <= i < j < all.len() implies (#[trigger] all[i]).0 < (
        #[trigger] all[j]).0 by {
            if j == kept.len() {
                assert(front.contains(kept[i]));
                let k = choose|k: int| 0 <= k < front.len() && front[k] == kept[i];
                assert(bars[k].0 < bars[bars.len() - 1].0);
            } else {
                assert(kept[i].0 < kept[j].0);
            }
        }
    }
}

/// Set one level.
fn set_bar(bars: &mut Vec<(i64, i32)>, key: i64, level: i32)
    requires
        keys_rise(old(bars)@),
    ensures
        final(bars)@ == bar_set(old(bars)@, key, level),
        keys_rise(final(bars)@),
{
    let ghost before = bars@;
    proof {
        lemma_bar_set_rises(before, key, level);
    }
    let mut pos: usize = bars.len();
    proof {
        assert(before.take(before.len() as int) =~= before);
        assert(bar_set(before, key, level) + before.skip(before.len() as int) =~= bar_set(
            before,
            key,
            level,
        ));
    }
    while pos > 0 && bars[pos - 1].0 > key
        invariant
            pos <= bars.len(),
            bars@ == before,
            bar_set(before, key, level) == bar_set(before.take(pos as int), key, level)
                + before.skip(pos as int),
        decreases pos,
    {
        proof {
            let cut = before.take(pos as int);
            assert(cut.drop_last() =~= before.take(pos - 1));
            assert(cut.last() == before[pos - 1]);
            assert(bar_set(cut, key, level) + before.skip(pos as int) =~= bar_set(
                before.take(pos - 1),
                key,
                level,
            ) + before.skip(pos - 1));
        }
        pos = pos - 1;
    }
    let ghost cut = before.take(pos as int);
    if pos > 0 && bars[pos - 1].0 == key {
        bars.set(pos - 1, (key, level));
        assert(cut.last() == before[pos - 1]);
        assert(bars@ =~= cut.drop_last().push((key, level)) + before.skip(pos as int));
    } else {
        bars.insert(pos, (key, level));
        assert(pos > 0 ==> cut.last() == before[pos - 1]);
        assert(bars@ =~= cut.push((key, level)) + before.skip(pos as int));
    }
}

/// Round to the nearest bar.
fn key_of(center: i64, offset: i64) -> (k: i64)
    ensures
        k == bar_key(center as int, offset as int),
{
    let f: i128 = center as i128 + offset as i128;
    let step: i128 = BAR_STEP_MILLI_HZ as i128;
    if f >= 0 {
        ((2 * f + step) / (2 * step)) as i64
    } else {
        (-((2 * -f + step) / (2 * step))) as i64
    }
}

/// Frequency of a bar.
pub fn bar_milli_hz(key: i64) -> (f: i128)
    ensures
        f == key * BAR_STEP_MILLI_HZ,
        -1_000_000_000_000_000_000_000_000_000_000 <= f,
        f <= 1_000_000_000_000_000_000_000_000_000_000,
{
    key as i128 * 100_000_000
}

/// The distance between two numbers.
pub fn distance(a: i128, b: i128) -> (d: i128)
    requires
        -0x1000_0000_0000_0000_0000_0000_0000_0000 <= a <= 0x1000_0000_0000_0000_0000_0000_0000_0000,
        -0x1000_0000_0000_0000_0000_0000_0000_0000 <= b <= 0x1000_0000_0000_0000_0000_0000_0000_0000,
    ensures
        d == gap(a as int, b as int),
{
    if a >= b {
        a - b
    } else {
        b - a
    }
}

/// The bars outside a tune's window.
fn keep_bars(bars: &Vec<(i64, i32)>, center: i64, span: u64) -> (r: Vec<(i64, i32)>)
    requires
        keys_rise(bars@),
    ensures
        r@ == bars_kept(bars@, center as int, span as int),
        keys_rise(r@),
{
    let ghost p = |b: (i64, i32)| outside_window(b.0, center as int, span as int);
    let mut r: Vec<(i64, i32)> = Vec::new();
    let mut i: usize = 0;
    let edge: i128 = span as i128 + 2 * (1000 * PROBE_STEP_HZ as i128);
    proof {
        reveal(Seq::filter);
        assert(bars@.take(0).filter(p) =~= Seq::empty());
    }
    while i < bars.len()
        invariant
            i <= bars.len(),
            edge == span + 2 * (1000 * PROBE_STEP_HZ),
            p == |b: (i64, i32)| outside_window(b.0, center as int, span as int),
            r@ == bars@.take(i as int).filter(p),
        decreases bars.len() - i,
    {
        let b: (i64, i32) = bars[i];
        proof {
            reveal(Seq::filter);
            assert(bars@.take(i + 1).drop_last() =~= bars@.take(i as int));
            assert(bars@.take(i + 1).last() == b);
        }
        if 2 * distance(bar_milli_hz(b.0), center as i128) > edge {
            r.push(b);
        }
        i = i + 1;
    }
    proof {
        assert(bars@.take(bars@.len() as int) =~= bars@);
        lemma_filter_rises(bars@, p);
    }
    r
}

/// The hits that other tunes produced.
fn keep_hits(hits: &Vec<(i64, Detection)>, center: i64) -> (r: Vec<(i64, Detection)>)
    ensures
        r@ == hits_kept(hits@, center as int),
        hits_apart(hits@) ==> hits_apart(r@),
{
    let ghost p = |h: (i64, Detection)| gap(h.0 as int, center as int) > SAME_TUNE_MILLI_HZ;
    let mut r: Vec<(i64, Detection)> = Vec::new();
    let mut i: usize = 0;
    proof {
        reveal(Seq::filter);
        assert(hits@.take(0).filter(p) =~= Seq::empty());
    }
    while i < hits.len()
        invariant
            i <= hits.len(),
            p == |h: (i64, Detection)| gap(h.0 as int, center as int) > SAME_TUNE_MILLI_HZ,
            r@ == hits@.take(i as int).filter(p),
        decreases hits.len() - i,
    {
        let h: (i64, Detection) = hits[i];
        proof {
            reveal(Seq::filter);
            assert(hits@.take(i + 1).drop_last() =~= hits@.take(i as int));
            assert(hits@.take(i + 1).last() == h);
        }
        if distance(h.0 as i128, center as i128) > SAME_TUNE_MILLI_HZ as i128 {
            r.push(h);
        }
        i = i + 1;
    }
    proof {
        assert(hits@.take(hits@.len() as int) =~= hits@);
        lemma_filter_apart(hits@, p);
    }
    r
}

/// Index of the first hit that is the carrier at `hz`.
pub fn find_hit(hits: &Vec<(i64, Detection)>, hz: u64) -> (r: Option<usize>)
    ensures
        match r {
            Some(k) => k < hits@.len() && k == hit_from(hits@, hz as int, 0),
            None => hit_from(hits@, hz as int, 0) == hits@.len(),
        },
{
    let mut i: usize = 0;
    while i < hits.len()
        invariant
            i <= hits.len(),
            hit_from(hits@, hz as int, 0) == hit_from(hits@, hz as int, i as int),
        decreases hits.len() - i,
    {
        if distance(hits[i].1.frequency_hz as i128, hz as i128) < CHANNEL_REACH_HZ as i128 {
            return Some(i);
        }
        i = i + 1;
    }
    None
}

/// Let a result take a slot over, and drop the later hits of its carrier.
fn take_over(hits: &mut Vec<(i64, Detection)>, k: usize, center: i64, r: Detection)
    requires
        k < old(hits)@.len(),
    ensures
        final(hits)@ == old(hits)@.take(k as int).push((center, r)) + other_carriers(
            old(hits)@.skip(k + 1),
            r.frequency_hz as int,
        ),
{
    let ghost before = hits@;
    let ghost later = before.skip(k + 1);
    let ghost p = |h: (i64, Detection)|
        !same_carrier(h.1.frequency_hz as int, r.frequency_hz as int);
    let ghost front = before.take(k as int).push((center, r));
    let len: usize = hits.len();
    let mut kept: Vec<(i64, Detection)> = Vec::new();
    let mut i: usize = 0;
    while i < k
        invariant
            i <= k < len,
            len == hits@.len(),
            hits@ == before,
            kept@ == before.take(i as int),
        decreases k - i,
    {
        kept.push(hits[i]);
        i = i + 1;
        assert(kept@ =~= before.take(i as int));
    }
    kept.push((center, r));
    i = k + 1;
    proof {
        reveal(Seq::filter);
        assert(later.take(0).filter(p) =~= Seq::empty());
        assert(kept@ =~= front + later.take(0).filter(p));
    }
    while i < len
        invariant
            k + 1 <= i <= len,
            len == hits@.len(),
            hits@ == before,
            later == before.skip(k + 1),
            p == |h: (i64, Detection)|
                !same_carrier(h.1.frequency_hz as int, r.frequency_hz as int),
            kept@ == front + later.take(i - k - 1).filter(p),
        decreases len - i,
    {
        let h: (i64, Detection) = hits[i];
        let ghost n = i - k - 1;
        proof {
            reveal(Seq::filter);
            assert(later.take(n + 1).drop_last() =~= later.take(n));
            assert(later.take(n + 1).last() == h);
        }
        if distance(h.1.frequency_hz as i128, r.frequency_hz as i128) >= CHANNEL_REACH_HZ as i128 {
            kept.push(h);
        }
        assert(kept@ =~= front + later.take(n + 1).filter(p));
        i = i + 1;
    }
    assert(later.take(later.len() as int) =~= later);
    *hits = kept;
}

/// Filtering keeps hits apart, and gives only hits that were there and pass.
pub proof fn lemma_filter_apart(
    hits: Seq<(i64, Detection)>,
    p: spec_fn((i64, Detection)) -> bool,
)
    ensures
        hits_apart(hits) ==> hits_apart(hits.filter(p)),
        forall|i: int|
            0 <= i < hits.filter(p).len() ==> hits.contains(#[trigger] hits.filter(p)[i]) && p(
                hits.filter(p)[i],
            ),
        forall|j: int|
            0 <= j < hits.len() && p(#[trigger] hits[j]) ==> hits.filter(p).contains(hits[j]),
    decreases hits.len(),
{
    reveal(Seq::filter);
    if hits.len() > 0 {
        let front = hits.drop_last();
        let n = hits.len() - 1;
        lemma_filter_apart(front, p);
        let kept = front.filter(p);
        let all = hits.filter(p);
        assert forall|i: int| 0 <= i < all.len() implies hits.contains(#[trigger] all[i]) && p(
            all[i],
        ) by {
            if i < kept.len() {
                assert(front.contains(kept[i]));
                let k = choose|k: int| 0 <= k < front.len() && front[k] == kept[i];
                assert(hits[k] == all[i]);
            } else {
                assert(hits[n] == all[i]);
            }
        }
        assert forall|j: int| 0 <= j < hits.len() && p(#[trigger] hits[j]) implies all.contains(
            hits[j],
        ) by {
            if j < n {
                assert(front[j] == hits[j]);
                assert(kept.contains(front[j]));
                let k = choose|k: int| 0 <= k < kept.len() && kept[k] == front[j];
                assert(all[k] == hits[j]);
            } else {
                assert(all[all.len() - 1] == hits[n]);
            }
        }
        if hits_apart(hits) {
            assert(hits_apart(front)) by {
                assert forall|i: int, j: int| 0 <= i < j < front.len() implies gap(
                    (#[trigger] front[i]).1.frequency_hz as int,
                    (#[trigger] front[j]).1.frequency_hz as int,
                ) >= CHANNEL_REACH_HZ by {
                    assert(front[i] == hits[i] && front[j] == hits[j]);
                }
            }
            assert forall|i: int, j: int| 0 <= i < j < all.len() implies gap(
                (#[trigger] all[i]).1.frequency_hz as int,
                (#[trigger] all[j]).1.frequency_hz as int,
            ) >= CHANNEL_REACH_HZ by {
                if j < kept.len() {
                    assert(all[i] == kept[i] && all[j] == kept[j]);
                } else {
                    assert(front.contains(kept[i]));
                    let k = choose|k: int| 0 <= k < front.len() && front[k] == kept[i];
                    assert(hits[k] == all[i] && hits[n] == all[j]);
                }
            }
        }
    }
}

/// Merging a result in keeps the hits apart: two this close are one carrier, and one
/// hit.
pub proof fn law_one_hit_a_carrier(hits: Seq<(i64, Detection)>, center: i64, r: Detection)
    requires
        hits_apart(hits),
    ensures
        hits_apart(hit_merged(hits, center, r)),
{
    let hz = r.frequency_hz as int;
    let k = hit_from(hits, hz, 0);
    lemma_hit_from(hits, hz, 0);
    let p = |h: (i64, Detection)| !same_carrier(h.1.frequency_hz as int, hz);
    let later = hits.skip(k + 1);
    let after = hit_merged(hits, center, r);
    if k < hits.len() {
        assert(hits_apart(later)) by {
            assert forall|i: int, j: int| 0 <= i < j < later.len() implies gap(
                (#[trigger] later[i]).1.frequency_hz as int,
                (#[trigger] later[j]).1.frequency_hz as int,
            ) >= CHANNEL_REACH_HZ by {
                assert(later[i] == hits[i + k + 1] && later[j] == hits[j + k + 1]);
            }
        }
    }
    lemma_filter_apart(later, p);
    let rest = other_carriers(later, hz);
    if k < hits.len() && (r.rssi_udb > hits[k].1.rssi_udb || r.confidence_ppb
        > hits[k].1.confidence_ppb) {
        assert forall|i: int, j: int| 0 <= i < j < after.len() implies gap(
            (#[trigger] after[i]).1.frequency_hz as int,
            (#[trigger] after[j]).1.frequency_hz as int,
        ) >= CHANNEL_REACH_HZ by {
            if i < k {
                assert(after[i] == hits[i]);
                assert(!same_carrier(hits[i].1.frequency_hz as int, hz));
            }
            if j < k {
                assert(after[j] == hits[j]);
            } else if j > k {
                assert(after[j] == rest[j - k - 1]);
                assert(later.contains(rest[j - k - 1]) && p(rest[j - k - 1]));
                let e = choose|e: int| 0 <= e < later.len() && later[e] == rest[j - k - 1];
                assert(hits[e + k + 1] == after[j]);
                if i > k {
                    assert(after[i] == rest[i - k - 1]);
                }
            }
        }
    } else if k == hits.len() {
        assert forall|i: int, j: int| 0 <= i < j < after.len() implies gap(
            (#[trigger] after[i]).1.frequency_hz as int,
            (#[trigger] after[j]).1.frequency_hz as int,
        ) >= CHANNEL_REACH_HZ by {
            assert(after[i] == hits[i]);
            assert(!same_carrier(hits[i].1.frequency_hz as int, hz));
        }
    }
}

/// Merge one result into the hits.
fn merge_hit(hits: &mut Vec<(i64, Detection)>, center: i64, r: Detection)
    ensures
        final(hits)@ == hit_merged(old(hits)@, center, r),
        hits_apart(old(hits)@) ==> hits_apart(final(hits)@),
{
    proof {
        if hits_apart(hits@) {
            law_one_hit_a_carrier(hits@, center, r);
        }
    }
    match find_hit(hits, r.frequency_hz) {
        Some(k) => {
            let known: Detection = hits[k].1;
            if r.rssi_udb > known.rssi_udb || r.confidence_ppb > known.confidence_ppb {
                take_over(hits, k, center, r);
            }
        },
        None => {
            hits.push((center, r));
        },
    }
}

/// Whether two tune plans are the same.
fn same_plan(a: &Vec<i64>, b: &Vec<i64>) -> (r: bool)
    ensures
        r == (a@ == b@),
{
    if a.len() != b.len() {
        return false;
    }
    let mut i: usize = 0;
    while i < a.len()
        invariant
            i <= a.len(),
            a@.len() == b@.len(),
            forall|k: int| 0 <= k < i ==> a@[k] == b@[k],
        decreases a.len() - i,
    {
        if a[i] != b[i] {
            assert(a@[i as int] != b@[i as int]);
            return false;
        }
        i = i + 1;
    }
    assert(a@ =~= b@);
    true
}

/// The panel after one packet at `center`, seen at `at`.
pub open spec fn hop_recorded(
    before: BandScan,
    after: BandScan,
    center: i64,
    first_of_hop: bool,
    probes: Seq<Probe>,
    results: Seq<Detection>,
    at: Instant,
) -> bool {
    &&& after.channels@ == before.channels@
    &&& after.rows@ == before.rows@
    &&& after.tunes@ == before.tunes@
    &&& after.span_milli_hz == before.span_milli_hz
    &&& after.lock_milli_hz == before.lock_milli_hz
    &&& after.skipped@ == before.skipped@
    &&& after.last_sweep_end == before.last_sweep_end
    &&& (before.tunes@.len() == 0 ==> after.visited@ == before.visited@ && after.active_tune
        == before.active_tune)
    &&& (before.tunes@.len() > 0 ==> {
        let k = nearest_tune(before.tunes@, center as int);
        after.visited@ == before.visited@.update(k, Some(at)) && after.active_tune == Some(
            k as usize,
        )
    })
    &&& after.energies@ == bars_after(
        if first_of_hop {
            bars_kept(before.energies@, center as int, before.span_milli_hz as int)
        } else {
            before.energies@
        },
        center as int,
        probes,
    )
    &&& after.detections@ == hits_after(
        if first_of_hop {
            hits_kept(before.detections@, center as int)
        } else {
            before.detections@
        },
        center,
        results,
    )
}

impl BandScan {
    /// The tune plan the sweep will follow. A changed plan (the sample rate stepped
    /// down) forgets the old visit times.
    pub fn set_plan(&mut self, tunes: Vec<i64>, span_milli_hz: u64)
        requires
            old(self).wf(),
        ensures
            final(self).wf(),
            final(self).tunes@ == tunes@,
            final(self).span_milli_hz == span_milli_hz,
            tunes@ == old(self).tunes@ ==> final(self).visited@ == old(self).visited@,
            tunes@ == old(self).tunes@ ==> final(self).active_tune == old(self).active_tune,
            tunes@ != old(self).tunes@ ==> final(self).active_tune is None,
            tunes@ != old(self).tunes@ ==> forall|i: int|
                0 <= i < tunes@.len() ==> #[trigger] final(self).visited@[i] is None,
            final(self).channels@ == old(self).channels@,
            final(self).rows@ == old(self).rows@,
            final(self).energies@ == old(self).energies@,
            final(self).detections@ == old(self).detections@,
            final(self).lock_milli_hz == old(self).lock_milli_hz,
            final(self).skipped@ == old(self).skipped@,
            final(self).last_sweep_end == old(self).last_sweep_end,
    {
        if !same_plan(&tunes, &self.tunes) {
            let mut visited: Vec<Option<Instant>> = Vec::new();
            let n: usize = tunes.len();
            while visited.len() < n
                invariant
                    visited@.len() <= n,
                    forall|i: int| 0 <= i < visited@.len() ==> #[trigger] visited@[i] is None,
                decreases n - visited@.len(),
            {
                visited.push(None);
            }
            self.visited = visited;
            self.tunes = tunes;
            self.active_tune = None;
        }
        self.span_milli_hz = span_milli_hz;
    }

    /// Height the full panel wants: the bars plus one grid row per band.
    pub fn full_height(&self) -> (h: usize)
        requires
            self.wf(),
        ensures
            h == 190 + 9 * self.rows@.len(),
    {
        190 + self.rows.len() * 9
    }

    /// The sweep ran the detector on one packet at `center_milli_hz`.
    /// `first_of_hop` is true for the first packet since a retune; that is when this
    /// tune's previous bars and hits are replaced.
    pub fn record_hop(
        &mut self,
        center_milli_hz: i64,
        first_of_hop: bool,
        probes: &[Probe],
        results: &[Detection],
    )
        requires
            old(self).wf(),
        ensures
            final(self).wf(),
            exists|at: Instant|
                hop_recorded(
                    *old(self),
                    *final(self),
                    center_milli_hz,
                    first_of_hop,
                    probes@,
                    results@,
                    at,
                ),
    {
        let at: Instant = now();
        self.record_hop_at(center_milli_hz, first_of_hop, probes, results, at);
    }

    /// `record_hop` for a packet seen at a given moment.
    pub fn record_hop_at(
        &mut self,
        center_milli_hz: i64,
        first_of_hop: bool,
        probes: &[Probe],
        results: &[Detection],
        at: Instant,
    )
        requires
            old(self).wf(),
        ensures
            final(self).wf(),
            hop_recorded(
                *old(self),
                *final(self),
                center_milli_hz,
                first_of_hop,
                probes@,
                results@,
                at,
            ),
    {
        let ghost before = *self;
        if self.tunes.len() > 0 {
            let k: usize = self.nearest(center_milli_hz);
            self.visited.set(k, Some(at));
            self.active_tune = Some(k);
        }
        if first_of_hop {
            self.energies = keep_bars(&self.energies, center_milli_hz, self.span_milli_hz);
            self.detections = keep_hits(&self.detections, center_milli_hz);
        }
        let ghost bars = self.energies@;
        let ghost hits = self.detections@;
        let mut i: usize = 0;
        while i < probes.len()
            invariant
                i <= probes@.len(),
                keys_rise(self.energies@),
                hits_apart(hits),
                self.energies@ == bars_after(bars, center_milli_hz as int, probes@.take(i as int)),
                self.channels == before.channels,
                self.rows == before.rows,
                self.tunes == before.tunes,
                self.span_milli_hz == before.span_milli_hz,
                self.lock_milli_hz == before.lock_milli_hz,
                self.skipped == before.skipped,
                self.last_sweep_end == before.last_sweep_end,
                self.detections@ == hits,
                self.visited@ == (if before.tunes@.len() > 0 {
                    before.visited@.update(
                        nearest_tune(before.tunes@, center_milli_hz as int),
                        Some(at),
                    )
                } else {
                    before.visited@
                }),
                self.active_tune == (if before.tunes@.len() > 0 {
                    Some(nearest_tune(before.tunes@, center_milli_hz as int) as usize)
                } else {
                    before.active_tune
                }),
            decreases probes@.len() - i,
        {
            let p: Probe = probes[i];
            proof {
                assert(probes@.take(i + 1).drop_last() =~= probes@.take(i as int));
                assert(probes@.take(i + 1).last() == p);
            }
            set_bar(&mut self.energies, key_of(center_milli_hz, p.offset_milli_hz), p.level_udb);
            i = i + 1;
        }
        proof {
            assert(probes@.take(probes@.len() as int) =~= probes@);
        }
        let ghost mid = *self;
        let mut j: usize = 0;
        while j < results.len()
            invariant
                j <= results@.len(),
                self.channels == mid.channels,
                self.rows == mid.rows,
                self.tunes == mid.tunes,
                self.span_milli_hz == mid.span_milli_hz,
                self.lock_milli_hz == mid.lock_milli_hz,
                self.skipped == mid.skipped,
                self.last_sweep_end == mid.last_sweep_end,
                self.visited == mid.visited,
                self.active_tune == mid.active_tune,
                self.energies == mid.energies,
                hits_apart(self.detections@),
                self.detections@ == hits_after(hits, center_milli_hz, results@.take(j as int)),
            decreases results@.len() - j,
        {
            let r: Detection = results[j];
            proof {
                assert(results@.take(j + 1).drop_last() =~= results@.take(j as int));
                assert(results@.take(j + 1).last() == r);
            }
            merge_hit(&mut self.detections, center_milli_hz, r);
            j = j + 1;
        }
        proof {
            assert(results@.take(results@.len() as int) =~= results@);
        }
    }

    /// The planned tune nearest to a centre.
    fn nearest(&self, center: i64) -> (k: usize)
        requires
            self.tunes@.len() > 0,
        ensures
            k == nearest_tune(self.tunes@, center as int),
            k < self.tunes@.len(),
    {
        let ghost far = Seq::new(
            self.tunes@.len(),
            |i: int| gap(self.tunes@[i] as int, center as int),
        );
        let mut best: usize = 0;
        let mut i: usize = 1;
        while i < self.tunes.len()
            invariant
                1 <= i <= self.tunes@.len(),
                best < i,
                far == Seq::new(
                    self.tunes@.len(),
                    |k: int| gap(self.tunes@[k] as int, center as int),
                ),
                forall|j: int| 0 <= j < i ==> far[best as int] <= #[trigger] far[j],
                forall|j: int| 0 <= j < best ==> far[best as int] < #[trigger] far[j],
            decreases self.tunes@.len() - i,
        {
            if distance(self.tunes[i] as i128, center as i128) < distance(
                self.tunes[best] as i128,
                center as i128,
            ) {
                best = i;
            }
            i = i + 1;
        }
        proof {
            assert(is_first_min(far, best as int));
            lemma_first_min(far);
        }
        best
    }
}

/// Insert into a rising list; a number already there stays once.
fn insert_rising(list: &mut Vec<u64>, x: u64)
    requires
        rising(old(list)@),
    ensures
        rising(final(list)@),
        forall|y: u64| final(list)@.contains(y) <==> y == x || old(list)@.contains(y),
{
    let ghost before = list@;
    let mut pos: usize = list.len();
    while pos > 0 && list[pos - 1] > x
        invariant
            pos <= list.len(),
            list@ == before,
            forall|i: int| pos <= i < before.len() ==> x < #[trigger] before[i],
        decreases pos,
    {
        pos = pos - 1;
    }
    if pos > 0 && list[pos - 1] == x {
        assert(before[pos - 1] == x);
        return ;
    }
    list.insert(pos, x);
    proof {
        let after = list@;
        assert forall|i: int, j: int| 0 <= i < j < after.len() implies after[i] < after[j] by {
            let pi = if i < pos { i } else { i - 1 };
            let pj = if j < pos { j } else { j - 1 };
            if i == pos {
                assert(after[j] == before[pj]);
            } else if j == pos {
                assert(after[i] == before[i]);
                if i < pos - 1 {
                    assert(before[i] < before[pos - 1]);
                }
            } else {
                assert(after[i] == before[pi] && after[j] == before[pj]);
                assert(before[pi] < before[pj]);
            }
        }
        assert forall|y: u64| after.contains(y) <==> y == x || before.contains(y) by {
            if after.contains(y) {
                let i = choose|i: int| 0 <= i < after.len() && after[i] == y;
                if i < pos {
                    assert(before[i] == y);
                } else if i > pos {
                    assert(before[i - 1] == y);
                }
            }
            if before.contains(y) {
                let i = choose|i: int| 0 <= i < before.len() && before[i] == y;
                if i < pos {
                    assert(after[i] == y);
                } else {
                    assert(after[i + 1] == y);
                }
            }
            if y == x {
                assert(after[pos as int] == y);
            }
        }
    }
}

/// The members of a set, rising.
fn listed(set: &HashSet<u64>) -> (list: Vec<u64>)
    ensures
        rising(list@),
        forall|y: u64| list@.contains(y) <==> set@.contains(y),
{
    broadcast use vstd::std_specs::hash::group_hash_axioms;

    let mut list: Vec<u64> = Vec::new();
    let ghost keys = vstd::std_specs::iter::IteratorSpec::remaining(
        &vstd::std_specs::hash::spec_hash_keys_iter(set),
    ).unref();
    for x in it: set.iter()
        invariant
            rising(list@),
            it.seq().unref() == keys,
            keys.to_set() == set@,
            forall|y: u64| list@.contains(y) <==> keys.take(it.index()).contains(y),
    {
        let ghost before = list@;
        let ghost at = it.index();
        insert_rising(&mut list, *x);
        proof {
            assert(keys[at] == *x);
            assert(keys.take(at + 1) =~= keys.take(at).push(*x));
            assert forall|y: u64| list@.contains(y) <==> keys.take(at + 1).contains(y) by {
                if keys.take(at).contains(y) {
                    let i = choose|i: int| 0 <= i < at && keys.take(at)[i] == y;
                    assert(keys.take(at + 1)[i] == y);
                }
                assert(keys.take(at + 1)[at] == *x);
            }
        }
    }
    proof {
        assert(keys.take(keys.len() as int) =~= keys);
        assert forall|y: u64| list@.contains(y) <==> set@.contains(y) by {
            assert(keys.to_set().contains(y) <==> keys.contains(y));
        }
    }
    list
}

/// Distances of all bars from a frequency.
pub open spec fn bar_gaps(bars: Seq<(i64, i32)>, milli_hz: int) -> Seq<int> {
    Seq::new(bars.len(), |i: int| gap(bars[i].0 * BAR_STEP_MILLI_HZ, milli_hz))
}

/// The level of the nearest bar within reach of a frequency.
pub open spec fn level_near(bars: Seq<(i64, i32)>, milli_hz: int) -> Option<i32> {
    let far = bar_gaps(bars, milli_hz);
    if bars.len() > 0 && far[first_min(far)] <= CHANNEL_REACH_MILLI_HZ {
        Some(bars[first_min(far)].1)
    } else {
        None
    }
}

/// Distances of all channels from a frequency.
pub open spec fn channel_gaps(channels: Seq<Channel>, milli_hz: int) -> Seq<int> {
    Seq::new(channels.len(), |i: int| gap(channels[i].hz * 1000, milli_hz))
}

/// The nearest channel within reach of a frequency.
pub open spec fn channel_index(channels: Seq<Channel>, milli_hz: int) -> Option<int> {
    let far = channel_gaps(channels, milli_hz);
    if channels.len() > 0 && far[first_min(far)] <= CHANNEL_REACH_MILLI_HZ {
        Some(first_min(far))
    } else {
        None
    }
}

/// The name a frequency goes by; empty where no channel is within reach.
pub open spec fn name_near(channels: Seq<Channel>, milli_hz: int) -> Seq<char> {
    match channel_index(channels, milli_hz) {
        Some(i) => channels[i].name@,
        None => Seq::empty(),
    }
}

/// The levels of all bars.
pub open spec fn levels(bars: Seq<(i64, i32)>) -> Seq<i64> {
    Seq::new(bars.len(), |i: int| bars[i].1 as i64)
}

/// 25th percentile of the bars.
pub open spec fn floor_level(bars: Seq<(i64, i32)>) -> int {
    if bars.len() == 0 {
        NO_FLOOR_UDB as int
    } else {
        ascending(levels(bars))[bars.len() as int / 4] as int
    }
}

/// Pixels the overlay takes from the bottom of a frame.
pub open spec fn overlay_rows(rows: int, mode: PanelMode, frame_h: int) -> int {
    match mode {
        PanelMode::Off => 0,
        PanelMode::Strip => if STRIP_H < frame_h {
            STRIP_H as int
        } else {
            frame_h
        },
        PanelMode::Full => if 190 + 9 * rows < frame_h / 2 {
            190 + 9 * rows
        } else {
            frame_h / 2
        },
    }
}

impl BandScan {
    /// The pass over the band finished, found something or not.
    pub fn end_sweep(&mut self)
        requires
            old(self).wf(),
        ensures
            final(self).wf(),
            exists|at: Instant| sweep_ended(*old(self), *final(self), at),
    {
        let at: Instant = now();
        self.end_sweep_at(at);
    }

    /// `end_sweep` at a given moment.
    pub fn end_sweep_at(&mut self, at: Instant)
        requires
            old(self).wf(),
        ensures
            final(self).wf(),
            sweep_ended(*old(self), *final(self), at),
    {
        self.last_sweep_end = Some(at);
        self.active_tune = None;
    }

    /// The carrier the viewer is locked to, or none.
    pub fn set_lock(&mut self, milli_hz: Option<u64>)
        requires
            old(self).wf(),
        ensures
            final(self).wf(),
            *final(self) == (BandScan { lock_milli_hz: milli_hz, ..*old(self) }),
    {
        self.lock_milli_hz = milli_hz;
    }

    /// The frequencies the operator asked to leave out.
    pub fn set_skipped(&mut self, skipped: &HashSet<u64>)
        requires
            old(self).wf(),
        ensures
            final(self).wf(),
            forall|y: u64| final(self).skipped@.contains(y) <==> skipped@.contains(y),
            *final(self) == (BandScan { skipped: final(self).skipped, ..*old(self) }),
    {
        self.skipped = listed(skipped);
    }

    /// The level of the nearest bar within reach of a frequency.
    pub fn energy_near(&self, milli_hz: i64) -> (r: Option<i32>)
        ensures
            r == level_near(self.energies@, milli_hz as int),
    {
        let ghost far = bar_gaps(self.energies@, milli_hz as int);
        if self.energies.len() == 0 {
            return None;
        }
        let mut best: usize = 0;
        let mut best_gap: i128 = distance(bar_milli_hz(self.energies[0].0), milli_hz as i128);
        let mut i: usize = 1;
        while i < self.energies.len()
            invariant
                1 <= i <= self.energies@.len(),
                best < i,
                far == bar_gaps(self.energies@, milli_hz as int),
                best_gap == far[best as int],
                forall|j: int| 0 <= j < i ==> far[best as int] <= #[trigger] far[j],
                forall|j: int| 0 <= j < best ==> far[best as int] < #[trigger] far[j],
            decreases self.energies@.len() - i,
        {
            let here: i128 = distance(bar_milli_hz(self.energies[i].0), milli_hz as i128);
            if here < best_gap {
                best = i;
                best_gap = here;
            }
            i = i + 1;
        }
        proof {
            assert(is_first_min(far, best as int));
            lemma_first_min(far);
        }
        if best_gap <= CHANNEL_REACH_MILLI_HZ as i128 {
            Some(self.energies[best].1)
        } else {
            None
        }
    }

    /// 25th percentile of the bars: the same floor the energy gate uses.
    pub fn floor_udb(&self) -> (r: i32)
        ensures
            r == floor_level(self.energies@),
    {
        let n: usize = self.energies.len();
        if n == 0 {
            return NO_FLOOR_UDB;
        }
        let mut v: Vec<i64> = Vec::new();
        let mut i: usize = 0;
        while i < n
            invariant
                i <= n,
                n == self.energies@.len(),
                v@ == levels(self.energies@).take(i as int),
            decreases n - i,
        {
            v.push(self.energies[i].1 as i64);
            i = i + 1;
            assert(v@ =~= levels(self.energies@).take(i as int));
        }
        proof {
            assert(v@ =~= levels(self.energies@));
        }
        let sorted: Vec<i64> = sort_ascending(&v);
        proof {
            crate::order::lemma_ascending(v@);
            assert(sorted@.contains(sorted@[n as int / 4]));
            assert(v@.contains(sorted@[n as int / 4]));
        }
        sorted[n / 4] as i32
    }

    /// Index of the nearest channel within reach of a frequency.
    pub fn channel_at(&self, milli_hz: i128) -> (r: Option<usize>)
        requires
            self.wf(),
            -MAX_MILLI_HZ <= milli_hz <= MAX_MILLI_HZ,
        ensures
            match r {
                Some(i) => channel_index(self.channels@, milli_hz as int) == Some(i as int) && i
                    < self.channels@.len(),
                None => channel_index(self.channels@, milli_hz as int) is None,
            },
    {
        let ghost far = channel_gaps(self.channels@, milli_hz as int);
        if self.channels.len() == 0 {
            return None;
        }
        assert(0 <= self.channels@[0].hz <= MAX_CHANNEL_HZ);
        let mut best: usize = 0;
        let mut best_gap: i128 = distance(self.channels[0].hz as i128 * 1000, milli_hz);
        let mut i: usize = 1;
        while i < self.channels.len()
            invariant
                1 <= i <= self.channels@.len(),
                self.wf(),
                -MAX_MILLI_HZ <= milli_hz <= MAX_MILLI_HZ,
                best < i,
                far == channel_gaps(self.channels@, milli_hz as int),
                best_gap == far[best as int],
                forall|j: int| 0 <= j < i ==> far[best as int] <= #[trigger] far[j],
                forall|j: int| 0 <= j < best ==> far[best as int] < #[trigger] far[j],
            decreases self.channels@.len() - i,
        {
            assert(0 <= self.channels@[i as int].hz <= MAX_CHANNEL_HZ);
            let here: i128 = distance(self.channels[i].hz as i128 * 1000, milli_hz);
            if here < best_gap {
                best = i;
                best_gap = here;
            }
            i = i + 1;
        }
        proof {
            assert(is_first_min(far, best as int));
            lemma_first_min(far);
        }
        if best_gap <= CHANNEL_REACH_MILLI_HZ as i128 {
            Some(best)
        } else {
            None
        }
    }

    /// The name a frequency goes by; empty where no channel is within reach.
    pub fn name_at(&self, milli_hz: i128) -> (name: String)
        requires
            self.wf(),
            -MAX_MILLI_HZ <= milli_hz <= MAX_MILLI_HZ,
        ensures
            name@ == name_near(self.channels@, milli_hz as int),
            byte_len(name@) <= MAX_NAME_BYTES,
    {
        match self.channel_at(milli_hz) {
            Some(i) => {
                assert(byte_len(self.channels@[i as int].name@) <= MAX_NAME_BYTES);
                self.channels[i].name.clone()
            },
            None => String::new(),
        }
    }

    /// Pixels the overlay takes from the bottom of a frame in `mode`.
    pub fn overlay_height(&self, mode: PanelMode, frame_h: usize) -> (h: usize)
        requires
            self.wf(),
        ensures
            h == overlay_rows(self.rows@.len() as int, mode, frame_h as int),
            h <= frame_h,
    {
        match mode {
            PanelMode::Off => 0,
            PanelMode::Strip => if STRIP_H < frame_h {
                STRIP_H
            } else {
                frame_h
            },
            PanelMode::Full => {
                let want: usize = self.full_height();
                if want < frame_h / 2 {
                    want
                } else {
                    frame_h / 2
                }
            },
        }
    }
}

/// A panel whose sweep ended at `at`.
pub open spec fn sweep_ended(before: BandScan, after: BandScan, at: Instant) -> bool {
    after == BandScan { last_sweep_end: Some(at), active_tune: None, ..before }
}

/// A bar of a tune being revisited goes unless the packet probed it again; a bar
/// outside its window stays as it was.
pub proof fn law_revisit_replaces_own_bars(
    bars: Seq<(i64, i32)>,
    center: int,
    span: int,
    probes: Seq<Probe>,
    key: i64,
)
    requires
        keys_rise(bars),
        forall|i: int|
            0 <= i < probes.len() ==> bar_key(center, (#[trigger] probes[i]).offset_milli_hz as int)
                != key,
    ensures
        level_at(bars_after(bars_kept(bars, center, span), center, probes), key) == (
        if outside_window(key, center, span) {
            level_at(bars, key)
        } else {
            None
        }),
{
    let p = |b: (i64, i32)| outside_window(b.0, center, span);
    lemma_filter_rises(bars, p);
    lemma_level_after(bars_kept(bars, center, span), center, probes, key);
    lemma_level_filtered(bars, center, span, key);
}

/// A probed bar shows the level of its last probe.
pub proof fn law_probed_bar_shows_its_level(
    bars: Seq<(i64, i32)>,
    center: int,
    probes: Seq<Probe>,
    i: int,
)
    requires
        keys_rise(bars),
        0 <= i < probes.len(),
        forall|j: int|
            i < j < probes.len() ==> bar_key(center, (#[trigger] probes[j]).offset_milli_hz as int)
                != bar_key(center, probes[i].offset_milli_hz as int),
    ensures
        level_at(
            bars_after(bars, center, probes),
            bar_key(center, probes[i].offset_milli_hz as int),
        ) == Some(probes[i].level_udb),
    decreases probes.len(),
{
    let front = probes.drop_last();
    let key = bar_key(center, probes[i].offset_milli_hz as int);
    lemma_bars_after_rise(bars, center, front);
    law_bar_set(
        bars_after(bars, center, front),
        bar_key(center, probes.last().offset_milli_hz as int),
        probes.last().level_udb,
        key,
    );
    if i < probes.len() - 1 {
        assert(bar_key(center, probes[probes.len() - 1].offset_milli_hz as int) != key);
        assert forall|j: int| i < j < front.len() implies bar_key(
            center,
            (#[trigger] front[j]).offset_milli_hz as int,
        ) != bar_key(center, front[i].offset_milli_hz as int) by {
            assert(front[j] == probes[j]);
        }
        law_probed_bar_shows_its_level(bars, center, front, i);
    }
}

pub proof fn lemma_bars_after_rise(bars: Seq<(i64, i32)>, center: int, probes: Seq<Probe>)
    requires
        keys_rise(bars),
    ensures
        keys_rise(bars_after(bars, center, probes)),
    decreases probes.len(),
{
    if probes.len() > 0 {
        lemma_bars_after_rise(bars, center, probes.drop_last());
        lemma_bar_set_rises(
            bars_after(bars, center, probes.drop_last()),
            bar_key(center, probes.last().offset_milli_hz as int),
            probes.last().level_udb,
        );
    }
}

pub proof fn lemma_level_after(bars: Seq<(i64, i32)>, center: int, probes: Seq<Probe>, key: i64)
    requires
        keys_rise(bars),
        forall|i: int|
            0 <= i < probes.len() ==> bar_key(center, (#[trigger] probes[i]).offset_milli_hz as int)
                != key,
    ensures
        level_at(bars_after(bars, center, probes), key) == level_at(bars, key),
    decreases probes.len(),
{
    if probes.len() > 0 {
        let front = probes.drop_last();
        assert forall|i: int| 0 <= i < front.len() implies bar_key(
            center,
            (#[trigger] front[i]).offset_milli_hz as int,
        ) != key by {
            assert(front[i] == probes[i]);
        }
        assert(bar_key(center, probes[probes.len() - 1].offset_milli_hz as int) != key);
        lemma_level_after(bars, center, front, key);
        lemma_bars_after_rise(bars, center, front);
        law_bar_set(
            bars_after(bars, center, front),
            bar_key(center, probes.last().offset_milli_hz as int),
            probes.last().level_udb,
            key,
        );
    }
}

proof fn lemma_level_filtered(bars: Seq<(i64, i32)>, center: int, span: int, key: i64)
    ensures
        level_at(bars_kept(bars, center, span), key) == (if outside_window(key, center, span) {
            level_at(bars, key)
        } else {
            None
        }),
    decreases bars.len(),
{
    reveal(Seq::filter);
    reveal_with_fuel(level_at, 2);
    if bars.len() > 0 {
        let front = bars.drop_last();
        lemma_level_filtered(front, center, span, key);
        let kept = bars_kept(front, center, span);
        if outside_window(bars.last().0, center, span) {
            assert(bars_kept(bars, center, span) =~= kept.push(bars.last()));
            assert(kept.push(bars.last()).drop_last() =~= kept);
        } else {
            assert(bars_kept(bars, center, span) =~= kept);
        }
    }
}

/// Every result leaves a hit of its carrier that is no weaker or no less sure. The hits
/// of other carriers stay, and none appears that was not there.
pub proof fn law_result_is_shown(hits: Seq<(i64, Detection)>, center: i64, r: Detection)
    ensures
        ({
            let k = hit_from(hits, r.frequency_hz as int, 0);
            let after = hit_merged(hits, center, r);
            &&& 0 <= k < after.len()
            &&& same_carrier(after[k].1.frequency_hz as int, r.frequency_hz as int)
            &&& after[k].1 == r || (after[k].1.rssi_udb >= r.rssi_udb && after[k].1.confidence_ppb
                >= r.confidence_ppb)
            &&& forall|j: int|
                0 <= j < hits.len() && !same_carrier(
                    (#[trigger] hits[j]).1.frequency_hz as int,
                    r.frequency_hz as int,
                ) ==> after.contains(hits[j])
            &&& forall|j: int|
                0 <= j < after.len() && j != k ==> hits.contains(#[trigger] after[j])
        }),
{
    let hz = r.frequency_hz as int;
    let k = hit_from(hits, hz, 0);
    let after = hit_merged(hits, center, r);
    lemma_hit_from(hits, hz, 0);
    let p = |h: (i64, Detection)| !same_carrier(h.1.frequency_hz as int, hz);
    let later = hits.skip(k + 1);
    let rest = other_carriers(later, hz);
    lemma_filter_apart(later, p);
    assert forall|j: int|
        0 <= j < hits.len() && !same_carrier((#[trigger] hits[j]).1.frequency_hz as int, hz) implies
        after.contains(hits[j]) by {
        if after == hits || k == hits.len() || j < k {
            assert(after[j] == hits[j]);
        } else {
            assert(later[j - k - 1] == hits[j]);
            assert(rest.contains(later[j - k - 1]));
            let e = choose|e: int| 0 <= e < rest.len() && rest[e] == hits[j];
            assert(after[k + 1 + e] == hits[j]);
        }
    }
    assert forall|j: int| 0 <= j < after.len() && j != k implies hits.contains(
        #[trigger] after[j],
    ) by {
        if after == hits || k == hits.len() || j < k {
            assert(after[j] == hits[j]);
        } else {
            assert(after[j] == rest[j - k - 1]);
            assert(later.contains(rest[j - k - 1]));
            let e = choose|e: int| 0 <= e < later.len() && later[e] == after[j];
            assert(hits[e + k + 1] == after[j]);
        }
    }
}

pub proof fn lemma_hit_from(hits: Seq<(i64, Detection)>, hz: int, i: int)
    requires
        0 <= i <= hits.len(),
    ensures
        i <= hit_from(hits, hz, i) <= hits.len(),
        hit_from(hits, hz, i) < hits.len() ==> same_carrier(
            hits[hit_from(hits, hz, i)].1.frequency_hz as int,
            hz,
        ),
        forall|j: int|
            i <= j < hit_from(hits, hz, i) ==> !same_carrier(
                (#[trigger] hits[j]).1.frequency_hz as int,
                hz,
            ),
    decreases hits.len() - i,
{
    if i < hits.len() && !same_carrier(hits[i].1.frequency_hz as int, hz) {
        lemma_hit_from(hits, hz, i + 1);
    }
}

/// Revisiting a tune that is quiet now drops its own hits and no others.
pub proof fn law_quiet_revisit_drops_own_hits(hits: Seq<(i64, Detection)>, center: i64)
    ensures
        hits_after(hits_kept(hits, center as int), center, Seq::empty()) == hits.filter(
            |h: (i64, Detection)| gap(h.0 as int, center as int) > SAME_TUNE_MILLI_HZ,
        ),
{
}

} // verus!
