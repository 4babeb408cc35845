//! Drawing the band-scan panel.
//!
//! Rendering is rectangles and bitmap text only. The font maps both letter cases
//! onto one set of glyphs, so labels stay to letters, digits, `.`, `-` and `/`. The
//! channel grid carries identity by row and position because forty channel names do
//! not fit in 720 px as text.

use vstd::prelude::*;

use crate::axis::{
    as_ticks, axis_for, axis_ok, axis_ticks, axis_x, bar_width, Axis, Seg, MAX_CHANNEL_HZ,
    MAX_MILLI_HZ, MAX_PIXELS,
};
use crate::band_scan::{
    bar_milli_hz, distance, find_hit, floor_level, hit_from, hz_of, level_near, name_near,
    overlay_rows, BandScan, Detection, PanelMode, Signal, BAR_STEP_MILLI_HZ,
    CHANNEL_REACH_MILLI_HZ, CONFIRM_AT_PPB, MAX_NAME_BYTES, STRIP_H,
};
use crate::clock::{elapsed_ns, in_seconds, lemma_seconds_fit, seconds, SECOND_NS};
use crate::float::{
    div_half_up, divide, lemma_quotient_at_least, lemma_quotient_at_most,
    lemma_quotient_monotone, lemma_quotient_size, lemma_round_div_monotone, nearest, quotient,
    round, SINGLE,
};
use crate::order::{gap, round_div};
use crate::paint::{
    add_outline, add_rect, add_text, all_inked, inks, law_inking_stays_below, paint, stays_below,
    DrawOp, Ink,
};
use crate::raster::{byte_len, lerp, lerped, shade, shaded, BG};
use crate::text::{
    age_parts, decimal, lemma_ascii_len, lemma_byte_len_concat, lemma_decimal_short,
    lemma_mhz_parts_fit, lemma_signed_short, lemma_tenths_short, mhz_parts, parts_of_age,
    parts_of_mhz, push_decimal, push_signed, push_tenths, signed_decimal, tenths,
};

verus! {

pub const LINE: u32 = 0x001e2a31;

pub const LINE_2: u32 = 0x002a3841;

pub const MUTED: u32 = 0x007c8c94;

pub const DIM: u32 = 0x0055646c;

pub const ACCENT: u32 = 0x00f2a93b;

pub const VIDEO: u32 = 0x004cc9a6;

pub const MAYBE: u32 = 0x008fb5ad;

pub const SKIP: u32 = 0x00b4534a;

pub const BAR: u32 = 0x002c3a43;

pub const BAR_HOT: u32 = 0x003f5661;

pub const WIN_ACTIVE: u32 = 0x00241d10;

pub const WIN: u32 = 0x00151a1c;

/// Column the full panel's axis begins at.
pub const AXIS_LEFT: usize = 44;

/// Columns of the strip's texts left and right of its axis.
pub const STRIP_LEFT: usize = 136;

pub const STRIP_RIGHT: usize = 128;

/// Levels are drawn from here up...
pub const LEVEL_BOTTOM_UDB: i32 = -100_000_000;

/// ...to here.
pub const LEVEL_TOP_UDB: i32 = -40_000_000;

/// A bar this far above the floor is drawn hot.
pub const HOT_ABOVE_FLOOR_UDB: i64 = 6_000_000;

/// A channel cell is fully lit this many decibels above the floor.
pub const CELL_RANGE_DB: u64 = 45;

/// A tune's tick has faded this many seconds after its visit.
pub const FADE_S: u64 = 30;

/// Tunes this many pixels apart have room for their ages as text.
pub const AGE_TEXT_PX: usize = 48;

/// How long ago things happened, in nanoseconds, when a picture is drawn.
pub struct Ages {
    pub visited_ns: Vec<Option<u64>>,
    pub sweep_ns: Option<u64>,
}

/// Whether ages go with a panel: one for every tune that was visited, and one for
/// the last sweep if there was one.
pub open spec fn ages_fit(b: BandScan, ages: Ages) -> bool {
    &&& ages.visited_ns@.len() == b.visited@.len()
    &&& forall|k: int|
        0 <= k < b.visited@.len() ==> (#[trigger] ages.visited_ns@[k] is Some
            <==> b.visited@[k] is Some)
    &&& (ages.sweep_ns is Some <==> b.last_sweep_end is Some)
}

/// `a - b`, but not below zero.
pub open spec fn less(a: int, b: int) -> int {
    if a > b {
        a - b
    } else {
        0
    }
}

/// The larger of two numbers.
pub open spec fn larger(a: int, b: int) -> int {
    if a > b {
        a
    } else {
        b
    }
}

/// The smaller of two numbers.
pub open spec fn smaller(a: int, b: int) -> int {
    if a < b {
        a
    } else {
        b
    }
}

/// Where the parts of a panel are drawn.
#[derive(Debug, Clone, Copy, PartialEq, Eq, Structural)]
pub struct Place {
    /// First row of the panel.
    pub y0: usize,
    /// Columns of the axis.
    pub x0: usize,
    pub x1: usize,
    /// Rows of the bars.
    pub top: usize,
    pub bot: usize,
}

/// Rows the ages take below the channel grid.
pub open spec fn age_rows(b: BandScan) -> int {
    if b.tunes@.len() == 0 {
        0
    } else {
        12
    }
}

/// The parts of a full panel over the bottom `panel_h` rows of a picture.
pub open spec fn full_place(b: BandScan, w: int, h: int, panel_h: int) -> Place {
    let y0 = h - panel_h;
    let below = 9 * b.rows@.len() + age_rows(b) + 16;
    Place {
        y0: y0 as usize,
        x0: AXIS_LEFT,
        x1: larger(less(w, 8), AXIS_LEFT + 40) as usize,
        top: (y0 + 16) as usize,
        bot: larger(less(h, below), y0 + 36) as usize,
    }
}

/// The parts of the strip over the bottom of a picture.
pub open spec fn strip_place(w: int, h: int) -> Place {
    let y0 = h - smaller(STRIP_H as int, h);
    Place {
        y0: y0 as usize,
        x0: STRIP_LEFT,
        x1: less(w, STRIP_RIGHT as int) as usize,
        top: (y0 + 4) as usize,
        bot: larger(less(h, 4), y0 + 8) as usize,
    }
}

/// Rows a level rises above the bottom of bars `rows` high. The level and the part of
/// the range it takes, from -100 to -40 dB, are in single precision.
pub open spec fn level_rise(level: int, rows: int) -> int {
    let held = smaller(larger(level, LEVEL_BOTTOM_UDB as int), LEVEL_TOP_UDB as int);
    let (m, q) = quotient(-held, 1_000_000, SINGLE as int);
    let (n, p) = quotient(100 * q - m, 60 * q, SINGLE as int);
    round_div(n * rows, p)
}

/// Row of a level.
pub open spec fn level_y(p: Place, level: int) -> int {
    p.bot - level_rise(level, p.bot - p.top)
}

/// A frequency in millihertz as printed: in megahertz, to one decimal place.
pub open spec fn mhz_text(milli_hz: int) -> Seq<char> {
    tenths(mhz_parts(milli_hz, 10))
}

/// What the panel says it is locked to.
pub open spec fn lock_text(b: BandScan, lock: int) -> Seq<char> {
    "lock "@ + name_near(b.channels@, lock) + " "@ + mhz_text(lock)
}

/// The header: channel count, then tune progress or sweep age.
pub open spec fn head_text(b: BandScan, ages: Ages) -> Seq<char> {
    let count = decimal(b.channels@.len() as int) + " ch"@;
    match b.active_tune {
        Some(k) => count + "  tune "@ + decimal(k + 1) + "/"@ + decimal(b.tunes@.len() as int),
        None => match ages.sweep_ns {
            Some(ns) => count + "  sweep "@ + tenths(age_parts(ns as int, 10)) + "s ago"@,
            None => count,
        },
    }
}

/// Line, header and lock.
pub open spec fn head_inks(b: BandScan, ages: Ages, p: Place, w: int) -> Seq<Ink> {
    let line = Ink::Rect { x: 0, y: p.y0 as int, w, h: 1, color: LINE_2 };
    let head = Ink::Text {
        x: p.x0 as int,
        y: p.y0 + 4,
        text: head_text(b, ages),
        color: MUTED,
    };
    match b.lock_milli_hz {
        Some(lock) => {
            let text = lock_text(b, lock as int);
            seq![
                line,
                head,
                Ink::Text { x: less(p.x1 as int, 8 * byte_len(text)), y: p.y0 + 4, text, color: ACCENT },
            ]
        },
        None => seq![line, head],
    }
}

/// The window of one tune.
pub open spec fn window_ink(b: BandScan, segs: Seq<Seg>, y: int, rows: int, k: int) -> Ink {
    let left = axis_x(segs, b.tunes@[k] - b.span_milli_hz as int / 2);
    let right = axis_x(segs, b.tunes@[k] + b.span_milli_hz as int / 2);
    Ink::Rect {
        x: left,
        y,
        w: less(right, left),
        h: rows,
        color: if b.active_tune == Some(k as usize) {
            WIN_ACTIVE
        } else {
            WIN
        },
    }
}

/// The windows of all tunes.
pub open spec fn window_inks(b: BandScan, segs: Seq<Seg>, y: int, rows: int) -> Seq<Ink> {
    Seq::new(b.tunes@.len(), |k: int| window_ink(b, segs, y, rows, k))
}

/// One grid line of the level scale and its label.
pub open spec fn scale_inks(p: Place, db: int) -> Seq<Ink> {
    let y = level_y(p, db * 1_000_000);
    let text = signed_decimal(db);
    seq![
        Ink::Rect { x: p.x0 as int, y, w: p.x1 - p.x0, h: 1, color: LINE },
        Ink::Text {
            x: less(p.x0 as int, 8 * byte_len(text) + 4),
            y: less(y, 4),
            text,
            color: DIM,
        },
    ]
}

/// Colour of a bar.
pub open spec fn bar_color(level: int, floor: int) -> u32 {
    if level > floor + HOT_ABOVE_FLOOR_UDB {
        BAR_HOT
    } else {
        BAR
    }
}

/// One bar of the full panel.
pub open spec fn bar_ink(b: BandScan, segs: Seq<Seg>, p: Place, i: int) -> Ink {
    let f = b.energies@[i].0 * BAR_STEP_MILLI_HZ;
    let level = b.energies@[i].1 as int;
    let wide = bar_width(segs, f);
    let y = level_y(p, level);
    Ink::Rect {
        x: less(axis_x(segs, f), wide / 2),
        y,
        w: wide,
        h: p.bot - y,
        color: bar_color(level, floor_level(b.energies@)),
    }
}

/// All bars of the full panel.
pub open spec fn bar_inks(b: BandScan, segs: Seq<Seg>, p: Place) -> Seq<Ink> {
    Seq::new(b.energies@.len(), |i: int| bar_ink(b, segs, p, i))
}

/// The dashes of the floor line.
pub open spec fn floor_inks(p: Place, y: int) -> Seq<Ink> {
    Seq::new(
        ((p.x1 - p.x0 + 6) / 7) as nat,
        |i: int| Ink::Rect { x: p.x0 + 7 * i, y, w: 3, h: 1, color: DIM },
    )
}

/// Whether the panel is locked to the carrier at a frequency.
pub open spec fn locked_to(b: BandScan, milli_hz: int) -> bool {
    b.lock_milli_hz matches Some(l) && gap(l as int, milli_hz) < CHANNEL_REACH_MILLI_HZ
}

/// The word for a hit's standard.
pub open spec fn signal_text(s: Signal) -> Seq<char> {
    match s {
        Signal::Ntsc => "ntsc"@,
        Signal::Pal => "pal"@,
        Signal::Other => "vid"@,
    }
}

/// What is written at a hit.
pub open spec fn hit_text(b: BandScan, d: Detection) -> Seq<char> {
    name_near(b.channels@, 1000 * d.frequency_hz) + " "@ + signal_text(d.signal) + " "@ + mhz_text(
        1000 * d.frequency_hz,
    )
}

/// Colour of a hit by its confidence.
pub open spec fn sure_color(d: Detection) -> u32 {
    if d.confidence_ppb >= CONFIRM_AT_PPB {
        VIDEO
    } else {
        MAYBE
    }
}

/// Colour of a hit on the full panel.
pub open spec fn hit_color(b: BandScan, d: Detection) -> u32 {
    if locked_to(b, 1000 * d.frequency_hz) {
        ACCENT
    } else {
        sure_color(d)
    }
}

/// The dots of an unconfirmed hit's stem.
pub open spec fn dots(p: Place, x: int, y: int, color: u32) -> Seq<Ink> {
    Seq::new(
        ((p.bot - y + 3) / 4) as nat,
        |j: int| Ink::Rect { x, y: y + 4 * j, w: 1, h: 2, color },
    )
}

/// Row of a hit's head.
pub open spec fn hit_y(p: Place, d: Detection) -> int {
    larger(less(level_y(p, d.rssi_udb as int), 4), p.top as int)
}

/// A hit's stem and head: solid when confirmed, dotted with a hollow head when not.
pub open spec fn hit_marks(p: Place, d: Detection, x: int, color: u32) -> Seq<Ink> {
    let y = hit_y(p, d);
    if d.confidence_ppb >= CONFIRM_AT_PPB {
        seq![
            Ink::Rect { x, y, w: 2, h: p.bot - y, color },
            Ink::Rect { x: less(x, 2), y: less(y, 2), w: 6, h: 5, color },
        ]
    } else {
        dots(p, x, y, color).push(
            Ink::Outline { x: less(x, 2), y: less(y, 2), w: 6, h: 5, color },
        )
    }
}

/// One hit of the full panel.
pub open spec fn hit_inks(b: BandScan, segs: Seq<Seg>, p: Place, d: Detection) -> Seq<Ink> {
    let x = axis_x(segs, 1000 * d.frequency_hz);
    let color = hit_color(b, d);
    let text = hit_text(b, d);
    let wide = 8 * byte_len(text);
    hit_marks(p, d, x, color).push(
        Ink::Text {
            x: if x + 8 + wide < p.x1 {
                x + 6
            } else {
                less(x, wide + 6)
            },
            y: larger(less(hit_y(p, d), 9), p.top as int),
            text,
            color,
        },
    )
}

/// The first `upto` hits of the full panel.
pub open spec fn hits_inks(b: BandScan, segs: Seq<Seg>, p: Place, upto: int) -> Seq<Ink>
    decreases upto,
{
    if upto <= 0 {
        Seq::empty()
    } else {
        hits_inks(b, segs, p, upto - 1) + hit_inks(b, segs, p, b.detections@[upto - 1].1)
    }
}

/// The first `upto` ticks and their labels.
pub open spec fn tick_inks(ticks: Seq<(int, int)>, p: Place, upto: int) -> Seq<Ink>
    decreases upto,
{
    if upto <= 0 {
        Seq::empty()
    } else {
        let (x, mhz) = ticks[upto - 1];
        let text = signed_decimal(mhz);
        tick_inks(ticks, p, upto - 1) + seq![
            Ink::Rect { x, y: p.bot as int, w: 1, h: 4, color: LINE_2 },
            Ink::Text { x: less(x, 4 * byte_len(text)), y: p.bot + 6, text, color: MUTED },
        ]
    }
}

/// A level in decibels, in single precision.
pub open spec fn decibels(level: int) -> (int, int) {
    let (n, p) = quotient(
        if level < 0 {
            -level
        } else {
            level
        },
        1_000_000,
        SINGLE as int,
    );
    if level < 0 {
        (-n, p)
    } else {
        (n, p)
    }
}

/// How far a level is up from the floor, as a part of the cell's range.
pub open spec fn heat(level: int, floor: int) -> (int, int) {
    let (m, q) = decibels(level);
    let (n, p) = decibels(floor);
    let up = nearest(larger(m * p - n * q, 0), SINGLE as int);
    let range = CELL_RANGE_DB * (q * p);
    (smaller(up, range), range)
}

/// How far a channel's level is up from the floor, as a part of the cell's range.
pub open spec fn cell_heat(b: BandScan, milli_hz: int) -> (int, int) {
    match level_near(b.energies@, milli_hz) {
        Some(level) => heat(level as int, floor_level(b.energies@)),
        None => (0, 1),
    }
}

/// The border of a channel's cell, where it has one.
pub open spec fn cell_border(b: BandScan, hz: int) -> Option<u32> {
    let k = hit_from(b.detections@, hz, 0);
    if locked_to(b, 1000 * hz) {
        Some(ACCENT)
    } else if k < b.detections@.len() {
        Some(sure_color(b.detections@[k].1))
    } else {
        None
    }
}

/// The cell of one channel.
pub open spec fn cell_inks(b: BandScan, segs: Seq<Seg>, y: int, i: int) -> Seq<Ink> {
    let hz = b.channels@[i].hz as int;
    let wide = larger(bar_width(segs, 1000 * hz), 4);
    let x = less(axis_x(segs, 1000 * hz), wide / 2);
    let fill = if b.skipped@.contains(hz as u64) {
        SKIP
    } else {
        let (n, d) = cell_heat(b, 1000 * hz);
        lerped(BAR, VIDEO, n, d) as u32
    };
    let cell = Ink::Rect { x, y: y + 1, w: wide, h: 7, color: fill };
    match cell_border(b, hz) {
        Some(color) => seq![cell, Ink::Outline { x, y: y + 1, w: wide, h: 7, color }],
        None => seq![cell],
    }
}

/// The cells of one band among the first `upto` channels.
pub open spec fn row_inks(b: BandScan, segs: Seq<Seg>, y: int, band: char, upto: int) -> Seq<Ink>
    decreases upto,
{
    if upto <= 0 {
        Seq::empty()
    } else if b.channels@[upto - 1].band == band {
        row_inks(b, segs, y, band, upto - 1) + cell_inks(b, segs, y, upto - 1)
    } else {
        row_inks(b, segs, y, band, upto - 1)
    }
}

/// The first `upto` rows of the channel grid.
pub open spec fn grid_inks(b: BandScan, segs: Seq<Seg>, p: Place, upto: int) -> Seq<Ink>
    decreases upto,
{
    if upto <= 0 {
        Seq::empty()
    } else {
        let y = p.bot + 14 + 9 * (upto - 1);
        let band = b.rows@[upto - 1];
        grid_inks(b, segs, p, upto - 1) + seq![
            Ink::Text { x: p.x0 - 12, y, text: seq![band], color: MUTED },
        ] + row_inks(b, segs, y, band, b.channels@.len() as int)
    }
}

/// Columns of the tunes.
pub open spec fn tune_columns(b: BandScan, segs: Seq<Seg>) -> Seq<int> {
    Seq::new(b.tunes@.len(), |k: int| axis_x(segs, b.tunes@[k] as int))
}

/// The least step from a column to the next; unbounded where there is no next.
pub open spec fn least_step(xs: Seq<int>) -> int
    decreases xs.len(),
{
    if xs.len() < 2 {
        usize::MAX as int
    } else {
        smaller(least_step(xs.drop_last()), less(xs[xs.len() - 1], xs[xs.len() - 2]))
    }
}

/// The age of a tune as text.
pub open spec fn age_text(now: bool, age: Option<u64>) -> Seq<char> {
    if now {
        "now"@
    } else {
        match age {
            Some(ns) => decimal(age_parts(ns as int, 1)) + "s"@,
            None => "-"@,
        }
    }
}

/// How far a tune's tick has faded.
pub open spec fn faded(age_ns: int) -> (int, int) {
    if age_ns >= FADE_S * SECOND_NS {
        (1, 1)
    } else {
        let (n, p) = seconds(age_ns);
        (smaller(n, FADE_S * p), FADE_S * p)
    }
}

/// The age of a tune as a colour, fading from lit to dim.
pub open spec fn age_color(now: bool, age: Option<u64>) -> u32 {
    if now {
        ACCENT
    } else {
        match age {
            Some(ns) => {
                let (n, d) = faded(ns as int);
                lerped(MUTED, LINE, n, d) as u32
            },
            None => LINE,
        }
    }
}

/// The age of one tune: text where the tunes are far enough apart to read it,
/// otherwise a tick.
pub open spec fn age_ink(b: BandScan, ages: Ages, xs: Seq<int>, y: int, k: int) -> Ink {
    let now = b.active_tune == Some(k as usize);
    let age = ages.visited_ns@[k];
    let step = least_step(xs);
    if step >= AGE_TEXT_PX {
        let text = age_text(now, age);
        Ink::Text {
            x: less(xs[k], 4 * byte_len(text)),
            y,
            text,
            color: if now {
                ACCENT
            } else {
                MUTED
            },
        }
    } else {
        let wide = smaller(larger(less(step, 2), 1), 12);
        Ink::Rect { x: less(xs[k], wide / 2), y: y + 1, w: wide, h: 6, color: age_color(now, age) }
    }
}

/// The row of ages below the channel grid.
pub open spec fn age_inks(b: BandScan, ages: Ages, segs: Seq<Seg>, p: Place) -> Seq<Ink> {
    let y = p.bot + 16 + 9 * b.rows@.len();
    if b.tunes@.len() == 0 {
        Seq::empty()
    } else {
        seq![Ink::Text { x: p.x0 - 28, y, text: "age"@, color: DIM }] + Seq::new(
            b.tunes@.len(),
            |k: int| age_ink(b, ages, tune_columns(b, segs), y, k),
        )
    }
}

/// Everything the full panel draws, in order.
pub open spec fn full_inks(b: BandScan, ages: Ages, p: Place, w: int) -> Seq<Ink> {
    let segs = axis_for(hz_of(b.channels@), p.x0 as int, p.x1 as int);
    let ticks = axis_ticks(segs);
    head_inks(b, ages, p, w) + window_inks(b, segs, p.top - 2, p.bot - p.top + 2) + scale_inks(
        p,
        -40,
    ) + scale_inks(p, -60) + scale_inks(p, -80) + scale_inks(p, -100) + bar_inks(b, segs, p)
        + floor_inks(p, level_y(p, floor_level(b.energies@))) + hits_inks(
        b,
        segs,
        p,
        b.detections@.len() as int,
    ) + seq![
        Ink::Rect { x: p.x0 as int, y: p.bot as int, w: p.x1 - p.x0, h: 1, color: LINE_2 },
    ] + tick_inks(ticks, p, ticks.len() as int) + grid_inks(b, segs, p, b.rows@.len() as int)
        + age_inks(b, ages, segs, p)
}

/// A picture with the full panel over its bottom `panel_h` rows.
pub open spec fn full_painted(
    buf: Seq<u32>,
    w: int,
    h: int,
    panel_h: int,
    b: BandScan,
    ages: Ages,
) -> Seq<u32> {
    let p = full_place(b, w, h, panel_h);
    all_inked(shaded(buf, w, h - panel_h, panel_h), w, h, full_inks(b, ages, p, w))
}

/// One bar of the strip.
pub open spec fn strip_bar(b: BandScan, segs: Seq<Seg>, p: Place, i: int) -> Ink {
    let f = b.energies@[i].0 * BAR_STEP_MILLI_HZ;
    let level = b.energies@[i].1 as int;
    let wide = bar_width(segs, f);
    let tall = larger(level_rise(level, p.bot - p.top), 1);
    Ink::Rect {
        x: less(axis_x(segs, f), wide / 2),
        y: p.bot - tall,
        w: wide,
        h: tall,
        color: bar_color(level, floor_level(b.energies@)),
    }
}

/// A skipped frequency on the strip.
pub open spec fn strip_skip(b: BandScan, segs: Seq<Seg>, p: Place, i: int) -> Ink {
    let f = 1000 * b.skipped@[i];
    let wide = bar_width(segs, f);
    Ink::Rect {
        x: less(axis_x(segs, f), wide / 2),
        y: p.top as int,
        w: wide,
        h: p.bot - p.top,
        color: SKIP,
    }
}

/// A hit on the strip.
pub open spec fn strip_hit(b: BandScan, segs: Seq<Seg>, p: Place, i: int) -> Ink {
    let d = b.detections@[i].1;
    let third = (p.bot - p.top) / 3;
    Ink::Rect {
        x: axis_x(segs, 1000 * d.frequency_hz),
        y: p.top + third,
        w: 1,
        h: p.bot - p.top - third,
        color: sure_color(d),
    }
}

/// The strip's right-hand text.
pub open spec fn strip_status(b: BandScan, ages: Ages) -> Seq<char> {
    if b.active_tune is Some {
        "sweeping"@
    } else {
        match ages.sweep_ns {
            Some(ns) => "sweep "@ + decimal(age_parts(ns as int, 1)) + "s ago"@,
            None => Seq::empty(),
        }
    }
}

/// Lock line and texts of the strip.
pub open spec fn strip_tail(b: BandScan, ages: Ages, segs: Seq<Seg>, p: Place, w: int, h: int) -> Seq<
    Ink,
> {
    let y = p.y0 + less(h - p.y0, 8) / 2;
    let status = strip_status(b, ages);
    let right = Ink::Text { x: less(w, 8 + 8 * byte_len(status)), y, text: status, color: MUTED };
    match b.lock_milli_hz {
        Some(lock) => seq![
            Ink::Rect {
                x: less(axis_x(segs, lock as int), 1),
                y: p.top as int,
                w: 2,
                h: p.bot - p.top,
                color: ACCENT,
            },
            Ink::Text { x: 8, y, text: lock_text(b, lock as int), color: ACCENT },
            right,
        ],
        None => seq![Ink::Text { x: 8, y, text: "scanning"@, color: MUTED }, right],
    }
}

/// Everything the strip draws, in order. A picture too narrow for an axis gets the
/// line alone.
pub open spec fn strip_inks(b: BandScan, ages: Ages, w: int, h: int) -> Seq<Ink> {
    let p = strip_place(w, h);
    let line = seq![Ink::Rect { x: 0, y: p.y0 as int, w, h: 1, color: LINE_2 }];
    if p.x1 <= p.x0 + 40 {
        line
    } else {
        let segs = axis_for(hz_of(b.channels@), p.x0 as int, p.x1 as int);
        line + window_inks(b, segs, p.top as int, p.bot - p.top) + Seq::new(
            b.energies@.len(),
            |i: int| strip_bar(b, segs, p, i),
        ) + Seq::new(b.skipped@.len(), |i: int| strip_skip(b, segs, p, i)) + Seq::new(
            b.detections@.len(),
            |i: int| strip_hit(b, segs, p, i),
        ) + strip_tail(b, ages, segs, p, w, h)
    }
}

/// A picture with the strip over its bottom.
pub open spec fn strip_painted(buf: Seq<u32>, w: int, h: int, b: BandScan, ages: Ages) -> Seq<u32> {
    let rows = smaller(STRIP_H as int, h);
    all_inked(shaded(buf, w, h - rows, rows), w, h, strip_inks(b, ages, w, h))
}

/// A picture with the panel over its bottom as `mode` asks.
pub open spec fn overlay_painted(
    buf: Seq<u32>,
    w: int,
    h: int,
    mode: PanelMode,
    b: BandScan,
    ages: Ages,
) -> Seq<u32> {
    match mode {
        PanelMode::Off => buf,
        PanelMode::Strip => strip_painted(buf, w, h, b, ages),
        PanelMode::Full => full_painted(
            buf,
            w,
            h,
            overlay_rows(b.rows@.len() as int, mode, h),
            b,
            ages,
        ),
    }
}

/// Bytes of a frequency as printed.
proof fn lemma_mhz_text_short(milli_hz: int)
    requires
        0 <= milli_hz <= 1000 * u64::MAX,
    ensures
        byte_len(mhz_text(milli_hz)) <= 22,
{
    let n = mhz_parts(milli_hz, 10);
    lemma_mhz_parts_fit(milli_hz, 10);
    lemma_tenths_short(n);
    lemma_ascii_len(tenths(n));
}

/// Append a frequency in megahertz, to one decimal place.
fn push_mhz(text: &mut String, milli_hz: u128)
    requires
        milli_hz <= 1000 * u64::MAX,
    ensures
        final(text)@ == old(text)@ + mhz_text(milli_hz as int),
{
    push_tenths(text, parts_of_mhz(milli_hz, 10));
}

/// Bytes of a text that is known to be short.
fn bytes(text: &String) -> (n: usize)
    requires
        byte_len(text@) <= 2 * MAX_NAME_BYTES,
    ensures
        n == byte_len(text@),
{
    text.as_str().len()
}

/// What the panel says it is locked to.
fn lock_label(b: &BandScan, lock: u64) -> (text: String)
    requires
        b.wf(),
    ensures
        text@ == lock_text(*b, lock as int),
        byte_len(text@) <= 2 * MAX_NAME_BYTES,
{
    let mut text: String = String::new();
    text.append("lock ");
    let name: String = b.name_at(lock as i128);
    text.append(name.as_str());
    text.append(" ");
    push_mhz(&mut text, lock as u128);
    proof {
        reveal_strlit("lock ");
        reveal_strlit(" ");
        assert(text@ =~= lock_text(*b, lock as int));
        lemma_mhz_text_short(lock as int);
        lemma_ascii_len("lock "@);
        lemma_ascii_len(" "@);
        lemma_byte_len_concat("lock "@, name@);
        lemma_byte_len_concat("lock "@ + name@, " "@);
        lemma_byte_len_concat("lock "@ + name@ + " "@, mhz_text(lock as int));
    }
    text
}

/// The header's text.
fn head_label(b: &BandScan, ages: &Ages) -> (text: String)
    requires
        b.wf(),
    ensures
        text@ == head_text(*b, *ages),
{
    let mut text: String = String::new();
    push_decimal(&mut text, b.channels.len() as u64);
    text.append(" ch");
    match b.active_tune {
        Some(k) => {
            let planned: usize = b.tunes.len();
            text.append("  tune ");
            push_decimal(&mut text, (k + 1) as u64);
            text.append("/");
            push_decimal(&mut text, planned as u64);
        },
        None => {
            if let Some(ns) = ages.sweep_ns {
                text.append("  sweep ");
                push_tenths(&mut text, parts_of_age(ns, 10));
                text.append("s ago");
            }
        },
    }
    assert(text@ =~= head_text(*b, *ages));
    text
}

/// Whether an axis can be drawn at a place.
spec fn place_ok(p: Place) -> bool {
    &&& p.x0 < p.x1 <= MAX_PIXELS
    &&& p.x0 >= 28
    &&& p.y0 + 4 <= p.top < p.bot <= MAX_PIXELS + 36
    &&& p.y0 <= MAX_PIXELS
}

/// Add the line, the header and the lock.
fn add_head(ops: &mut Vec<DrawOp>, b: &BandScan, ages: &Ages, p: Place, w: usize)
    requires
        b.wf(),
        place_ok(p),
    ensures
        inks(final(ops)@) == inks(old(ops)@) + head_inks(*b, *ages, p, w as int),
{
    let ghost base = inks(ops@);
    add_rect(ops, 0, p.y0, w, 1, LINE_2);
    let head: String = head_label(b, ages);
    add_text(ops, p.x0, p.y0 + 4, head, MUTED);
    if let Some(lock) = b.lock_milli_hz {
        let text: String = lock_label(b, lock);
        let x: usize = p.x1.saturating_sub(bytes(&text) * 8);
        add_text(ops, x, p.y0 + 4, text, ACCENT);
    }
    assert(inks(ops@) =~= base + head_inks(*b, *ages, p, w as int));
}

/// Add the windows of all tunes.
fn add_windows(ops: &mut Vec<DrawOp>, b: &BandScan, axis: &Axis, y: usize, rows: usize)
    requires
        axis_ok(axis@),
    ensures
        inks(final(ops)@) == inks(old(ops)@) + window_inks(*b, axis@, y as int, rows as int),
{
    let ghost base = inks(ops@);
    let half: i128 = (b.span_milli_hz / 2) as i128;
    let mut k: usize = 0;
    assert(base + Seq::new(0, |i: int| window_ink(*b, axis@, y as int, rows as int, i)) =~= base);
    while k < b.tunes.len()
        invariant
            k <= b.tunes@.len(),
            axis_ok(axis@),
            half == b.span_milli_hz / 2,
            inks(ops@) == base + Seq::new(
                k as nat,
                |i: int| window_ink(*b, axis@, y as int, rows as int, i),
            ),
        decreases b.tunes@.len() - k,
    {
        let t: i128 = b.tunes[k] as i128;
        let left: usize = axis.x(t - half);
        let right: usize = axis.x(t + half);
        let active: bool = match b.active_tune {
            Some(a) => a == k,
            None => false,
        };
        let color: u32 = if active {
            WIN_ACTIVE
        } else {
            WIN
        };
        add_rect(ops, left, y, right.saturating_sub(left), rows, color);
        k = k + 1;
        assert(inks(ops@) =~= base + Seq::new(
            k as nat,
            |i: int| window_ink(*b, axis@, y as int, rows as int, i),
        ));
    }
}

/// Rows a level rises above the bottom of bars `rows` high.
pub fn rise(level: i32, rows: usize) -> (r: usize)
    requires
        rows <= 2 * MAX_PIXELS,
    ensures
        r == level_rise(level as int, rows as int),
        r <= rows,
{
    let raised: i32 = if level > LEVEL_BOTTOM_UDB {
        level
    } else {
        LEVEL_BOTTOM_UDB
    };
    let held: i32 = if raised < LEVEL_TOP_UDB {
        raised
    } else {
        LEVEL_TOP_UDB
    };
    let below: u128 = (-held) as u128;
    proof {
        lemma_quotient_size(below as int, 1_000_000, SINGLE as int);
        lemma_quotient_at_least(below as int, 1_000_000, SINGLE as int, 40);
        lemma_quotient_at_most(below as int, 1_000_000, SINGLE as int, 100);
    }
    let (m, q): (u128, u128) = divide(below, 1_000_000, SINGLE);
    proof {
        assert(q <= below * q) by (nonlinear_arith)
            requires
                below >= 1,
                q >= 0,
        ;
        lemma_quotient_size(100 * q - m, 60 * q, SINGLE as int);
        lemma_quotient_at_most(100 * q - m, 60 * q, SINGLE as int, 1);
    }
    let (n, p): (u128, u128) = divide(100 * q - m, 60 * q, SINGLE);
    proof {
        let up = 100 * q - m;
        if up > 0 {
            assert(p <= up * p) by (nonlinear_arith)
                requires
                    up >= 1,
                    p >= 0,
            ;
        }
        assert(0 <= n * rows <= rows * p && n * rows <= 0x100_0000 * 2_097_152)
            by (nonlinear_arith)
            requires
                0 <= n <= p,
                n <= 0x100_0000,
                0 <= rows <= 2_097_152,
        ;
        crate::axis::lemma_round_div_upper(n * rows, rows as int, p as int);
    }
    div_half_up(n * rows as u128, p) as usize
}

/// Row of a level.
fn row_of(p: Place, level: i32) -> (y: usize)
    requires
        place_ok(p),
    ensures
        y == level_y(p, level as int),
        p.top <= y <= p.bot,
{
    p.bot - rise(level, p.bot - p.top)
}

/// Add one grid line of the level scale and its label.
fn add_scale(ops: &mut Vec<DrawOp>, p: Place, db: i32)
    requires
        place_ok(p),
        -1000 <= db <= 1000,
    ensures
        inks(final(ops)@) == inks(old(ops)@) + scale_inks(p, db as int),
{
    let ghost base = inks(ops@);
    let y: usize = row_of(p, db * 1_000_000);
    add_rect(ops, p.x0, y, p.x1 - p.x0, 1, LINE);
    let mut text: String = String::new();
    push_signed(&mut text, db as i64);
    proof {
        assert(text@ =~= signed_decimal(db as int));
        lemma_signed_short(db as int);
        lemma_ascii_len(text@);
    }
    let x: usize = p.x0.saturating_sub(bytes(&text) * 8 + 4);
    add_text(ops, x, y.saturating_sub(4), text, DIM);
    assert(inks(ops@) =~= base + scale_inks(p, db as int));
}

/// Colour of a bar.
fn color_of_bar(level: i32, floor: i32) -> (c: u32)
    ensures
        c == bar_color(level as int, floor as int),
{
    if level as i64 > floor as i64 + HOT_ABOVE_FLOOR_UDB {
        BAR_HOT
    } else {
        BAR
    }
}

/// Add all bars of the full panel.
fn add_bars(ops: &mut Vec<DrawOp>, b: &BandScan, axis: &Axis, p: Place, floor: i32)
    requires
        axis_ok(axis@),
        place_ok(p),
        floor == floor_level(b.energies@),
    ensures
        inks(final(ops)@) == inks(old(ops)@) + bar_inks(*b, axis@, p),
{
    let ghost base = inks(ops@);
    let mut k: usize = 0;
    assert(base + Seq::new(0, |i: int| bar_ink(*b, axis@, p, i)) =~= base);
    while k < b.energies.len()
        invariant
            k <= b.energies@.len(),
            axis_ok(axis@),
            place_ok(p),
            floor == floor_level(b.energies@),
            inks(ops@) == base + Seq::new(k as nat, |i: int| bar_ink(*b, axis@, p, i)),
        decreases b.energies@.len() - k,
    {
        let f: i128 = bar_milli_hz(b.energies[k].0);
        let level: i32 = b.energies[k].1;
        let wide: usize = axis.bar_px(f);
        let x: usize = axis.x(f).saturating_sub(wide / 2);
        let y: usize = row_of(p, level);
        add_rect(ops, x, y, wide, p.bot - y, color_of_bar(level, floor));
        k = k + 1;
        assert(inks(ops@) =~= base + Seq::new(k as nat, |i: int| bar_ink(*b, axis@, p, i)));
    }
}

/// Add the dashes of the floor line.
fn add_floor(ops: &mut Vec<DrawOp>, p: Place, y: usize)
    requires
        place_ok(p),
    ensures
        inks(final(ops)@) == inks(old(ops)@) + floor_inks(p, y as int),
{
    let ghost base = inks(ops@);
    let mut x: usize = p.x0;
    let ghost mut n: int = 0;
    assert(base + floor_inks(p, y as int).take(0) =~= base);
    while x < p.x1
        invariant
            place_ok(p),
            0 <= n <= floor_inks(p, y as int).len(),
            x == p.x0 + 7 * n,
            inks(ops@) == base + floor_inks(p, y as int).take(n),
        decreases p.x1 + 7 - x,
    {
        add_rect(ops, x, y, 3, 1, DIM);
        x = x + 7;
        proof {
            n = n + 1;
            assert(inks(ops@) =~= base + floor_inks(p, y as int).take(n));
        }
    }
    assert(floor_inks(p, y as int).take(n) =~= floor_inks(p, y as int));
}

/// Whether the panel is locked to the carrier at a frequency.
fn is_locked_to(b: &BandScan, milli_hz: i128) -> (r: bool)
    requires
        0 <= milli_hz <= MAX_MILLI_HZ,
    ensures
        r == locked_to(*b, milli_hz as int),
{
    match b.lock_milli_hz {
        Some(l) => distance(l as i128, milli_hz) < CHANNEL_REACH_MILLI_HZ as i128,
        None => false,
    }
}

/// The word for a hit's standard.
pub fn std_label(signal: Signal) -> (s: &'static str)
    ensures
        s@ == signal_text(signal),
{
    match signal {
        Signal::Ntsc => "ntsc",
        Signal::Pal => "pal",
        Signal::Other => "vid",
    }
}

/// What is written at a hit.
fn hit_label(b: &BandScan, d: Detection) -> (text: String)
    requires
        b.wf(),
    ensures
        text@ == hit_text(*b, d),
        byte_len(text@) <= 2 * MAX_NAME_BYTES,
{
    let f: i128 = d.frequency_hz as i128 * 1000;
    let name: String = b.name_at(f);
    let mut text: String = name.clone();
    text.append(" ");
    text.append(std_label(d.signal));
    text.append(" ");
    push_mhz(&mut text, d.frequency_hz as u128 * 1000);
    proof {
        reveal_strlit(" ");
        reveal_strlit("ntsc");
        reveal_strlit("pal");
        reveal_strlit("vid");
        let word = signal_text(d.signal);
        let mhz = mhz_text(1000 * d.frequency_hz);
        assert(text@ =~= hit_text(*b, d));
        lemma_mhz_text_short(1000 * d.frequency_hz);
        lemma_ascii_len(" "@);
        lemma_ascii_len(word);
        lemma_byte_len_concat(name@, " "@);
        lemma_byte_len_concat(name@ + " "@, word);
        lemma_byte_len_concat(name@ + " "@ + word, " "@);
        lemma_byte_len_concat(name@ + " "@ + word + " "@, mhz);
    }
    text
}

/// Colour of a hit by its confidence.
fn color_of_sureness(d: Detection) -> (c: u32)
    ensures
        c == sure_color(d),
{
    if d.confidence_ppb >= CONFIRM_AT_PPB {
        VIDEO
    } else {
        MAYBE
    }
}

/// Add the dots of an unconfirmed hit's stem.
fn add_dots(ops: &mut Vec<DrawOp>, p: Place, x: usize, y: usize, color: u32)
    requires
        place_ok(p),
        y <= p.bot,
    ensures
        inks(final(ops)@) == inks(old(ops)@) + dots(p, x as int, y as int, color),
{
    let ghost base = inks(ops@);
    let ghost all = dots(p, x as int, y as int, color);
    let mut yy: usize = y;
    let ghost mut n: int = 0;
    assert(base + all.take(0) =~= base);
    while yy < p.bot
        invariant
            place_ok(p),
            all == dots(p, x as int, y as int, color),
            y <= p.bot,
            0 <= n <= all.len(),
            yy == y + 4 * n,
            inks(ops@) == base + all.take(n),
        decreases p.bot + 4 - yy,
    {
        add_rect(ops, x, yy, 1, 2, color);
        yy = yy + 4;
        proof {
            n = n + 1;
            assert(inks(ops@) =~= base + all.take(n));
        }
    }
    assert(all.take(n) =~= all);
}

/// Add one hit of the full panel.
fn add_hit(ops: &mut Vec<DrawOp>, b: &BandScan, axis: &Axis, p: Place, d: Detection)
    requires
        b.wf(),
        axis_ok(axis@),
        place_ok(p),
    ensures
        inks(final(ops)@) == inks(old(ops)@) + hit_inks(*b, axis@, p, d),
{
    let ghost base = inks(ops@);
    let f: i128 = d.frequency_hz as i128 * 1000;
    let color: u32 = if is_locked_to(b, f) {
        ACCENT
    } else {
        color_of_sureness(d)
    };
    let x: usize = axis.x(f);
    let raised: usize = row_of(p, d.rssi_udb).saturating_sub(4);
    let y: usize = if raised > p.top {
        raised
    } else {
        p.top
    };
    if d.confidence_ppb >= CONFIRM_AT_PPB {
        add_rect(ops, x, y, 2, p.bot - y, color);
        add_rect(ops, x.saturating_sub(2), y.saturating_sub(2), 6, 5, color);
    } else {
        add_dots(ops, p, x, y, color);
        add_outline(ops, x.saturating_sub(2), y.saturating_sub(2), 6, 5, color);
    }
    assert(inks(ops@) =~= base + hit_marks(p, d, x as int, color));
    let text: String = hit_label(b, d);
    let wide: usize = bytes(&text) * 8;
    let left: usize = if x + 8 + wide < p.x1 {
        x + 6
    } else {
        x.saturating_sub(wide + 6)
    };
    let above: usize = y.saturating_sub(9);
    let at: usize = if above > p.top {
        above
    } else {
        p.top
    };
    add_text(ops, left, at, text, color);
    assert(inks(ops@) =~= base + hit_inks(*b, axis@, p, d));
}

/// Add all hits of the full panel.
fn add_hits(ops: &mut Vec<DrawOp>, b: &BandScan, axis: &Axis, p: Place)
    requires
        b.wf(),
        axis_ok(axis@),
        place_ok(p),
    ensures
        inks(final(ops)@) == inks(old(ops)@) + hits_inks(
            *b,
            axis@,
            p,
            b.detections@.len() as int,
        ),
{
    let ghost base = inks(ops@);
    let mut k: usize = 0;
    assert(base + hits_inks(*b, axis@, p, 0) =~= base);
    while k < b.detections.len()
        invariant
            k <= b.detections@.len(),
            b.wf(),
            axis_ok(axis@),
            place_ok(p),
            inks(ops@) == base + hits_inks(*b, axis@, p, k as int),
        decreases b.detections@.len() - k,
    {
        add_hit(ops, b, axis, p, b.detections[k].1);
        k = k + 1;
        assert(inks(ops@) =~= base + hits_inks(*b, axis@, p, k as int));
    }
}

/// Add the ticks and their labels.
fn add_ticks(ops: &mut Vec<DrawOp>, axis: &Axis, p: Place)
    requires
        axis_ok(axis@),
        place_ok(p),
    ensures
        inks(final(ops)@) == inks(old(ops)@) + tick_inks(
            axis_ticks(axis@),
            p,
            axis_ticks(axis@).len() as int,
        ),
{
    let ghost base = inks(ops@);
    let list: Vec<(usize, i64)> = axis.ticks();
    let ghost ticks = as_ticks(list@);
    let mut k: usize = 0;
    assert(base + tick_inks(ticks, p, 0) =~= base);
    while k < list.len()
        invariant
            k <= list@.len(),
            ticks == as_ticks(list@),
            ticks == axis_ticks(axis@),
            forall|i: int| 0 <= i < list@.len() ==> 0 <= (#[trigger] list@[i]).1 <= 40_000,
            axis_ok(axis@),
            place_ok(p),
            inks(ops@) == base + tick_inks(ticks, p, k as int),
        decreases list@.len() - k,
    {
        let (x, mhz) = list[k];
        proof {
            assert(ticks[k as int] == (x as int, mhz as int));
        }
        add_rect(ops, x, p.bot, 1, 4, LINE_2);
        let mut text: String = String::new();
        push_signed(&mut text, mhz);
        proof {
            assert(text@ =~= signed_decimal(mhz as int));
            lemma_signed_short(mhz as int);
            lemma_ascii_len(text@);
        }
        let left: usize = x.saturating_sub(bytes(&text) * 4);
        add_text(ops, left, p.bot + 6, text, MUTED);
        k = k + 1;
        assert(inks(ops@) =~= base + tick_inks(ticks, p, k as int));
    }
}

/// Whether a frequency was skipped.
fn is_skipped(b: &BandScan, hz: u64) -> (r: bool)
    ensures
        r == b.skipped@.contains(hz),
{
    let mut i: usize = 0;
    while i < b.skipped.len()
        invariant
            i <= b.skipped@.len(),
            forall|k: int| 0 <= k < i ==> b.skipped@[k] != hz,
        decreases b.skipped@.len() - i,
    {
        if b.skipped[i] == hz {
            assert(b.skipped@[i as int] == hz);
            return true;
        }
        i = i + 1;
    }
    false
}

/// The size of a level in decibels.
fn size_in_decibels(level: i32) -> (r: (u128, u128))
    ensures
        level >= 0 ==> (r.0 as int, r.1 as int) == decibels(level as int),
        level < 0 ==> (-(r.0 as int), r.1 as int) == decibels(level as int),
        r.0 <= 0x100_0000,
        1 <= r.1 <= 16_777_216_000_000,
{
    let size: i64 = if level < 0 {
        -(level as i64)
    } else {
        level as i64
    };
    proof {
        lemma_quotient_size(size as int, 1_000_000, SINGLE as int);
        let p = quotient(size as int, 1_000_000, SINGLE as int).1;
        if size > 0 {
            assert(p <= size * p) by (nonlinear_arith)
                requires
                    size >= 1,
                    p >= 0,
            ;
        }
    }
    divide(size as u128, 1_000_000, SINGLE)
}

/// How far a level is up from the floor, as a part of the cell's range.
pub fn heat_of(level: i32, floor: i32) -> (r: (u128, u128))
    ensures
        (r.0 as int, r.1 as int) == heat(level as int, floor as int),
        r.0 <= r.1,
        0 < r.1 <= 0x4000_0000_0000_0000_0000_0000,
{
    let (m, q): (u128, u128) = size_in_decibels(level);
    let (n, p): (u128, u128) = size_in_decibels(floor);
    proof {
        assert(0 <= m * p <= 0x100_0000 * 16_777_216_000_000 && 0 <= n * q <= 0x100_0000
            * 16_777_216_000_000 && 1 <= q * p <= 16_777_216_000_000 * 16_777_216_000_000)
            by (nonlinear_arith)
            requires
                0 <= m <= 0x100_0000,
                0 <= n <= 0x100_0000,
                1 <= p <= 16_777_216_000_000,
                1 <= q <= 16_777_216_000_000,
        ;
        assert((-m) * p == -(m * p) && (-n) * q == -(n * q)) by (nonlinear_arith);
    }
    let up: u128 = if level < 0 && floor < 0 {
        (n * q).saturating_sub(m * p)
    } else if level < 0 {
        0
    } else if floor < 0 {
        m * p + n * q
    } else {
        (m * p).saturating_sub(n * q)
    };
    let range: u128 = CELL_RANGE_DB as u128 * (q * p);
    let lit: u128 = round(up, SINGLE);
    if lit < range {
        (lit, range)
    } else {
        (range, range)
    }
}

/// How far a channel's level is up from the floor, as a part of the cell's range.
fn heat_of_cell(b: &BandScan, milli_hz: i64, floor: i32) -> (r: (u128, u128))
    requires
        floor == floor_level(b.energies@),
    ensures
        (r.0 as int, r.1 as int) == cell_heat(*b, milli_hz as int),
        r.0 <= r.1,
        0 < r.1 <= 0x4000_0000_0000_0000_0000_0000,
{
    match b.energy_near(milli_hz) {
        Some(level) => heat_of(level, floor),
        None => (0, 1),
    }
}

/// The border of a channel's cell, where it has one.
fn border_of_cell(b: &BandScan, hz: u64) -> (r: Option<u32>)
    ensures
        r == cell_border(*b, hz as int),
{
    if is_locked_to(b, hz as i128 * 1000) {
        Some(ACCENT)
    } else {
        match find_hit(&b.detections, hz) {
            Some(k) => Some(color_of_sureness(b.detections[k].1)),
            None => None,
        }
    }
}

/// Add the cell of one channel.
fn add_cell(ops: &mut Vec<DrawOp>, b: &BandScan, axis: &Axis, floor: i32, y: usize, i: usize)
    requires
        b.wf(),
        axis_ok(axis@),
        floor == floor_level(b.energies@),
        i < b.channels@.len(),
        y <= 12 * MAX_PIXELS,
    ensures
        inks(final(ops)@) == inks(old(ops)@) + cell_inks(*b, axis@, y as int, i as int),
{
    let ghost base = inks(ops@);
    assert(0 <= b.channels@[i as int].hz <= MAX_CHANNEL_HZ);
    let hz: i64 = b.channels[i].hz;
    let f: i64 = hz * 1000;
    let bar: usize = axis.bar_px(f as i128);
    let wide: usize = if bar > 4 {
        bar
    } else {
        4
    };
    let x: usize = axis.x(f as i128).saturating_sub(wide / 2);
    let fill: u32 = if is_skipped(b, hz as u64) {
        SKIP
    } else {
        let (n, d): (u128, u128) = heat_of_cell(b, f, floor);
        lerp(BAR, VIDEO, n, d)
    };
    add_rect(ops, x, y + 1, wide, 7, fill);
    if let Some(color) = border_of_cell(b, hz as u64) {
        add_outline(ops, x, y + 1, wide, 7, color);
    }
    assert(inks(ops@) =~= base + cell_inks(*b, axis@, y as int, i as int));
}

/// Add the cells of one band.
fn add_row(ops: &mut Vec<DrawOp>, b: &BandScan, axis: &Axis, floor: i32, y: usize, band: char)
    requires
        b.wf(),
        axis_ok(axis@),
        floor == floor_level(b.energies@),
        y <= 12 * MAX_PIXELS,
    ensures
        inks(final(ops)@) == inks(old(ops)@) + row_inks(
            *b,
            axis@,
            y as int,
            band,
            b.channels@.len() as int,
        ),
{
    let ghost base = inks(ops@);
    let mut i: usize = 0;
    assert(base + row_inks(*b, axis@, y as int, band, 0) =~= base);
    while i < b.channels.len()
        invariant
            i <= b.channels@.len(),
            b.wf(),
            axis_ok(axis@),
            floor == floor_level(b.energies@),
            y <= 12 * MAX_PIXELS,
            inks(ops@) == base + row_inks(*b, axis@, y as int, band, i as int),
        decreases b.channels@.len() - i,
    {
        if b.channels[i].band == band {
            add_cell(ops, b, axis, floor, y, i);
        }
        i = i + 1;
        assert(inks(ops@) =~= base + row_inks(*b, axis@, y as int, band, i as int));
    }
}

/// Add the channel grid: one row per band, each cell at its true frequency.
fn add_grid(ops: &mut Vec<DrawOp>, b: &BandScan, axis: &Axis, p: Place, floor: i32)
    requires
        b.wf(),
        axis_ok(axis@),
        place_ok(p),
        floor == floor_level(b.energies@),
    ensures
        inks(final(ops)@) == inks(old(ops)@) + grid_inks(*b, axis@, p, b.rows@.len() as int),
{
    let ghost base = inks(ops@);
    let mut r: usize = 0;
    assert(base + grid_inks(*b, axis@, p, 0) =~= base);
    while r < b.rows.len()
        invariant
            r <= b.rows@.len(),
            b.wf(),
            axis_ok(axis@),
            place_ok(p),
            floor == floor_level(b.energies@),
            inks(ops@) == base + grid_inks(*b, axis@, p, r as int),
        decreases b.rows@.len() - r,
    {
        let ghost sofar = inks(ops@);
        let y: usize = p.bot + 14 + 9 * r;
        let band: char = b.rows[r];
        let mut text: String = String::new();
        text.push(band);
        assert(text@ =~= seq![band]);
        add_text(ops, p.x0 - 12, y, text, MUTED);
        add_row(ops, b, axis, floor, y, band);
        r = r + 1;
        assert(inks(ops@) =~= base + grid_inks(*b, axis@, p, r as int));
    }
}

/// The columns of the tunes.
fn columns(b: &BandScan, axis: &Axis) -> (xs: Vec<usize>)
    requires
        axis_ok(axis@),
    ensures
        xs@.len() == b.tunes@.len(),
        as_columns(xs@) == tune_columns(*b, axis@),
{
    let mut xs: Vec<usize> = Vec::new();
    let mut k: usize = 0;
    while k < b.tunes.len()
        invariant
            k <= b.tunes@.len(),
            xs@.len() == k,
            axis_ok(axis@),
            forall|i: int| 0 <= i < k ==> #[trigger] xs@[i] == axis_x(axis@, b.tunes@[i] as int),
        decreases b.tunes@.len() - k,
    {
        xs.push(axis.x(b.tunes[k] as i128));
        k = k + 1;
    }
    assert(as_columns(xs@) =~= tune_columns(*b, axis@));
    xs
}

/// Columns as plain numbers.
spec fn as_columns(xs: Seq<usize>) -> Seq<int> {
    Seq::new(xs.len(), |i: int| xs[i] as int)
}

/// The least step from a column to the next.
fn step_of(xs: &Vec<usize>) -> (r: usize)
    ensures
        r == least_step(as_columns(xs@)),
{
    let mut least: usize = usize::MAX;
    let mut k: usize = 1;
    let ghost all = as_columns(xs@);
    if xs.len() == 0 {
        return least;
    }
    while k < xs.len()
        invariant
            1 <= k <= xs@.len(),
            all == as_columns(xs@),
            least == least_step(all.take(k as int)),
        decreases xs@.len() - k,
    {
        let step: usize = xs[k].saturating_sub(xs[k - 1]);
        if step < least {
            least = step;
        }
        k = k + 1;
        proof {
            assert(all.take(k as int).drop_last() =~= all.take(k - 1));
        }
    }
    assert(all.take(all.len() as int) =~= all);
    least
}

/// The age of a tune as text.
fn age_label(now: bool, age: Option<u64>) -> (text: String)
    ensures
        text@ == age_text(now, age),
        byte_len(text@) <= 21,
{
    let mut text: String = String::new();
    if now {
        text.append("now");
        proof {
            reveal_strlit("now");
            assert(text@ =~= "now"@);
            lemma_ascii_len("now"@);
        }
    } else {
        match age {
            Some(ns) => {
                push_decimal(&mut text, parts_of_age(ns, 1));
                text.append("s");
                proof {
                    reveal_strlit("s");
                    let n = age_parts(ns as int, 1);
                    assert(text@ =~= decimal(n) + "s"@);
                    lemma_decimal_short(n);
                    lemma_ascii_len(decimal(n));
                    lemma_ascii_len("s"@);
                    lemma_byte_len_concat(decimal(n), "s"@);
                }
            },
            None => {
                text.append("-");
                proof {
                    reveal_strlit("-");
                    assert(text@ =~= "-"@);
                    lemma_ascii_len("-"@);
                }
            },
        }
    }
    text
}

/// The age of a tune as a colour.
fn color_of_age(now: bool, age: Option<u64>) -> (c: u32)
    ensures
        c == age_color(now, age),
{
    if now {
        ACCENT
    } else {
        match age {
            Some(ns) => {
                if ns >= FADE_S * SECOND_NS {
                    return lerp(MUTED, LINE, 1, 1);
                }
                proof {
                    lemma_seconds_fit(ns as int);
                }
                let (n, p): (u128, u128) = in_seconds(ns);
                assert(FADE_S * p == 30 * p);
                let past: u128 = FADE_S as u128 * p;
                let part: u128 = if n < past {
                    n
                } else {
                    past
                };
                lerp(MUTED, LINE, part, past)
            },
            None => LINE,
        }
    }
}

/// Add the row of ages below the channel grid.
fn add_ages(ops: &mut Vec<DrawOp>, b: &BandScan, ages: &Ages, axis: &Axis, p: Place)
    requires
        b.wf(),
        ages_fit(*b, *ages),
        axis_ok(axis@),
        place_ok(p),
    ensures
        inks(final(ops)@) == inks(old(ops)@) + age_inks(*b, *ages, axis@, p),
{
    let ghost base = inks(ops@);
    if b.tunes.len() == 0 {
        assert(base + age_inks(*b, *ages, axis@, p) =~= base);
        return ;
    }
    let y: usize = p.bot + 16 + 9 * b.rows.len();
    let mut word: String = String::new();
    word.append("age");
    assert(word@ =~= "age"@);
    add_text(ops, p.x0 - 28, y, word, DIM);
    let xs: Vec<usize> = columns(b, axis);
    let ghost cols = tune_columns(*b, axis@);
    let step: usize = step_of(&xs);
    let ghost lead = inks(ops@);
    let ghost all = Seq::new(b.tunes@.len(), |k: int| age_ink(*b, *ages, cols, y as int, k));
    let mut k: usize = 0;
    assert(lead + all.take(0) =~= lead);
    while k < b.tunes.len()
        invariant
            k <= b.tunes@.len(),
            b.wf(),
            ages_fit(*b, *ages),
            xs@.len() == b.tunes@.len(),
            cols == tune_columns(*b, axis@),
            as_columns(xs@) == cols,
            step == least_step(cols),
            y <= 12 * MAX_PIXELS,
            all == Seq::new(b.tunes@.len(), |i: int| age_ink(*b, *ages, cols, y as int, i)),
            inks(ops@) == lead + all.take(k as int),
        decreases b.tunes@.len() - k,
    {
        let x: usize = xs[k];
        assert(cols[k as int] == x as int);
        let now: bool = match b.active_tune {
            Some(a) => a == k,
            None => false,
        };
        let age: Option<u64> = ages.visited_ns[k];
        if step >= AGE_TEXT_PX {
            let text: String = age_label(now, age);
            let left: usize = x.saturating_sub(bytes(&text) * 4);
            let color: u32 = if now {
                ACCENT
            } else {
                MUTED
            };
            add_text(ops, left, y, text, color);
        } else {
            let room: usize = step.saturating_sub(2);
            let wide: usize = if room < 1 {
                1
            } else if room > 12 {
                12
            } else {
                room
            };
            add_rect(ops, x.saturating_sub(wide / 2), y + 1, wide, 6, color_of_age(now, age));
        }
        k = k + 1;
        assert(inks(ops@) =~= lead + all.take(k as int));
    }
    assert(all.take(all.len() as int) =~= all);
    assert(inks(ops@) =~= base + age_inks(*b, *ages, axis@, p));
}

/// The frequencies of the channels.
fn hz_list(b: &BandScan) -> (v: Vec<i64>)
    ensures
        v@ == hz_of(b.channels@),
{
    let mut v: Vec<i64> = Vec::new();
    let mut i: usize = 0;
    while i < b.channels.len()
        invariant
            i <= b.channels@.len(),
            v@ == hz_of(b.channels@).take(i as int),
        decreases b.channels@.len() - i,
    {
        v.push(b.channels[i].hz);
        i = i + 1;
        assert(v@ =~= hz_of(b.channels@).take(i as int));
    }
    assert(v@ =~= hz_of(b.channels@));
    v
}

/// The display list of the full panel.
fn full_list(b: &BandScan, ages: &Ages, p: Place, w: usize) -> (ops: Vec<DrawOp>)
    requires
        b.wf(),
        ages_fit(*b, *ages),
        place_ok(p),
        p.top >= 2,
    ensures
        inks(ops@) == full_inks(*b, *ages, p, w as int),
{
    let freqs: Vec<i64> = hz_list(b);
    proof {
        assert forall|i: int| 0 <= i < freqs@.len() implies 0 <= #[trigger] freqs@[i]
            <= MAX_CHANNEL_HZ by {
            assert(0 <= b.channels@[i].hz <= MAX_CHANNEL_HZ);
        }
    }
    let axis: Axis = Axis::new(&freqs, p.x0, p.x1);
    let floor: i32 = b.floor_udb();
    let mut ops: Vec<DrawOp> = Vec::new();
    let ghost none = inks(ops@);
    add_head(&mut ops, b, ages, p, w);
    assert(none + head_inks(*b, *ages, p, w as int) =~= head_inks(*b, *ages, p, w as int));
    add_windows(&mut ops, b, &axis, p.top - 2, p.bot - p.top + 2);
    add_scale(&mut ops, p, -40);
    add_scale(&mut ops, p, -60);
    add_scale(&mut ops, p, -80);
    add_scale(&mut ops, p, -100);
    add_bars(&mut ops, b, &axis, p, floor);
    add_floor(&mut ops, p, row_of(p, floor));
    add_hits(&mut ops, b, &axis, p);
    let ghost upper = inks(ops@);
    add_rect(&mut ops, p.x0, p.bot, p.x1 - p.x0, 1, LINE_2);
    assert(inks(ops@) =~= upper + seq![
        Ink::Rect { x: p.x0 as int, y: p.bot as int, w: p.x1 - p.x0, h: 1, color: LINE_2 },
    ]);
    add_ticks(&mut ops, &axis, p);
    add_grid(&mut ops, b, &axis, p, floor);
    add_ages(&mut ops, b, ages, &axis, p);
    ops
}

/// Add the bars, skipped frequencies and hits of the strip.
fn add_strip_marks(ops: &mut Vec<DrawOp>, b: &BandScan, axis: &Axis, p: Place)
    requires
        b.wf(),
        axis_ok(axis@),
        place_ok(p),
    ensures
        inks(final(ops)@) == inks(old(ops)@) + Seq::new(
            b.energies@.len(),
            |i: int| strip_bar(*b, axis@, p, i),
        ) + Seq::new(b.skipped@.len(), |i: int| strip_skip(*b, axis@, p, i)) + Seq::new(
            b.detections@.len(),
            |i: int| strip_hit(*b, axis@, p, i),
        ),
{
    let ghost base = inks(ops@);
    let floor: i32 = b.floor_udb();
    let rows: usize = p.bot - p.top;
    let ghost bars = Seq::new(b.energies@.len(), |i: int| strip_bar(*b, axis@, p, i));
    let mut k: usize = 0;
    assert(base + bars.take(0) =~= base);
    while k < b.energies.len()
        invariant
            k <= b.energies@.len(),
            axis_ok(axis@),
            place_ok(p),
            rows == p.bot - p.top,
            floor == floor_level(b.energies@),
            bars == Seq::new(b.energies@.len(), |i: int| strip_bar(*b, axis@, p, i)),
            inks(ops@) == base + bars.take(k as int),
        decreases b.energies@.len() - k,
    {
        let f: i128 = bar_milli_hz(b.energies[k].0);
        let level: i32 = b.energies[k].1;
        let up: usize = rise(level, rows);
        let tall: usize = if up > 1 {
            up
        } else {
            1
        };
        let wide: usize = axis.bar_px(f);
        let x: usize = axis.x(f).saturating_sub(wide / 2);
        add_rect(ops, x, p.bot - tall, wide, tall, color_of_bar(level, floor));
        k = k + 1;
        assert(inks(ops@) =~= base + bars.take(k as int));
    }
    assert(bars.take(bars.len() as int) =~= bars);
    let ghost base2 = inks(ops@);
    let ghost skips = Seq::new(b.skipped@.len(), |i: int| strip_skip(*b, axis@, p, i));
    k = 0;
    assert(base2 + skips.take(0) =~= base2);
    while k < b.skipped.len()
        invariant
            k <= b.skipped@.len(),
            axis_ok(axis@),
            place_ok(p),
            rows == p.bot - p.top,
            skips == Seq::new(b.skipped@.len(), |i: int| strip_skip(*b, axis@, p, i)),
            inks(ops@) == base2 + skips.take(k as int),
        decreases b.skipped@.len() - k,
    {
        let f: i128 = b.skipped[k] as i128 * 1000;
        let wide: usize = axis.bar_px(f);
        let x: usize = axis.x(f).saturating_sub(wide / 2);
        add_rect(ops, x, p.top, wide, rows, SKIP);
        k = k + 1;
        assert(inks(ops@) =~= base2 + skips.take(k as int));
    }
    assert(skips.take(skips.len() as int) =~= skips);
    let ghost base3 = inks(ops@);
    let ghost hits = Seq::new(b.detections@.len(), |i: int| strip_hit(*b, axis@, p, i));
    k = 0;
    assert(base3 + hits.take(0) =~= base3);
    while k < b.detections.len()
        invariant
            k <= b.detections@.len(),
            axis_ok(axis@),
            place_ok(p),
            rows == p.bot - p.top,
            hits == Seq::new(b.detections@.len(), |i: int| strip_hit(*b, axis@, p, i)),
            inks(ops@) == base3 + hits.take(k as int),
        decreases b.detections@.len() - k,
    {
        let d: Detection = b.detections[k].1;
        let x: usize = axis.x(d.frequency_hz as i128 * 1000);
        let third: usize = rows / 3;
        add_rect(ops, x, p.top + third, 1, rows - third, color_of_sureness(d));
        k = k + 1;
        assert(inks(ops@) =~= base3 + hits.take(k as int));
    }
    assert(hits.take(hits.len() as int) =~= hits);
}

/// The strip's right-hand text.
fn status_label(b: &BandScan, ages: &Ages) -> (text: String)
    ensures
        text@ == strip_status(*b, *ages),
        byte_len(text@) <= 40,
{
    let mut text: String = String::new();
    if b.active_tune.is_some() {
        text.append("sweeping");
        proof {
            reveal_strlit("sweeping");
            assert(text@ =~= "sweeping"@);
            lemma_ascii_len("sweeping"@);
        }
    } else if let Some(ns) = ages.sweep_ns {
        text.append("sweep ");
        push_decimal(&mut text, parts_of_age(ns, 1));
        text.append("s ago");
        proof {
            reveal_strlit("sweep ");
            reveal_strlit("s ago");
            let n = age_parts(ns as int, 1);
            assert(text@ =~= "sweep "@ + decimal(n) + "s ago"@);
            lemma_decimal_short(n);
            lemma_ascii_len("sweep "@);
            lemma_ascii_len(decimal(n));
            lemma_ascii_len("s ago"@);
            lemma_byte_len_concat("sweep "@, decimal(n));
            lemma_byte_len_concat("sweep "@ + decimal(n), "s ago"@);
        }
    } else {
        proof {
            lemma_ascii_len(Seq::empty());
        }
    }
    text
}

/// Add the lock line and the texts of the strip.
fn add_strip_tail(
    ops: &mut Vec<DrawOp>,
    b: &BandScan,
    ages: &Ages,
    axis: &Axis,
    p: Place,
    w: usize,
    h: usize,
)
    requires
        b.wf(),
        axis_ok(axis@),
        place_ok(p),
        p.y0 <= h <= MAX_PIXELS,
    ensures
        inks(final(ops)@) == inks(old(ops)@) + strip_tail(
            *b,
            *ages,
            axis@,
            p,
            w as int,
            h as int,
        ),
{
    let ghost base = inks(ops@);
    let y: usize = p.y0 + (h - p.y0).saturating_sub(8) / 2;
    match b.lock_milli_hz {
        Some(lock) => {
            let x: usize = axis.x(lock as i128).saturating_sub(1);
            add_rect(ops, x, p.top, 2, p.bot - p.top, ACCENT);
            add_text(ops, 8, y, lock_label(b, lock), ACCENT);
        },
        None => {
            let mut word: String = String::new();
            word.append("scanning");
            assert(word@ =~= "scanning"@);
            add_text(ops, 8, y, word, MUTED);
        },
    }
    let status: String = status_label(b, ages);
    let right: usize = w.saturating_sub(8 + bytes(&status) * 8);
    add_text(ops, right, y, status, MUTED);
    assert(inks(ops@) =~= base + strip_tail(*b, *ages, axis@, p, w as int, h as int));
}

/// The display list of the strip.
fn strip_list(b: &BandScan, ages: &Ages, w: usize, h: usize) -> (ops: Vec<DrawOp>)
    requires
        b.wf(),
        w <= MAX_PIXELS,
        h <= MAX_PIXELS,
    ensures
        inks(ops@) == strip_inks(*b, *ages, w as int, h as int),
{
    let strip_h: usize = if STRIP_H < h {
        STRIP_H
    } else {
        h
    };
    let y0: usize = h - strip_h;
    let low: usize = h.saturating_sub(4);
    let p: Place = Place {
        y0,
        x0: STRIP_LEFT,
        x1: w.saturating_sub(STRIP_RIGHT),
        top: y0 + 4,
        bot: if low > y0 + 8 {
            low
        } else {
            y0 + 8
        },
    };
    assert(p == strip_place(w as int, h as int));
    let mut ops: Vec<DrawOp> = Vec::new();
    let ghost none = inks(ops@);
    add_rect(&mut ops, 0, y0, w, 1, LINE_2);
    assert(inks(ops@) =~= seq![
        Ink::Rect { x: 0, y: y0 as int, w: w as int, h: 1, color: LINE_2 },
    ]);
    if p.x1 <= p.x0 + 40 {
        return ops;
    }
    let freqs: Vec<i64> = hz_list(b);
    proof {
        assert forall|i: int| 0 <= i < freqs@.len() implies 0 <= #[trigger] freqs@[i]
            <= MAX_CHANNEL_HZ by {
            assert(0 <= b.channels@[i].hz <= MAX_CHANNEL_HZ);
        }
    }
    let axis: Axis = Axis::new(&freqs, p.x0, p.x1);
    add_windows(&mut ops, b, &axis, p.top, p.bot - p.top);
    add_strip_marks(&mut ops, b, &axis, p);
    add_strip_tail(&mut ops, b, ages, &axis, p, w, h);
    ops
}

impl BandScan {
    /// Read the clock for everything a picture shows the age of.
    pub(crate) fn ages(&self) -> (ages: Ages)
        ensures
            ages_fit(*self, ages),
    {
        let mut visited_ns: Vec<Option<u64>> = Vec::new();
        let mut k: usize = 0;
        while k < self.visited.len()
            invariant
                k <= self.visited@.len(),
                visited_ns@.len() == k,
                forall|i: int|
                    0 <= i < k ==> (#[trigger] visited_ns@[i] is Some <==> self.visited@[i] is Some),
            decreases self.visited@.len() - k,
        {
            let age: Option<u64> = match &self.visited[k] {
                Some(t) => Some(elapsed_ns(t)),
                None => None,
            };
            visited_ns.push(age);
            k = k + 1;
        }
        let sweep_ns: Option<u64> = match &self.last_sweep_end {
            Some(t) => Some(elapsed_ns(t)),
            None => None,
        };
        Ages { visited_ns, sweep_ns }
    }

    /// Draw over the bottom of a `w × h` picture.
    pub fn draw_overlay(&self, buf: &mut [u32], w: usize, h: usize, mode: PanelMode)
        requires
            self.wf(),
            w <= MAX_PIXELS,
            h <= MAX_PIXELS,
            w * h <= old(buf)@.len(),
        ensures
            exists|ages: Ages|
                ages_fit(*self, ages) && final(buf)@ == overlay_painted(
                    old(buf)@,
                    w as int,
                    h as int,
                    mode,
                    *self,
                    ages,
                ),
            final(buf)@.len() == old(buf)@.len(),
    {
        let ages: Ages = self.ages();
        self.draw_overlay_aged(buf, w, h, mode, &ages);
    }

    /// `draw_overlay` with given ages.
    pub fn draw_overlay_aged(
        &self,
        buf: &mut [u32],
        w: usize,
        h: usize,
        mode: PanelMode,
        ages: &Ages,
    )
        requires
            self.wf(),
            ages_fit(*self, *ages),
            w <= MAX_PIXELS,
            h <= MAX_PIXELS,
            w * h <= old(buf)@.len(),
        ensures
            final(buf)@ == overlay_painted(
                old(buf)@,
                w as int,
                h as int,
                mode,
                *self,
                *ages,
            ),
            final(buf)@.len() == old(buf)@.len(),
    {
        match mode {
            PanelMode::Off => {},
            PanelMode::Strip => self.draw_strip(buf, w, h, ages),
            PanelMode::Full => self.draw_full(buf, w, h, self.overlay_height(mode, h), ages),
        }
    }

    /// The scan window: the panel alone, filling `w × h`.
    pub fn draw_standalone(&self, buf: &mut [u32], w: usize, h: usize)
        requires
            self.wf(),
            w <= MAX_PIXELS,
            h <= MAX_PIXELS,
            w * h <= old(buf)@.len(),
        ensures
            exists|ages: Ages|
                ages_fit(*self, ages) && final(buf)@ == standalone_painted(
                    old(buf)@.len(),
                    w as int,
                    h as int,
                    *self,
                    ages,
                ),
            final(buf)@.len() == old(buf)@.len(),
    {
        let ages: Ages = self.ages();
        self.draw_standalone_aged(buf, w, h, &ages);
    }

    /// `draw_standalone` with given ages.
    pub fn draw_standalone_aged(&self, buf: &mut [u32], w: usize, h: usize, ages: &Ages)
        requires
            self.wf(),
            ages_fit(*self, *ages),
            w <= MAX_PIXELS,
            h <= MAX_PIXELS,
            w * h <= old(buf)@.len(),
        ensures
            final(buf)@ == standalone_painted(
                old(buf)@.len(),
                w as int,
                h as int,
                *self,
                *ages,
            ),
            final(buf)@.len() == old(buf)@.len(),
    {
        fill_ground(buf);
        self.draw_full(buf, w, h, h, ages);
    }

    /// Draw the full panel over the bottom `panel_h` rows of a picture.
    pub fn draw_full(&self, buf: &mut [u32], w: usize, h: usize, panel_h: usize, ages: &Ages)
        requires
            self.wf(),
            ages_fit(*self, *ages),
            w <= MAX_PIXELS,
            panel_h <= h <= MAX_PIXELS,
            w * h <= old(buf)@.len(),
        ensures
            final(buf)@ == full_painted(
                old(buf)@,
                w as int,
                h as int,
                panel_h as int,
                *self,
                *ages,
            ),
            final(buf)@.len() == old(buf)@.len(),
    {
        let y0: usize = h - panel_h;
        let right: usize = w.saturating_sub(8);
        let age_h: usize = if self.tunes.len() == 0 {
            0
        } else {
            12
        };
        let low: usize = h.saturating_sub(self.rows.len() * 9 + age_h + 16);
        let p: Place = Place {
            y0,
            x0: AXIS_LEFT,
            x1: if right > AXIS_LEFT + 40 {
                right
            } else {
                AXIS_LEFT + 40
            },
            top: y0 + 16,
            bot: if low > y0 + 36 {
                low
            } else {
                y0 + 36
            },
        };
        assert(p == full_place(*self, w as int, h as int, panel_h as int));
        shade(buf, w, y0, panel_h);
        let ops: Vec<DrawOp> = full_list(self, ages, p, w);
        paint(buf, w, h, &ops);
    }

    /// Draw the strip over the bottom of a picture.
    pub fn draw_strip(&self, buf: &mut [u32], w: usize, h: usize, ages: &Ages)
        requires
            self.wf(),
            w <= MAX_PIXELS,
            h <= MAX_PIXELS,
            w * h <= old(buf)@.len(),
        ensures
            final(buf)@ == strip_painted(old(buf)@, w as int, h as int, *self, *ages),
            final(buf)@.len() == old(buf)@.len(),
    {
        let strip_h: usize = if STRIP_H < h {
            STRIP_H
        } else {
            h
        };
        shade(buf, w, h - strip_h, strip_h);
        let ops: Vec<DrawOp> = strip_list(self, ages, w, h);
        paint(buf, w, h, &ops);
    }
}

/// The panel alone in a picture of `len` pixels.
pub open spec fn standalone_painted(len: nat, w: int, h: int, b: BandScan, ages: Ages) -> Seq<u32> {
    full_painted(Seq::new(len, |i: int| BG), w, h, h, b, ages)
}

/// The panel alone fills its window: what was in it before does not show through. Two
/// drawings of a panel with the same ages are the same picture, and so are any two of a
/// panel that has nothing to age.
pub proof fn law_standalone_fills_its_window(
    before: (Seq<u32>, Seq<u32>),
    after: (Seq<u32>, Seq<u32>),
    w: int,
    h: int,
    b: BandScan,
    ages: (Ages, Ages),
)
    requires
        before.0.len() == before.1.len(),
        ages_fit(b, ages.0),
        ages_fit(b, ages.1),
        ages.0 == ages.1 || (b.tunes@.len() == 0 && b.last_sweep_end is None),
        after.0 == standalone_painted(before.0.len(), w, h, b, ages.0),
        after.1 == standalone_painted(before.1.len(), w, h, b, ages.1),
    ensures
        after.0 == after.1,
{
    let p = full_place(b, w, h, h);
    let segs = axis_for(hz_of(b.channels@), p.x0 as int, p.x1 as int);
    assert(head_inks(b, ages.0, p, w) == head_inks(b, ages.1, p, w));
    assert(age_inks(b, ages.0, segs, p) == age_inks(b, ages.1, segs, p));
}

/// Whether every step of a list stays at or below row `top`.
spec fn all_below(list: Seq<Ink>, top: int) -> bool {
    forall|i: int| 0 <= i < list.len() ==> stays_below(#[trigger] list[i], top)
}

proof fn lemma_all_below_joins(a: Seq<Ink>, b: Seq<Ink>, top: int)
    requires
        all_below(a, top),
        all_below(b, top),
    ensures
        all_below(a + b, top),
{
    assert forall|i: int| 0 <= i < (a + b).len() implies stays_below(#[trigger] (a + b)[i], top) by {
        if i < a.len() {
            assert((a + b)[i] == a[i]);
        } else {
            assert((a + b)[i] == b[i - a.len()]);
        }
    }
}

/// The part of the range that a level takes.
proof fn lemma_level_part(held: int)
    requires
        LEVEL_BOTTOM_UDB <= held <= LEVEL_TOP_UDB,
    ensures
        ({
            let (m, q) = quotient(-held, 1_000_000, SINGLE as int);
            let (n, p) = quotient(100 * q - m, 60 * q, SINGLE as int);
            &&& 1 <= q
            &&& 40 * q <= m <= 100 * q
            &&& held == LEVEL_TOP_UDB ==> m == 40 * q
            &&& held == LEVEL_BOTTOM_UDB ==> m == 100 * q
            &&& 1 <= p
            &&& 0 <= n <= p
            &&& held == LEVEL_TOP_UDB ==> n == p
            &&& held == LEVEL_BOTTOM_UDB ==> n == 0
        }),
{
    let (m, q) = quotient(-held, 1_000_000, SINGLE as int);
    lemma_quotient_size(-held, 1_000_000, SINGLE as int);
    lemma_quotient_at_least(-held, 1_000_000, SINGLE as int, 40);
    lemma_quotient_at_most(-held, 1_000_000, SINGLE as int, 100);
    lemma_quotient_size(100 * q - m, 60 * q, SINGLE as int);
    lemma_quotient_at_most(100 * q - m, 60 * q, SINGLE as int, 1);
    if held == LEVEL_TOP_UDB {
        lemma_quotient_at_most(-held, 1_000_000, SINGLE as int, 40);
        lemma_quotient_at_least(100 * q - m, 60 * q, SINGLE as int, 1);
    } else if held == LEVEL_BOTTOM_UDB {
        lemma_quotient_at_least(-held, 1_000_000, SINGLE as int, 100);
    }
}

/// A level is drawn inside the rows of the bars.
pub proof fn law_level_inside_bars(level: int, rows: int)
    requires
        0 <= rows,
    ensures
        0 <= level_rise(level, rows) <= rows,
        level >= LEVEL_TOP_UDB ==> level_rise(level, rows) == rows,
        level <= LEVEL_BOTTOM_UDB ==> level_rise(level, rows) == 0,
{
    let held = smaller(larger(level, LEVEL_BOTTOM_UDB as int), LEVEL_TOP_UDB as int);
    let (m, q) = quotient(-held, 1_000_000, SINGLE as int);
    let (n, p) = quotient(100 * q - m, 60 * q, SINGLE as int);
    lemma_level_part(held);
    assert(0 <= n * rows <= rows * p) by (nonlinear_arith)
        requires
            0 <= n <= p,
            0 <= rows,
    ;
    crate::axis::lemma_round_div_upper(n * rows, rows, p);
    if level >= LEVEL_TOP_UDB {
        assert(p * rows == rows * p) by (nonlinear_arith);
        crate::axis::lemma_round_div(0, rows * p, rows, p);
    } else if level <= LEVEL_BOTTOM_UDB {
        assert(0 * rows == 0);
        crate::axis::lemma_round_div_upper(0, 0, p);
    }
}

/// A stronger level is never drawn lower.
pub proof fn law_stronger_is_higher(a: int, b: int, rows: int)
    requires
        0 <= rows,
        a <= b,
    ensures
        level_rise(a, rows) <= level_rise(b, rows),
{
    let ha = smaller(larger(a, LEVEL_BOTTOM_UDB as int), LEVEL_TOP_UDB as int);
    let hb = smaller(larger(b, LEVEL_BOTTOM_UDB as int), LEVEL_TOP_UDB as int);
    let (ma, qa) = quotient(-ha, 1_000_000, SINGLE as int);
    let (mb, qb) = quotient(-hb, 1_000_000, SINGLE as int);
    let ua = 100 * qa - ma;
    let ub = 100 * qb - mb;
    let (na, pa) = quotient(ua, 60 * qa, SINGLE as int);
    let (nb, pb) = quotient(ub, 60 * qb, SINGLE as int);
    lemma_level_part(ha);
    lemma_level_part(hb);
    lemma_quotient_monotone(-hb, 1_000_000, -ha, 1_000_000, SINGLE as int);
    assert(ua * (60 * qb) <= ub * (60 * qa)) by (nonlinear_arith)
        requires
            ua == 100 * qa - ma,
            ub == 100 * qb - mb,
            mb * qa <= ma * qb,
    ;
    assert(0 <= ub <= 60 * qb);
    assert(SINGLE * (60 * qb) == 503_316_480 * qb);
    lemma_quotient_monotone(ua, 60 * qa, ub, 60 * qb, SINGLE as int);
    assert(0 <= na * rows && 0 <= nb * rows && (na * rows) * pb <= (nb * rows) * pa)
        by (nonlinear_arith)
        requires
            0 <= na,
            0 <= nb,
            0 <= rows,
            na * pb <= nb * pa,
    ;
    lemma_round_div_monotone(na * rows, pa, nb * rows, pb);
}

proof fn lemma_full_parts_below(b: BandScan, ages: Ages, segs: Seq<Seg>, p: Place, w: int)
    requires
        place_ok(p),
        p.y0 + 16 <= p.top,
    ensures
        all_below(head_inks(b, ages, p, w), p.y0 as int),
        all_below(window_inks(b, segs, p.top - 2, p.bot - p.top + 2), p.y0 as int),
        all_below(scale_inks(p, -40), p.y0 as int),
        all_below(scale_inks(p, -60), p.y0 as int),
        all_below(scale_inks(p, -80), p.y0 as int),
        all_below(scale_inks(p, -100), p.y0 as int),
        all_below(bar_inks(b, segs, p), p.y0 as int),
        all_below(floor_inks(p, level_y(p, floor_level(b.energies@))), p.y0 as int),
        all_below(age_inks(b, ages, segs, p), p.y0 as int),
{
    assert forall|level: int| p.top <= #[trigger] level_y(p, level) by {
        law_level_inside_bars(level, p.bot - p.top);
    }
}

proof fn lemma_hits_below(b: BandScan, segs: Seq<Seg>, p: Place, upto: int)
    requires
        place_ok(p),
        p.y0 + 16 <= p.top,
        0 <= upto <= b.detections@.len(),
    ensures
        all_below(hits_inks(b, segs, p, upto), p.y0 as int),
    decreases upto,
{
    if upto > 0 {
        lemma_hits_below(b, segs, p, upto - 1);
        let d = b.detections@[upto - 1].1;
        law_level_inside_bars(d.rssi_udb as int, p.bot - p.top);
        lemma_all_below_joins(
            hits_inks(b, segs, p, upto - 1),
            hit_inks(b, segs, p, d),
            p.y0 as int,
        );
    }
}

proof fn lemma_ticks_below(ticks: Seq<(int, int)>, p: Place, upto: int)
    requires
        place_ok(p),
        0 <= upto <= ticks.len(),
    ensures
        all_below(tick_inks(ticks, p, upto), p.y0 as int),
    decreases upto,
{
    if upto > 0 {
        lemma_ticks_below(ticks, p, upto - 1);
    }
}

proof fn lemma_row_below(b: BandScan, segs: Seq<Seg>, y: int, band: char, upto: int, top: int)
    requires
        top <= y,
        0 <= upto <= b.channels@.len(),
    ensures
        all_below(row_inks(b, segs, y, band, upto), top),
    decreases upto,
{
    if upto > 0 {
        lemma_row_below(b, segs, y, band, upto - 1, top);
    }
}

proof fn lemma_grid_below(b: BandScan, segs: Seq<Seg>, p: Place, upto: int)
    requires
        place_ok(p),
        0 <= upto <= b.rows@.len(),
    ensures
        all_below(grid_inks(b, segs, p, upto), p.y0 as int),
    decreases upto,
{
    if upto > 0 {
        lemma_grid_below(b, segs, p, upto - 1);
        let y = p.bot + 14 + 9 * (upto - 1);
        lemma_row_below(b, segs, y, b.rows@[upto - 1], b.channels@.len() as int, p.y0 as int);
    }
}

proof fn lemma_full_below(b: BandScan, ages: Ages, p: Place, w: int)
    requires
        place_ok(p),
        p.y0 + 16 <= p.top,
    ensures
        all_below(full_inks(b, ages, p, w), p.y0 as int),
{
    let top = p.y0 as int;
    let segs = axis_for(hz_of(b.channels@), p.x0 as int, p.x1 as int);
    let ticks = axis_ticks(segs);
    lemma_full_parts_below(b, ages, segs, p, w);
    lemma_hits_below(b, segs, p, b.detections@.len() as int);
    lemma_ticks_below(ticks, p, ticks.len() as int);
    lemma_grid_below(b, segs, p, b.rows@.len() as int);
    let l1 = head_inks(b, ages, p, w);
    let l2 = l1 + window_inks(b, segs, p.top - 2, p.bot - p.top + 2);
    lemma_all_below_joins(l1, window_inks(b, segs, p.top - 2, p.bot - p.top + 2), top);
    let l3 = l2 + scale_inks(p, -40);
    lemma_all_below_joins(l2, scale_inks(p, -40), top);
    let l4 = l3 + scale_inks(p, -60);
    lemma_all_below_joins(l3, scale_inks(p, -60), top);
    let l5 = l4 + scale_inks(p, -80);
    lemma_all_below_joins(l4, scale_inks(p, -80), top);
    let l6 = l5 + scale_inks(p, -100);
    lemma_all_below_joins(l5, scale_inks(p, -100), top);
    let l7 = l6 + bar_inks(b, segs, p);
    lemma_all_below_joins(l6, bar_inks(b, segs, p), top);
    let dashes = floor_inks(p, level_y(p, floor_level(b.energies@)));
    let l8 = l7 + dashes;
    lemma_all_below_joins(l7, dashes, top);
    let hits = hits_inks(b, segs, p, b.detections@.len() as int);
    let l9 = l8 + hits;
    lemma_all_below_joins(l8, hits, top);
    let line = seq![
        Ink::Rect { x: p.x0 as int, y: p.bot as int, w: p.x1 - p.x0, h: 1, color: LINE_2 },
    ];
    let l10 = l9 + line;
    lemma_all_below_joins(l9, line, top);
    let l11 = l10 + tick_inks(ticks, p, ticks.len() as int);
    lemma_all_below_joins(l10, tick_inks(ticks, p, ticks.len() as int), top);
    let l12 = l11 + grid_inks(b, segs, p, b.rows@.len() as int);
    lemma_all_below_joins(l11, grid_inks(b, segs, p, b.rows@.len() as int), top);
    lemma_all_below_joins(l12, age_inks(b, ages, segs, p), top);
}

proof fn lemma_strip_below(b: BandScan, ages: Ages, w: int, h: int)
    requires
        0 <= w <= MAX_PIXELS,
        0 <= h <= MAX_PIXELS,
    ensures
        all_below(strip_inks(b, ages, w, h), strip_place(w, h).y0 as int),
{
    let p = strip_place(w, h);
    let top = p.y0 as int;
    let segs = axis_for(hz_of(b.channels@), p.x0 as int, p.x1 as int);
    let line = seq![Ink::Rect { x: 0, y: p.y0 as int, w, h: 1, color: LINE_2 }];
    let bars = Seq::new(b.energies@.len(), |i: int| strip_bar(b, segs, p, i));
    let skips = Seq::new(b.skipped@.len(), |i: int| strip_skip(b, segs, p, i));
    let hits = Seq::new(b.detections@.len(), |i: int| strip_hit(b, segs, p, i));
    let windows = window_inks(b, segs, p.top as int, p.bot - p.top);
    assert forall|i: int| 0 <= i < bars.len() implies stays_below(#[trigger] bars[i], top) by {
        law_level_inside_bars(b.energies@[i].1 as int, p.bot - p.top);
    }
    lemma_all_below_joins(line, windows, top);
    lemma_all_below_joins(line + windows, bars, top);
    lemma_all_below_joins(line + windows + bars, skips, top);
    lemma_all_below_joins(line + windows + bars + skips, hits, top);
    lemma_all_below_joins(
        line + windows + bars + skips + hits,
        strip_tail(b, ages, segs, p, w, h),
        top,
    );
}

/// The overlay touches only the rows it takes from the bottom: the picture above
/// them stays as it was.
pub proof fn law_overlay_leaves_the_rest(
    buf: Seq<u32>,
    w: int,
    h: int,
    mode: PanelMode,
    b: BandScan,
    ages: Ages,
    i: int,
)
    requires
        b.wf(),
        0 < w <= MAX_PIXELS,
        0 <= h <= MAX_PIXELS,
        0 <= i < buf.len(),
        i < (h - overlay_rows(b.rows@.len() as int, mode, h)) * w,
    ensures
        overlay_painted(buf, w, h, mode, b, ages)[i] == buf[i],
{
    let rows = overlay_rows(b.rows@.len() as int, mode, h);
    let top = h - rows;
    assert(i / w < top) by (nonlinear_arith)
        requires
            0 <= i < top * w,
            0 < w,
    ;
    let dark = shaded(buf, w, top, rows);
    match mode {
        PanelMode::Off => {},
        PanelMode::Strip => {
            lemma_strip_below(b, ages, w, h);
            law_inking_stays_below(dark, w, h, strip_inks(b, ages, w, h), top);
            assert(all_inked(dark, w, h, strip_inks(b, ages, w, h))[i] == dark[i]);
        },
        PanelMode::Full => {
            let p = full_place(b, w, h, rows);
            lemma_full_below(b, ages, p, w);
            law_inking_stays_below(dark, w, h, full_inks(b, ages, p, w), top);
            assert(all_inked(dark, w, h, full_inks(b, ages, p, w))[i] == dark[i]);
        },
    }
}

/// Rows the panel takes below a picture.
pub open spec fn below_rows(rows: int, mode: PanelMode) -> int {
    match mode {
        PanelMode::Off => 0,
        PanelMode::Strip => STRIP_H as int,
        PanelMode::Full => 190 + 9 * rows,
    }
}

/// The panel's own rows below a picture, `len` pixels in all.
pub open spec fn below_painted(
    len: nat,
    w: int,
    h: int,
    mode: PanelMode,
    b: BandScan,
    ages: Ages,
) -> Seq<u32> {
    let ground = Seq::new(len, |i: int| BG);
    match mode {
        PanelMode::Off => ground,
        PanelMode::Strip => strip_painted(ground, w, h, b, ages),
        PanelMode::Full => full_painted(ground, w, h, h, b, ages),
    }
}

impl BandScan {
    /// Rows the panel takes below a picture in `mode`.
    pub fn below_height(&self, mode: PanelMode) -> (h: usize)
        requires
            self.wf(),
        ensures
            h == below_rows(self.rows@.len() as int, mode),
    {
        match mode {
            PanelMode::Off => 0,
            PanelMode::Strip => STRIP_H,
            PanelMode::Full => self.full_height(),
        }
    }

    /// Draw the panel into rows of its own, `w × h` of them.
    pub fn draw_below(&self, buf: &mut [u32], w: usize, h: usize, mode: PanelMode)
        requires
            self.wf(),
            w <= MAX_PIXELS,
            h <= MAX_PIXELS,
            w * h <= old(buf)@.len(),
        ensures
            exists|ages: Ages|
                ages_fit(*self, ages) && final(buf)@ == below_painted(
                    old(buf)@.len(),
                    w as int,
                    h as int,
                    mode,
                    *self,
                    ages,
                ),
            final(buf)@.len() == old(buf)@.len(),
    {
        let ages: Ages = self.ages();
        self.draw_below_aged(buf, w, h, mode, &ages);
    }

    /// `draw_below` with given ages.
    pub fn draw_below_aged(
        &self,
        buf: &mut [u32],
        w: usize,
        h: usize,
        mode: PanelMode,
        ages: &Ages,
    )
        requires
            self.wf(),
            ages_fit(*self, *ages),
            w <= MAX_PIXELS,
            h <= MAX_PIXELS,
            w * h <= old(buf)@.len(),
        ensures
            final(buf)@ == below_painted(
                old(buf)@.len(),
                w as int,
                h as int,
                mode,
                *self,
                *ages,
            ),
            final(buf)@.len() == old(buf)@.len(),
    {
        fill_ground(buf);
        match mode {
            PanelMode::Off => {},
            PanelMode::Strip => self.draw_strip(buf, w, h, ages),
            PanelMode::Full => self.draw_full(buf, w, h, h, ages),
        }
    }
}

/// Fill a picture with the panel's ground.
fn fill_ground(buf: &mut [u32])
    ensures
        final(buf)@ == Seq::new(old(buf)@.len(), |i: int| BG),
{
    let ghost before = buf@;
    let len: usize = buf.len();
    let mut i: usize = 0;
    while i < len
        invariant
            i <= len,
            len == before.len(),
            buf@.len() == before.len(),
            forall|k: int| 0 <= k < i ==> #[trigger] buf@[k] == BG,
        decreases len - i,
    {
        buf[i] = BG;
        i = i + 1;
    }
    assert(buf@ =~= Seq::new(before.len(), |k: int| BG));
}

} // verus!
