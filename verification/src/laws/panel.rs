//! What the band panel draws.

use std::time::Instant;

use vstd::prelude::*;

use crate::axis::{axis_for, axis_ticks, axis_x, bar_width, Seg};
use crate::band_scan::{
    floor_level, hit_from, hz_of, lemma_hit_from, name_near, BandScan, Detection, PanelMode,
    Signal,
};
use crate::float::{
    lemma_nearest_error, lemma_nearest_size, lemma_quotient_error, nearest, quotient, SINGLE,
};
use crate::input::Key;
use crate::laws::away;
use crate::laws::drawing::law_frequency_is_shown;
use crate::paint::{all_inked, Ink};
use crate::panel::{
    age_ink, age_inks, ages_fit, bar_inks, below_painted, cell_heat, cell_inks, decibels, dots,
    floor_inks, full_inks, full_place, grid_inks, head_inks, heat_of, hit_inks, hit_text,
    hits_inks, least_step, level_rise, level_y, mhz_text, overlay_painted, row_inks,
    standalone_painted, scale_inks, strip_bar, strip_hit, strip_place, strip_skip, strip_tail,
    tick_inks, tune_columns, window_inks, Ages, Place,
};
use crate::raster::{byte_len, draw_string, lerped, shaded};
use crate::scan_window::{keeps_scanning, redraw_due, ScanWindow};
use crate::text::{age_parts, decimal, parts_of_mhz, signed_decimal, tenths};

verus! {

/// The larger of two numbers.
pub open spec fn at_least(a: int, b: int) -> int {
    if a < b {
        b
    } else {
        a
    }
}

/// Where the full panel over the last `panel_h` of `h` rows has its axis and its bars: the
/// axis begins at column 44 and ends 8 columns from the right, the bars begin 16 rows down
/// and leave room for the scale, nine rows for every band and twelve for the ages.
pub open spec fn full_parts(b: BandScan, w: int, h: int, panel_h: int, p: Place) -> bool {
    &&& p.y0 == h - panel_h
    &&& p.x0 == 44
    &&& p.x1 == at_least(w - 8, 84)
    &&& p.top == h - panel_h + 16
    &&& p.bot == at_least(
        at_least(
            h - 16 - 9 * b.rows@.len() - if b.tunes@.len() > 0 {
                12int
            } else {
                0
            },
            0,
        ),
        h - panel_h + 36,
    )
}

/// The full panel darkens its rows and then draws, in this order, its head, the tunes'
/// windows, the scale from -40 to -100 dB, the bars, the floor, the hits, the axis, the
/// ticks, the channel grid and the ages.
pub proof fn law_full_panel(
    b: &BandScan,
    buf: &mut [u32],
    w: usize,
    h: usize,
    panel_h: usize,
    ages: &Ages,
) -> (p: Place)
    requires
        call_ensures(BandScan::draw_full, (b, buf, w, h, panel_h, ages), ()),
        panel_h <= h <= 1_048_576,
        w <= 1_048_576,
    ensures
        full_parts(*b, w as int, h as int, panel_h as int, p),
        ({
            let segs = axis_for(hz_of(b.channels@), 44, p.x1 as int);
            final(buf)@ == all_inked(
                shaded(old(buf)@, w as int, h - panel_h, panel_h as int),
                w as int,
                h as int,
                head_inks(*b, *ages, p, w as int) + window_inks(
                    *b,
                    segs,
                    p.top - 2,
                    p.bot - p.top + 2,
                ) + scale_inks(p, -40) + scale_inks(p, -60) + scale_inks(p, -80) + scale_inks(
                    p,
                    -100,
                ) + bar_inks(*b, segs, p) + floor_inks(
                    p,
                    p.bot - level_rise(floor_level(b.energies@), p.bot - p.top),
                ) + hits_inks(*b, segs, p, b.detections@.len() as int) + seq![
                    Ink::Rect {
                        x: 44,
                        y: p.bot as int,
                        w: p.x1 - 44,
                        h: 1,
                        color: 0x2a3841,
                    },
                ] + tick_inks(axis_ticks(segs), p, axis_ticks(segs).len() as int) + grid_inks(
                    *b,
                    segs,
                    p,
                    b.rows@.len() as int,
                ) + age_inks(*b, *ages, segs, p),
            )
        }),
{
    full_place(*b, w as int, h as int, panel_h as int)
}

/// The head is a line, the number of channels with the progress of the sweep or the age
/// of the last, and at the right what the panel is locked to.
pub proof fn law_head(b: BandScan, ages: Ages, p: Place, w: int)
    ensures
        ({
            let inks = head_inks(b, ages, p, w);
            let count = decimal(b.channels@.len() as int) + " ch"@;
            let text = match b.active_tune {
                Some(k) => count + "  tune "@ + decimal(k as int + 1) + "/"@ + decimal(
                    b.tunes@.len() as int,
                ),
                None => match ages.sweep_ns {
                    Some(ns) => count + "  sweep "@ + tenths(age_parts(ns as int, 10)) + "s ago"@,
                    None => count,
                },
            };
            &&& inks.len() == (if b.lock_milli_hz is Some {
                3int
            } else {
                2
            })
            &&& inks[0] == (Ink::Rect { x: 0, y: p.y0 as int, w, h: 1, color: 0x2a3841 })
            &&& inks[1] == (Ink::Text { x: p.x0 as int, y: p.y0 + 4, text, color: 0x7c8c94 })
            &&& b.lock_milli_hz matches Some(lock) ==> ({
                let locked = "lock "@ + name_near(b.channels@, lock as int) + " "@ + mhz_text(
                    lock as int,
                );
                inks[2] == (Ink::Text {
                    x: at_least(p.x1 - 8 * byte_len(locked), 0),
                    y: p.y0 + 4,
                    text: locked,
                    color: 0xf2a93b,
                })
            })
        }),
{
}

/// The window of a tune reaches half the span to either side of it, and is lit while the
/// tune is swept.
pub proof fn law_tune_window(b: BandScan, segs: Seq<Seg>, y: int, rows: int, k: int)
    requires
        0 <= k < b.tunes@.len() <= usize::MAX,
    ensures
        window_inks(b, segs, y, rows).len() == b.tunes@.len(),
        ({
            let left = axis_x(segs, b.tunes@[k] - b.span_milli_hz as int / 2);
            let right = axis_x(segs, b.tunes@[k] + b.span_milli_hz as int / 2);
            window_inks(b, segs, y, rows)[k] == (Ink::Rect {
                x: left,
                y,
                w: at_least(right - left, 0),
                h: rows,
                color: if b.active_tune matches Some(a) && a == k {
                    0x241d10
                } else {
                    0x151a1c
                },
            })
        }),
{
}

/// A line of the scale runs across the axis at its level, with the level written to the
/// left of it.
pub proof fn law_scale_line(p: Place, db: int)
    ensures
        ({
            let y = p.bot - level_rise(1_000_000 * db, p.bot - p.top);
            let text = signed_decimal(db);
            scale_inks(p, db) == seq![
                Ink::Rect { x: p.x0 as int, y, w: p.x1 - p.x0, h: 1, color: 0x1e2a31 },
                Ink::Text {
                    x: at_least(p.x0 - 4 - 8 * byte_len(text), 0),
                    y: at_least(y - 4, 0),
                    text,
                    color: 0x55646c,
                },
            ]
        }),
{
}

/// A bar stands at its frequency from its level down, and is lit where it is more than
/// 6 dB above the floor.
pub proof fn law_bar(b: BandScan, segs: Seq<Seg>, p: Place, i: int)
    requires
        0 <= i < b.energies@.len(),
    ensures
        bar_inks(b, segs, p).len() == b.energies@.len(),
        ({
            let f = 100_000_000 * b.energies@[i].0;
            let level = b.energies@[i].1 as int;
            let rise = level_rise(level, p.bot - p.top);
            let wide = bar_width(segs, f);
            bar_inks(b, segs, p)[i] == (Ink::Rect {
                x: at_least(axis_x(segs, f) - wide / 2, 0),
                y: p.bot - rise,
                w: wide,
                h: rise,
                color: if level - floor_level(b.energies@) > 6_000_000 {
                    0x3f5661
                } else {
                    0x2c3a43
                },
            })
        }),
{
}

/// The floor is a dashed line: three columns of every seven.
pub proof fn law_floor_line(p: Place, y: int, i: int)
    requires
        p.x0 <= p.x0 + 7 * i < p.x1,
    ensures
        i < floor_inks(p, y).len(),
        7 * floor_inks(p, y).len() < p.x1 - p.x0 + 7,
        floor_inks(p, y)[i] == (Ink::Rect { x: p.x0 + 7 * i, y, w: 3, h: 1, color: 0x55646c }),
{
}

/// A hit is labelled with its channel, `ntsc` where the detector reported NTSC, `pal`
/// where it reported PAL and `vid` otherwise, and its frequency.
pub proof fn law_hit_label(b: BandScan, d: Detection)
    ensures
        ({
            let name = name_near(b.channels@, 1000 * d.frequency_hz);
            let mhz = mhz_text(1000 * d.frequency_hz);
            &&& d.signal is Ntsc ==> hit_text(b, d) == name + " "@ + "ntsc"@ + " "@ + mhz
            &&& d.signal is Pal ==> hit_text(b, d) == name + " "@ + "pal"@ + " "@ + mhz
            &&& d.signal is Other ==> hit_text(b, d) == name + " "@ + "vid"@ + " "@ + mhz
        }),
{
}

/// The colour of a hit: that of the lock where the panel is locked less than 3 MHz from
/// it, else that of video where the detector was 0.8 sure or more, else that of a maybe.
pub open spec fn color_of_hit(b: BandScan, d: Detection) -> u32 {
    if b.lock_milli_hz matches Some(l) && away(l as int, 1000 * d.frequency_hz) < 3_000_000_000 {
        0xf2a93b
    } else if d.confidence_ppb >= 800_000_000 {
        0x4cc9a6
    } else {
        0x8fb5ad
    }
}

/// Row of a hit's head: four above its level, inside the bars.
pub open spec fn row_of_hit(p: Place, d: Detection) -> int {
    at_least(
        at_least(p.bot - level_rise(d.rssi_udb as int, p.bot - p.top) - 4, 0),
        p.top as int,
    )
}

/// A hit is a stem at its frequency, solid with a filled head where it is confirmed and
/// dotted with a hollow one where not, and its label beside it, on the side that has room.
pub proof fn law_hit(b: BandScan, segs: Seq<Seg>, p: Place, d: Detection)
    requires
        p.top <= p.bot,
        row_of_hit(p, d) <= p.bot,
    ensures
        ({
            let inks = hit_inks(b, segs, p, d);
            let x = axis_x(segs, 1000 * d.frequency_hz);
            let y = row_of_hit(p, d);
            let color = color_of_hit(b, d);
            let text = hit_text(b, d);
            let wide = 8 * byte_len(text);
            &&& inks.last() == (Ink::Text {
                x: if x + 8 + wide < p.x1 {
                    x + 6
                } else {
                    at_least(x - wide - 6, 0)
                },
                y: at_least(at_least(y - 9, 0), p.top as int),
                text,
                color,
            })
            &&& d.confidence_ppb >= 800_000_000 ==> inks.len() == 3 && inks[0] == (Ink::Rect {
                x,
                y,
                w: 2,
                h: p.bot - y,
                color,
            }) && inks[1] == (Ink::Rect {
                x: at_least(x - 2, 0),
                y: at_least(y - 2, 0),
                w: 6,
                h: 5,
                color,
            })
            &&& d.confidence_ppb < 800_000_000 ==> inks[inks.len() - 2] == (Ink::Outline {
                x: at_least(x - 2, 0),
                y: at_least(y - 2, 0),
                w: 6,
                h: 5,
                color,
            }) && (forall|j: int|
                0 <= j < inks.len() - 2 ==> #[trigger] inks[j] == (Ink::Rect {
                    x,
                    y: y + 4 * j,
                    w: 1,
                    h: 2,
                    color,
                })) && y + 4 * (inks.len() - 2) >= p.bot && (p.bot > y ==> y + 4 * (inks.len() - 3)
                < p.bot)
        }),
{
    let inks = hit_inks(b, segs, p, d);
    let x = axis_x(segs, 1000 * d.frequency_hz);
    let y = row_of_hit(p, d);
    if d.confidence_ppb < 800_000_000 {
        let stem = dots(p, x, y, color_of_hit(b, d));
        assert(inks.len() == stem.len() + 2);
    }
}

/// Every hit of the panel is drawn, one after the other.
pub proof fn law_every_hit_is_drawn(b: BandScan, segs: Seq<Seg>, p: Place, n: int, k: int)
    requires
        0 <= k < n,
    ensures
        exists|at: int|
            0 <= at && #[trigger] hits_inks(b, segs, p, n).subrange(
                at,
                at + hit_inks(b, segs, p, b.detections@[k].1).len(),
            ) == hit_inks(b, segs, p, b.detections@[k].1) && at + hit_inks(
                b,
                segs,
                p,
                b.detections@[k].1,
            ).len() <= hits_inks(b, segs, p, n).len(),
    decreases n,
{
    let one = hit_inks(b, segs, p, b.detections@[k].1);
    let front = hits_inks(b, segs, p, n - 1);
    let all = hits_inks(b, segs, p, n);
    if k == n - 1 {
        assert(all.subrange(front.len() as int, (front.len() + one.len()) as int) =~= one);
    } else {
        law_every_hit_is_drawn(b, segs, p, n - 1, k);
        let at = choose|at: int|
            0 <= at && #[trigger] front.subrange(at, at + one.len()) == one && at + one.len()
                <= front.len();
        assert(all.subrange(at, at + one.len()) =~= front.subrange(at, at + one.len()));
    }
}

/// The panel draws nothing for hits but those it has.
pub proof fn law_no_hits_no_marks(b: BandScan, segs: Seq<Seg>, p: Place)
    ensures
        hits_inks(b, segs, p, 0).len() == 0,
{
}

/// A tick is a mark under the axis with its megahertz written below it, centred.
pub proof fn law_tick(ticks: Seq<(int, int)>, p: Place, n: int, k: int)
    requires
        0 <= k < n <= ticks.len(),
    ensures
        tick_inks(ticks, p, n).len() == 2 * n,
        ({
            let text = signed_decimal(ticks[k].1);
            &&& tick_inks(ticks, p, n)[2 * k] == (Ink::Rect {
                x: ticks[k].0,
                y: p.bot as int,
                w: 1,
                h: 4,
                color: 0x2a3841,
            })
            &&& tick_inks(ticks, p, n)[2 * k + 1] == (Ink::Text {
                x: at_least(ticks[k].0 - 4 * byte_len(text), 0),
                y: p.bot + 6,
                text,
                color: 0x7c8c94,
            })
        }),
    decreases n,
{
    if n == 1 {
        reveal_with_fuel(tick_inks, 2);
    } else if k < n - 1 {
        law_tick(ticks, p, n - 1, k);
    } else {
        law_tick(ticks, p, n - 1, 0);
    }
}

/// The border of a channel's cell: that of the lock where the panel is locked less than
/// 3 MHz from it, else that of the first hit less than 3 MHz from it, else none.
pub open spec fn border(b: BandScan, hz: int, color: Option<u32>) -> bool {
    if b.lock_milli_hz matches Some(l) && away(l as int, 1000 * hz) < 3_000_000_000 {
        color == Some(0xf2a93bu32)
    } else if forall|k: int|
        0 <= k < b.detections@.len() ==> away(
            (#[trigger] b.detections@[k]).1.frequency_hz as int,
            hz,
        ) >= 3_000_000 {
        color is None
    } else {
        exists|k: int|
            0 <= k < b.detections@.len() && away(
                (#[trigger] b.detections@[k]).1.frequency_hz as int,
                hz,
            ) < 3_000_000 && (forall|j: int|
                0 <= j < k ==> away((#[trigger] b.detections@[j]).1.frequency_hz as int, hz)
                    >= 3_000_000) && color == Some(
                if b.detections@[k].1.confidence_ppb >= 800_000_000 {
                    0x4cc9a6u32
                } else {
                    0x8fb5adu32
                },
            )
    }
}

/// The cell of a channel stands at its frequency, at least four columns wide. It has the
/// colour of a skip where the operator skipped the channel, and otherwise goes from that
/// of a bar to that of video with its level; its border tells the lock and the hits.
pub proof fn law_cell(b: BandScan, segs: Seq<Seg>, y: int, i: int)
    requires
        0 <= i < b.channels@.len(),
    ensures
        ({
            let hz = b.channels@[i].hz as int;
            let inks = cell_inks(b, segs, y, i);
            let wide = at_least(bar_width(segs, 1000 * hz), 4);
            let x = at_least(axis_x(segs, 1000 * hz) - wide / 2, 0);
            let (n, d) = cell_heat(b, 1000 * hz);
            &&& 1 <= inks.len() <= 2
            &&& inks[0] == (Ink::Rect {
                x,
                y: y + 1,
                w: wide,
                h: 7,
                color: if b.skipped@.contains(hz as u64) {
                    0xb4534a
                } else {
                    lerped(0x2c3a43, 0x4cc9a6, n, d) as u32
                },
            })
            &&& inks.len() == 1 ==> border(b, hz, None)
            &&& inks.len() == 2 ==> (inks[1] matches Ink::Outline { x: bx, y: by, w: bw, h: bh, color }
                && bx == x && by == y + 1 && bw == wide && bh == 7 && border(b, hz, Some(color)))
        }),
{
    let hz = b.channels@[i].hz as int;
    let k = hit_from(b.detections@, hz, 0);
    lemma_hit_from(b.detections@, hz, 0);
    if k < b.detections@.len() {
        assert(away(b.detections@[k].1.frequency_hz as int, hz) < 3_000_000);
    }
}

/// A row of the grid has the cell of every channel of its band.
pub proof fn law_row_has_its_cells(b: BandScan, segs: Seq<Seg>, y: int, band: char, n: int, i: int)
    requires
        0 <= i < n <= b.channels@.len(),
        b.channels@[i].band == band,
    ensures
        exists|at: int|
            0 <= at && #[trigger] row_inks(b, segs, y, band, n).subrange(
                at,
                at + cell_inks(b, segs, y, i).len(),
            ) == cell_inks(b, segs, y, i) && at + cell_inks(b, segs, y, i).len() <= row_inks(
                b,
                segs,
                y,
                band,
                n,
            ).len(),
    decreases n,
{
    let one = cell_inks(b, segs, y, i);
    let front = row_inks(b, segs, y, band, n - 1);
    let all = row_inks(b, segs, y, band, n);
    if i == n - 1 {
        assert(all.subrange(front.len() as int, (front.len() + one.len()) as int) =~= one);
    } else {
        law_row_has_its_cells(b, segs, y, band, n - 1, i);
        let at = choose|at: int|
            0 <= at && #[trigger] front.subrange(at, at + one.len()) == one && at + one.len()
                <= front.len();
        assert(all.subrange(at, at + one.len()) =~= front.subrange(at, at + one.len()));
    }
}

/// A row of the grid has nothing for channels of other bands.
pub proof fn law_row_has_no_other_cells(b: BandScan, segs: Seq<Seg>, y: int, band: char, n: int)
    requires
        0 <= n <= b.channels@.len(),
        forall|i: int| 0 <= i < n ==> (#[trigger] b.channels@[i]).band != band,
    ensures
        row_inks(b, segs, y, band, n).len() == 0,
    decreases n,
{
    if n > 0 {
        assert(b.channels@[n - 1].band != band);
        law_row_has_no_other_cells(b, segs, y, band, n - 1);
    }
}

/// The grid has a row of nine for every band, with its letter at the left, from fourteen
/// below the bars on.
pub proof fn law_grid(b: BandScan, segs: Seq<Seg>, p: Place, n: int)
    requires
        0 < n <= b.rows@.len(),
    ensures
        ({
            let y = p.bot + 14 + 9 * (n - 1);
            grid_inks(b, segs, p, n) == grid_inks(b, segs, p, n - 1) + seq![
                Ink::Text { x: p.x0 - 12, y, text: seq![b.rows@[n - 1]], color: 0x7c8c94 },
            ] + row_inks(b, segs, y, b.rows@[n - 1], b.channels@.len() as int)
        }),
        grid_inks(b, segs, p, 0).len() == 0,
{
}

/// The ages stand below the grid, one for every tune, where there is a plan.
pub proof fn law_age_row(b: BandScan, ages: Ages, segs: Seq<Seg>, p: Place, k: int)
    ensures
        b.tunes@.len() == 0 ==> age_inks(b, ages, segs, p).len() == 0,
        b.tunes@.len() > 0 ==> age_inks(b, ages, segs, p).len() == 1 + b.tunes@.len()
            && age_inks(b, ages, segs, p)[0] == (Ink::Text {
            x: p.x0 - 28,
            y: p.bot + 16 + 9 * b.rows@.len(),
            text: "age"@,
            color: 0x55646c,
        }),
        0 <= k < b.tunes@.len() ==> age_inks(b, ages, segs, p)[k + 1] == age_ink(
            b,
            ages,
            tune_columns(b, segs),
            p.bot + 16 + 9 * b.rows@.len() as int,
            k,
        ),
{
}

/// The least step between the tunes is that of some two neighbours, and no two stand
/// closer.
pub proof fn law_least_step(xs: Seq<int>, i: int)
    requires
        0 < i < xs.len(),
        forall|j: int| 0 < j < xs.len() ==> xs[j - 1] <= #[trigger] xs[j] <= usize::MAX,
        xs[0] >= 0,
    ensures
        0 <= least_step(xs) <= xs[i] - xs[i - 1],
        exists|j: int| 0 < j < xs.len() && least_step(xs) == #[trigger] xs[j] - xs[j - 1],
    decreases xs.len(),
{
    let n = xs.len() - 1;
    let front = xs.drop_last();
    assert forall|j: int| 0 < j < front.len() implies front[j - 1] <= #[trigger] front[j]
        <= usize::MAX by {
        assert(front[j] == xs[j] && front[j - 1] == xs[j - 1]);
    }
    assert(xs[n - 1] <= xs[n]);
    lemma_from_zero(xs, n - 1);
    if n == 1 {
        reveal_with_fuel(least_step, 2);
        assert(least_step(xs) == xs[1] - xs[0]);
    } else {
        law_least_step(front, if i < n { i } else { 1 });
        let j = choose|j: int| 0 < j < front.len() && least_step(front) == #[trigger] front[j]
            - front[j - 1];
        assert(xs[j] - xs[j - 1] == least_step(front));
        assert(xs[n] - xs[n - 1] >= least_step(xs));
    }
}

proof fn lemma_from_zero(xs: Seq<int>, i: int)
    requires
        0 <= i < xs.len(),
        xs[0] >= 0,
        forall|j: int| 0 < j < xs.len() ==> xs[j - 1] <= #[trigger] xs[j] <= usize::MAX,
    ensures
        xs[i] >= 0,
    decreases i,
{
    if i > 0 {
        lemma_from_zero(xs, i - 1);
        assert(xs[i - 1] <= xs[i]);
    }
}

/// Where the tunes are 48 columns apart or more, a tune's age is written, in seconds or
/// as `now`; a tune not visited yet has a dash. Where they stand closer it is a mark that
/// fades over half a minute.
pub proof fn law_age(b: BandScan, ages: Ages, xs: Seq<int>, y: int, k: int)
    requires
        0 <= k < b.tunes@.len() <= usize::MAX,
    ensures
        ({
            let now = b.active_tune matches Some(a) && a == k;
            let age = ages.visited_ns@[k];
            let step = least_step(xs);
            let text = if now {
                "now"@
            } else {
                match age {
                    Some(ns) => decimal(age_parts(ns as int, 1)) + "s"@,
                    None => "-"@,
                }
            };
            let wide = if step > 14 {
                12
            } else {
                at_least(step - 2, 1)
            };
            &&& step >= 48 ==> age_ink(b, ages, xs, y, k) == (Ink::Text {
                x: at_least(xs[k] - 4 * byte_len(text), 0),
                y,
                text,
                color: if now {
                    0xf2a93b
                } else {
                    0x7c8c94
                },
            })
            &&& step < 48 ==> (age_ink(b, ages, xs, y, k) matches Ink::Rect {
                x,
                y: top,
                w: columns,
                h: rows,
                color,
            } && x == at_least(xs[k] - wide / 2, 0) && top == y + 1 && columns == wide && rows == 6
                && (now ==> color == 0xf2a93b) && (!now && (age is None || age->0
                >= 30_000_000_000) ==> color == 0x1e2a31) && (!now && age == Some(0u64) ==> color
                == 0x7c8c94))
        }),
{
    crate::raster::law_lerp_reaches_both_ends(0x7c8c94, 0x1e2a31, 1);
    let (n, d) = crate::clock::seconds(0);
    crate::clock::lemma_seconds_fit(0);
    lemma_no_seconds();
    crate::raster::law_lerp_reaches_both_ends(0x7c8c94, 0x1e2a31, 30 * d);
}

/// No time is no seconds.
proof fn lemma_no_seconds()
    ensures
        crate::clock::seconds(0).0 == 0,
{
    crate::float::lemma_nearest_size(0, crate::float::SINGLE as int);
    crate::float::lemma_quotient_size(0, 1_000_000_000, crate::float::SINGLE as int);
}

/// Where the strip over the bottom of a picture has its parts: 34 rows, texts of 136 and
/// 128 columns to either side of the axis, bars four rows inside.
pub open spec fn strip_parts(w: int, h: int, p: Place) -> bool {
    let rows = if h < 34 {
        h
    } else {
        34
    };
    &&& p.y0 == h - rows
    &&& p.x0 == 136
    &&& p.x1 == at_least(w - 128, 0)
    &&& p.top == h - rows + 4
    &&& p.bot == at_least(at_least(h - 4, 0), h - rows + 8)
}

/// The strip darkens its rows and draws a line and then, where its axis has more than 40
/// columns, the tunes' windows, the bars, the skips, the hits, the lock and the texts.
pub proof fn law_strip(b: &BandScan, buf: &mut [u32], w: usize, h: usize, ages: &Ages) -> (p: Place)
    requires
        call_ensures(BandScan::draw_strip, (b, buf, w, h, ages), ()),
        h <= 1_048_576,
        w <= 1_048_576,
    ensures
        strip_parts(w as int, h as int, p),
        ({
            let segs = axis_for(hz_of(b.channels@), 136, p.x1 as int);
            let line = Ink::Rect { x: 0, y: p.y0 as int, w: w as int, h: 1, color: 0x2a3841 };
            let list = if p.x1 <= 176 {
                seq![line]
            } else {
                seq![line] + window_inks(*b, segs, p.top as int, p.bot - p.top) + Seq::new(
                    b.energies@.len(),
                    |i: int| strip_bar(*b, segs, p, i),
                ) + Seq::new(b.skipped@.len(), |i: int| strip_skip(*b, segs, p, i)) + Seq::new(
                    b.detections@.len(),
                    |i: int| strip_hit(*b, segs, p, i),
                ) + strip_tail(*b, *ages, segs, p, w as int, h as int)
            };
            final(buf)@ == all_inked(
                shaded(old(buf)@, w as int, p.y0 as int, h - p.y0),
                w as int,
                h as int,
                list,
            )
        }),
{
    strip_place(w as int, h as int)
}

/// The strip's bars are those of the panel, at least a row high; a skip fills the rows of
/// the bars at its frequency, and a hit the lower two thirds.
pub proof fn law_strip_marks(b: BandScan, segs: Seq<Seg>, p: Place, i: int, j: int, k: int)
    requires
        p.top <= p.bot,
        0 <= i < b.energies@.len(),
        0 <= j < b.skipped@.len(),
        0 <= k < b.detections@.len(),
    ensures
        ({
            let f = 100_000_000 * b.energies@[i].0;
            let level = b.energies@[i].1 as int;
            let tall = at_least(level_rise(level, p.bot - p.top), 1);
            strip_bar(b, segs, p, i) == (Ink::Rect {
                x: at_least(axis_x(segs, f) - bar_width(segs, f) / 2, 0),
                y: p.bot - tall,
                w: bar_width(segs, f),
                h: tall,
                color: if level - floor_level(b.energies@) > 6_000_000 {
                    0x3f5661
                } else {
                    0x2c3a43
                },
            })
        }),
        ({
            let f = 1000 * b.skipped@[j] as int;
            strip_skip(b, segs, p, j) == (Ink::Rect {
                x: at_least(axis_x(segs, f) - bar_width(segs, f) / 2, 0),
                y: p.top as int,
                w: bar_width(segs, f),
                h: p.bot - p.top,
                color: 0xb4534a,
            })
        }),
        ({
            let d = b.detections@[k].1;
            strip_hit(b, segs, p, k) == (Ink::Rect {
                x: axis_x(segs, 1000 * d.frequency_hz),
                y: p.top + (p.bot - p.top) / 3,
                w: 1,
                h: (p.bot - p.top) - (p.bot - p.top) / 3,
                color: if d.confidence_ppb >= 800_000_000 {
                    0x4cc9a6
                } else {
                    0x8fb5ad
                },
            })
        }),
{
}

/// The strip says at the left what the panel is locked to, with a line at its frequency,
/// or that it is scanning, and at the right that it sweeps or how long ago it did.
pub proof fn law_strip_texts(b: BandScan, ages: Ages, segs: Seq<Seg>, p: Place, w: int, h: int)
    ensures
        ({
            let inks = strip_tail(b, ages, segs, p, w, h);
            let y = p.y0 + at_least(h - p.y0 - 8, 0) / 2;
            let status = if b.active_tune is Some {
                "sweeping"@
            } else {
                match ages.sweep_ns {
                    Some(ns) => "sweep "@ + decimal(age_parts(ns as int, 1)) + "s ago"@,
                    None => Seq::empty(),
                }
            };
            &&& inks.last() == (Ink::Text {
                x: at_least(w - 8 - 8 * byte_len(status), 0),
                y,
                text: status,
                color: 0x7c8c94,
            })
            &&& b.lock_milli_hz is None ==> inks.len() == 2 && inks[0] == (Ink::Text {
                x: 8,
                y,
                text: "scanning"@,
                color: 0x7c8c94,
            })
            &&& b.lock_milli_hz matches Some(lock) ==> inks.len() == 3 && inks[0] == (Ink::Rect {
                x: at_least(axis_x(segs, lock as int) - 1, 0),
                y: p.top as int,
                w: 2,
                h: p.bot - p.top,
                color: 0xf2a93b,
            }) && inks[1] == (Ink::Text {
                x: 8,
                y,
                text: "lock "@ + name_near(b.channels@, lock as int) + " "@ + mhz_text(lock as int),
                color: 0xf2a93b,
            })
        }),
{
}

/// Over a picture the panel is drawn as its mode asks: not at all, as the strip, or in
/// full over its rows.
pub proof fn law_overlay_modes(
    b: &BandScan,
    buf: &mut [u32],
    strip: &mut [u32],
    full: &mut [u32],
    w: usize,
    h: usize,
    mode: PanelMode,
    panel_h: usize,
    ages: &Ages,
)
    requires
        call_ensures(BandScan::draw_overlay_aged, (b, buf, w, h, mode, ages), ()),
        call_ensures(BandScan::draw_strip, (b, strip, w, h, ages), ()),
        call_ensures(BandScan::overlay_height, (b, PanelMode::Full, h), panel_h),
        call_ensures(BandScan::draw_full, (b, full, w, h, panel_h, ages), ()),
        old(strip)@ == old(buf)@,
        old(full)@ == old(buf)@,
    ensures
        mode is Off ==> final(buf)@ == old(buf)@,
        mode is Strip ==> final(buf)@ == final(strip)@,
        mode is Full ==> final(buf)@ == final(full)@,
{
}

/// The panel alone is the full panel over all rows of an empty picture.
pub proof fn law_standalone(
    b: &BandScan,
    buf: &mut [u32],
    full: &mut [u32],
    w: usize,
    h: usize,
    ages: &Ages,
)
    requires
        call_ensures(BandScan::draw_standalone_aged, (b, buf, w, h, ages), ()),
        call_ensures(BandScan::draw_full, (b, full, w, h, h, ages), ()),
        old(full)@ == Seq::new(old(buf)@.len(), |i: int| 0x0b1014u32),
    ensures
        final(buf)@ == final(full)@,
{
    assert(Seq::new(old(buf)@.len(), |i: int| 0x0b1014u32) =~= Seq::new(
        old(buf)@.len(),
        |i: int| crate::raster::BG,
    ));
}

/// Each part of the full panel's list is part of the whole.
proof fn lemma_in_sum(a: Seq<Ink>, b: Seq<Ink>, x: Ink)
    ensures
        a.contains(x) || b.contains(x) ==> (a + b).contains(x),
{
    if a.contains(x) {
        let i = choose|i: int| 0 <= i < a.len() && a[i] == x;
        assert((a + b)[i] == x);
    }
    if b.contains(x) {
        let i = choose|i: int| 0 <= i < b.len() && b[i] == x;
        assert((a + b)[a.len() + i] == x);
    }
}

/// Whether a list of steps writes a text in a colour, wherever.
pub open spec fn writes(list: Seq<Ink>, text: Seq<char>, color: u32) -> bool {
    exists|x: int, y: int| list.contains(Ink::Text { x, y, text, color })
}

/// The full panel writes at every hit what the detector took it for: a text that holds
/// `ntsc` for NTSC, `pal` for PAL and `vid` for anything else, after the channel's name and
/// before the frequency.
pub proof fn law_panel_names_the_standard(
    b: &BandScan,
    buf: &mut [u32],
    w: usize,
    h: usize,
    panel_h: usize,
    ages: &Ages,
    k: int,
)
    requires
        call_ensures(BandScan::draw_full, (b, buf, w, h, panel_h, ages), ()),
        panel_h <= h <= 1_048_576,
        w <= 1_048_576,
        0 <= k < b.detections@.len(),
    ensures
        ({
            let d = b.detections@[k].1;
            let word = match d.signal {
                Signal::Ntsc => "ntsc"@,
                Signal::Pal => "pal"@,
                Signal::Other => "vid"@,
            };
            let text = name_near(b.channels@, 1000 * d.frequency_hz) + " "@ + word + " "@ + mhz_text(
                1000 * d.frequency_hz,
            );
            exists|list: Seq<Ink>|
                final(buf)@ == #[trigger] all_inked(
                    shaded(old(buf)@, w as int, h - panel_h, panel_h as int),
                    w as int,
                    h as int,
                    list,
                ) && writes(list, text, color_of_hit(*b, d))
        }),
{
    let p = full_place(*b, w as int, h as int, panel_h as int);
    let segs = axis_for(hz_of(b.channels@), p.x0 as int, p.x1 as int);
    let list = full_inks(*b, *ages, p, w as int);
    let d = b.detections@[k].1;
    let n = b.detections@.len() as int;
    let hits = hits_inks(*b, segs, p, n);
    let one = hit_inks(*b, segs, p, d);
    law_every_hit_is_drawn(*b, segs, p, n, k);
    let at = choose|at: int|
        0 <= at && #[trigger] hits.subrange(at, at + one.len()) == one && at + one.len() <= hits.len();
    let ink = one.last();
    assert(one.len() > 0);
    assert(hits.subrange(at, at + one.len())[one.len() - 1] == ink);
    assert(hits[at + one.len() - 1] == ink);
    assert(hits.contains(ink));
    let ticks = axis_ticks(segs);
    let l1 = head_inks(*b, *ages, p, w as int) + window_inks(*b, segs, p.top - 2, p.bot - p.top + 2)
        + scale_inks(p, -40) + scale_inks(p, -60) + scale_inks(p, -80) + scale_inks(p, -100)
        + bar_inks(*b, segs, p) + floor_inks(p, level_y(p, floor_level(b.energies@)));
    let l2 = l1 + hits;
    let l3 = l2 + seq![
        Ink::Rect {
            x: p.x0 as int,
            y: p.bot as int,
            w: p.x1 - p.x0,
            h: 1,
            color: crate::panel::LINE_2,
        },
    ];
    let l4 = l3 + tick_inks(ticks, p, ticks.len() as int);
    let l5 = l4 + grid_inks(*b, segs, p, b.rows@.len() as int);
    lemma_in_sum(l1, hits, ink);
    lemma_in_sum(
        l2,
        seq![
            Ink::Rect {
                x: p.x0 as int,
                y: p.bot as int,
                w: p.x1 - p.x0,
                h: 1,
                color: crate::panel::LINE_2,
            },
        ],
        ink,
    );
    lemma_in_sum(l3, tick_inks(ticks, p, ticks.len() as int), ink);
    lemma_in_sum(l4, grid_inks(*b, segs, p, b.rows@.len() as int), ink);
    lemma_in_sum(l5, age_inks(*b, *ages, segs, p), ink);
    assert(list == l5 + age_inks(*b, *ages, segs, p));
    law_hit_label(*b, d);
    assert(ink is Text);
    assert(ink->Text_text == hit_text(*b, d));
    assert(ink->Text_color == color_of_hit(*b, d));
    assert(list.contains(
        Ink::Text {
            x: ink->Text_x,
            y: ink->Text_y,
            text: ink->Text_text,
            color: ink->Text_color,
        },
    ));
    assert(writes(list, ink->Text_text, ink->Text_color));
}

/// How far a cell is lit: not at all up to the floor, in full from 45 dB above it, and in
/// proportion between, within a ten-thousandth of a decibel.
pub proof fn law_heat(level: i32, floor: i32, r: (u128, u128))
    requires
        call_ensures(heat_of, (level, floor), r),
        -200_000_000 <= level <= 200_000_000,
        -200_000_000 <= floor <= 200_000_000,
    ensures
        0 <= r.0 <= r.1,
        0 < r.1,
        ({
            let up = if level - floor > 45_000_000 {
                45_000_000
            } else {
                at_least(level - floor, 0)
            };
            away(45_000_000 * r.0, up * r.1) <= 100 * r.1
        }),
{
    let (m, q) = decibels(level as int);
    let (n, p) = decibels(floor as int);
    lemma_decibels(level as int);
    lemma_decibels(floor as int);
    let qp = q * p;
    assert(qp >= 1) by (nonlinear_arith)
        requires
            qp == q * p,
            1 <= q,
            1 <= p,
    ;
    let raw = m * p - n * q;
    let e1 = 1_000_000 * m - level * q;
    let e2 = 1_000_000 * n - floor * p;
    let f1 = e1 * p;
    let f2 = e2 * q;
    assert(16_777_216 * f1 <= 200_000_000 * qp && -16_777_216 * f1 <= 200_000_000 * qp)
        by (nonlinear_arith)
        requires
            f1 == e1 * p,
            qp == q * p,
            1 <= p,
            16_777_216 * e1 <= 200_000_000 * q,
            -16_777_216 * e1 <= 200_000_000 * q,
    ;
    assert(16_777_216 * f2 <= 200_000_000 * qp && -16_777_216 * f2 <= 200_000_000 * qp)
        by (nonlinear_arith)
        requires
            f2 == e2 * q,
            qp == q * p,
            1 <= q,
            16_777_216 * e2 <= 200_000_000 * p,
            -16_777_216 * e2 <= 200_000_000 * p,
    ;
    let gapped = (level - floor) * qp;
    assert(1_000_000 * raw - gapped == f1 - f2) by (nonlinear_arith)
        requires
            raw == m * p - n * q,
            f1 == (1_000_000 * m - level * q) * p,
            f2 == (1_000_000 * n - floor * p) * q,
            gapped == (level - floor) * qp,
            qp == q * p,
    ;
    let held = at_least(raw, 0);
    let lit = nearest(held, SINGLE as int);
    lemma_nearest_error(held, SINGLE as int);
    lemma_nearest_size(held, SINGLE as int);
    assert(gapped <= 400_000_000 * qp) by (nonlinear_arith)
        requires
            gapped == (level - floor) * qp,
            level - floor <= 400_000_000,
            qp >= 1,
    ;
    // A little over 24 millionths from each source of error.
    assert(1_000_000 * held <= 400_000_100 * qp);
    assert(1_000_000 * (lit - held) <= 30 * qp && 1_000_000 * (held - lit) <= 30 * qp);
    let range = 45 * qp;
    assert(r.1 == range);
    let up = if level - floor > 45_000_000 {
        45_000_000
    } else {
        at_least(level - floor, 0)
    };
    let d = level - floor;
    assert(d > 45_000_000 ==> gapped > 45_000_000 * qp) by (nonlinear_arith)
        requires
            gapped == d * qp,
            qp >= 1,
    ;
    assert(d <= 0 ==> gapped <= 0) by (nonlinear_arith)
        requires
            gapped == d * qp,
            qp >= 1,
    ;
    assert(d <= 45_000_000 ==> gapped <= 45_000_000 * qp) by (nonlinear_arith)
        requires
            gapped == d * qp,
            qp >= 1,
    ;
    assert(d >= 0 ==> gapped >= 0) by (nonlinear_arith)
        requires
            gapped == d * qp,
            qp >= 1,
    ;
    let upped = up * qp;
    assert(up * range == 45 * upped) by (nonlinear_arith)
        requires
            range == 45 * qp,
            upped == up * qp,
    ;
    if d > 45_000_000 {
        assert(upped == 45_000_000 * qp);
    } else if d >= 0 {
        assert(upped == gapped);
    } else {
        assert(upped == 0) by (nonlinear_arith)
            requires
                upped == up * qp,
                up == 0,
        ;
    }
}

proof fn lemma_decibels(level: int)
    requires
        -200_000_000 <= level <= 200_000_000,
    ensures
        ({
            let (m, q) = decibels(level);
            &&& 1 <= q
            &&& 16_777_216 * (1_000_000 * m - level * q) <= 200_000_000 * q
            &&& -16_777_216 * (1_000_000 * m - level * q) <= 200_000_000 * q
        }),
{
    let size = if level < 0 {
        -level
    } else {
        level
    };
    let (n, q) = quotient(size, 1_000_000, SINGLE as int);
    lemma_quotient_error(size, 1_000_000, SINGLE as int);
    assert(size * q <= 200_000_000 * q) by (nonlinear_arith)
        requires
            size <= 200_000_000,
            1 <= q,
    ;
    assert((-size) * q == -(size * q)) by (nonlinear_arith);
}

/// The scan window is 720 columns wide and as high as asked, but 120 rows at least; it
/// starts out empty.
pub proof fn law_scan_window_opens(height: usize, v: ScanWindow, i: int)
    requires
        call_ensures(ScanWindow::open, (height,), v),
        0 <= i < v.buf@.len(),
    ensures
        v.w == 720,
        v.h == at_least(height as int, 120),
        v.buf@.len() == v.w * v.h,
        v.buf@[i] == 0x0b1014,
        v.last_draw is None,
{
}

/// A picture of the scan window is drawn where there was none or the last is 40 ms old or
/// older: the panel alone, with `q quit` at the top right, as of that moment. Where the
/// last is younger nothing changes.
pub proof fn law_scan_window_is_redrawn(
    v: &mut ScanWindow,
    band: &BandScan,
    age_ns: Option<u64>,
    at: Instant,
    ages: &Ages,
    drawn: bool,
    alone: &mut [u32],
    hinted: &mut [u32],
)
    requires
        old(v).wf(),
        call_ensures(ScanWindow::update_aged, (v, band, age_ns, at, ages), drawn),
        old(alone)@.len() == old(v).w * old(v).h,
        call_ensures(BandScan::draw_standalone_aged, (band, alone, old(v).w, old(v).h, ages), ()),
        old(hinted)@ == final(alone)@,
        call_ensures(
            draw_string,
            (
                hinted,
                old(v).w,
                old(v).h,
                if old(v).w > 56 {
                    (old(v).w - 56) as usize
                } else {
                    0
                },
                4usize,
                "q quit",
                0x55646cu32,
            ),
            (),
        ),
    ensures
        drawn <==> (age_ns is None || age_ns->0 >= 40_000_000),
        drawn ==> final(v).last_draw == Some(at) && final(v).buf@ == final(hinted)@,
        final(v).w == old(v).w && final(v).h == old(v).h,
        !drawn ==> final(v).last_draw == old(v).last_draw && final(v).buf@ == old(v).buf@,
{
}

/// Without a moment given, the scan window draws its first picture, and what it does not
/// draw anew it leaves.
pub proof fn law_scan_window_updates(v: &mut ScanWindow, band: &BandScan, drawn: bool)
    requires
        call_ensures(ScanWindow::update, (v, band), drawn),
    ensures
        old(v).last_draw is None ==> drawn,
        drawn ==> final(v).last_draw is Some,
        !drawn ==> final(v).last_draw == old(v).last_draw && final(v).buf@ == old(v).buf@,
        final(v).w == old(v).w && final(v).h == old(v).h,
{
}

/// A sweep goes on while its window is open, until a frame that shows a new picture finds
/// `Q` or Escape pressed.
pub proof fn law_sweep_goes_on(drawn: bool, open: bool, pressed: &Vec<Key>, r: bool)
    requires
        call_ensures(keeps_scanning, (drawn, open, pressed), r),
    ensures
        !open ==> !r,
        open && !drawn ==> r,
        open && drawn ==> (r <==> !pressed@.contains(Key::Q) && !pressed@.contains(Key::Escape)),
{
}

/// Below a picture the panel has rows of its own, which start out as its ground: none
/// where it is off, and otherwise the strip's or the full panel's.
pub proof fn law_panel_below(
    b: &BandScan,
    buf: &mut [u32],
    strip: &mut [u32],
    full: &mut [u32],
    w: usize,
    h: usize,
    mode: PanelMode,
    ages: &Ages,
    rows: usize,
)
    requires
        call_ensures(BandScan::draw_below_aged, (b, buf, w, h, mode, ages), ()),
        call_ensures(BandScan::draw_strip, (b, strip, w, h, ages), ()),
        call_ensures(BandScan::draw_full, (b, full, w, h, h, ages), ()),
        call_ensures(BandScan::below_height, (b, mode), rows),
        old(strip)@ == Seq::new(old(buf)@.len(), |i: int| 0x0b1014u32),
        old(full)@ == Seq::new(old(buf)@.len(), |i: int| 0x0b1014u32),
    ensures
        mode is Off ==> rows == 0 && forall|i: int|
            0 <= i < old(buf)@.len() ==> #[trigger] final(buf)@[i] == 0x0b1014,
        mode is Strip ==> rows == 34 && final(buf)@ == final(strip)@,
        mode is Full ==> rows == 190 + 9 * b.rows@.len() && final(buf)@ == final(full)@,
{
    assert(Seq::new(old(buf)@.len(), |i: int| 0x0b1014u32) =~= Seq::new(
        old(buf)@.len(),
        |i: int| crate::raster::BG,
    ));
}

/// What is drawn without ages given is what is drawn with some.
pub proof fn law_drawing_reads_the_clock(
    b: &BandScan,
    over: &mut [u32],
    alone: &mut [u32],
    below: &mut [u32],
    w: usize,
    h: usize,
    mode: PanelMode,
)
    requires
        call_ensures(BandScan::draw_overlay, (b, over, w, h, mode), ()),
        call_ensures(BandScan::draw_standalone, (b, alone, w, h), ()),
        call_ensures(BandScan::draw_below, (b, below, w, h, mode), ()),
    ensures
        mode is Off ==> final(over)@ == old(over)@,
        exists|ages: Ages|
            ages_fit(*b, ages) && final(over)@ == #[trigger] overlay_painted(
                old(over)@,
                w as int,
                h as int,
                mode,
                *b,
                ages,
            ),
        exists|ages: Ages|
            ages_fit(*b, ages) && final(alone)@ == #[trigger] standalone_painted(
                old(alone)@.len(),
                w as int,
                h as int,
                *b,
                ages,
            ),
        exists|ages: Ages|
            ages_fit(*b, ages) && final(below)@ == #[trigger] below_painted(
                old(below)@.len(),
                w as int,
                h as int,
                mode,
                *b,
                ages,
            ),
{
}

/// A cell is lit by the level near its channel above the floor of all bars, and not at all
/// where there is no level near.
pub proof fn law_cell_heat(
    b: &BandScan,
    milli_hz: i64,
    near: Option<i32>,
    floor: i32,
    lit: (u128, u128),
)
    requires
        call_ensures(BandScan::energy_near, (b, milli_hz), near),
        call_ensures(BandScan::floor_udb, (b,), floor),
        near matches Some(level) ==> call_ensures(heat_of, (level, floor), lit),
    ensures
        near is Some ==> cell_heat(*b, milli_hz as int) == (lit.0 as int, lit.1 as int),
        near is None ==> cell_heat(*b, milli_hz as int).0 == 0,
{
}

/// The axis of the panel is that of its channels, and the ages stand at their tunes.
pub proof fn law_panel_axis(b: BandScan, segs: Seq<Seg>, i: int, k: int)
    requires
        0 <= i < b.channels@.len(),
        0 <= k < b.tunes@.len(),
    ensures
        hz_of(b.channels@).len() == b.channels@.len(),
        hz_of(b.channels@)[i] == b.channels@[i].hz,
        tune_columns(b, segs).len() == b.tunes@.len(),
        tune_columns(b, segs)[k] == axis_x(segs, b.tunes@[k] as int),
{
}

/// The panel writes a frequency in megahertz with one decimal place, within six tenths of
/// it.
pub proof fn law_panel_frequency(milli_hz: u128, n: u64)
    requires
        milli_hz <= 10_000_000_000_000_000,
        call_ensures(parts_of_mhz, (milli_hz, 10u128), n),
    ensures
        away(n * 1_000_000_000, 10 * milli_hz) <= 600_000_000,
        mhz_text(milli_hz as int).len() == decimal(n as int / 10).len() + 2,
        mhz_text(milli_hz as int).take(decimal(n as int / 10).len() as int) == decimal(n as int / 10),
        mhz_text(milli_hz as int)[decimal(n as int / 10).len() as int] == '.',
        mhz_text(milli_hz as int).last() as int - '0' as int == n % 10,
{
    law_frequency_is_shown(milli_hz, 10, n);
    let whole = decimal(n as int / 10);
    assert(mhz_text(milli_hz as int).take(whole.len() as int) =~= whole);
}

/// A picture of the scan window drawn apart is the one an update shows.
pub proof fn law_scan_window_picture(
    v: &mut ScanWindow,
    band: &BandScan,
    at: Instant,
    ages: &Ages,
    drawn: bool,
    buf: Vec<u32>,
    due: bool,
    age_ns: Option<u64>,
)
    requires
        call_ensures(ScanWindow::update_aged, (v, band, None, at, ages), drawn),
        call_ensures(ScanWindow::drawn_aged, (old(v), band, ages), buf),
        call_ensures(redraw_due, (age_ns,), due),
    ensures
        drawn,
        final(v).buf@ == buf@,
        due <==> (age_ns is None || age_ns->0 >= 40_000_000),
{
}

/// One more hit adds its own marks, and one more channel its cell where it is of the row's
/// band; nothing else is added.
pub proof fn law_nothing_else_is_drawn(
    b: BandScan,
    segs: Seq<Seg>,
    p: Place,
    y: int,
    band: char,
    n: int,
    m: int,
)
    requires
        0 < n <= b.detections@.len(),
        0 < m <= b.channels@.len(),
    ensures
        hits_inks(b, segs, p, n) == hits_inks(b, segs, p, n - 1) + hit_inks(
            b,
            segs,
            p,
            b.detections@[n - 1].1,
        ),
        b.channels@[m - 1].band == band ==> row_inks(b, segs, y, band, m) == row_inks(
            b,
            segs,
            y,
            band,
            m - 1,
        ) + cell_inks(b, segs, y, m - 1),
        b.channels@[m - 1].band != band ==> row_inks(b, segs, y, band, m) == row_inks(
            b,
            segs,
            y,
            band,
            m - 1,
        ),
        row_inks(b, segs, y, band, 0).len() == 0,
        hits_inks(b, segs, p, 0).len() == 0,
{
}

} // verus!
