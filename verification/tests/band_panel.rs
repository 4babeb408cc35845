//! The band-scan panel: model and drawing.

use std::collections::HashSet;

use fpv_viewer::axis::Axis;
use fpv_viewer::band_scan::{
    BandScan, Channel, Detection, PanelMode, Probe, Signal, CONFIRM_AT_PPB, STRIP_H,
};
use fpv_viewer::bands::{band_letter, Band};
use fpv_viewer::panel::{heat_of, rise, Ages, ACCENT, BAR, BAR_HOT, LINE_2, SKIP, VIDEO};
use fpv_viewer::raster::{lerp, BG};
use orecchiette_fpv_drone_analog_rs::bands::{get_all_channels, FpvBand};

fn band_of(b: FpvBand) -> Band {
    match b {
        FpvBand::BandA => Band::BandA,
        FpvBand::BandB => Band::BandB,
        FpvBand::BandE => Band::BandE,
        FpvBand::Fatshark => Band::Fatshark,
        FpvBand::Raceband => Band::Raceband,
        FpvBand::Lowband => Band::Lowband,
        FpvBand::BandD => Band::BandD,
        FpvBand::Band1200 => Band::Band1200,
        FpvBand::Band3300 => Band::Band3300,
        FpvBand::Band1200Wide => Band::Band1200Wide,
        _ => Band::Other,
    }
}

fn band58() -> Vec<Channel> {
    get_all_channels()
        .into_iter()
        .filter(|c| (5_645e6..=5_945e6).contains(&(c.frequency_hz as f64)))
        .map(|c| Channel {
            name: format!("{}{}", band_letter(band_of(c.band)), c.channel),
            band: band_letter(band_of(c.band)),
            hz: c.frequency_hz as i64,
        })
        .collect()
}

fn hit(hz: f64, rssi: f32, conf: f32) -> Detection {
    Detection {
        frequency_hz: hz as u64,
        confidence_ppb: (conf as f64 * 1e9).round() as u32,
        rssi_udb: (rssi as f64 * 1e6).round() as i32,
        signal: Signal::Ntsc,
    }
}

fn level(energy: f32) -> i32 {
    ((10.0 * (energy + 1e-12).log10()) as f64 * 1e6).round() as i32
}

fn probes(n: usize) -> Vec<Probe> {
    (0..n)
        .map(|i| Probe {
            offset_milli_hz: ((-20e6 + i as f64 * 5e6) * 1e3) as i64,
            level_udb: level(1e-8),
        })
        .collect()
}

fn milli(hz: f64) -> i64 {
    (hz * 1e3).round() as i64
}

fn no_ages(b: &BandScan) -> Ages {
    Ages { visited_ns: b.visited.iter().map(|v| v.map(|_| 4_000_000_000)).collect(), sweep_ns: None }
}

#[test]
fn panel_mode_cycles_through_all_three() {
    let m = PanelMode::Strip;
    assert_eq!(m.next(), PanelMode::Full);
    assert_eq!(m.next().next(), PanelMode::Off);
    assert_eq!(m.next().next().next(), PanelMode::Strip);
}

#[test]
fn panel_mode_survives_storing() {
    for m in [PanelMode::Strip, PanelMode::Full, PanelMode::Off] {
        assert_eq!(PanelMode::load(m.store()), m);
    }
    assert_eq!(PanelMode::load(7), PanelMode::Strip);
    assert_eq!(PanelMode::Strip.label(), "strip");
    assert_eq!(PanelMode::Full.label(), "full");
    assert_eq!(PanelMode::Off.label(), "off");
}

#[test]
fn rows_follow_the_band_order_people_use() {
    let b = BandScan::new(band58());
    assert_eq!(b.rows, vec!['A', 'B', 'E', 'F', 'R']);
}

#[test]
fn unknown_bands_come_last_in_order_of_appearance() {
    let ch = |band: char, hz: i64| Channel { name: format!("{band}1"), band, hz };
    let b = BandScan::new(vec![
        ch('Z', 5_700_000_000),
        ch('W', 5_710_000_000),
        ch('Y', 5_690_000_000),
        ch('A', 5_720_000_000),
        ch('Z', 5_730_000_000),
    ]);
    assert_eq!(b.rows, vec!['A', 'W', 'Y', 'Z']);
    let hz: Vec<i64> = b.channels.iter().map(|c| c.hz).collect();
    assert_eq!(
        hz,
        vec![5_690_000_000, 5_700_000_000, 5_710_000_000, 5_720_000_000, 5_730_000_000]
    );
    assert_eq!(b.full_height(), 190 + 4 * 9);
}

#[test]
fn equal_frequencies_keep_their_order() {
    let ch = |name: &str| Channel { name: name.to_string(), band: 'F', hz: 5_880_000_000 };
    let b = BandScan::new(vec![ch("F8"), ch("R7"), ch("X9")]);
    let names: Vec<String> = b.channels.iter().map(|c| c.name.clone()).collect();
    assert_eq!(names, vec!["F8", "R7", "X9"]);
    assert_eq!(b.name_at(5_880_000_000_000), "F8");
}

#[test]
fn revisiting_a_tune_replaces_only_its_own_bars_and_hits() {
    let mut b = BandScan::new(band58());
    b.set_plan(vec![milli(5.7e9), milli(5.8e9)], milli(49e6) as u64);
    b.record_hop(milli(5.7e9), true, &probes(9), &[hit(5.695e9, -60.0, 0.95)]);
    b.record_hop(milli(5.8e9), true, &probes(9), &[hit(5.806e9, -70.0, 0.8)]);
    assert_eq!(b.energies.len(), 18);
    assert_eq!(b.detections.len(), 2);
    // Second pass over the first tune: it is quiet now.
    b.record_hop(milli(5.7e9), true, &probes(9), &[]);
    assert_eq!(b.energies.len(), 18);
    let left: Vec<u64> = b.detections.iter().map(|(_, d)| d.frequency_hz).collect();
    assert_eq!(left, vec![5_806_000_000]);
    // A second packet of the same hop merges rather than replaces.
    b.record_hop(milli(5.8e9), false, &probes(9), &[hit(5.806e9, -65.0, 0.95)]);
    assert_eq!(b.detections.len(), 1);
    assert_eq!(b.detections[0].1.rssi_udb, -65_000_000);
}

#[test]
fn recording_marks_the_nearest_tune() {
    let mut b = BandScan::new(band58());
    b.set_plan(vec![milli(5.7e9), milli(5.8e9), milli(5.9e9)], milli(49e6) as u64);
    assert_eq!(b.active_tune, None);
    assert!(b.visited.iter().all(|v| v.is_none()));
    b.record_hop(milli(5.75e9), true, &[], &[]);
    // Halfway between two tunes the first of them counts.
    assert_eq!(b.active_tune, Some(0));
    b.record_hop(milli(5.801e9), true, &[], &[]);
    assert_eq!(b.active_tune, Some(1));
    assert!(b.visited[0].is_some() && b.visited[1].is_some() && b.visited[2].is_none());
    // The same plan keeps the visits; another one forgets them.
    b.set_plan(vec![milli(5.7e9), milli(5.8e9), milli(5.9e9)], 1);
    assert_eq!(b.active_tune, Some(1));
    assert_eq!(b.span_milli_hz, 1);
    b.end_sweep();
    assert_eq!(b.active_tune, None);
    assert!(b.last_sweep_end.is_some());
    b.set_plan(vec![milli(5.7e9)], 1);
    assert_eq!(b.visited.len(), 1);
    assert!(b.visited[0].is_none());
}

#[test]
fn bars_are_keyed_to_the_nearest_hundred_kilohertz() {
    let mut b = BandScan::new(band58());
    let p = |offset_milli_hz: i64, level_udb: i32| Probe { offset_milli_hz, level_udb };
    b.record_hop(
        5_800_000_000_000,
        false,
        &[p(0, 1), p(49_999_999, 2), p(50_000_000, 3), p(-50_000_000, 4), p(-20_000_000_000, 5)],
        &[],
    );
    // A half rounds up, and the last level of a bar stays.
    assert_eq!(b.energies, vec![(57_800, 5), (58_000, 4), (58_001, 3)]);
    assert_eq!(b.energy_near(5_800_000_000_000), Some(4));
    assert_eq!(b.energy_near(5_780_000_000_000 + 3_000_000_000), Some(5));
    assert_eq!(b.energy_near(5_780_000_000_000 + 3_000_000_001), None);
}

#[test]
fn floor_is_the_lower_quartile() {
    let mut b = BandScan::new(band58());
    assert_eq!(b.floor_udb(), -100_000_000);
    let list: Vec<Probe> = (0..8)
        .map(|i| Probe { offset_milli_hz: i * 5_000_000_000, level_udb: -50_000_000 - i as i32 })
        .collect();
    b.record_hop(5_700_000_000_000, true, &list, &[]);
    assert_eq!(b.floor_udb(), -50_000_005);
}

#[test]
fn a_weaker_and_less_sure_result_changes_nothing() {
    let mut b = BandScan::new(band58());
    b.record_hop(milli(5.8e9), true, &[], &[hit(5.806e9, -60.0, 0.9)]);
    b.record_hop(milli(5.8e9), false, &[], &[hit(5.807e9, -61.0, 0.8)]);
    assert_eq!(b.detections[0].1.frequency_hz, 5_806_000_000);
    // Surer though weaker: it takes over.
    b.record_hop(milli(5.8e9), false, &[], &[hit(5.807e9, -61.0, 0.95)]);
    assert_eq!(b.detections[0].1.frequency_hz, 5_807_000_000);
    // Three megahertz off is another carrier.
    b.record_hop(milli(5.8e9), false, &[], &[hit(5.81e9, -80.0, 0.6)]);
    assert_eq!(b.detections.len(), 2);
}

#[test]
fn skipped_frequencies_are_listed_once() {
    let mut b = BandScan::new(band58());
    let set: HashSet<u64> = [5_806_000_000u64, 5_665_000_000, 5_945_000_000].into_iter().collect();
    b.set_skipped(&set);
    assert_eq!(b.skipped, vec![5_665_000_000, 5_806_000_000, 5_945_000_000]);
    b.set_skipped(&HashSet::new());
    assert!(b.skipped.is_empty());
}

#[test]
fn axis_is_monotonic_and_splits_far_apart_bands() {
    let all: Vec<i64> = get_all_channels().iter().map(|c| c.frequency_hz as i64).collect();
    let axis = Axis::new(&all, 44, 712);
    assert!(axis.segs.len() >= 2, "1.2 GHz and 5.8 GHz share a segment");
    let mut sorted = all.clone();
    sorted.sort();
    let xs: Vec<usize> = sorted.iter().map(|f| axis.x(*f as i128 * 1000)).collect();
    assert!(xs.windows(2).all(|p| p[0] <= p[1]));
    assert!(*xs.first().unwrap() >= 44 && *xs.last().unwrap() <= 712);
    // Every segment is wide enough to read.
    assert!(axis.segs.iter().all(|s| s.x1 - s.x0 >= 24));
    for (x, _) in axis.ticks() {
        assert!((44..=712).contains(&x));
    }
}

#[test]
fn a_single_band_fills_its_axis() {
    let axis = Axis::new(&vec![5_645_000_000, 5_795_000_000, 5_945_000_000], 44, 712);
    assert_eq!(axis.segs.len(), 1);
    let s = axis.segs[0];
    assert_eq!((s.lo_hz, s.hi_hz, s.x0, s.x1), (5_635_000_000, 5_955_000_000, 44, 712));
    assert_eq!(axis.x(5_635_000_000_000), 44);
    assert_eq!(axis.x(5_955_000_000_000), 712);
    // 668 px over 320 MHz: the middle is at 44 + 334.
    assert_eq!(axis.x(5_795_000_000_000), 378);
    // Beyond the edges a frequency is held to them.
    assert_eq!(axis.x(1), 44);
    assert_eq!(axis.x(9_000_000_000_000), 712);
    // 5 MHz are 10.4 px, less one.
    assert_eq!(axis.bar_px(5_800_000_000_000), 9);
    // 50 MHz are 104 px: ticks from 5650 on.
    let labels: Vec<i64> = axis.ticks().into_iter().map(|t| t.1).collect();
    assert_eq!(labels, vec![5650, 5700, 5750, 5800, 5850, 5900, 5950]);
    assert_eq!(axis.ticks()[0].0, 75);
}

#[test]
fn no_channels_show_the_58_band() {
    let axis = Axis::new(&vec![], 136, 592);
    assert_eq!(axis.segs.len(), 1);
    assert_eq!((axis.segs[0].lo_hz, axis.segs[0].hi_hz), (5_635_000_000, 5_955_000_000));
}

/// Segment edges by plain floating-point arithmetic.
fn float_edges(channels: &[i64], x0: usize, x1: usize) -> Vec<(usize, usize)> {
    let mut f: Vec<f64> = channels.iter().map(|c| *c as f64).collect();
    f.sort_by(|a, b| a.total_cmp(b));
    let mut spans: Vec<(f64, f64)> = Vec::new();
    for hz in f {
        match spans.last_mut() {
            Some(s) if hz - s.1 <= 150e6 => s.1 = hz,
            _ => spans.push((hz, hz)),
        }
    }
    let widths: Vec<f64> = spans.iter().map(|s| s.1 - s.0 + 20e6).collect();
    let n = widths.len();
    // The least share is a fifth, or an even one where there are more than five.
    let least = 1.0 / n.max(5) as f64;
    let mut shares = vec![least; n];
    let mut narrow = vec![n >= 5; n];
    while n < 5 {
        let rest: f64 = (0..n).filter(|i| !narrow[*i]).map(|i| widths[i]).sum();
        let left = 1.0 - least * narrow.iter().filter(|m| **m).count() as f64;
        for i in 0..n {
            shares[i] = if narrow[i] { least } else { left * widths[i] / rest };
        }
        if shares.iter().all(|s| *s >= least) {
            break;
        }
        for i in 0..n {
            narrow[i] = narrow[i] || shares[i] < least;
        }
    }
    let px = (x1 - x0) as f64 - 6.0 * (widths.len() - 1) as f64;
    let mut x = x0 as f64;
    let mut out = Vec::new();
    for share in shares {
        let take = (share * px).max(24.0);
        out.push((x.round() as usize, (x + take).round() as usize));
        x += take + 6.0;
    }
    out
}

#[test]
fn segment_edges_agree_with_floating_point() {
    let all: Vec<i64> = get_all_channels().iter().map(|c| c.frequency_hz as i64).collect();
    let wide = (100..2000usize).step_by(3).map(|px| (44usize, 44 + px));
    for (x0, x1) in wide.chain([(44, 712), (136, 592), (44, 1912), (136, 256), (0, 4000)]) {
        let axis = Axis::new(&all, x0, x1);
        let edges: Vec<(usize, usize)> = axis.segs.iter().map(|s| (s.x0, s.x1)).collect();
        assert_eq!(edges, float_edges(&all, x0, x1));
    }
}

fn float_column(axis: &Axis, hz: f64) -> usize {
    let s = axis.segs.iter().find(|s| hz >= s.lo_hz as f64 && hz <= s.hi_hz as f64).unwrap();
    let t = (hz - s.lo_hz as f64) / (s.hi_hz - s.lo_hz) as f64;
    (s.x0 as f64 + t * (s.x1 - s.x0) as f64).round() as usize
}

#[test]
fn columns_agree_with_floating_point() {
    let all: Vec<i64> = get_all_channels().iter().map(|c| c.frequency_hz as i64).collect();
    let axis = Axis::new(&all, 44, 712);
    for c in &all {
        assert_eq!(axis.x(*c as i128 * 1000), float_column(&axis, *c as f64));
    }
    // Halves of a pixel, which double precision may miss.
    let band = vec![5_645_000_000i64, 5_795_000_000, 5_945_000_000];
    for px in [340usize, 360, 380, 400, 645, 668, 1000] {
        let axis = Axis::new(&band, 36, 36 + px);
        for mhz in 5_635..=5_955i64 {
            assert_eq!(axis.x(mhz as i128 * 1_000_000_000), float_column(&axis, mhz as f64 * 1e6));
        }
    }
    let axis = Axis::new(&band, 36, 376);
    assert_eq!(axis.x(5_819_000_000_000), 231);
}

#[test]
fn bar_widths_agree_with_floating_point() {
    for px in 24..1000usize {
        let axis = Axis::new(&vec![5_800_000_000], 0, px);
        let float = (5.0e6 * (px as f64 / 20e6)).round().max(2.0) as usize;
        assert_eq!(axis.bar_px(5_800_000_000_000), (float - 1).max(1));
    }
    // A probe step of ten and a half pixels, just missed.
    assert_eq!(Axis::new(&vec![5_800_000_000], 0, 42).bar_px(5_800_000_000_000), 9);
}

#[test]
fn levels_agree_with_floating_point() {
    assert_eq!(rise(-58_000_000, 25), 17);
    for rows in [5usize, 6, 9, 20, 25, 45, 150, 699] {
        for quarter in -440..=-120i32 {
            let db = quarter as f32 / 4.0;
            let t = ((db.clamp(-100.0, -40.0) + 100.0) / 60.0) as f64;
            let float = (t * rows as f64).round() as usize;
            assert_eq!(rise(quarter * 250_000, rows), float);
        }
        for k in 0..2000 {
            let db = -101.0f32 + k as f32 * 0.031;
            let udb = (db as f64 * 1e6).round() as i32;
            let t = ((db.clamp(-100.0, -40.0) + 100.0) / 60.0) as f64;
            assert_eq!(rise(udb, rows), (t * rows as f64).round() as usize);
        }
    }
}

#[test]
fn heat_agrees_with_floating_point() {
    for k in 0..3000 {
        let db = -128.0f32 + k as f32 * 0.037;
        for floor in [-100.0f32, -97.3, -64.2, -31.9] {
            let udb = |v: f32| (v as f64 * 1e6).round() as i32;
            let (n, d) = heat_of(udb(db), udb(floor));
            let t = ((db - floor) / 45.0).clamp(0.0, 1.0);
            let ch = |shift: u32| {
                let va = ((BAR >> shift) & 0xff) as f32;
                let vb = ((VIDEO >> shift) & 0xff) as f32;
                (va + (vb - va) * t).round() as u32
            };
            let float = (ch(16) << 16) | (ch(8) << 8) | ch(0);
            assert_eq!(lerp(BAR, VIDEO, n, d), float, "{db} over {floor}");
        }
    }
    assert_eq!(heat_of(-50_000_000, -50_000_000).0, 0);
    let (n, d) = heat_of(10_000_000, -100_000_000);
    assert_eq!(n, d);
}

#[test]
fn drawing_stays_inside_every_buffer_it_is_given() {
    let mut b = BandScan::new(band58());
    b.set_plan(
        vec![
            milli(5.67e9),
            milli(5.72e9),
            milli(5.77e9),
            milli(5.82e9),
            milli(5.87e9),
            milli(5.92e9),
        ],
        milli(49e6) as u64,
    );
    b.record_hop(milli(5.87e9), true, &probes(9), &[hit(5.865e9, -55.0, 0.95)]);
    b.set_lock(Some(milli(5.865e9) as u64));
    let mut skipped = HashSet::new();
    skipped.insert(5_806_000_000u64);
    b.set_skipped(&skipped);
    for (w, h) in [(720usize, 235usize), (720, 576), (320, 240), (64, 40)] {
        let mut buf = vec![0x00404040u32; w * h];
        b.draw_standalone(&mut buf, w, h);
        b.draw_overlay(&mut buf, w, h, PanelMode::Strip);
        b.draw_overlay(&mut buf, w, h, PanelMode::Full);
        b.draw_overlay(&mut buf, w, h, PanelMode::Off);
    }
    let mut buf = vec![0x00404040u32; 720 * 576];
    b.draw_overlay(&mut buf, 720, 576, PanelMode::Strip);
    // The strip touched the bottom rows and left the top alone.
    assert!(buf[..720 * 100].iter().all(|p| *p == 0x00404040));
    assert!(buf[720 * 560..].iter().any(|p| *p != 0x00404040));
    assert_eq!(b.overlay_height(PanelMode::Strip, 576), STRIP_H);
    assert!(b.overlay_height(PanelMode::Full, 576) <= 288);
}

#[test]
fn the_overlay_takes_exactly_its_rows() {
    let mut b = BandScan::new(band58());
    b.set_plan(vec![milli(5.7e9), milli(5.8e9)], milli(49e6) as u64);
    b.record_hop(milli(5.7e9), true, &probes(9), &[hit(5.695e9, -20.0, 0.5)]);
    let ages = no_ages(&b);
    for mode in [PanelMode::Strip, PanelMode::Full, PanelMode::Off] {
        let mut buf = vec![0x00404040u32; 720 * 576];
        b.draw_overlay_aged(&mut buf, 720, 576, mode, &ages);
        let rows = b.overlay_height(mode, 576);
        let above = 720 * (576 - rows);
        assert!(buf[..above].iter().all(|p| *p == 0x00404040));
        assert_eq!(buf[above..].iter().any(|p| *p != 0x00404040), mode != PanelMode::Off);
        // The first row of a panel is its line.
        if mode != PanelMode::Off {
            assert_eq!(buf[above], LINE_2);
        }
    }
}

#[test]
fn drawn_pixels_are_where_the_layout_puts_them() {
    let mut b = BandScan::new(band58());
    b.set_plan(vec![milli(5.8e9)], milli(49e6) as u64);
    b.record_hop(milli(5.8e9), true, &[], &[hit(5.8e9, -70.0, 0.95)]);
    let mut skipped = HashSet::new();
    skipped.insert(5_705_000_000u64);
    b.set_skipped(&skipped);
    let h = b.full_height();
    let mut buf = vec![0u32; 720 * h];
    let ages = no_ages(&b);
    b.draw_standalone_aged(&mut buf, 720, h, &ages);
    assert!(CONFIRM_AT_PPB <= b.detections[0].1.confidence_ppb);
    // bars run from row 16 to h - 45 - 12 - 16; the level is at half their height.
    let bot = h - 45 - 12 - 16;
    let y = bot - (bot - 16) / 2 - 4;
    let axis = Axis::new(&b.channels.iter().map(|c| c.hz).collect(), 44, 712);
    let x = axis.x(5_800_000_000_000);
    assert_eq!(buf[(bot - 1) * 720 + x], VIDEO);
    assert_eq!(buf[(bot - 1) * 720 + x + 1], VIDEO);
    assert_eq!(buf[(y + 1) * 720 + x - 2], VIDEO);
    assert_ne!(buf[(y - 3) * 720 + x - 2], VIDEO);
    // The skipped channel E1 is in the third grid row.
    let cell = axis.x(5_705_000_000_000);
    assert_eq!(buf[(bot + 14 + 18 + 4) * 720 + cell], SKIP);
    // Locked to the hit, it is drawn in the lock's colour.
    b.set_lock(Some(5_800_000_000_000));
    b.draw_standalone_aged(&mut buf, 720, h, &ages);
    assert_eq!(buf[(bot - 1) * 720 + x], ACCENT);
    // The ground shows where nothing is drawn.
    assert_eq!(buf[(h - 1) * 720 + 719], BG);
}

#[test]
fn a_narrow_picture_gets_the_strip_line_alone() {
    let b = BandScan::new(band58());
    let mut buf = vec![0x00404040u32; 300 * 50];
    b.draw_strip(&mut buf, 300, 50, &no_ages(&b));
    assert_eq!(buf[16 * 300], LINE_2);
    assert!(buf[17 * 300..].windows(2).all(|p| p[0] == p[1]));
}

#[test]
fn the_panel_below_a_picture_has_rows_of_its_own() {
    let b = BandScan::new(band58());
    assert_eq!(b.below_height(PanelMode::Off), 0);
    assert_eq!(b.below_height(PanelMode::Strip), STRIP_H);
    assert_eq!(b.below_height(PanelMode::Full), 190 + 45);
    let mut buf = vec![7u32; 720 * 34];
    b.draw_below(&mut buf, 720, 34, PanelMode::Strip);
    assert_eq!(buf[0], LINE_2);
    assert_eq!(buf[720 * 33 + 719], BG);
    let mut off = vec![7u32; 10];
    b.draw_below(&mut off, 0, 0, PanelMode::Off);
    assert_eq!(off, vec![BG; 10]);
}

#[test]
fn ticks_stay_in_their_segments_and_apart() {
    let hz: Vec<i64> = get_all_channels().iter().map(|c| c.frequency_hz as i64).collect();
    let axis = Axis::new(&hz, 44, 712);
    let ticks = axis.ticks();
    assert!(!ticks.is_empty());
    for (x, mhz) in &ticks {
        assert_eq!(*x, axis.x(*mhz as i128 * 1_000_000_000));
        let seg = axis.seg_for(*mhz as i128 * 1_000_000_000);
        assert!(seg.x0 <= *x && *x <= seg.x1);
    }
    for pair in ticks.windows(2) {
        assert!(pair[0].1 < pair[1].1 && labels_clear(pair[0], pair[1]));
    }
    // The segments lie side by side and end where the axis does.
    assert_eq!(axis.segs.first().unwrap().x0, 44);
    assert_eq!(axis.segs.last().unwrap().x1, 712);
    for pair in axis.segs.windows(2) {
        assert!(pair[0].x0 < pair[0].x1 && pair[0].x1 < pair[1].x0);
    }
}

#[test]
fn a_stronger_bar_is_never_drawn_lower() {
    let mut b = BandScan::new(band58());
    b.set_plan(vec![milli(5.8e9)], 49_152_000_000);
    let levels = [-120_000_000, -100_000_000, -85_000_000, -70_000_000, -40_000_000, -10_000_000];
    let mut tops: Vec<usize> = Vec::new();
    for level_udb in levels {
        let probe = Probe { offset_milli_hz: 0, level_udb };
        b.record_hop(milli(5.8e9), true, &[probe], &[]);
        let h = b.full_height();
        let mut buf = vec![0u32; 720 * h];
        b.draw_standalone_aged(&mut buf, 720, h, &no_ages(&b));
        let x = Axis::new(&band58().iter().map(|c| c.hz).collect(), 44, 712).x(5_800_000_000_000);
        let top = (0..h).find(|y| [BAR, BAR_HOT].contains(&buf[y * 720 + x])).unwrap_or(h);
        tops.push(top);
    }
    assert!(tops.windows(2).all(|t| t[1] <= t[0]));
    // Outside the scale a level is drawn at its edge.
    assert_eq!(tops[4], tops[5]);
    assert_eq!(tops[0], tops[1]);
}

fn labels_clear(a: (usize, i64), b: (usize, i64)) -> bool {
    b.0 - a.0 >= 4 * (format!("{}", a.1).len() + format!("{}", b.1).len())
}

#[test]
fn tick_labels_never_touch_across_segments() {
    for channels in [
        vec![1_240_000_000i64, 5_660_000_000],
        vec![1_240_000_000, 2_400_000_000, 3_300_000_000, 5_660_000_000],
        (0..40).map(|k| k * 700_000_000).collect(),
        vec![0, 30_000_000_000],
        (0..200).map(|k| k * 150_000_000).collect(),
    ] {
        for x1 in [60usize, 200, 712, 1912] {
            let axis = Axis::new(&channels, 44, x1);
            let ticks = axis.ticks();
            for pair in ticks.windows(2) {
                assert!(labels_clear(pair[0], pair[1]));
            }
            for (x, mhz) in ticks {
                assert_eq!(x, axis.x(mhz as i128 * 1_000_000_000));
            }
        }
    }
    // 1250 keeps its tick at the end of its segment; 5650, six pixels on, has none.
    let axis = Axis::new(&vec![1_240_000_000, 5_660_000_000], 44, 712);
    let labels: Vec<i64> = axis.ticks().into_iter().map(|t| t.1).collect();
    assert_eq!(labels, vec![1250]);
}

#[test]
fn every_segment_gets_a_fifth_of_the_axis() {
    let axis = Axis::new(&vec![1_300_000_000, 5_650_000_000, 5_800_000_000, 5_950_000_000], 0, 706);
    let edges: Vec<(usize, usize)> = axis.segs.iter().map(|s| (s.x0, s.x1)).collect();
    assert_eq!(edges, vec![(0, 140), (146, 706)]);
    // The first raise of the narrow one takes the middle one below a fifth: it is
    // raised too.
    let three = vec![1_000_000_000i64, 2_000_000_000, 2_022_000_000, 5_000_000_000, 5_118_000_000];
    let axis = Axis::new(&three, 0, 1012);
    let edges: Vec<(usize, usize)> = axis.segs.iter().map(|s| (s.x0, s.x1)).collect();
    assert_eq!(edges, vec![(0, 200), (206, 406), (412, 1012)]);
    // Six and more share evenly.
    let six: Vec<i64> = vec![0, 100, 500, 1000, 2000, 3000, 4000, 4100, 4200]
        .into_iter()
        .map(|mhz: i64| mhz * 1_000_000)
        .collect();
    let axis = Axis::new(&six, 0, 630);
    assert_eq!(axis.segs.len(), 6);
    assert!(axis.segs.iter().all(|s| s.x1 - s.x0 == 100));
}

#[test]
fn neighbours_share_a_segment_up_to_the_gap() {
    let axis = Axis::new(&vec![5_800_000_000, 5_650_000_000, 5_950_000_001], 0, 700);
    let spans: Vec<(i64, i64)> = axis.segs.iter().map(|s| (s.lo_hz, s.hi_hz)).collect();
    assert_eq!(
        spans,
        vec![(5_640_000_000, 5_810_000_000), (5_940_000_001, 5_960_000_001)]
    );
    let other = Axis::new(&vec![5_950_000_001, 5_650_000_000, 5_800_000_000], 0, 700);
    let same: Vec<(i64, i64, usize, usize)> =
        other.segs.iter().map(|s| (s.lo_hz, s.hi_hz, s.x0, s.x1)).collect();
    let first: Vec<(i64, i64, usize, usize)> =
        axis.segs.iter().map(|s| (s.lo_hz, s.hi_hz, s.x0, s.x1)).collect();
    assert_eq!(first, same);
}

#[test]
fn two_hits_this_close_are_one_carrier() {
    let mut b = BandScan::new(band58());
    let found = [hit(5.8e9, -60.0, 0.8), hit(5.804e9, -60.0, 0.8), hit(5.82e9, -60.0, 0.8)];
    b.record_hop(milli(5.8e9), true, &[], &found);
    assert_eq!(b.detections.len(), 3);
    b.record_hop(milli(5.8e9), false, &[], &[hit(5.802e9, -50.0, 0.8)]);
    let left: Vec<u64> = b.detections.iter().map(|d| d.1.frequency_hz).collect();
    assert_eq!(left, vec![5_802_000_000, 5_820_000_000]);
    // A weaker one near the first changes nothing.
    b.record_hop(milli(5.8e9), false, &[], &[hit(5.804e9, -70.0, 0.5)]);
    assert_eq!(b.detections.len(), 2);
    // One exactly at the reach is another.
    b.record_hop(milli(5.8e9), false, &[], &[hit(5.805e9, -70.0, 0.5)]);
    assert_eq!(b.detections.len(), 3);
}

#[test]
fn a_scan_window_hides_what_was_there() {
    let b = BandScan::new(band58());
    let h = b.full_height();
    let mut one = vec![0u32; 720 * h];
    let mut two: Vec<u32> = (0..(720 * h) as u32).collect();
    b.draw_standalone(&mut one, 720, h);
    b.draw_standalone(&mut two, 720, h);
    assert_eq!(one, two);
}
