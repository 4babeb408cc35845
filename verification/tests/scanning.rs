//! Planning and running sweeps.

use std::collections::HashSet;

use fpv_viewer::band_scan::{BandScan, Signal};
use fpv_viewer::bands::{snap_to_nearest_fpv_channel, ScanBands};
use fpv_viewer::plan::{build_scan_hops, plan_tune_centers, snap_to_nearest_hop, usable_span_of};
use fpv_viewer::scan::{
    after_detection, begin_sweep, on_packet, progress_due, scan_outcome, CoarseHit, Hop,
    PacketAction, Stage, SweepAction,
};
use fpv_viewer::session::ScanOutcome;
use orecchiette_fpv_drone_analog_rs::{bands, scanner};

const USABLE_SPAN_FRACTION: f64 = 0.8;

fn milli(hz: f64) -> u64 {
    (hz * 1e3).round() as u64
}

fn hops_hz(rate: f64, b: ScanBands) -> Vec<f64> {
    build_scan_hops(milli(rate), b).into_iter().map(|h| h as f64 / 1e3).collect()
}

fn channels_hz(b: ScanBands) -> Vec<f64> {
    b.channel_freqs_hz().into_iter().map(|f| f as f64).collect()
}

/// Every channel must sit inside some planned window: a channel nobody tunes close
/// enough to is a drone the scan cannot see.
fn assert_covers(channels: &[f64], centers: &[f64], span: f64) {
    for ch in channels {
        let covered = centers.iter().any(|c| (ch - c).abs() <= span / 2.0 + 1.0);
        assert!(
            covered,
            "channel {:.3} MHz not covered by any of {} tunes at {:.1} MHz span",
            ch / 1e6,
            centers.len(),
            span / 1e6
        );
    }
}

#[test]
fn tune_planner_covers_every_channel_at_every_plausible_rate() {
    for b in [ScanBands::Band58, ScanBands::All] {
        let channels = channels_hz(b);
        assert!(!channels.is_empty(), "{:?} yielded no channels", b);
        for rate in [15.36e6f64, 20e6, 25e6, 30.72e6, 40e6, 50e6, 61.44e6] {
            let span = rate * USABLE_SPAN_FRACTION;
            let hops = hops_hz(rate, b);
            assert_covers(&channels, &hops, span);
            assert!(
                hops.len() <= channels.len(),
                "{:?} at {:.2} MSPS planned {} tunes for {} channels",
                b,
                rate / 1e6,
                hops.len(),
                channels.len()
            );
        }
    }
}

/// A wide capture must actually collapse the table.
#[test]
fn tune_planner_collapses_the_table_when_the_capture_is_wide() {
    let channels = channels_hz(ScanBands::Band58);
    let hops = hops_hz(61.44e6, ScanBands::Band58);
    assert!(
        hops.len() * 4 < channels.len(),
        "61.44 MSPS should cover {} channels in far fewer than {} tunes, got {}",
        channels.len(),
        channels.len() / 4,
        hops.len()
    );
}

/// Hops ascend so synthesisers retune monotonically.
#[test]
fn tune_planner_emits_ascending_hops() {
    let hops = hops_hz(25e6, ScanBands::All);
    assert!(
        hops.windows(2).all(|w| w[0] < w[1]),
        "hop list must be strictly ascending, got {hops:?}"
    );
}

/// Scanning everything must be a strict superset of scanning 5.8, and must cost more
/// tunes.
#[test]
fn all_bands_is_a_superset_of_the_58_band() {
    let band58 = channels_hz(ScanBands::Band58);
    let all = channels_hz(ScanBands::All);
    assert!(band58.iter().all(|f| all.contains(f)));
    assert!(all.len() > band58.len());
    assert!(hops_hz(61.44e6, ScanBands::All).len() > hops_hz(61.44e6, ScanBands::Band58).len());
}

#[test]
fn tune_counts_per_rate() {
    let count = |rate: f64, b: ScanBands| build_scan_hops(milli(rate), b).len();
    assert_eq!(channels_hz(ScanBands::Band58).len(), 40);
    assert_eq!(channels_hz(ScanBands::All).len(), 154);
    for (rate, band58, all) in
        [(20e6, 16, 108), (25e6, 11, 100), (40e6, 8, 60), (61.44e6, 6, 51)]
    {
        assert_eq!(count(rate, ScanBands::Band58), band58);
        assert_eq!(count(rate, ScanBands::All), all);
    }
}

#[test]
fn the_plan_is_the_analog_crates_plan() {
    for b in [ScanBands::Band58, ScanBands::All] {
        for rate in [1e6f64, 15.36e6, 20e6, 25e6, 30.72e6, 40e6, 50e6, 61.44e6, 900e6] {
            let theirs = scanner::plan_tune_centers(&channels_hz(b), rate * USABLE_SPAN_FRACTION);
            assert_eq!(hops_hz(rate, b), theirs);
        }
    }
}

#[test]
fn planner_handles_degenerate_input() {
    assert!(plan_tune_centers(&vec![], 50_000_000_000).is_empty());
    assert_eq!(
        plan_tune_centers(&vec![5_800_000_000, 5_800_000_000, 5_800_000_000], 0),
        vec![5_800_000_000_000]
    );
    // A span that groups nothing: one tune per channel.
    assert_eq!(
        plan_tune_centers(&vec![5_732_000_000, 5_658_000_000, 5_695_000_000], 0),
        vec![5_658_000_000_000, 5_695_000_000_000, 5_732_000_000_000]
    );
    // An odd sum lands on half a hertz.
    assert_eq!(plan_tune_centers(&vec![1_000_001, 1_000_002], 1_000), vec![1_000_001_500]);
    assert_eq!(usable_span_of(61_440_000_000), 49_152_000_000);
    assert_eq!(usable_span_of(7), 5);
}

/// Snapping to the nearest planned hop absorbs hardware PLL fractional offsets.
#[test]
fn snap_to_nearest_hop_absorbs_fractional_offset() {
    let hops = vec![1_200_000_000_000, 3_312_500_000_000, 5_800_000_000_000];
    // Typical Aaronia Spectran V6 ECO PLL frequency with -2.6 kHz offset
    let observed = 3_312_497_366_400;
    assert_eq!(snap_to_nearest_hop(observed, &hops), 3_312_500_000);
    // Distant unexpected frequency is kept as-is
    let foreign = 2_400_000_000_000;
    assert_eq!(snap_to_nearest_hop(foreign, &hops), 2_400_000_000);
}

#[test]
fn hop_snapping_reaches_one_megahertz() {
    let hops = vec![5_800_000_000_000];
    assert_eq!(snap_to_nearest_hop(5_801_000_000_000, &hops), 5_800_000_000);
    assert_eq!(snap_to_nearest_hop(5_801_000_000_001, &hops), 5_801_000_000);
    assert_eq!(snap_to_nearest_hop(5_801_000_000_999, &vec![]), 5_801_000_000);
    assert_eq!(snap_to_nearest_hop(-5, &vec![]), 0);
}

#[test]
fn carriers_snap_as_the_analog_crate_snaps_them() {
    for hz in [
        5_865_000_000u64,
        5_871_775_000,
        5_960_000_000,
        5_959_999_999,
        5_930_000_000,
        2_000_000_000,
        1_080_000_000,
        5_945_000_001,
        5_790_500_000,
    ] {
        let theirs = bands::snap_to_nearest_fpv_channel(hz as f64);
        assert_eq!(snap_to_nearest_fpv_channel(hz * 1000), (theirs * 1e3).round() as u64);
    }
}

#[test]
fn a_sweep_sets_the_panel_up() {
    let mut band = BandScan::new(ScanBands::Band58.channels());
    let mut skipped = HashSet::new();
    skipped.insert(5_865_000_000u64);
    let hops = begin_sweep(&mut band, 61_440_000_000, ScanBands::Band58, &skipped);
    assert_eq!(hops.len(), 6);
    assert_eq!(band.tunes, hops);
    assert_eq!(band.span_milli_hz, 49_152_000_000);
    assert_eq!(band.skipped, vec![5_865_000_000]);
    assert_eq!(band.channels.len(), 40);
}

#[test]
fn packets_are_detected_drained_or_end_the_sweep() {
    let first = Hop { first_packet: true, sweep_complete: false };
    let later = Hop { first_packet: false, sweep_complete: true };
    assert_eq!(on_packet(false, Some(first), false), PacketAction::Quit);
    assert_eq!(on_packet(true, None, true), PacketAction::Drain);
    assert_eq!(on_packet(true, Some(first), false), PacketAction::Detect { replace: true });
    assert_eq!(on_packet(true, Some(later), false), PacketAction::Detect { replace: false });
    assert_eq!(on_packet(true, Some(later), true), PacketAction::Detect { replace: true });
    assert_eq!(after_detection(false, later), SweepAction::Quit);
    assert_eq!(after_detection(true, first), SweepAction::GoOn);
    assert_eq!(after_detection(true, later), SweepAction::Finish);
}

#[test]
fn a_finished_sweep_snaps_its_best_hit() {
    assert_eq!(scan_outcome(None), ScanOutcome::Empty);
    assert_eq!(
        scan_outcome(Some((5_865_700_000_000, Signal::Ntsc))),
        ScanOutcome::Found(5_866_000_000_000, Signal::Ntsc)
    );
    assert_eq!(
        scan_outcome(Some((2_000_000_000_000, Signal::Other))),
        ScanOutcome::Found(2_000_000_000_000, Signal::Other)
    );
}

#[test]
fn a_two_stage_sweep_refines_or_settles() {
    let start = Stage::Coarse { passes: 3 };
    assert_eq!(start.finish_coarse(None), Stage::Coarse { passes: 4 });
    let lone = CoarseHit { fallback_milli_hz: 7, signal: Signal::Pal, candidates: 0 };
    assert_eq!(
        start.finish_coarse(Some(lone)),
        Stage::Done { milli_hz: 7, signal: Signal::Pal }
    );
    let near = CoarseHit { fallback_milli_hz: 7, signal: Signal::Ntsc, candidates: 4 };
    let fine = start.finish_coarse(Some(near));
    assert_eq!(fine, Stage::Fine { fallback_milli_hz: 7, signal: Signal::Ntsc });
    assert_eq!(fine.finish_fine(Some(9)), Stage::Done { milli_hz: 9, signal: Signal::Ntsc });
    assert_eq!(fine.finish_fine(None), Stage::Done { milli_hz: 7, signal: Signal::Ntsc });
    assert!(!progress_due(4_999_999));
    assert!(progress_due(5_000_000));
}
