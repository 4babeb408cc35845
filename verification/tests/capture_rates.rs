//! Sample rates and sweep budgets.

use fpv_viewer::rates::{
    aaronia_sweep_budget, capped_rate, check_every, detect_packets_per_hop, locked_capture_rate,
    nearest_iq_sample_rate, DemodKind, AARONIA_SCAN_DWELL_MS, AARONIA_SENSITIVE_EVERY,
    DETECT_PACKETS_NARROW, DETECT_PACKETS_PER_HOP, LUMA_HEADROOM_MILLI_HZ,
    NARROW_CAPTURE_MAX_MILLI_HZ,
};
use fpv_viewer::session::{live_rate, rate_differs};
use orecchiette_fpv_drone_analog_rs::{decode, scanner};

const USABLE_SPAN_FRACTION: f64 = 0.8;

fn milli(hz: f64) -> u64 {
    (hz * 1e3).round() as u64
}

fn locked_capture_rate_hz(scan: f64, dev: f32, demod: DemodKind) -> f64 {
    locked_capture_rate(milli(scan), milli(dev as f64), demod) as f64 / 1e3
}

/// A noisy fixture at 61.44 MSPS first detects on the third packet, which a two-packet
/// fast pass can never reach. Some sweep has to spend more.
#[test]
fn a_sensitive_sweep_comes_round_and_reaches_packet_three() {
    let wide = 61_440_000.0;
    let budgets: Vec<usize> = (0..AARONIA_SENSITIVE_EVERY * 2)
        .map(|n| aaronia_sweep_budget(n, milli(wide)).packets_per_hop)
        .collect();
    assert!(
        budgets.iter().any(|&p| p >= 3),
        "no sweep in two full cycles could see packet 3: {budgets:?}"
    );
    assert_eq!(
        budgets.iter().filter(|&&p| p == DETECT_PACKETS_NARROW).count(),
        2,
        "expected one sensitive sweep per cycle: {budgets:?}"
    );
}

/// A sensitive sweep must be able to pay for its own packets.
#[test]
fn the_sensitive_dwell_pays_for_its_packets() {
    let b = aaronia_sweep_budget(AARONIA_SENSITIVE_EVERY - 1, milli(61_440_000.0));
    // 6.41 ms per pass, measured at 61.44 MSPS.
    let cpu_ms = 6.41 * b.packets_per_hop as f64;
    assert!(
        cpu_ms < b.dwell_ms as f64,
        "{cpu_ms} ms of detector does not fit a {} ms dwell",
        b.dwell_ms
    );
}

/// Most sweeps stay fast.
#[test]
fn most_sweeps_keep_the_fast_budget() {
    let wide = 61_440_000.0;
    let fast = (0..AARONIA_SENSITIVE_EVERY)
        .filter(|&n| {
            aaronia_sweep_budget(n, milli(wide)).packets_per_hop == DETECT_PACKETS_PER_HOP
        })
        .count();
    assert_eq!(fast as u32, AARONIA_SENSITIVE_EVERY - 1);
}

/// A narrow capture already reads the sensitive count every sweep, so the cadence must
/// not make it slower.
#[test]
fn a_narrow_capture_is_unaffected_by_the_cadence() {
    for n in 0..AARONIA_SENSITIVE_EVERY * 2 {
        let b = aaronia_sweep_budget(n, milli(15_360_000.0));
        assert_eq!(b.packets_per_hop, DETECT_PACKETS_NARROW);
        assert_eq!(b.dwell_ms, AARONIA_SCAN_DWELL_MS);
    }
}

/// The budget must fit the dwell, or the hop ends mid-budget.
#[test]
fn the_narrow_budget_fits_the_dwell() {
    // 2.49 ms per pass, measured at 15.36 MSPS.
    let cpu_ms = 2.49 * DETECT_PACKETS_NARROW as f64;
    assert!(
        cpu_ms < AARONIA_SCAN_DWELL_MS as f64,
        "{cpu_ms} ms of detector does not fit a {} ms dwell",
        AARONIA_SCAN_DWELL_MS
    );
}

/// A locked channel drops below the scan rate, but only to a rate whose usable span
/// still holds the channel.
#[test]
fn a_locked_channel_drops_to_a_rate_that_fits_the_channel() {
    // 5 MHz deviation -> 7 MHz cutoff -> needs 17.5 MSPS of usable span, so 30.72 is
    // the lowest supported rate that holds it.
    let r = locked_capture_rate_hz(61_440_000.0, 5_000_000.0, DemodKind::Auto);
    assert_eq!(r, 30_720_000.0);
    assert!(r < 61_440_000.0, "must still be a reduction");
}

/// Every rate this returns must hold its own channel.
#[test]
fn every_chosen_rate_satisfies_its_own_bandwidth_requirement() {
    for dev in [3e6f32, 5e6, 6e6, 7e6, 9e6, 12e6, 17e6] {
        let r = locked_capture_rate_hz(61_440_000.0, dev, DemodKind::Auto);
        let cutoff = (dev + decode::LUMA_HEADROOM_HZ) as f64;
        assert!(
            USABLE_SPAN_FRACTION * r >= 2.0 * cutoff,
            "deviation {dev} chose {r}, whose usable span {} cannot hold {} Hz",
            USABLE_SPAN_FRACTION * r,
            2.0 * cutoff
        );
        assert!(r <= 61_440_000.0, "must never exceed the scan rate");
    }
}

#[test]
fn six_and_seven_mhz_deviation_no_longer_pick_15_36() {
    assert_eq!(
        locked_capture_rate_hz(61_440_000.0, 6_000_000.0, DemodKind::Auto),
        30_720_000.0
    );
    assert_eq!(
        locked_capture_rate_hz(61_440_000.0, 7_000_000.0, DemodKind::Auto),
        30_720_000.0
    );
}

/// Forcing the PLL keeps the scan rate.
#[test]
fn forcing_the_pll_keeps_the_scan_rate() {
    assert_eq!(
        locked_capture_rate_hz(61_440_000.0, 5_000_000.0, DemodKind::Pll),
        61_440_000.0
    );
}

/// A capture already at the narrowest rate that fits has nothing to give up.
#[test]
fn an_already_narrow_capture_is_left_alone() {
    assert_eq!(
        locked_capture_rate_hz(15_360_000.0, 5_000_000.0, DemodKind::Auto),
        15_360_000.0
    );
}

/// A wide-deviation link must not be narrowed onto itself.
#[test]
fn a_wide_deviation_link_is_not_narrowed() {
    let wide = 17_000_000.0f32;
    let r = locked_capture_rate_hz(61_440_000.0, wide, DemodKind::Auto);
    assert_eq!(r, 61_440_000.0, "nothing below the scan rate can hold it");
}

#[test]
fn a_narrow_deviation_walks_down_the_grid() {
    // 1 MHz deviation needs 7.5 MSPS: 7.68 is the lowest that holds it.
    let r = locked_capture_rate_hz(61_440_000.0, 1_000_000.0, DemodKind::Discriminator);
    assert_eq!(r, 7_680_000.0);
    // A rate off the grid has no half the hardware runs.
    assert_eq!(locked_capture_rate_hz(50_000_000.0, 1_000_000.0, DemodKind::Auto), 50_000_000.0);
    // No deviation, nothing to fit.
    assert_eq!(locked_capture_rate(61_440_000_000, 0, DemodKind::Auto), 61_440_000_000);
    assert_eq!(locked_capture_rate(0, 5, DemodKind::Auto), 0);
}

#[test]
fn required_rates_are_the_analog_crates() {
    for dev in [3e6f32, 5e6, 6e6, 7e6, 9e6, 12e6, 17e6] {
        let theirs = decode::required_capture_rate(dev, USABLE_SPAN_FRACTION).unwrap();
        let ours = 2.5 * (dev as f64 + LUMA_HEADROOM_MILLI_HZ as f64 / 1e3);
        assert!((theirs - ours).abs() < 1e-3);
    }
}

#[test]
fn hardware_rates_are_the_drivers() {
    for hz in
        [1.0f64, 100e3, 180e3, 179_999.0, 1e6, 15.36e6, 20e6, 23.04e6, 30e6, 46.08e6, 61.44e6, 200e6]
    {
        assert_eq!(
            nearest_iq_sample_rate(milli(hz)) as f64,
            sdr_aaronia_rs::nearest_iq_sample_rate(hz)
        );
    }
}

#[test]
fn budgets_are_the_scanners() {
    assert_eq!(DETECT_PACKETS_PER_HOP, scanner::DETECT_PACKETS_PER_HOP);
    assert_eq!(DETECT_PACKETS_NARROW, scanner::DETECT_PACKETS_NARROW);
    assert_eq!(NARROW_CAPTURE_MAX_MILLI_HZ as f64 / 1e3, scanner::NARROW_CAPTURE_MAX_RATE_HZ);
    for hz in [0.0, 15.36e6, 30.72e6, 30_720_001.0, 61.44e6] {
        assert_eq!(detect_packets_per_hop(milli(hz)), scanner::detect_packets_per_hop(hz));
    }
    let policy = scanner::SweepPolicy {
        fast: scanner::SweepBudget::flat(std::time::Duration::from_millis(25), 2),
        sensitive: scanner::SweepBudget::flat(std::time::Duration::from_millis(60), 6),
        sensitive_every: 4,
        narrow_capture_max_rate_hz: scanner::NARROW_CAPTURE_MAX_RATE_HZ,
    };
    for n in [0, 1, 2, 3, 4, 7, u32::MAX] {
        for hz in [0.0, 15.36e6, 30.72e6, 61.44e6] {
            let theirs = policy.budget(n, hz);
            let ours = aaronia_sweep_budget(n, milli(hz));
            assert_eq!(ours.packets_per_hop, theirs.packets_per_hop);
            assert_eq!(ours.dwell_ms as u128, theirs.dwell.as_millis());
        }
    }
}

#[test]
fn the_operators_rate_is_kept() {
    assert_eq!(
        live_rate(true, 61_440_000_000, 5_000_000_000, DemodKind::Auto),
        61_440_000_000
    );
    assert_eq!(
        live_rate(false, 61_440_000_000, 5_000_000_000, DemodKind::Auto),
        30_720_000_000
    );
    assert!(!rate_differs(61_440_001_000, 61_440_000_000));
    assert!(rate_differs(61_440_001_001, 61_440_000_000));
    assert!(rate_differs(0, 1001));
}

#[test]
fn a_usb2_receiver_is_held_to_its_ceiling() {
    assert_eq!(capped_rate(None, 20), (20, false));
    assert_eq!(capped_rate(Some(25), 20), (20, true));
    assert_eq!(capped_rate(Some(20), 20), (20, false));
    assert_eq!(capped_rate(Some(8), 20), (8, false));
}

#[test]
fn lock_checks_come_twice_a_second() {
    for (rate, len) in [(61_440_000u32, 65_536usize), (20_000_000, 65_536), (25_000_000, 1), (5, 0), (1, 65_536)] {
        let float = ((rate as f64 * 0.5) / len.max(1) as f64).round().max(1.0) as u64;
        assert_eq!(check_every(rate, len), float);
    }
    assert_eq!(check_every(61_440_000, 65_536), 469);
}
