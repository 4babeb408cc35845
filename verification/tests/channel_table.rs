//! The channel table and the operator's channel.

use fpv_viewer::band_scan::Signal;
use fpv_viewer::bands::{
    band_letter, choose_channel, get_fpv_channel_name, look_up_typed, parse_standard,
    resolve_channel, same_text, snap_to, standard_from_word, Band, ScanBands,
};
use orecchiette_fpv_drone_analog_rs::bands;

#[test]
fn every_known_band_has_its_own_letter() {
    let all = [
        Band::BandA,
        Band::BandB,
        Band::BandE,
        Band::Fatshark,
        Band::Raceband,
        Band::Lowband,
        Band::BandD,
        Band::Band1200,
        Band::Band3300,
        Band::Band1200Wide,
        Band::Other,
    ];
    let letters: String = all.iter().map(|b| band_letter(*b)).collect();
    assert_eq!(letters, "ABEFRLD13W-");
}

#[test]
fn the_table_comes_in_its_own_order() {
    let theirs = bands::channel_catalog();
    let ours = ScanBands::All.channels();
    assert_eq!(ours.len(), theirs.len());
    for (a, b) in ours.iter().zip(theirs) {
        assert_eq!(a.name, b.name());
        assert_eq!(a.band, b.band.code());
        assert_eq!(a.hz as u64, b.frequency_hz);
        assert!(a.name.is_ascii() && a.name.len() <= 3);
        assert!(0 < a.hz && a.hz <= 5_945_000_000);
    }
    let in_band: Vec<i64> = theirs
        .iter()
        .map(|c| c.frequency_hz as i64)
        .filter(|f| (5_645_000_000..=5_945_000_000).contains(f))
        .collect();
    assert_eq!(ScanBands::Band58.channel_freqs_hz(), in_band);
    assert_eq!(ScanBands::Band58.label(), "5.8 GHz");
    assert_eq!(ScanBands::All.label(), "all bands");
}

#[test]
fn labels_are_the_analog_crates() {
    for c in bands::channel_catalog() {
        let mhz = c.frequency_hz as f64 / 1e6;
        assert_eq!(
            get_fpv_channel_name(c.frequency_hz * 1000).as_deref(),
            bands::get_fpv_channel_name(mhz)
        );
        assert!(get_fpv_channel_name(c.frequency_hz * 1000).unwrap().len() <= 1540);
    }
    assert_eq!(get_fpv_channel_name(5_864_500_000_000).as_deref(), Some("A1"));
    assert_eq!(get_fpv_channel_name(5_865_499_999_999).as_deref(), Some("A1"));
    assert_eq!(get_fpv_channel_name(5_880_000_000_000).as_deref(), Some("R7/F8"));
    assert_eq!(get_fpv_channel_name(5_000_000_000_000), None);
    assert_eq!(get_fpv_channel_name(u64::MAX), None);
}

#[test]
fn a_channel_name_beats_a_raw_frequency() {
    assert_eq!(resolve_channel("A1", None), Ok(5_865_000_000_000));
    assert_eq!(resolve_channel(" r8 ", Some(7)), Ok(5_917_000_000_000));
    assert_eq!(resolve_channel("5865000000", Some(5_865_000_000_000)), Ok(5_865_000_000_000));
    // One megahertz itself is not above it.
    assert_eq!(
        resolve_channel("1000000", Some(1_000_000_000)),
        Err("unrecognised channel '1000000'; expected a catalog channel \
             (A/B/E/F/R/L/D/U/N/W/T/S) or a frequency in Hz"
            .to_string())
    );
    assert_eq!(resolve_channel("1000000.001", Some(1_000_000_001)), Ok(1_000_000_001));
    assert!(resolve_channel("Q9", None).is_err());
    assert_eq!(choose_channel("x", Some(5), Some(9_000_000_000)), Ok(5000));
}

#[test]
fn standards_are_read_in_any_case() {
    assert_eq!(parse_standard("PAL"), Ok(Signal::Pal));
    assert_eq!(parse_standard("Ntsc"), Ok(Signal::Ntsc));
    assert_eq!(
        parse_standard("SECAM"),
        Err("unknown standard 'SECAM'; expected 'pal' or 'ntsc'".to_string())
    );
    assert_eq!(standard_from_word("pal"), Some(Signal::Pal));
    assert_eq!(standard_from_word("ntsc"), Some(Signal::Ntsc));
    assert_eq!(standard_from_word("PAL"), None);
    assert!(same_text("a b", "a b"));
    assert!(!same_text("a", "a b"));
}

#[test]
fn typed_texts_are_looked_up() {
    assert_eq!(look_up_typed("A"), (None, true));
    assert_eq!(look_up_typed("A1"), (Some(5_865_000_000), false));
    let (s6, longer) = look_up_typed("S6");
    assert!(s6.is_some() && longer);
    assert_eq!(look_up_typed("Q"), (None, false));
    assert_eq!(look_up_typed("A19"), (None, false));
}

#[test]
fn snapping_settles() {
    // Carriers beyond the table snap too.
    assert_eq!(snap_to(&vec![24_000_000_000], 24_001_000_000_000), 24_000_000_000_000);
    assert_eq!(choose_channel("x", Some(24_000_000_000), None), Ok(24_000_000_000_000));
    let freqs = vec![5_800_000_000, 5_820_000_000];
    assert_eq!(snap_to(&freqs, 5_810_000_000_000), 5_800_000_000_000);
    assert_eq!(snap_to(&freqs, 5_810_000_000_001), 5_820_000_000_000);
    assert_eq!(snap_to(&freqs, 5_785_000_000_001), 5_800_000_000_000);
    // The tolerance itself is out.
    assert_eq!(snap_to(&freqs, 5_785_000_000_000), 5_785_000_000_000);
    assert_eq!(snap_to(&vec![], 5), 5);
    for f in [5_785_000_000_001u64, 5_810_000_000_001, 5_900_000_000_000] {
        let once = snap_to(&freqs, f);
        assert_eq!(snap_to(&freqs, once), once);
    }
}

#[test]
fn every_channel_is_reached_by_its_name() {
    for c in ScanBands::All.channels() {
        let hz = c.hz as u64;
        assert_eq!(resolve_channel(&c.name, Some(2_000_000_000)), Ok(1000 * hz));
        assert_eq!(resolve_channel(&c.name.to_lowercase(), None), Ok(1000 * hz));
        assert_eq!(look_up_typed(&c.name).0, Some(hz));
        assert!(get_fpv_channel_name(1000 * hz).is_some());
    }
}
