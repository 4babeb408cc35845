//! Sessions, streams, decoding and recordings.

use std::time::{Duration, Instant};

use fpv_viewer::band_scan::{BandScan, Signal};
use fpv_viewer::bands::ScanBands;
use fpv_viewer::decode_worker::{
    black, metrics_due, next_frame_buffer, rgb_bytes, snapshot_due, snapshot_path, timing_state,
    DecodeCursor, Slice,
};
use fpv_viewer::input::Key;
use fpv_viewer::panel::Ages;
use fpv_viewer::reader::{
    fallback_standard, gathering_left, lock_exit, same_tune, time_left, Delivery, Feed, FileReader,
    LiveReader, OverrunPolicy, PacketStep, ReadStep,
};
use fpv_viewer::scan_window::{keeps_scanning, redraw_due, ScanWindow};
use fpv_viewer::session::{AfterSweep, HopSession, Next, ScanOutcome, UsrpSession};
use fpv_viewer::sigmf::{
    chunk_samples, configure, contains_text, standard_from_label, Annotation, FileError, SigmfMeta,
};
use fpv_viewer::viewer::{RunLiveResult, EXIT_OVERRUNS, EXIT_SIGNAL_LOST, RUNNING};

#[test]
fn a_usrp_session_with_a_channel_never_sweeps() {
    let mut s = UsrpSession::new(None, Some(5_865_000_000_000));
    assert_eq!(s.rate_milli_hz, 25_000_000_000);
    assert_eq!(s.next(), Next::Tune(5_865_000_000_000));
    assert!(s.react(RunLiveResult::TuneToChannel(5_800_000_000), 5_865_000_000_000));
    assert_eq!(s.next(), Next::Tune(5_800_000_000_000));
    assert!(s.react(RunLiveResult::TooManyOverruns, 1));
    assert_eq!(s.rate_milli_hz, 20_000_000_000);
    assert!(s.react(RunLiveResult::TooManyOverruns, 1));
    assert_eq!(s.rate_milli_hz, 15_000_000_000);
    assert_eq!(s.next(), Next::Tune(5_800_000_000_000));
    // 15 MSPS is not stepped down further.
    assert!(!s.react(RunLiveResult::TooManyOverruns, 1));
    assert_eq!(s.rate_milli_hz, 15_000_000_000);
    for r in [RunLiveResult::SignalLost, RunLiveResult::NextChannel, RunLiveResult::UserExit] {
        assert!(!s.react(r, 1));
    }
}

#[test]
fn a_usrp_session_resumes_its_sweep() {
    let mut s = UsrpSession::new(Some(16_000_000_000), None);
    assert_eq!(s.next(), Next::Sweep);
    s.found(5_865_000_000_000, Signal::Ntsc);
    assert_eq!(s.standard, Some(Signal::Ntsc));
    assert!(s.react(RunLiveResult::SkipFrequency, 5_865_000_000_499));
    assert_eq!(s.next(), Next::Sweep);
    assert_eq!(s.tuned_milli_hz, None);
    assert!(s.react(RunLiveResult::SkipFrequency, 5_865_000_000_500));
    assert!(s.skipped.contains(&5_865_000_000) && s.skipped.contains(&5_865_000_001));
    assert_eq!(s.skipped.len(), 2);
    // 16 MSPS is the floor itself: no step, but the sweep goes on.
    assert!(s.react(RunLiveResult::TooManyOverruns, 1));
    assert_eq!(s.rate_milli_hz, 16_000_000_000);
    assert!(s.react(RunLiveResult::TuneToChannel(7), 1));
    assert_eq!(s.next(), Next::Tune(7000));
    assert!(s.react(RunLiveResult::SignalLost, 1));
    assert_eq!(s.next(), Next::Sweep);
    assert!(!s.react(RunLiveResult::UserExit, 1));
}

#[test]
fn a_hopping_session_carries_the_sweeps_verdict() {
    let mut s = HopSession::new(None);
    assert_eq!(s.next(), Next::Sweep);
    assert_eq!(s.begin_sweep(), 0);
    assert_eq!(s.begin_sweep(), 1);
    s.sweep_n = u32::MAX;
    assert_eq!(s.begin_sweep(), u32::MAX);
    assert_eq!(s.sweep_n, 0);
    assert_eq!(s.swept(ScanOutcome::Found(5, Signal::Ntsc)), AfterSweep::Run(5));
    assert_eq!(s.standard, Some(Signal::Ntsc));
    assert_eq!(s.swept(ScanOutcome::Empty), AfterSweep::SweepAgain);
    assert_eq!(s.swept(ScanOutcome::Quit), AfterSweep::Stop);
    assert_eq!(s.standard, Some(Signal::Ntsc));
    assert_eq!(s.swept(ScanOutcome::Found(5, Signal::Other)), AfterSweep::Run(5));
    assert_eq!(s.standard, None);
    assert_eq!(s.swept(ScanOutcome::Found(5, Signal::Pal)), AfterSweep::Run(5));
    assert!(s.react(RunLiveResult::TuneToChannel(9), 5));
    assert_eq!((s.standard, s.next()), (None, Next::Tune(9000)));
    assert!(s.react(RunLiveResult::SkipFrequency, 9000));
    assert!(s.skipped.contains(&9));
    assert_eq!(s.next(), Next::Sweep);
    let mut named = HopSession::new(Some(3));
    assert_eq!(named.next(), Next::Tune(3));
    assert!(!named.react(RunLiveResult::TooManyOverruns, 3));
    assert!(!named.react(RunLiveResult::SkipFrequency, 3));
    assert_eq!(named.next(), Next::Tune(3));
}

#[test]
fn overruns_step_down_or_are_tolerated() {
    let mut r = LiveReader::new(OverrunPolicy::StepDown, 3);
    let quiet = PacketStep { exit: RUNNING, clear_overruns: false, check_lock: false };
    assert_eq!(r.on_packet(true, 0), quiet);
    // A minute later the count starts over.
    assert_eq!(r.on_packet(false, 60_000_000), PacketStep { clear_overruns: true, ..quiet });
    assert_eq!(r.overruns, 0);
    assert_eq!(r.on_packet(true, 0), PacketStep { check_lock: true, ..quiet });
    assert_eq!(r.on_packet(true, 0).exit, EXIT_OVERRUNS);
    let mut r = LiveReader::new(OverrunPolicy::Tolerate, 1);
    for _ in 0..5 {
        assert_eq!(r.on_packet(true, 0), PacketStep { check_lock: true, ..quiet });
    }
    assert_eq!((r.packets, r.overruns), (5, 5));
    r.count_dropped();
    assert_eq!(r.dropped, 1);
}

#[test]
fn a_lock_needs_fresh_fields() {
    let mut r = LiveReader::new(OverrunPolicy::StepDown, 3);
    assert!(!r.decoding(0));
    assert!(r.decoding(4));
    assert!(!r.decoding(4));
    assert!(r.decoding(5));
    assert_eq!(lock_exit(true), EXIT_SIGNAL_LOST);
    assert_eq!(lock_exit(false), RUNNING);
}

#[test]
fn every_hole_is_told_once() {
    let mut f = Feed::new();
    assert!(!f.breaks(false) && f.breaks(true));
    assert!(f.offered(Delivery::Full));
    assert!(f.breaks(false));
    assert!(f.offered(Delivery::Full));
    assert!(f.breaks(false));
    assert!(f.offered(Delivery::Sent));
    assert!(!f.breaks(false));
    assert!(!f.offered(Delivery::Closed));
}

#[test]
fn a_recording_says_where_it_wrapped() {
    let mut f = FileReader::new();
    assert_eq!(f.on_read(Some(17)), ReadStep::Chunk { samples: 2, discontinuous: false });
    assert_eq!(f.on_read(Some(0)), ReadStep::Rewind);
    assert_eq!(f.on_read(Some(16)), ReadStep::Chunk { samples: 2, discontinuous: true });
    assert_eq!(f.on_read(Some(8)), ReadStep::Chunk { samples: 1, discontinuous: false });
    assert_eq!(f.on_read(None), ReadStep::Stop);
}

#[test]
fn acquisition_waits_and_watches() {
    assert_eq!(time_left(3, 10), Some(7));
    assert_eq!(time_left(10, 10), None);
    assert_eq!(gathering_left(false, 500_000), Some(1_000_000));
    assert_eq!(gathering_left(true, 0), None);
    assert_eq!(gathering_left(false, 1_500_000), None);
    assert!(same_tune(5, 5, 1000, 0));
    assert!(!same_tune(5, 5, 1001, 0));
    assert!(!same_tune(5, 6, 0, 0));
    assert_eq!(fallback_standard(None), Signal::Pal);
    assert_eq!(fallback_standard(Some(Signal::Other)), Signal::Pal);
    assert_eq!(fallback_standard(Some(Signal::Ntsc)), Signal::Ntsc);
}

#[test]
fn a_field_needs_its_samples() {
    let usual = [10_000_000u32, 12_288_000, 12_500_000, 15_360_000, 20_000_000, 25_000_000];
    let any = (0..5000u32).map(|k| k.wrapping_mul(0x9e37_79b1) >> (k % 12));
    for rate in usual.into_iter().chain(any).chain([0, 1, u32::MAX]) {
        for is_pal in [true, false] {
            let line_rate = if is_pal { 15_625.0f32 } else { 15_734.0 };
            let lines = if is_pal { 288 } else { 240 } + 22;
            let float = ((rate as f32 / line_rate) * lines as f32) as usize;
            assert_eq!(DecodeCursor::new(rate, is_pal).min_samples_per_field, float);
        }
    }
    let c = DecodeCursor::new(12_000_000, true);
    assert_eq!(c.compact_after, 400_000);
    assert_eq!(c.live_region_cap, 1_000_000);
    assert_eq!(c.keep_on_skip, 200_000);
}

#[test]
fn decoding_walks_the_stream() {
    let mut c = DecodeCursor::new(12_000_000, true);
    assert_eq!(c.min_samples_per_field, 238_080);
    c.appended(238_079);
    assert_eq!(c.next_slice(), None);
    c.handle_discontinuity();
    assert_eq!(c.buffered, 0);
    c.appended(300_000);
    assert_eq!(
        c.next_slice(),
        Some(Slice { start: 0, coordinate: 0, discontinuous: true })
    );
    c.advance(60_000);
    assert_eq!(
        c.next_slice(),
        Some(Slice { start: 60_000, coordinate: 60_000, discontinuous: false })
    );
    assert_eq!(c.compact(), 0);
    c.appended(400_000);
    c.advance(400_000);
    assert_eq!(c.compact(), 460_000);
    assert_eq!((c.buffered, c.start, c.coordinate), (240_000, 0, 460_000));
    assert_eq!(c.catch_up(), None);
    c.appended(800_000);
    assert_eq!(c.catch_up(), Some(840_000));
    assert_eq!((c.start, c.coordinate), (840_000, 1_300_000));
    assert_eq!(c.count_field(), 1);
    assert_eq!(c.count_field(), 2);
}

#[test]
fn fields_are_reported_and_saved() {
    let due: Vec<u64> = (1..=62).filter(|n| metrics_due(true, *n)).collect();
    assert_eq!(due, vec![1, 2, 3, 30, 60]);
    let saved: Vec<u64> = (1..=62).filter(|n| snapshot_due(true, *n)).collect();
    assert_eq!(saved, vec![1, 2, 3, 30, 31, 32]);
    assert!(!metrics_due(false, 1) && !snapshot_due(false, 1));
    assert_eq!(snapshot_path(5_865_000_000_000, 31), "fpv_frame_5865MHz_31.png");
    assert_eq!(snapshot_path(-25_000_000_000, 1), "fpv_frame_-25MHz_1.png");
    assert_eq!(rgb_bytes(&vec![0xff123456, 0x00abcdef]), vec![0x12, 0x34, 0x56, 0xab, 0xcd, 0xef]);
    assert_eq!(next_frame_buffer(Some(vec![1]), Some(vec![2]), 3), vec![1]);
    assert_eq!(next_frame_buffer(None, Some(vec![2]), 3), vec![2]);
    assert_eq!(next_frame_buffer(None, None, 3), black(3));
    assert_eq!(black(2), vec![0, 0]);
    assert_eq!(timing_state(false, 9), "Searching");
    assert_eq!(timing_state(true, 9), "Coasting");
    assert_eq!(timing_state(true, 0), "Tracking");
}

fn meta() -> SigmfMeta {
    SigmfMeta {
        sample_rate: None,
        deviation_milli_hz: None,
        datatype: None,
        center_milli_hz: None,
        annotations: vec![],
    }
}

#[test]
fn a_bare_recording_gets_the_defaults() {
    for m in [None, Some(meta())] {
        let c = configure(m, None, None).unwrap();
        assert_eq!(c.sample_rate, 100_000_000);
        assert_eq!(c.deviation_milli_hz, 17_000_000_000);
        assert_eq!(c.center_milli_hz, 5_800_000_000_000);
        let list: Vec<(i64, &str)> =
            c.channels.iter().map(|c| (c.offset_milli_hz, c.label.as_str())).collect();
        assert_eq!(list, vec![(-25_000_000_000, "Channel A"), (25_000_000_000, "Channel B")]);
        assert!(c.channels.iter().all(|c| c.standard.is_none()));
    }
    assert_eq!(chunk_samples(100_000_009), 10_000_000);
}

#[test]
fn a_description_beats_the_operator() {
    let mut m = meta();
    m.sample_rate = Some((1 << 32) + 20_000_000);
    m.deviation_milli_hz = Some(5_000_000_000);
    m.datatype = Some("cf32_le".to_string());
    m.center_milli_hz = Some(-7);
    let ann = |lower, upper, label: &str| Annotation {
        lower_milli_hz: lower,
        upper_milli_hz: upper,
        label: label.to_string(),
    };
    m.annotations = vec![
        ann(-10, 5, "my pal link"),
        ann(1, 2, "wifi"),
        ann(10, 20, "NtSc"),
        ann(3, 3, "analog thing"),
        ann(4, 4, "Video"),
    ];
    let c = configure(Some(m), Some(7), Some(8)).unwrap();
    assert_eq!((c.sample_rate, c.deviation_milli_hz, c.center_milli_hz), (20_000_000, 5_000_000_000, -7));
    let list: Vec<(Option<Signal>, i64, &str)> = c
        .channels
        .iter()
        .map(|c| (c.standard, c.offset_milli_hz, c.label.as_str()))
        .collect();
    assert_eq!(
        list,
        vec![
            (Some(Signal::Pal), -3, "my pal link"),
            (Some(Signal::Ntsc), 15, "NtSc"),
            (None, 3, "analog thing"),
            (None, 4, "Video"),
        ]
    );
    let c = configure(None, Some(7), Some(8)).unwrap();
    assert_eq!((c.sample_rate, c.deviation_milli_hz), (7, 8));
}

#[test]
fn bad_recordings_are_refused() {
    let mut m = meta();
    m.datatype = Some("ci16_le".to_string());
    m.sample_rate = Some(0);
    let e = configure(Some(m), None, None).unwrap_err();
    assert!(matches!(&e, FileError::Datatype(t) if t == "ci16_le"));
    assert_eq!(
        e.message(),
        "unsupported SigMF core:datatype 'ci16_le'; only cf32_le (interleaved little-endian \
         f32 IQ) is supported"
    );
    let e = configure(None, Some(0), Some(0)).unwrap_err();
    assert!(matches!(e, FileError::ZeroSampleRate));
    assert_eq!(e.message(), "sample rate resolved to 0 Hz; pass a valid --sample-rate");
    let e = configure(None, Some(1), Some(0)).unwrap_err();
    assert_eq!(e.message(), "fm deviation resolved to 0 Hz; pass a positive --fm-deviation");
    for (milli, text) in [(-5_000, "-5"), (-500, "-0.5"), (-1_250, "-1.25"), (-1_001, "-1.001")] {
        let e = configure(None, Some(1), Some(milli)).unwrap_err();
        assert!(matches!(e, FileError::Deviation(d) if d == milli));
        assert_eq!(
            e.message(),
            format!("fm deviation resolved to {text} Hz; pass a positive --fm-deviation")
        );
        assert_eq!(text, format!("{}", milli as f32 / 1e3));
    }
}

#[test]
fn labels_name_standards() {
    assert_eq!(standard_from_label("PAL/NTSC"), Some(Some(Signal::Pal)));
    assert_eq!(standard_from_label("NTSC VIDEO"), Some(Some(Signal::Ntsc)));
    assert_eq!(standard_from_label("ANALOG"), Some(None));
    assert_eq!(standard_from_label("A VIDEO"), Some(None));
    assert_eq!(standard_from_label("pal"), None);
    assert!(contains_text("xxab", "ab") && contains_text("ab", "") && contains_text("", ""));
    assert!(!contains_text("ab", "abc") && !contains_text("axb", "ab"));
}

#[test]
fn a_due_picture_is_drawn_and_an_early_one_is_not() {
    let mut band = BandScan::new(ScanBands::Band58.channels());
    let ages = Ages { visited_ns: vec![], sweep_ns: None };
    let mut v = ScanWindow::open(band.full_height());
    let (first, later) = (Instant::now(), Instant::now() + Duration::from_millis(40));
    assert!(v.update_aged(&band, None, first, &ages));
    assert_eq!(v.last_draw, Some(first));
    assert_eq!(v.buf, v.drawn_aged(&band, &ages));
    let shown = v.buf.clone();
    band.set_lock(Some(5_865_000_000_000));
    assert!(!v.update_aged(&band, Some(39_999_999), later, &ages));
    assert_eq!((v.last_draw, &v.buf), (Some(first), &shown));
    assert!(v.update_aged(&band, Some(40_000_000), later, &ages));
    assert_eq!(v.last_draw, Some(later));
    assert_ne!(v.buf, shown);
    assert_eq!(v.buf, v.drawn_aged(&band, &ages));
}

#[test]
fn the_scan_window_redraws_when_due() {
    let band = BandScan::new(ScanBands::Band58.channels());
    let mut v = ScanWindow::open(50);
    assert_eq!((v.w, v.h), (720, 120));
    let mut v2 = ScanWindow::open(band.full_height());
    assert_eq!(v2.h, 235);
    assert!(v.update(&band));
    assert!(v.last_draw.is_some());
    // At once again it is too early.
    assert!(!v.update(&band));
    assert!(v2.update(&band));
    // The hint is written at the top right.
    let q = &v2.buf[720 * 4 + 664..720 * 4 + 720];
    assert!(q.iter().any(|p| *p == 0x0055646c));
    assert!(redraw_due(None) && redraw_due(Some(40_000_000)) && !redraw_due(Some(39_999_999)));
    assert!(keeps_scanning(true, true, &vec![Key::A]));
    assert!(!keeps_scanning(true, true, &vec![Key::A, Key::Q]));
    assert!(!keeps_scanning(true, true, &vec![Key::Escape]));
    assert!(!keeps_scanning(true, false, &vec![]));
    // With no new picture the keys are not read.
    assert!(keeps_scanning(false, true, &vec![Key::Q]));
    assert!(!keeps_scanning(false, false, &vec![]));
}

#[test]
fn skips_last_for_the_session() {
    let mut s = HopSession::new(None);
    assert!(s.react(RunLiveResult::SkipFrequency, 5_865_000_000_000));
    for r in [RunLiveResult::SignalLost, RunLiveResult::TuneToChannel(7), RunLiveResult::NextChannel]
    {
        assert!(s.react(r, 5_800_000_000_000));
        assert!(s.skipped.contains(&5_865_000_000));
        assert_eq!(s.skipped.len(), 1);
    }
}

#[test]
fn stepping_down_stops_above_eleven_megasamples() {
    for start in [61_440_000_000u64, 25_000_000_000, 16_000_000_001, 9_000_000_000] {
        let mut s = UsrpSession::new(Some(start), None);
        for _ in 0..20 {
            assert!(s.react(RunLiveResult::TooManyOverruns, 1));
        }
        assert!(s.rate_milli_hz == start || s.rate_milli_hz > 11_000_000_000);
        assert!(s.rate_milli_hz <= 16_000_000_000);
    }
}

#[test]
fn the_sweeps_verdict_is_decoded() {
    for signal in [Signal::Pal, Signal::Ntsc] {
        let mut s = HopSession::new(None);
        s.swept(ScanOutcome::Found(5, signal));
        assert_eq!(fallback_standard(s.standard), signal);
        let mut u = UsrpSession::new(None, None);
        assert_eq!(u.swept(ScanOutcome::Found(5, signal)), AfterSweep::Run(5));
        assert_eq!(fallback_standard(u.standard), signal);
        assert_eq!(u.tuned_milli_hz, Some(5));
        assert!(u.react(RunLiveResult::SignalLost, 5));
        assert_eq!(u.swept(ScanOutcome::Empty), AfterSweep::SweepAgain);
        assert_eq!(u.swept(ScanOutcome::Quit), AfterSweep::Stop);
        assert_eq!(u.standard, Some(signal));
        assert!(u.react(RunLiveResult::TuneToChannel(9), 5));
        assert_eq!(u.standard, None);
        u.found(5, Signal::Other);
        assert_eq!(u.standard, None);
    }
}

#[test]
fn what_an_annotation_leaves_out_is_filled_in() {
    let a = Annotation::written(None, None, None);
    assert_eq!((a.lower_milli_hz, a.upper_milli_hz), (0, 0));
    assert_eq!(a.label, "Unknown");
    let a = Annotation::written(Some(-3), Some(5), Some("PAL".to_string()));
    assert_eq!((a.lower_milli_hz, a.upper_milli_hz), (-3, 5));
    assert_eq!(a.label, "PAL");
}
