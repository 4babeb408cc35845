//! The picture window: keys, texts and the composed picture.

use fpv_viewer::band_scan::PanelMode;
use fpv_viewer::input::{feed_keys, key_to_char, step_typing, ChannelInputState, Key, Typed};
use fpv_viewer::raster::{draw_rect, draw_string, draw_text_with_bg};
use fpv_viewer::viewer::{
    compose, display_milli_hz, display_text, flash_shown, is_renamed, label_of, panel_after,
    panel_rows, picture_labels, run_result, step_window, toggled, window_title, Label,
    RunLiveResult, WindowEvents, WindowStep, EXIT_NEXT, EXIT_SKIP, EXIT_TUNE, RUNNING,
};

fn events(pressed: Vec<Key>) -> WindowEvents {
    WindowEvents { open: true, pressed, s_down: false, n_down: false }
}

fn typing(name: &str) -> ChannelInputState {
    ChannelInputState::Typing(name.to_string())
}

fn is_idle(s: &ChannelInputState) -> bool {
    matches!(s, ChannelInputState::Idle)
}

fn typed_name(s: &ChannelInputState) -> Option<&str> {
    match s {
        ChannelInputState::Typing(n) => Some(n.as_str()),
        _ => None,
    }
}

#[test]
fn keys_give_letters_and_digits() {
    assert_eq!(key_to_char(Key::A), Some('A'));
    assert_eq!(key_to_char(Key::Z), Some('Z'));
    assert_eq!(key_to_char(Key::Key0), Some('0'));
    assert_eq!(key_to_char(Key::NumPad0), Some('0'));
    assert_eq!(key_to_char(Key::Key9), Some('9'));
    assert_eq!(key_to_char(Key::NumPad7), Some('7'));
    for k in [Key::Escape, Key::Backspace, Key::Enter, Key::Other] {
        assert_eq!(key_to_char(k), None);
    }
}

#[test]
fn c_and_two_keys_tune() {
    let s = step_window(ChannelInputState::Idle, &events(vec![Key::C]), true);
    assert!(matches!(s.input, ChannelInputState::WaitingFirst));
    let s = step_window(s.input, &events(vec![]), true);
    assert!(matches!(s.input, ChannelInputState::WaitingFirst));
    let s = step_window(s.input, &events(vec![Key::Key4, Key::A]), true);
    assert_eq!(typed_name(&s.input), Some("A"));
    let s = step_window(s.input, &events(vec![Key::Key1]), true);
    assert_eq!(s.exit, EXIT_TUNE);
    assert_eq!(s.tune_hz, 5_865_000_000);
    assert!(!s.close && s.flash.is_none());
    // C and the band letter in one frame.
    let s = step_window(ChannelInputState::Idle, &events(vec![Key::C, Key::R]), true);
    assert_eq!(typed_name(&s.input), Some("R"));
}

#[test]
fn an_ambiguous_name_waits_for_enter() {
    let s = step_window(typing("S"), &events(vec![Key::Key6]), true);
    assert_eq!(typed_name(&s.input), Some("S6"));
    assert_eq!(s.exit, RUNNING);
    let tuned = step_window(typing("S6"), &events(vec![Key::Enter]), true);
    assert_eq!(tuned.exit, EXIT_TUNE);
    let longer = step_window(typing("S6"), &events(vec![Key::Key4]), true);
    assert_eq!(longer.exit, EXIT_TUNE);
    assert_ne!(longer.tune_hz, tuned.tune_hz);
}

#[test]
fn an_unknown_name_is_reported() {
    let s = step_window(typing("A"), &events(vec![Key::Key9]), true);
    assert_eq!(s.flash.as_deref(), Some("Unknown channel: A9"));
    assert!(is_idle(&s.input));
    assert_eq!(s.exit, RUNNING);
    let s = step_window(typing("A"), &events(vec![Key::Enter]), true);
    assert_eq!(s.flash.as_deref(), Some("Unknown channel: A"));
}

#[test]
fn escape_cancels_and_backspace_takes_back() {
    let s = step_window(typing("S6"), &events(vec![Key::Escape]), true);
    assert!(is_idle(&s.input) && !s.close && s.exit == RUNNING);
    let s = step_window(ChannelInputState::WaitingFirst, &events(vec![Key::Escape]), true);
    assert!(is_idle(&s.input) && !s.close);
    let (s, t) = feed_keys(typing("S6"), &vec![Key::Other, Key::Backspace, Key::Key1]);
    assert_eq!(typed_name(&s), Some("S"));
    assert!(matches!(t, Typed::Nothing));
    let (s, _) = feed_keys(typing("S"), &vec![Key::Backspace]);
    assert!(matches!(s, ChannelInputState::WaitingFirst));
    let (s, t) = step_typing("B", Key::Key4, Some(77), false);
    assert_eq!(typed_name(&s), Some("B"));
    assert!(matches!(t, Typed::Tune(77)));
    let (s, _) = step_typing("B", Key::Key4, Some(77), true);
    assert_eq!(typed_name(&s), Some("B4"));
}

#[test]
fn quitting_keys_act_only_when_no_channel_is_typed() {
    for k in [Key::Q, Key::Escape] {
        assert!(step_window(ChannelInputState::Idle, &events(vec![k]), true).close);
    }
    let s = step_window(typing("S"), &events(vec![Key::Q]), true);
    assert!(!s.close);
    assert_eq!(s.flash.as_deref(), Some("Unknown channel: SQ"));
    let gone = WindowEvents { open: false, pressed: vec![], s_down: true, n_down: true };
    let s = step_window(typing("S"), &gone, true);
    assert!(s.close && s.exit == RUNNING);
}

#[test]
fn skip_and_next_end_the_run() {
    let mut ev = events(vec![Key::D, Key::B]);
    ev.s_down = true;
    ev.n_down = true;
    let s = step_window(ChannelInputState::Idle, &ev, true);
    assert_eq!(s.exit, EXIT_SKIP);
    assert!(!s.toggle_denoise && !s.toggle_panel);
    ev.s_down = false;
    let s = step_window(ChannelInputState::Idle, &ev, true);
    assert_eq!(s.exit, EXIT_NEXT);
    assert!(s.toggle_denoise && s.toggle_panel);
    // While typing neither acts.
    ev.s_down = true;
    let s = step_window(ChannelInputState::WaitingFirst, &ev, true);
    assert_eq!(s.exit, RUNNING);
    assert_eq!(typed_name(&s.input), Some("D"));
    assert!(!s.toggle_denoise && !s.toggle_panel);
}

#[test]
fn toggles_are_recorded_once() {
    let s: WindowStep = step_window(ChannelInputState::Idle, &events(vec![Key::D, Key::B]), false);
    assert!(s.toggle_denoise);
    // No panel, nothing to cycle.
    assert!(!s.toggle_panel);
    assert!(toggled(false, true) && !toggled(true, true) && toggled(true, false));
    assert_eq!(panel_after(PanelMode::Strip, true), PanelMode::Full);
    assert_eq!(panel_after(PanelMode::Off, false), PanelMode::Off);
}

#[test]
fn exit_codes_are_read_back() {
    assert_eq!(run_result(0, 9), RunLiveResult::UserExit);
    assert_eq!(run_result(1, 9), RunLiveResult::SignalLost);
    assert_eq!(run_result(2, 9), RunLiveResult::TooManyOverruns);
    assert_eq!(run_result(3, 9), RunLiveResult::SkipFrequency);
    assert_eq!(run_result(4, 9), RunLiveResult::NextChannel);
    assert_eq!(run_result(5, 9), RunLiveResult::TuneToChannel(9));
    assert_eq!(run_result(6, 9), RunLiveResult::UserExit);
    assert!(flash_shown(1_999_999) && !flash_shown(2_000_000));
}

#[test]
fn a_window_is_named_after_the_measured_carrier() {
    // The sweep said 5871.775; the carrier measured 5865.2 here.
    let f = display_milli_hz(Some(5_865_200_000_000), 5_871_775_000_000, 0);
    assert_eq!(f, 5_865_000_000_000);
    assert!(is_renamed(Some(5_865_200_000_000), f, 5_871_775_000_000));
    assert_eq!(display_milli_hz(None, 5_800_000_000_000, -25_000_000_000), 5_775_000_000_000);
    assert!(!is_renamed(None, 0, 5_000_000_000_000));
    assert!(!is_renamed(Some(1), 1_000_000_000, 1_500_000_000));
    assert!(is_renamed(Some(1), 1_000_000_000, 1_500_000_001));
    assert_eq!(label_of(f).as_deref(), Some("A1"));
    assert_eq!(label_of(-1), None);
}

#[test]
fn titles_and_lines() {
    let a1 = Some("A1".to_string());
    assert_eq!(window_title(true, &a1, 0), "PAL · Channel A1");
    assert_eq!(window_title(false, &None, 5_775_250_000_000), "NTSC · 5775.25 MHz");
    assert_eq!(window_title(false, &None, -25_000_000_000), "NTSC · -25.00 MHz");
    assert_eq!(display_text(false, &a1, 0, true), "NTSC · Channel A1 [BW] DN");
    assert_eq!(display_text(true, &None, 1_009_999_999, false), "PAL · 1.01 MHz [BW]");
    for milli in [0i64, 4_999_999, 5_000_000, 15_000_000, 25_000_000, -5_000_000, 5_865_005_000_000, 125_000_000, 375_000_000, 5_771_234_567_891, 5_865_004_999_999] {
        let float = format!("PAL · {:.2} MHz", milli as f64 / 1e9);
        assert_eq!(window_title(true, &None, milli), float);
    }
}

#[test]
fn a_picture_shows_its_labels_in_order() {
    let labels = picture_labels("line".to_string(), 576, true, &typing("S6"), Some("msg".to_string()));
    let texts: Vec<&str> = labels.iter().map(|l| l.text.as_str()).collect();
    assert_eq!(
        texts,
        vec![
            "line",
            "Q:Quit  S:Skip  N:Next  C:Channel  D:Denoise  B:Band",
            "CH: S6_  ENTER TO TUNE",
            "msg"
        ]
    );
    let places: Vec<(usize, usize)> = labels.iter().map(|l| (l.x, l.y)).collect();
    assert_eq!(places, vec![(10, 10), (10, 556), (10, 30), (10, 30)]);
    let labels = picture_labels("x".to_string(), 8, false, &ChannelInputState::WaitingFirst, None);
    assert_eq!(labels.len(), 3);
    assert_eq!(labels[1].y, 0);
    assert_eq!(labels[1].text, "Q:Quit  S:Skip  N:Next  C:Channel  D:Denoise");
    assert_eq!(labels[2].text, "CH: __");
    assert_eq!(picture_labels("x".to_string(), 8, false, &ChannelInputState::Idle, None).len(), 2);
}

#[test]
fn a_frame_and_its_panel_are_stacked() {
    let (w, h) = (40usize, 20usize);
    let frame = vec![1u32; w * h];
    let panel = vec![2u32; w * 3];
    let mut display = vec![9u32; w * (h + 5)];
    let label =
        Label { x: 30, y: 15, text: "A".to_string(), color: 0xff00ff00, ground: 0xff000000 };
    assert!(compose(&mut display, &frame, w, h, &panel, &vec![label]));
    assert!(display[w * h..w * (h + 3)].iter().all(|p| *p == 2));
    assert!(display[w * (h + 3)..].iter().all(|p| *p == 9));
    let mut expected = vec![1u32; w * h];
    draw_text_with_bg(&mut expected, w, h, 30, 15, "A", 0xff00ff00, 0xff000000);
    assert_eq!(&display[..w * h], &expected[..]);
    // A frame of another size leaves the display alone.
    let mut untouched = vec![9u32; w * h];
    assert!(!compose(&mut untouched, &vec![1; 5], w, h, &vec![], &vec![]));
    assert!(untouched.iter().all(|p| *p == 9));
}

#[test]
fn the_panel_gets_the_rows_there_are() {
    assert_eq!(panel_rows(720 * 600, 720, 576, 34), 24);
    assert_eq!(panel_rows(720 * 900, 720, 576, 34), 34);
    assert_eq!(panel_rows(720 * 576, 720, 576, 34), 0);
    assert_eq!(panel_rows(10, 0, 3, 34), 7);
}

#[test]
fn rectangles_and_text_are_clipped() {
    let mut buf = vec![0u32; 16 * 8];
    draw_rect(&mut buf, 16, 8, 14, 6, 10, 10, 5);
    assert_eq!(buf.iter().filter(|p| **p == 5).count(), 4);
    draw_rect(&mut buf, 16, 8, usize::MAX, usize::MAX, 3, 3, 6);
    assert!(buf.iter().all(|p| *p != 6));
    let mut buf = vec![0u32; 16 * 8];
    draw_string(&mut buf, 16, 8, 0, 0, "l-", 7);
    // 'L' is a stroke down and one along the bottom.
    assert_eq!(buf[1], 7);
    assert_eq!(buf[16 * 6 + 6], 7);
    assert_eq!(buf[16 * 3 + 8 + 2], 7);
    assert_eq!(buf[16 * 7], 0);
}
