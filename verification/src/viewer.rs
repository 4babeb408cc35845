//! The picture window: what its keys do, what it says, and how its picture is put
//! together.

use vstd::prelude::*;
use vstd::utf8::is_ascii_chars;

use crate::axis::MAX_PIXELS;
use crate::band_scan::PanelMode;
use crate::bands::{
    catalog, entry_freqs, get_fpv_channel_name, has_frequency, label_near,
    snap_to_nearest_fpv_channel, snapped,
};
use crate::input::{
    entry_after, entry_wf, feed_keys, ChannelInputState, Entry, Key, Outcome, Typed,
};
use crate::order::gap;
use crate::panel::{less, smaller};
use crate::raster::{byte_len, draw_text_with_bg, text_on_bg};
use crate::text::{
    decimal, lemma_ascii_len, lemma_byte_len_concat, lemma_decimal_short, lemma_mhz_parts_fit,
    mhz_parts, parts_of_mhz, push_decimal,
};

verus! {

/// How a run of the picture window ended.
#[derive(Debug, Clone, Copy, PartialEq, Eq, Structural)]
pub enum RunLiveResult {
    UserExit,
    SignalLost,
    TooManyOverruns,
    /// User pressed 'S': skip this frequency and resume scanning.
    SkipFrequency,
    /// User pressed 'N': find the next signal, resume scanning without blacklisting.
    NextChannel,
    /// User typed a channel name: tune to this frequency in hertz.
    TuneToChannel(u64),
}

/// Nothing has ended the run.
pub const RUNNING: u8 = 0;

pub const EXIT_SIGNAL_LOST: u8 = 1;

pub const EXIT_OVERRUNS: u8 = 2;

pub const EXIT_SKIP: u8 = 3;

pub const EXIT_NEXT: u8 = 4;

pub const EXIT_TUNE: u8 = 5;

/// What an exit code and the frequency left beside it stand for.
pub open spec fn result_of(code: u8, tune_hz: u64) -> RunLiveResult {
    if code == EXIT_SIGNAL_LOST {
        RunLiveResult::SignalLost
    } else if code == EXIT_OVERRUNS {
        RunLiveResult::TooManyOverruns
    } else if code == EXIT_SKIP {
        RunLiveResult::SkipFrequency
    } else if code == EXIT_NEXT {
        RunLiveResult::NextChannel
    } else if code == EXIT_TUNE {
        RunLiveResult::TuneToChannel(tune_hz)
    } else {
        RunLiveResult::UserExit
    }
}

/// Read an exit code.
pub fn run_result(code: u8, tune_hz: u64) -> (r: RunLiveResult)
    ensures
        r == result_of(code, tune_hz),
{
    match code {
        EXIT_SIGNAL_LOST => RunLiveResult::SignalLost,
        EXIT_OVERRUNS => RunLiveResult::TooManyOverruns,
        EXIT_SKIP => RunLiveResult::SkipFrequency,
        EXIT_NEXT => RunLiveResult::NextChannel,
        EXIT_TUNE => RunLiveResult::TuneToChannel(tune_hz),
        _ => RunLiveResult::UserExit,
    }
}

/// What a window reports in one frame.
#[derive(Debug)]
pub struct WindowEvents {
    pub open: bool,
    /// Keys pressed since the last frame, edge-triggered.
    pub pressed: Vec<Key>,
    pub s_down: bool,
    pub n_down: bool,
}

/// What one frame of a window came to.
#[derive(Debug)]
pub struct WindowStep {
    /// The window goes, and nothing else happens.
    pub close: bool,
    /// Why the whole run ends, `RUNNING` where it does not.
    pub exit: u8,
    /// Frequency to tune to where the run ends for that, in hertz.
    pub tune_hz: u64,
    pub toggle_denoise: bool,
    pub toggle_panel: bool,
    pub input: ChannelInputState,
    /// A message for the operator.
    pub flash: Option<String>,
}

/// Whether the operator asks to quit. While a channel is typed, Escape cancels the
/// entry and Q is a keystroke, so neither quits.
pub open spec fn wants_quit(e: Entry, ev: WindowEvents) -> bool {
    !ev.open || (e is Idle && (ev.pressed@.contains(Key::Escape) || ev.pressed@.contains(Key::Q)))
}

/// Whether the operator asks to skip the frequency.
pub open spec fn wants_skip(e: Entry, ev: WindowEvents) -> bool {
    e is Idle && ev.s_down
}

/// Whether the operator asks for the next signal.
pub open spec fn wants_next(e: Entry, ev: WindowEvents) -> bool {
    e is Idle && ev.n_down
}

/// The entry the keys of a frame are fed to: C opens one.
pub open spec fn entry_opened(e: Entry, ev: WindowEvents) -> Entry {
    if e is Idle && ev.pressed@.contains(Key::C) {
        Entry::WaitingFirst
    } else {
        e
    }
}

/// What one frame of a window comes to.
pub open spec fn stepped(e: Entry, ev: WindowEvents, has_band: bool, step: WindowStep) -> bool {
    let (entry, outcome) = entry_after(entry_opened(e, ev), ev.pressed@);
    let idle = e is Idle;
    if wants_quit(e, ev) {
        &&& step.close
        &&& step.exit == RUNNING
        &&& step.tune_hz == 0
        &&& !step.toggle_denoise
        &&& !step.toggle_panel
        &&& step.input@ == e
        &&& step.flash is None
    } else if wants_skip(e, ev) {
        &&& !step.close
        &&& step.exit == EXIT_SKIP
        &&& step.tune_hz == 0
        &&& !step.toggle_denoise
        &&& !step.toggle_panel
        &&& step.input@ == e
        &&& step.flash is None
    } else if wants_next(e, ev) {
        &&& !step.close
        &&& step.exit == EXIT_NEXT
        &&& step.tune_hz == 0
        &&& step.toggle_denoise == (idle && ev.pressed@.contains(Key::D))
        &&& step.toggle_panel == (idle && has_band && ev.pressed@.contains(Key::B))
        &&& step.input@ == e
        &&& step.flash is None
    } else {
        &&& !step.close
        &&& step.toggle_denoise == (idle && ev.pressed@.contains(Key::D))
        &&& step.toggle_panel == (idle && has_band && ev.pressed@.contains(Key::B))
        &&& step.input@ == entry
        &&& match outcome {
            Outcome::Nothing => step.exit == RUNNING && step.tune_hz == 0 && step.flash is None,
            Outcome::Tune(f) => step.exit == EXIT_TUNE && step.tune_hz == f && step.flash is None,
            Outcome::Unknown(m) => step.exit == RUNNING && step.tune_hz == 0 && (
            step.flash matches Some(s) && s@ == m),
        }
    }
}

fn was_pressed(keys: &Vec<Key>, k: Key) -> (r: bool)
    ensures
        r == keys@.contains(k),
{
    let mut i: usize = 0;
    while i < keys.len()
        invariant
            i <= keys@.len(),
            forall|j: int| 0 <= j < i ==> keys@[j] != k,
        decreases keys@.len() - i,
    {
        if keys[i] == k {
            assert(keys@[i as int] == k);
            return true;
        }
        i = i + 1;
    }
    false
}

/// One frame of a window: what its keys ask for, and where the channel entry stands
/// after them.
pub fn step_window(input: ChannelInputState, ev: &WindowEvents, has_band: bool) -> (step: WindowStep)
    requires
        entry_wf(input@),
    ensures
        stepped(input@, *ev, has_band, step),
        entry_wf(step.input@),
        step.exit == EXIT_TUNE ==> 0 < step.tune_hz <= 5_945_000_000 && has_frequency(
            catalog(true),
            step.tune_hz,
        ),
        step.flash matches Some(s) ==> is_ascii_chars(s@) && s@.len() <= 20,
{
    let idle: bool = match &input {
        ChannelInputState::Idle => true,
        _ => false,
    };
    let mut step: WindowStep = WindowStep {
        close: false,
        exit: RUNNING,
        tune_hz: 0,
        toggle_denoise: false,
        toggle_panel: false,
        input,
        flash: None,
    };
    if !ev.open || (idle && (was_pressed(&ev.pressed, Key::Escape) || was_pressed(
        &ev.pressed,
        Key::Q,
    ))) {
        step.close = true;
        return step;
    }
    if idle && ev.s_down {
        step.exit = EXIT_SKIP;
        return step;
    }
    step.toggle_denoise = idle && was_pressed(&ev.pressed, Key::D);
    step.toggle_panel = idle && has_band && was_pressed(&ev.pressed, Key::B);
    if idle && ev.n_down {
        step.exit = EXIT_NEXT;
        return step;
    }
    let toggle_denoise: bool = step.toggle_denoise;
    let toggle_panel: bool = step.toggle_panel;
    let before: ChannelInputState = if idle && was_pressed(&ev.pressed, Key::C) {
        ChannelInputState::WaitingFirst
    } else {
        step.input
    };
    let (after, typed) = feed_keys(before, &ev.pressed);
    let (exit, tune_hz, flash) = match typed {
        Typed::Nothing => (RUNNING, 0u64, None),
        Typed::Tune(f) => (EXIT_TUNE, f, None),
        Typed::Unknown(m) => (RUNNING, 0u64, Some(m)),
    };
    WindowStep { close: false, exit, tune_hz, toggle_denoise, toggle_panel, input: after, flash }
}

/// While a channel is typed, no key quits, skips or moves on: only closing the window
/// ends it.
pub proof fn law_typing_shields_the_session(e: Entry, ev: WindowEvents, has_band: bool, step: WindowStep)
    requires
        e !is Idle,
        ev.open,
        stepped(e, ev, has_band, step),
    ensures
        !step.close,
        !step.toggle_denoise,
        !step.toggle_panel,
        step.exit == RUNNING || step.exit == EXIT_TUNE,
{
}

/// One keypress is one toggle, however many windows saw it.
pub fn toggled(on: bool, requested: bool) -> (r: bool)
    ensures
        r == (on != requested),
{
    if requested {
        !on
    } else {
        on
    }
}

/// The panel mode after a frame.
pub fn panel_after(mode: PanelMode, requested: bool) -> (r: PanelMode)
    ensures
        r == (if requested {
            mode.following()
        } else {
            mode
        }),
{
    if requested {
        mode.next()
    } else {
        mode
    }
}

/// A message stays on the picture this long.
pub const FLASH_US: u64 = 2_000_000;

/// Whether a message of a given age is still shown.
pub fn flash_shown(age_us: u64) -> (r: bool)
    ensures
        r == (age_us < FLASH_US),
{
    age_us < FLASH_US
}

/// The frequency a window is named after: the measured carrier snapped to its channel
/// where it was measured, else where the tuner stands. The tuning itself is left
/// alone.
pub open spec fn display_freq(refined: Option<u64>, tuned: int) -> int {
    match refined {
        Some(carrier) => snapped(entry_freqs(catalog(true)), carrier as int),
        None => tuned,
    }
}

/// The frequency a window is named after, in millihertz.
pub fn display_milli_hz(refined: Option<u64>, center_milli_hz: i64, offset_milli_hz: i64) -> (f: i64)
    requires
        i64::MIN <= center_milli_hz + offset_milli_hz <= i64::MAX,
        refined matches Some(carrier) ==> carrier <= 0x7000_0000_0000_0000,
    ensures
        f == display_freq(refined, center_milli_hz + offset_milli_hz),
{
    match refined {
        Some(carrier) => {
            proof {
                crate::bands::law_snapping_settles(entry_freqs(catalog(true)), carrier as int);
            }
            snap_to_nearest_fpv_channel(carrier) as i64
        },
        None => center_milli_hz + offset_milli_hz,
    }
}

/// A measured carrier this far from the tuned frequency is another channel.
pub const RENAMED_ABOVE_MILLI_HZ: i64 = 500_000_000;

/// Whether the measured carrier names another channel than the tuned frequency does.
pub fn is_renamed(refined: Option<u64>, display_milli_hz: i64, tuned_milli_hz: i64) -> (r: bool)
    ensures
        r == (refined is Some && gap(display_milli_hz as int, tuned_milli_hz as int)
            > RENAMED_ABOVE_MILLI_HZ),
{
    refined.is_some() && crate::band_scan::distance(display_milli_hz as i128, tuned_milli_hz as i128)
        > RENAMED_ABOVE_MILLI_HZ as i128
}

/// The label of a displayed frequency.
pub open spec fn display_label(milli_hz: int) -> Option<Seq<char>> {
    if milli_hz < 0 {
        None
    } else {
        label_near(milli_hz)
    }
}

/// The label of a displayed frequency.
pub fn label_of(milli_hz: i64) -> (r: Option<String>)
    ensures
        match r {
            Some(s) => display_label(milli_hz as int) == Some(s@) && byte_len(s@) <= 1540,
            None => display_label(milli_hz as int) is None,
        },
{
    if milli_hz < 0 {
        None
    } else {
        get_fpv_channel_name(milli_hz as u64)
    }
}

/// A number of hundredths, written with two decimal places.
pub open spec fn hundredths(n: int) -> Seq<char> {
    decimal(n / 100) + "."@ + decimal(n / 10 % 10) + decimal(n % 10)
}

/// A frequency in megahertz with two decimal places.
pub open spec fn mhz2_text(milli_hz: int) -> Seq<char> {
    if milli_hz < 0 {
        "-"@ + hundredths(mhz_parts(-milli_hz, 100))
    } else {
        hundredths(mhz_parts(milli_hz, 100))
    }
}

/// Append a frequency in megahertz with two decimal places.
pub fn push_mhz2(text: &mut String, milli_hz: i64)
    requires
        milli_hz > i64::MIN,
    ensures
        final(text)@ == old(text)@ + mhz2_text(milli_hz as int),
{
    let ghost before = text@;
    let size: u64 = if milli_hz < 0 {
        text.append("-");
        (-milli_hz) as u64
    } else {
        milli_hz as u64
    };
    let n: u64 = parts_of_mhz(size as u128, 100);
    push_decimal(text, n / 100);
    text.append(".");
    push_decimal(text, n / 10 % 10);
    push_decimal(text, n % 10);
    assert(text@ =~= before + mhz2_text(milli_hz as int));
}

/// The name of a standard.
pub open spec fn standard_name(is_pal: bool) -> Seq<char> {
    if is_pal {
        "PAL"@
    } else {
        "NTSC"@
    }
}

/// What a window calls its channel: its label, else its frequency.
pub open spec fn channel_text(label: Option<Seq<char>>, milli_hz: int) -> Seq<char> {
    match label {
        Some(ch) => "Channel "@ + ch,
        None => mhz2_text(milli_hz) + " MHz"@,
    }
}

/// Title of a window.
pub open spec fn title_text(is_pal: bool, label: Option<Seq<char>>, milli_hz: int) -> Seq<char> {
    standard_name(is_pal) + " · "@ + channel_text(label, milli_hz)
}

/// The line on a window's picture.
pub open spec fn picture_text(
    is_pal: bool,
    label: Option<Seq<char>>,
    milli_hz: int,
    denoise: bool,
) -> Seq<char> {
    title_text(is_pal, label, milli_hz) + " [BW]"@ + if denoise {
        " DN"@
    } else {
        Seq::empty()
    }
}

/// A label as plain characters.
pub open spec fn label_chars(label: Option<String>) -> Option<Seq<char>> {
    match label {
        Some(s) => Some(s@),
        None => None,
    }
}

/// Title of a window.
pub fn window_title(is_pal: bool, label: &Option<String>, milli_hz: i64) -> (text: String)
    requires
        milli_hz > i64::MIN,
        label matches Some(s) ==> byte_len(s@) <= 1540,
    ensures
        text@ == title_text(is_pal, label_chars(*label), milli_hz as int),
        byte_len(text@) <= 1600,
{
    let mut text: String = String::new();
    if is_pal {
        text.append("PAL");
    } else {
        text.append("NTSC");
    }
    text.append(" · ");
    let ghost lead = text@;
    match label {
        Some(ch) => {
            text.append("Channel ");
            text.append(ch.as_str());
        },
        None => {
            push_mhz2(&mut text, milli_hz);
            text.append(" MHz");
        },
    }
    proof {
        let chars = label_chars(*label);
        assert(text@ =~= title_text(is_pal, chars, milli_hz as int));
        lemma_title_short(is_pal, chars, milli_hz as int);
    }
    text
}

proof fn lemma_dot_bytes()
    ensures
        byte_len(" · "@) <= 8,
{
    reveal_strlit(" · ");
    reveal_with_fuel(vstd::utf8::encode_utf8, 5);
    let s = " · "@;
    assert(s.len() == 3);
}

proof fn lemma_hundredths_short(n: int)
    requires
        0 <= n <= u64::MAX,
    ensures
        byte_len(hundredths(n)) <= 62,
{
    reveal_strlit(".");
    lemma_decimal_short(n / 100);
    lemma_decimal_short(n / 10 % 10);
    lemma_decimal_short(n % 10);
    lemma_ascii_len(decimal(n / 100));
    lemma_ascii_len(decimal(n / 10 % 10));
    lemma_ascii_len(decimal(n % 10));
    lemma_ascii_len("."@);
    lemma_byte_len_concat(decimal(n / 100), "."@);
    lemma_byte_len_concat(decimal(n / 100) + "."@, decimal(n / 10 % 10));
    lemma_byte_len_concat(decimal(n / 100) + "."@ + decimal(n / 10 % 10), decimal(n % 10));
}

proof fn lemma_title_short(is_pal: bool, label: Option<Seq<char>>, milli_hz: int)
    requires
        -u64::MAX <= milli_hz <= u64::MAX,
        label matches Some(s) ==> byte_len(s) <= 1540,
    ensures
        byte_len(title_text(is_pal, label, milli_hz)) <= 1600,
{
    reveal_strlit("PAL");
    reveal_strlit("NTSC");
    reveal_strlit("Channel ");
    reveal_strlit(" MHz");
    reveal_strlit("-");
    lemma_dot_bytes();
    let name = standard_name(is_pal);
    lemma_ascii_len(name);
    lemma_byte_len_concat(name, " · "@);
    lemma_byte_len_concat(name + " · "@, channel_text(label, milli_hz));
    match label {
        Some(ch) => {
            lemma_ascii_len("Channel "@);
            lemma_byte_len_concat("Channel "@, ch);
        },
        None => {
            let size = if milli_hz < 0 {
                -milli_hz
            } else {
                milli_hz
            };
            lemma_mhz_parts_fit(size, 100);
            let n = mhz_parts(size, 100);
            lemma_hundredths_short(n);
            lemma_ascii_len("-"@);
            lemma_byte_len_concat("-"@, hundredths(n));
            lemma_ascii_len(" MHz"@);
            lemma_byte_len_concat(mhz2_text(milli_hz), " MHz"@);
        },
    }
}

/// The line on a window's picture.
pub fn display_text(is_pal: bool, label: &Option<String>, milli_hz: i64, denoise: bool) -> (text:
    String)
    requires
        milli_hz > i64::MIN,
        label matches Some(s) ==> byte_len(s@) <= 1540,
    ensures
        text@ == picture_text(is_pal, label_chars(*label), milli_hz as int, denoise),
        byte_len(text@) <= 1700,
{
    let title: String = window_title(is_pal, label, milli_hz);
    let mut text: String = title.clone();
    text.append(" [BW]");
    if denoise {
        text.append(" DN");
    }
    proof {
        reveal_strlit(" [BW]");
        reveal_strlit(" DN");
        let tail = if denoise {
            " DN"@
        } else {
            Seq::empty()
        };
        assert(text@ =~= title@ + " [BW]"@ + tail);
        lemma_ascii_len(" [BW]"@);
        lemma_ascii_len(tail);
        lemma_byte_len_concat(title@, " [BW]"@);
        lemma_byte_len_concat(title@ + " [BW]"@, tail);
    }
    text
}

/// A line of text on its own ground, somewhere on a picture.
#[derive(Debug)]
pub struct Label {
    pub x: usize,
    pub y: usize,
    pub text: String,
    pub color: u32,
    pub ground: u32,
}

/// A picture with some labels, first to last.
pub open spec fn all_labelled(buf: Seq<u32>, w: int, h: int, labels: Seq<Label>) -> Seq<u32>
    decreases labels.len(),
{
    if labels.len() == 0 {
        buf
    } else {
        let l = labels.last();
        text_on_bg(
            all_labelled(buf, w, h, labels.drop_last()),
            w,
            h,
            l.x as int,
            l.y as int,
            l.text@,
            l.color,
            l.ground,
        )
    }
}

/// Whether labels can be drawn: their texts are of sane length.
pub open spec fn labels_fit(labels: Seq<Label>) -> bool {
    forall|i: int|
        0 <= i < labels.len() ==> byte_len((#[trigger] labels[i]).text@) <= 4096 && labels[i].x
            <= MAX_PIXELS && labels[i].y <= MAX_PIXELS
}

/// Labels touch the picture alone, never what lies below it.
pub proof fn law_labels_stay_in_the_picture(
    buf: Seq<u32>,
    w: int,
    h: int,
    labels: Seq<Label>,
    i: int,
)
    requires
        0 <= i < buf.len(),
        w * h <= i,
    ensures
        all_labelled(buf, w, h, labels)[i] == buf[i],
        all_labelled(buf, w, h, labels).len() == buf.len(),
    decreases labels.len(),
{
    if labels.len() > 0 {
        law_labels_stay_in_the_picture(buf, w, h, labels.drop_last(), i);
    }
}

/// Draw labels on a picture.
pub fn draw_labels(buf: &mut [u32], w: usize, h: usize, labels: &Vec<Label>)
    requires
        w * h <= old(buf)@.len(),
        labels_fit(labels@),
    ensures
        final(buf)@ == all_labelled(old(buf)@, w as int, h as int, labels@),
        final(buf)@.len() == old(buf)@.len(),
{
    let ghost before = buf@;
    let mut i: usize = 0;
    while i < labels.len()
        invariant
            i <= labels@.len(),
            w * h <= before.len(),
            labels_fit(labels@),
            buf@.len() == before.len(),
            buf@ == all_labelled(before, w as int, h as int, labels@.take(i as int)),
        decreases labels@.len() - i,
    {
        proof {
            assert(labels@.take(i + 1).drop_last() =~= labels@.take(i as int));
            assert(labels@.take(i + 1).last() == labels@[i as int]);
            assert(byte_len(labels@[i as int].text@) <= 4096);
        }
        let l: &Label = &labels[i];
        draw_text_with_bg(buf, w, h, l.x, l.y, l.text.as_str(), l.color, l.ground);
        i = i + 1;
    }
    assert(labels@.take(labels@.len() as int) =~= labels@);
}

/// The keybinding hints. `B` is only offered when there is a panel to cycle.
pub open spec fn hint_text(has_band: bool) -> Seq<char> {
    if has_band {
        "Q:Quit  S:Skip  N:Next  C:Channel  D:Denoise  B:Band"@
    } else {
        "Q:Quit  S:Skip  N:Next  C:Channel  D:Denoise"@
    }
}

/// The prompt of a channel entry.
pub open spec fn prompt_text(e: Entry) -> Option<Seq<char>> {
    match e {
        Entry::Idle => None,
        Entry::WaitingFirst => Some("CH: __"@),
        Entry::Typing(name) => Some("CH: "@ + name + "_  ENTER TO TUNE"@),
    }
}

/// Whether labels are what a picture of `h` rows shows: its line, the hints, the
/// prompt of an entry, and a message on top.
pub open spec fn shows(
    labels: Seq<Label>,
    line: Seq<char>,
    h: int,
    has_band: bool,
    e: Entry,
    flash: Option<Seq<char>>,
) -> bool {
    let prompts: int = if prompt_text(e) is Some {
        1
    } else {
        0
    };
    let flashes: int = if flash is Some {
        1
    } else {
        0
    };
    &&& labels.len() == 2 + prompts + flashes
    &&& is_label(labels[0], 10, 10, line, 0xff00ff00, 0xff000000)
    &&& is_label(labels[1], 10, less(h, 20), hint_text(has_band), 0xffaaaaaa, 0x80000000)
    &&& (prompt_text(e) matches Some(text) ==> is_label(
        labels[2],
        10,
        30,
        text,
        0xffffff00,
        0xcc000000,
    ))
    &&& (flash matches Some(text) ==> is_label(
        labels[2 + prompts],
        10,
        30,
        text,
        0xffff4444,
        0xcc000000,
    ))
}

/// A label given by its parts.
pub open spec fn is_label(l: Label, x: int, y: int, text: Seq<char>, color: u32, ground: u32) -> bool {
    l.x == x && l.y == y && l.text@ == text && l.color == color && l.ground == ground
}

/// The labels of a picture of `h` rows.
pub fn picture_labels(
    line: String,
    h: usize,
    has_band: bool,
    input: &ChannelInputState,
    flash: Option<String>,
) -> (labels: Vec<Label>)
    requires
        h <= MAX_PIXELS,
        byte_len(line@) <= 4096,
        entry_wf(input@),
        flash matches Some(s) ==> is_ascii_chars(s@) && s@.len() <= 20,
    ensures
        shows(labels@, line@, h as int, has_band, input@, label_chars(flash)),
        labels_fit(labels@),
{
    let mut labels: Vec<Label> = Vec::new();
    labels.push(Label { x: 10, y: 10, text: line, color: 0xff00ff00, ground: 0xff000000 });
    let mut hint: String = String::new();
    if has_band {
        hint.append("Q:Quit  S:Skip  N:Next  C:Channel  D:Denoise  B:Band");
    } else {
        hint.append("Q:Quit  S:Skip  N:Next  C:Channel  D:Denoise");
    }
    proof {
        reveal_strlit("Q:Quit  S:Skip  N:Next  C:Channel  D:Denoise  B:Band");
        reveal_strlit("Q:Quit  S:Skip  N:Next  C:Channel  D:Denoise");
        assert(hint@ =~= hint_text(has_band));
        lemma_ascii_len(hint@);
    }
    labels.push(
        Label { x: 10, y: h.saturating_sub(20), text: hint, color: 0xffaaaaaa, ground: 0x80000000 },
    );
    match input {
        ChannelInputState::Idle => {},
        ChannelInputState::WaitingFirst => {
            let mut prompt: String = String::new();
            prompt.append("CH: __");
            proof {
                reveal_strlit("CH: __");
                assert(prompt@ =~= "CH: __"@);
                lemma_ascii_len(prompt@);
            }
            labels.push(
                Label { x: 10, y: 30, text: prompt, color: 0xffffff00, ground: 0xcc000000 },
            );
        },
        ChannelInputState::Typing(name) => {
            let mut prompt: String = String::new();
            prompt.append("CH: ");
            prompt.append(name.as_str());
            prompt.append("_  ENTER TO TUNE");
            proof {
                reveal_strlit("CH: ");
                reveal_strlit("_  ENTER TO TUNE");
                assert(prompt@ =~= "CH: "@ + name@ + "_  ENTER TO TUNE"@);
                assert(is_ascii_chars(prompt@));
                lemma_ascii_len(prompt@);
            }
            labels.push(
                Label { x: 10, y: 30, text: prompt, color: 0xffffff00, ground: 0xcc000000 },
            );
        },
    }
    if let Some(text) = flash {
        proof {
            lemma_ascii_len(text@);
        }
        labels.push(Label { x: 10, y: 30, text, color: 0xffff4444, ground: 0xcc000000 });
    }
    labels
}

/// Rows the panel gets below a picture: what it wants, held to what the display has
/// spare.
pub open spec fn spare_panel_rows(display_len: int, w: int, h: int, wanted: int) -> int {
    let columns = if w < 1 {
        1
    } else {
        w
    };
    smaller(wanted, less(display_len / columns, h))
}

/// Rows the panel gets below a picture.
pub fn panel_rows(display_len: usize, w: usize, h: usize, wanted: usize) -> (rows: usize)
    requires
        w * h <= display_len,
    ensures
        rows == spare_panel_rows(display_len as int, w as int, h as int, wanted as int),
        w * h + w * rows <= display_len,
{
    let columns: usize = if w < 1 {
        1
    } else {
        w
    };
    let spare: usize = (display_len / columns).saturating_sub(h);
    let rows: usize = if wanted < spare {
        wanted
    } else {
        spare
    };
    proof {
        if w >= 1 {
            assert(w * h + w * rows <= display_len) by (nonlinear_arith)
                requires
                    w >= 1,
                    w * h <= display_len,
                    0 <= rows,
                    rows == 0 || rows + h <= display_len / w,
            ;
        } else {
            assert(w * h + w * rows == 0) by (nonlinear_arith)
                requires
                    w == 0,
            ;
        }
    }
    rows
}

/// The display before its labels: the frame, the panel below it, and what was there
/// below that.
pub open spec fn stacked(display: Seq<u32>, frame: Seq<u32>, panel: Seq<u32>) -> Seq<u32> {
    Seq::new(
        display.len(),
        |i: int|
            if i < frame.len() {
                frame[i]
            } else if i < frame.len() + panel.len() {
                panel[i - frame.len()]
            } else {
                display[i]
            },
    )
}

/// Whether a frame fills a picture that the display has room for.
pub open spec fn frame_fits(display_len: int, frame_len: int, w: int, h: int) -> bool {
    frame_len == w * h && display_len >= w * h
}

/// Put a frame on the display, its panel below it and its labels on it. A frame of
/// another size leaves the display alone.
pub fn compose(
    display: &mut [u32],
    frame: &Vec<u32>,
    w: usize,
    h: usize,
    panel: &Vec<u32>,
    labels: &Vec<Label>,
) -> (shown: bool)
    requires
        labels_fit(labels@),
        frame_fits(old(display)@.len() as int, frame@.len() as int, w as int, h as int)
            ==> frame@.len() + panel@.len() <= old(display)@.len(),
    ensures
        shown == frame_fits(old(display)@.len() as int, frame@.len() as int, w as int, h as int),
        final(display)@ == (if shown {
            all_labelled(
                stacked(old(display)@, frame@, panel@),
                w as int,
                h as int,
                labels@,
            )
        } else {
            old(display)@
        }),
        final(display)@.len() == old(display)@.len(),
{
    let ghost before = display@;
    let len: usize = display.len();
    let fits: bool = match w.checked_mul(h) {
        Some(picture) => frame.len() == picture && len >= picture,
        None => false,
    };
    if !fits {
        return false;
    }
    let n: usize = frame.len();
    let mut i: usize = 0;
    while i < n
        invariant
            i <= n,
            n == frame@.len(),
            n <= len,
            len == before.len(),
            display@.len() == before.len(),
            forall|k: int| 0 <= k < i ==> #[trigger] display@[k] == frame@[k],
            forall|k: int| i <= k < len ==> #[trigger] display@[k] == before[k],
        decreases n - i,
    {
        display[i] = frame[i];
        i = i + 1;
    }
    let m: usize = panel.len();
    let mut j: usize = 0;
    while j < m
        invariant
            j <= m,
            m == panel@.len(),
            n == frame@.len(),
            n + m <= len,
            len == before.len(),
            display@.len() == before.len(),
            forall|k: int| 0 <= k < n ==> #[trigger] display@[k] == frame@[k],
            forall|k: int| n <= k < n + j ==> #[trigger] display@[k] == panel@[k - n],
            forall|k: int| n + j <= k < len ==> #[trigger] display@[k] == before[k],
        decreases m - j,
    {
        display[n + j] = panel[j];
        j = j + 1;
    }
    assert(display@ =~= stacked(before, frame@, panel@));
    draw_labels(display, w, h, labels);
    true
}

/// The panel's rows below a picture never show the picture, nor the picture the panel:
/// below the frame the display is the panel's own pixels.
pub proof fn law_panel_lies_below_the_picture(
    display: Seq<u32>,
    frame: Seq<u32>,
    panel: Seq<u32>,
    w: int,
    h: int,
    labels: Seq<Label>,
    i: int,
)
    requires
        frame_fits(display.len() as int, frame.len() as int, w, h),
        frame.len() + panel.len() <= display.len(),
        0 <= i < panel.len(),
    ensures
        all_labelled(stacked(display, frame, panel), w, h, labels)[frame.len() + i] == panel[i],
{
    law_labels_stay_in_the_picture(
        stacked(display, frame, panel),
        w,
        h,
        labels,
        frame.len() + i,
    );
}

} // verus!
