//! What the keyboard does, and what the picture window says and shows.

use vstd::prelude::*;

use crate::band_scan::PanelMode;
use crate::bands::{carrier_label, catalog, named_channel};
use crate::input::{
    char_of, feed_keys, key_to_char, moving_from, opening_from, step_typing, typed_with,
    ChannelInputState, Entry, Key, Outcome, Typed,
};
use crate::laws::away;
use crate::laws::drawing::law_frequency_is_shown;
use crate::raster::text_on_bg;
use crate::text::{decimal, parts_of_mhz};
use crate::viewer::{
    all_labelled, compose, display_text, draw_labels, flash_shown, is_renamed, label_of, mhz2_text,
    panel_after, panel_rows, picture_labels, push_mhz2, run_result, step_window, toggled,
    window_title, Label, RunLiveResult, WindowEvents, WindowStep,
};

verus! {

/// A letter key types its letter, a digit of either pad its digit, and no other key types
/// anything.
pub proof fn law_keys_type_what_they_say(k: Key, c: Option<char>)
    requires
        call_ensures(key_to_char, (k,), c),
    ensures
        k is A ==> c == Some('A'),
        k is B ==> c == Some('B'),
        k is C ==> c == Some('C'),
        k is D ==> c == Some('D'),
        k is E ==> c == Some('E'),
        k is F ==> c == Some('F'),
        k is G ==> c == Some('G'),
        k is H ==> c == Some('H'),
        k is I ==> c == Some('I'),
        k is J ==> c == Some('J'),
        k is K ==> c == Some('K'),
        k is L ==> c == Some('L'),
        k is M ==> c == Some('M'),
        k is N ==> c == Some('N'),
        k is O ==> c == Some('O'),
        k is P ==> c == Some('P'),
        k is Q ==> c == Some('Q'),
        k is R ==> c == Some('R'),
        k is S ==> c == Some('S'),
        k is T ==> c == Some('T'),
        k is U ==> c == Some('U'),
        k is V ==> c == Some('V'),
        k is W ==> c == Some('W'),
        k is X ==> c == Some('X'),
        k is Y ==> c == Some('Y'),
        k is Z ==> c == Some('Z'),
        k is Key0 || k is NumPad0 ==> c == Some('0'),
        k is Key1 || k is NumPad1 ==> c == Some('1'),
        k is Key2 || k is NumPad2 ==> c == Some('2'),
        k is Key3 || k is NumPad3 ==> c == Some('3'),
        k is Key4 || k is NumPad4 ==> c == Some('4'),
        k is Key5 || k is NumPad5 ==> c == Some('5'),
        k is Key6 || k is NumPad6 ==> c == Some('6'),
        k is Key7 || k is NumPad7 ==> c == Some('7'),
        k is Key8 || k is NumPad8 ==> c == Some('8'),
        k is Key9 || k is NumPad9 ==> c == Some('9'),
        k is Escape || k is Backspace || k is Enter || k is Other ==> c is None,
{
}

/// A window goes exactly where it was closed, or where `Q` or Escape was pressed with no
/// channel being typed; then nothing else happens.
pub proof fn law_window_closes(input: ChannelInputState, ev: &WindowEvents, has_band: bool, step: WindowStep)
    requires
        call_ensures(step_window, (input, ev, has_band), step),
    ensures
        step.close <==> !ev.open || (input is Idle && (ev.pressed@.contains(Key::Q)
            || ev.pressed@.contains(Key::Escape))),
        step.close ==> step.exit == 0 && !step.toggle_denoise && !step.toggle_panel && step.flash
            is None,
{
}

/// A held `S` ends the run as skipped, and a held `N` as passed over, where no channel is
/// typed and the window stays; `S` comes first.
pub proof fn law_skip_and_next(input: ChannelInputState, ev: &WindowEvents, has_band: bool, step: WindowStep)
    requires
        call_ensures(step_window, (input, ev, has_band), step),
        !step.close,
    ensures
        step.exit == 3 <==> input is Idle && ev.s_down,
        step.exit == 4 <==> input is Idle && ev.n_down && !ev.s_down,
        step.exit == 0 || step.exit == 3 || step.exit == 4 || step.exit == 5,
{
}

/// While no channel is typed and the run neither quits nor skips, a frame asks for the
/// next panel mode exactly where `B` was pressed in it and there is a panel, and for the
/// denoiser exactly where `D` was, whatever else was pressed.
pub proof fn law_toggles_follow_their_keys(
    input: ChannelInputState,
    ev: &WindowEvents,
    has_band: bool,
    step: WindowStep,
)
    requires
        call_ensures(step_window, (input, ev, has_band), step),
        input is Idle,
        !step.close,
        step.exit != 3,
    ensures
        step.toggle_panel <==> has_band && ev.pressed@.contains(Key::B),
        step.toggle_denoise <==> ev.pressed@.contains(Key::D),
{
}

/// With one key pressed in an open window, nothing held and nothing typed yet, `B` alone
/// cycles the panel, `D` alone the denoiser, `C` alone opens the channel entry, and any
/// other key that does not quit does nothing.
pub proof fn law_single_key(ev: &WindowEvents, k: Key, step: WindowStep)
    requires
        call_ensures(step_window, (ChannelInputState::Idle, ev, true), step),
        ev.open,
        !ev.s_down,
        !ev.n_down,
        ev.pressed@ == seq![k],
        k != Key::Q,
        k != Key::Escape,
    ensures
        !step.close,
        step.exit == 0,
        step.flash is None,
        step.toggle_panel <==> k is B,
        step.toggle_denoise <==> k is D,
        step.input is WaitingFirst <==> k is C,
        step.input is Idle <==> k !is C,
{
    assert(ev.pressed@[0] == k);
    reveal_with_fuel(opening_from, 2);
}

/// While a channel is typed, in an open window, nothing closes, skips or toggles.
pub proof fn law_typing_is_undisturbed(
    input: ChannelInputState,
    ev: &WindowEvents,
    has_band: bool,
    step: WindowStep,
)
    requires
        call_ensures(step_window, (input, ev, has_band), step),
        input !is Idle,
        ev.open,
    ensures
        !step.close,
        !step.toggle_denoise,
        !step.toggle_panel,
        step.exit == 0 || step.exit == 5,
{
}

/// What the keys of a frame make of a channel entry is what the window makes of it: a
/// named channel ends the run to be tuned to, an unknown one is told to the operator.
pub proof fn law_window_follows_the_entry(
    input: ChannelInputState,
    ev: &WindowEvents,
    has_band: bool,
    step: WindowStep,
    fed: (ChannelInputState, Typed),
)
    requires
        call_ensures(step_window, (input, ev, has_band), step),
        input !is Idle,
        ev.open,
        call_ensures(feed_keys, (input, &ev.pressed), fed),
    ensures
        step.input@ == fed.0@,
        step.exit == 5 <==> fed.1 is Tune,
        fed.1 matches Typed::Tune(f) ==> step.tune_hz == f,
        fed.1 matches Typed::Unknown(m) ==> (step.flash matches Some(s) && s@ == m@),
        fed.1 !is Unknown ==> step.flash is None,
{
    assert(fed.1@ is Tune <==> fed.1 is Tune);
}

/// With no entry open the keys enter nothing.
pub proof fn law_idle_entry_stays(keys: &Vec<Key>, r: (ChannelInputState, Typed))
    requires
        call_ensures(feed_keys, (ChannelInputState::Idle, keys), r),
    ensures
        r.0 is Idle,
        r.1 is Nothing,
{
}

proof fn lemma_opening(keys: Seq<Key>, i: int, from: int)
    requires
        0 <= from <= i <= keys.len(),
        forall|j: int|
            from <= j < i ==> (#[trigger] keys[j]) is C || !(keys[j] is Escape || (char_of(
                keys[j],
            ) matches Some(c) && 'A' <= c <= 'Z')),
        i < keys.len() ==> keys[i] !is C && (keys[i] is Escape || (char_of(keys[i]) matches Some(c)
            && 'A' <= c <= 'Z')),
    ensures
        opening_from(keys, from) == i,
    decreases i - from,
{
    if from < i {
        assert(keys[from] is C || !(keys[from] is Escape));
        lemma_opening(keys, i, from + 1);
    }
}

proof fn lemma_moving(keys: Seq<Key>, i: int, from: int)
    requires
        0 <= from <= i <= keys.len(),
        forall|j: int| from <= j < i ==> (#[trigger] keys[j]) is Other,
        i < keys.len() ==> keys[i] !is Other,
    ensures
        moving_from(keys, from) == i,
    decreases i - from,
{
    if from < i {
        assert(keys[from] is Other);
        lemma_moving(keys, i, from + 1);
    }
}

/// While the band letter is awaited, the first letter other than `C` begins the name and
/// Escape gives up; the first of these decides. Where there is neither, the wait goes on.
pub proof fn law_first_letter_begins_the_name(keys: &Vec<Key>, r: (ChannelInputState, Typed), i: int)
    requires
        call_ensures(feed_keys, (ChannelInputState::WaitingFirst, keys), r),
        0 <= i <= keys@.len(),
        forall|j: int|
            0 <= j < i ==> (#[trigger] keys@[j]) is C || !(keys@[j] is Escape || (char_of(
                keys@[j],
            ) matches Some(c) && 'A' <= c <= 'Z')),
        i < keys@.len() ==> keys@[i] !is C && (keys@[i] is Escape || (char_of(
            keys@[i],
        ) matches Some(c) && 'A' <= c <= 'Z')),
    ensures
        r.1 is Nothing,
        i == keys@.len() ==> r.0 is WaitingFirst,
        i < keys@.len() && keys@[i] is Escape ==> r.0 is Idle,
        i < keys@.len() && keys@[i] !is Escape ==> r.0@ == Entry::Typing(
            seq![char_of(keys@[i])->0],
        ),
{
    lemma_opening(keys@, i, 0);
}

/// Whether a channel of the table has a longer name that begins with a text.
pub open spec fn goes_on(text: Seq<char>) -> bool {
    exists|i: int|
        0 <= i < catalog(true).len() && (#[trigger] catalog(true)[i]).0.len() > text.len()
            && catalog(true)[i].0.take(text.len() as int) == text
}

/// While a name is typed, the first key that is read decides. Escape gives up. Backspace
/// takes the last character back. A character is added: where a longer name begins with
/// the text the entry waits on, else the channel of that name is tuned to, and where there
/// is none the operator is told and the entry is given up. Enter settles for the text as
/// it is.
pub proof fn law_typed_name(name: String, keys: &Vec<Key>, r: (ChannelInputState, Typed), i: int)
    requires
        call_ensures(feed_keys, (ChannelInputState::Typing(name), keys), r),
        1 <= name@.len() <= 2,
        0 <= i <= keys@.len(),
        forall|j: int| 0 <= j < i ==> (#[trigger] keys@[j]) is Other,
        i < keys@.len() ==> keys@[i] !is Other,
    ensures
        i == keys@.len() ==> r.0@ == Entry::Typing(name@) && r.1 is Nothing,
        i < keys@.len() && keys@[i] is Escape ==> r.0 is Idle && r.1 is Nothing,
        i < keys@.len() && keys@[i] is Backspace ==> r.1 is Nothing && r.0@ == (if name@.len() == 1 {
            Entry::WaitingFirst
        } else {
            Entry::Typing(name@.take(name@.len() - 1))
        }),
        i < keys@.len() && (keys@[i] is Enter || char_of(keys@[i]) is Some) ==> {
            let text = match char_of(keys@[i]) {
                Some(c) => name@.push(c),
                None => name@,
            };
            if keys@[i] !is Enter && goes_on(text) {
                r.0@ == Entry::Typing(text) && r.1 is Nothing
            } else {
                match named_channel(text) {
                    Some(f) => r.1@ == Outcome::Tune(f),
                    None => r.0 is Idle && r.1@ == Outcome::Unknown("Unknown channel: "@ + text),
                }
            }
        },
{
    lemma_moving(keys@, i, 0);
    if i < keys@.len() {
        let text = typed_with(name@, keys@[i]);
        assert(goes_on(text) <==> crate::bands::has_longer_name(catalog(true), text));
        assert(name@.take(name@.len() - 1) =~= name@.drop_last());
    }
    assert(r.1@ is Nothing <==> r.1 is Nothing);
    assert(r.0@ is Idle <==> r.0 is Idle);
}

/// A single step of typing does the same with what the table said of the text.
pub proof fn law_typing_step(
    name: &str,
    k: Key,
    exact: Option<u64>,
    longer: bool,
    r: (ChannelInputState, Typed),
)
    requires
        call_ensures(step_typing, (name, k, exact, longer), r),
        char_of(k) is Some,
    ensures
        longer ==> r.0@ == Entry::Typing(name@.push(char_of(k)->0)) && r.1@ is Nothing,
        !longer && exact is Some ==> r.1@ == Outcome::Tune(exact->0),
        !longer && exact is None ==> r.0@ is Idle && r.1@ == Outcome::Unknown(
            "Unknown channel: "@ + name@.push(char_of(k)->0),
        ),
{
}

/// Each number a run ends with stands for one outcome.
pub proof fn law_exit_numbers(code: u8, tune_hz: u64, r: RunLiveResult)
    requires
        call_ensures(run_result, (code, tune_hz), r),
    ensures
        r is SignalLost <==> code == 1,
        r is TooManyOverruns <==> code == 2,
        r is SkipFrequency <==> code == 3,
        r is NextChannel <==> code == 4,
        r is TuneToChannel <==> code == 5,
        code == 5 ==> r == RunLiveResult::TuneToChannel(tune_hz),
{
}

/// One request toggles once, and no request leaves things as they are.
pub proof fn law_requests_toggle(
    on: bool,
    mode: PanelMode,
    requested: bool,
    after: bool,
    mode_after: PanelMode,
)
    requires
        call_ensures(toggled, (on, requested), after),
        call_ensures(panel_after, (mode, requested), mode_after),
    ensures
        requested ==> after == !on,
        !requested ==> after == on && mode_after == mode,
        requested && mode is Strip ==> mode_after is Full,
        requested && mode is Full ==> mode_after is Off,
        requested && mode is Off ==> mode_after is Strip,
{
}

/// A message stays for two seconds.
pub proof fn law_flash_stays_two_seconds(age_us: u64, r: bool)
    requires
        call_ensures(flash_shown, (age_us,), r),
    ensures
        r <==> age_us < 2_000_000,
{
}

/// A measured carrier renames the channel where it is shown more than half a megahertz
/// from where the radio is tuned.
pub proof fn law_renamed_above_half_a_megahertz(
    refined: Option<u64>,
    display_milli_hz: i64,
    tuned_milli_hz: i64,
    r: bool,
)
    requires
        call_ensures(is_renamed, (refined, display_milli_hz, tuned_milli_hz), r),
    ensures
        r <==> refined is Some && away(display_milli_hz as int, tuned_milli_hz as int) > 500_000_000,
{
}

/// A frequency is labelled by the channel at its nearest megahertz.
pub proof fn law_label_of_the_nearest_megahertz(milli_hz: i64, r: Option<String>, mhz: u64)
    requires
        call_ensures(label_of, (milli_hz,), r),
        1_000_000_000 * mhz - 500_000_000 <= milli_hz < 1_000_000_000 * mhz + 500_000_000,
    ensures
        milli_hz < 0 ==> r is None,
        milli_hz >= 0 ==> match carrier_label((1_000_000 * mhz) as u64) {
            Some(text) => r matches Some(s) && s@ == text,
            None => r is None,
        },
{
    if milli_hz >= 0 {
        let f = milli_hz as int;
        assert((2 * f + 1_000_000_000) / 2_000_000_000 == mhz);
    }
}

/// A window's title names the standard, then the channel, or the frequency where it has
/// no label. The text in the picture adds the bandwidth mark, and a mark while the
/// denoiser is on.
pub proof fn law_titles(
    is_pal: bool,
    label: &Option<String>,
    milli_hz: i64,
    denoise: bool,
    title: String,
    text: String,
)
    requires
        call_ensures(window_title, (is_pal, label, milli_hz), title),
        call_ensures(display_text, (is_pal, label, milli_hz, denoise), text),
    ensures
        title@ == (if is_pal {
            "PAL"@
        } else {
            "NTSC"@
        }) + " · "@ + (match *label {
            Some(s) => "Channel "@ + s@,
            None => mhz2_text(milli_hz as int) + " MHz"@,
        }),
        text@ == title@ + " [BW]"@ + (if denoise {
            " DN"@
        } else {
            Seq::empty()
        }),
{
}

/// The picture carries its line at the top left, the keys at the bottom, with the panel's
/// key where there is a panel, and below the line the prompt of an open entry and the
/// message of the moment.
pub proof fn law_picture_labels(
    line: String,
    h: usize,
    has_band: bool,
    input: &ChannelInputState,
    flash: Option<String>,
    labels: Vec<Label>,
)
    requires
        call_ensures(picture_labels, (line, h, has_band, input, flash), labels),
    ensures
        labels@.len() == 2 + (if input is Idle {
            0int
        } else {
            1
        }) + (if flash is None {
            0int
        } else {
            1
        }),
        labels@[0].text@ == line@ && labels@[0].x == 10 && labels@[0].y == 10 && labels@[0].color
            == 0xff00ff00 && labels@[0].ground == 0xff000000,
        labels@[1].text@ == (if has_band {
            "Q:Quit  S:Skip  N:Next  C:Channel  D:Denoise  B:Band"@
        } else {
            "Q:Quit  S:Skip  N:Next  C:Channel  D:Denoise"@
        }),
        labels@[1].x == 10 && labels@[1].y == (if h > 20 {
            h - 20
        } else {
            0
        }) && labels@[1].color == 0xffaaaaaa && labels@[1].ground == 0x80000000,
        input is WaitingFirst ==> labels@[2].text@ == "CH: __"@,
        *input matches ChannelInputState::Typing(name) ==> labels@[2].text@ == "CH: "@ + name@
            + "_  ENTER TO TUNE"@,
        input !is Idle ==> labels@[2].x == 10 && labels@[2].y == 30 && labels@[2].color == 0xffffff00
            && labels@[2].ground == 0xcc000000,
        flash matches Some(s) ==> labels@.last().text@ == s@ && labels@.last().x == 10
            && labels@.last().y == 30 && labels@.last().color == 0xffff4444
            && labels@.last().ground == 0xcc000000,
{
}

/// The panel below a picture gets the rows it wants, as far as the buffer has them.
pub proof fn law_panel_gets_its_rows(display_len: usize, w: usize, h: usize, wanted: usize, rows: usize)
    requires
        call_ensures(panel_rows, (display_len, w, h, wanted), rows),
        0 < w,
        w * h <= display_len,
    ensures
        rows <= wanted,
        w * (h + rows) <= display_len,
        rows < wanted ==> w * (h + rows + 1) > display_len,
{
    let q = display_len as int / w as int;
    vstd::arithmetic::div_mod::lemma_fundamental_div_mod(display_len as int, w as int);
    assert(w * h + w * rows == w * (h + rows)) by (nonlinear_arith);
    if rows < wanted {
        assert(h <= q) by (nonlinear_arith)
            requires
                w * h <= display_len,
                display_len < w * q + w,
                0 < w,
        ;
        assert(rows == q - h);
        assert(w * (q + 1) == w * q + w) by (nonlinear_arith);
    }
}

/// A frame of the window's size is shown at the top with the panel right below it; any
/// other frame leaves the window as it was.
pub proof fn law_frame_is_shown(
    display: &mut [u32],
    frame: &Vec<u32>,
    w: usize,
    h: usize,
    panel: &Vec<u32>,
    labels: &Vec<Label>,
    shown: bool,
    i: int,
)
    requires
        call_ensures(compose, (display, frame, w, h, panel, labels), shown),
        labels@.len() == 0,
        0 <= i < old(display)@.len(),
    ensures
        shown <==> frame@.len() == w * h && old(display)@.len() >= w * h,
        !shown ==> final(display)@ == old(display)@,
        shown && i < frame@.len() ==> final(display)@[i] == frame@[i],
        shown && frame@.len() <= i < frame@.len() + panel@.len() ==> final(display)@[i] == panel@[i
            - frame@.len()],
        shown && i >= frame@.len() + panel@.len() ==> final(display)@[i] == old(display)@[i],
{
    reveal_with_fuel(all_labelled, 2);
}

/// Labels are drawn one after the other, each as a text on its ground.
pub proof fn law_labels_are_drawn_in_order(
    buf: &mut [u32],
    most: &mut [u32],
    w: usize,
    h: usize,
    labels: &Vec<Label>,
    front: &Vec<Label>,
)
    requires
        labels@.len() > 0,
        front@ == labels@.drop_last(),
        old(most)@ == old(buf)@,
        call_ensures(draw_labels, (buf, w, h, labels), ()),
        call_ensures(draw_labels, (most, w, h, front), ()),
    ensures
        final(buf)@ == text_on_bg(
            final(most)@,
            w as int,
            h as int,
            labels@.last().x as int,
            labels@.last().y as int,
            labels@.last().text@,
            labels@.last().color,
            labels@.last().ground,
        ),
{
}

/// A frame that is shown carries its labels on top of what it is without them.
pub proof fn law_labels_lie_on_the_frame(
    display: &mut [u32],
    bare: &mut [u32],
    labelled: &mut [u32],
    frame: &Vec<u32>,
    w: usize,
    h: usize,
    panel: &Vec<u32>,
    labels: &Vec<Label>,
    none: &Vec<Label>,
)
    requires
        call_ensures(compose, (display, frame, w, h, panel, labels), true),
        call_ensures(compose, (bare, frame, w, h, panel, none), true),
        none@.len() == 0,
        old(bare)@ == old(display)@,
        old(labelled)@ == final(bare)@,
        call_ensures(draw_labels, (labelled, w, h, labels), ()),
    ensures
        final(display)@ == final(labelled)@,
{
    reveal_with_fuel(all_labelled, 2);
}

/// A frequency is written in megahertz with two decimal places, within six tenths of the
/// last, and with a sign below zero.
pub proof fn law_frequency_text(milli_hz: i64, n: u64)
    requires
        -10_000_000_000_000_000 <= milli_hz <= 10_000_000_000_000_000,
        call_ensures(
            parts_of_mhz,
            (
                if milli_hz < 0 {
                    (-milli_hz) as u128
                } else {
                    milli_hz as u128
                },
                100u128,
            ),
            n,
        ),
    ensures
        away(n * 1_000_000_000, 100 * away(milli_hz as int, 0)) <= 600_000_000,
        mhz2_text(milli_hz as int) == (if milli_hz < 0 {
            "-"@
        } else {
            Seq::empty()
        }) + decimal(n as int / 100) + "."@ + decimal(n as int / 10 % 10) + decimal(n as int % 10),
{
    law_frequency_is_shown(
        if milli_hz < 0 {
            (-milli_hz) as u128
        } else {
            milli_hz as u128
        },
        100,
        n,
    );
    let tail = decimal(n as int / 100) + "."@ + decimal(n as int / 10 % 10) + decimal(
        n as int % 10,
    );
    assert(Seq::<char>::empty() + decimal(n as int / 100) + "."@ + decimal(n as int / 10 % 10)
        + decimal(n as int % 10) =~= tail);
    assert("-"@ + tail =~= "-"@ + decimal(n as int / 100) + "."@ + decimal(n as int / 10 % 10)
        + decimal(n as int % 10));
}

/// The text of a frequency is what is appended for it.
pub proof fn law_frequency_is_appended(text: &mut String, milli_hz: i64)
    requires
        call_ensures(push_mhz2, (text, milli_hz), ()),
    ensures
        final(text)@ == old(text)@ + mhz2_text(milli_hz as int),
{
}

} // verus!
