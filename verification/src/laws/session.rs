//! What a session does next: sweeps, finds, and the ends of runs.

use std::collections::HashSet;

use vstd::prelude::*;

use crate::band_scan::{BandScan, Signal};
use crate::bands::{catalog, entry_freqs, table_gaps, ScanBands};
use crate::laws::away;
use crate::laws::tuning::{all_reached, lemma_reached};
use crate::order::{first_min, lemma_first_min};
use crate::plan::{law_plan_covers_every_channel, usable_span};
use crate::reader::fallback_standard;
use crate::scan::{
    after_detection, begin_sweep, on_packet, progress_due, scan_outcome, CoarseHit, Hop,
    PacketAction, Stage, SweepAction,
};
use crate::session::{
    live_rate, rate_differs, skip_key, AfterSweep, HopSession, Next, ScanOutcome, UsrpSession,
};
use crate::rates::{locked_rate, DemodKind};
use crate::viewer::RunLiveResult;

verus! {

/// A sweep that found something hands on the signal its best hit was taken for, whatever
/// that is; one that found nothing is empty.
pub proof fn law_find_carries_its_signal(best: Option<(u64, Signal)>, r: ScanOutcome)
    requires
        call_ensures(scan_outcome, (best,), r),
    ensures
        best is None <==> r is Empty,
        r !is Quit,
        best matches Some(hit) ==> (r matches ScanOutcome::Found(_, signal) && signal == hit.1),
{
}

/// A find is tuned to the channel of the table nearest to the best hit where one is less
/// than 15 MHz off, and to the hit itself where none is.
pub proof fn law_find_is_tuned_to_its_channel(
    hit: (u64, Signal),
    found_milli_hz: u64,
    signal: Signal,
    i: int,
)
    requires
        call_ensures(scan_outcome, (Some(hit),), ScanOutcome::Found(found_milli_hz, signal)),
        0 <= i < catalog(true).len(),
        forall|k: int|
            0 <= k < catalog(true).len() ==> (#[trigger] catalog(true)[k]).2 <= 5_945_000_000,
    ensures
        away(1000 * catalog(true)[i].2, hit.0 as int) < 15_000_000_000 ==> {
            &&& exists|k: int|
                0 <= k < catalog(true).len() && found_milli_hz == 1000 * (
                #[trigger] catalog(true)[k]).2
            &&& away(found_milli_hz as int, hit.0 as int) <= away(
                1000 * catalog(true)[i].2,
                hit.0 as int,
            )
        },
        (forall|k: int|
            0 <= k < catalog(true).len() ==> away(
                1000 * (#[trigger] catalog(true)[k]).2,
                hit.0 as int,
            ) >= 15_000_000_000) ==> found_milli_hz == hit.0,
{
    let freqs = entry_freqs(catalog(true));
    let far = table_gaps(freqs, hit.0 as int);
    lemma_first_min(far);
    let k = first_min(far);
    assert(catalog(true)[k].2 <= 5_945_000_000 && catalog(true)[i].2 <= 5_945_000_000);
    assert(far[k] == away(1000 * catalog(true)[k].2, hit.0 as int));
    assert(far[i] == away(1000 * catalog(true)[i].2, hit.0 as int));
    assert(far[k] <= far[i]);
}

/// A PAL or NTSC find reaches the decoder as what the sweep took it for, in either kind
/// of session, and the session runs at the find.
pub proof fn law_verdict_reaches_the_decoder(
    hop: &mut HopSession,
    usrp: &mut UsrpSession,
    milli_hz: u64,
    signal: Signal,
    hop_next: AfterSweep,
    usrp_next: AfterSweep,
    hop_decoded: Signal,
    usrp_decoded: Signal,
)
    requires
        call_ensures(HopSession::swept, (hop, ScanOutcome::Found(milli_hz, signal)), hop_next),
        call_ensures(UsrpSession::swept, (usrp, ScanOutcome::Found(milli_hz, signal)), usrp_next),
        call_ensures(fallback_standard, (final(hop).standard,), hop_decoded),
        call_ensures(fallback_standard, (final(usrp).standard,), usrp_decoded),
    ensures
        signal is Pal ==> hop_decoded is Pal && usrp_decoded is Pal && final(hop).standard == Some(
            Signal::Pal,
        ) && final(usrp).standard == Some(Signal::Pal),
        signal is Ntsc ==> hop_decoded is Ntsc && usrp_decoded is Ntsc && final(hop).standard
            == Some(Signal::Ntsc) && final(usrp).standard == Some(Signal::Ntsc),
        signal is Other ==> final(hop).standard is None && final(usrp).standard is None,
        hop_next == AfterSweep::Run(milli_hz),
        usrp_next == AfterSweep::Run(milli_hz),
        final(usrp).tuned_milli_hz == Some(milli_hz),
{
}

/// With no hint the decoder falls back to PAL.
pub proof fn law_decoder_falls_back_to_pal(hint: Option<Signal>, s: Signal)
    requires
        call_ensures(fallback_standard, (hint,), s),
    ensures
        s is Ntsc <==> hint == Some(Signal::Ntsc),
        s is Pal <==> hint != Some(Signal::Ntsc),
{
}

/// An empty sweep is followed by another and a quit one by none; neither changes what is
/// known of the signal.
pub proof fn law_sweep_without_a_find(
    hop: &mut HopSession,
    usrp: &mut UsrpSession,
    quit: bool,
    hop_next: AfterSweep,
    usrp_next: AfterSweep,
)
    requires
        call_ensures(
            HopSession::swept,
            (hop, if quit {
                ScanOutcome::Quit
            } else {
                ScanOutcome::Empty
            }),
            hop_next,
        ),
        call_ensures(
            UsrpSession::swept,
            (usrp, if quit {
                ScanOutcome::Quit
            } else {
                ScanOutcome::Empty
            }),
            usrp_next,
        ),
    ensures
        quit ==> hop_next is Stop && usrp_next is Stop,
        !quit ==> hop_next is SweepAgain && usrp_next is SweepAgain,
        final(hop).standard == old(hop).standard,
        final(hop).tuned_milli_hz == old(hop).tuned_milli_hz,
        final(usrp).standard == old(usrp).standard,
        final(usrp).tuned_milli_hz == old(usrp).tuned_milli_hz,
{
}

/// A packet is looked at for as long as its hop wants packets; the first of a hop
/// replaces what the tune showed, and so does every one where that is asked for.
pub proof fn law_packet_is_looked_at(
    window_alive: bool,
    hop: Option<Hop>,
    always_replace: bool,
    a: PacketAction,
)
    requires
        call_ensures(on_packet, (window_alive, hop, always_replace), a),
    ensures
        a is Quit <==> !window_alive,
        a is Drain <==> window_alive && hop is None,
        window_alive && hop is Some ==> (a matches PacketAction::Detect { replace } && replace == (
        always_replace || hop->0.first_packet)),
{
}

/// A sweep ends once every hop had its packets, and not before.
pub proof fn law_sweep_ends_when_complete(window_alive: bool, hop: Hop, a: SweepAction)
    requires
        call_ensures(after_detection, (window_alive, hop), a),
    ensures
        a is Quit <==> !window_alive,
        a is Finish <==> window_alive && hop.sweep_complete,
        a is GoOn <==> window_alive && !hop.sweep_complete,
{
}

/// A coarse sweep that came back empty is counted and repeated; one with a hit goes on to
/// the channels near it, or straight to the hit where there are none.
pub proof fn law_coarse_sweep_leads_on(passes: u64, hit: Option<CoarseHit>, s: Stage)
    requires
        call_ensures(Stage::finish_coarse, (Stage::Coarse { passes }, hit), s),
        passes < u64::MAX,
    ensures
        hit is None ==> s == (Stage::Coarse { passes: (passes + 1) as u64 }),
        hit matches Some(h) && h.candidates == 0 ==> s == (Stage::Done {
            milli_hz: hit->0.fallback_milli_hz,
            signal: hit->0.signal,
        }),
        hit matches Some(h) && h.candidates > 0 ==> s == (Stage::Fine {
            fallback_milli_hz: hit->0.fallback_milli_hz,
            signal: hit->0.signal,
        }),
{
}

/// The fine look ends at the best channel it saw, or at the coarse hit where it saw none,
/// and keeps the signal of the coarse hit.
pub proof fn law_fine_look_ends(fallback_milli_hz: u64, signal: Signal, best: Option<u64>, s: Stage)
    requires
        call_ensures(Stage::finish_fine, (Stage::Fine { fallback_milli_hz, signal }, best), s),
    ensures
        best matches Some(f) ==> s == (Stage::Done { milli_hz: f, signal }),
        best is None ==> s == (Stage::Done { milli_hz: fallback_milli_hz, signal }),
{
}

/// Progress is told every five seconds.
pub proof fn law_progress_is_told(since_last_us: u64, r: bool)
    requires
        call_ensures(progress_due, (since_last_us,), r),
    ensures
        r <==> since_last_us >= 5_000_000,
{
}

/// A session sweeps exactly where no channel was named, and starts at 25 MSPS where no
/// rate was.
pub proof fn law_session_starts(
    rate_milli_hz: Option<u64>,
    channel_milli_hz: Option<u64>,
    usrp: UsrpSession,
    hop: HopSession,
    usrp_next: Next,
    hop_next: Next,
)
    requires
        call_ensures(UsrpSession::new, (rate_milli_hz, channel_milli_hz), usrp),
        call_ensures(HopSession::new, (channel_milli_hz,), hop),
        call_ensures(UsrpSession::next, (&usrp,), usrp_next),
        call_ensures(HopSession::next, (&hop,), hop_next),
    ensures
        channel_milli_hz is None ==> usrp_next is Sweep && hop_next is Sweep,
        channel_milli_hz matches Some(f) ==> usrp_next == Next::Tune(f) && hop_next == Next::Tune(f),
        usrp.rate_milli_hz == (match rate_milli_hz {
            Some(r) => r,
            None => 25_000_000_000,
        }),
        usrp.standard is None,
        hop.standard is None,
        usrp.skipped@ == Set::<u64>::empty(),
        hop.skipped@ == Set::<u64>::empty(),
        hop.sweep_n == 0,
{
}

/// A sweep takes the next number, and the numbers go round.
pub proof fn law_sweeps_are_numbered(hop: &mut HopSession, n: u32)
    requires
        call_ensures(HopSession::begin_sweep, (hop,), n),
    ensures
        n == old(hop).sweep_n,
        n < u32::MAX ==> final(hop).sweep_n == n + 1,
        n == u32::MAX ==> final(hop).sweep_n == 0,
        final(hop).skipped == old(hop).skipped,
        final(hop).tuned_milli_hz == old(hop).tuned_milli_hz,
        final(hop).standard == old(hop).standard,
{
}

/// Skipping puts the frequency that was looked at, to the nearest hertz, on the list of
/// skips, and nothing else ever does or takes one off.
pub proof fn law_skips_are_kept(
    usrp: &mut UsrpSession,
    hop: &mut HopSession,
    result: RunLiveResult,
    center_milli_hz: u64,
    usrp_goes_on: bool,
    hop_goes_on: bool,
    hz: u64,
)
    requires
        call_ensures(UsrpSession::react, (usrp, result, center_milli_hz), usrp_goes_on),
        call_ensures(HopSession::react, (hop, result, center_milli_hz), hop_goes_on),
        old(usrp).skipped@ == old(hop).skipped@,
    ensures
        final(usrp).skipped@ == final(hop).skipped@,
        result !is SkipFrequency ==> final(hop).skipped@ == old(hop).skipped@,
        result is SkipFrequency && 1000 * hz - 500 <= center_milli_hz < 1000 * hz + 500
            ==> final(hop).skipped@ == old(hop).skipped@.insert(hz),
{
    if 1000 * hz - 500 <= center_milli_hz < 1000 * hz + 500 {
        let f = center_milli_hz as int;
        assert((2 * f + 1000) / 2000 == hz);
        assert(skip_key(f) == hz);
    }
}

/// Quitting ends a session where it stands.
pub proof fn law_quitting_ends_the_session(
    usrp: &mut UsrpSession,
    hop: &mut HopSession,
    center_milli_hz: u64,
    usrp_goes_on: bool,
    hop_goes_on: bool,
)
    requires
        call_ensures(
            UsrpSession::react,
            (usrp, RunLiveResult::UserExit, center_milli_hz),
            usrp_goes_on,
        ),
        call_ensures(HopSession::react, (hop, RunLiveResult::UserExit, center_milli_hz), hop_goes_on),
    ensures
        !usrp_goes_on,
        !hop_goes_on,
        final(usrp).tuned_milli_hz == old(usrp).tuned_milli_hz,
        final(usrp).sweeping == old(usrp).sweeping,
        final(usrp).rate_milli_hz == old(usrp).rate_milli_hz,
        final(hop).tuned_milli_hz == old(hop).tuned_milli_hz,
{
}

/// A typed channel is tuned to next, in any session, and nothing is assumed of its
/// standard.
pub proof fn law_typed_channel_is_tuned(
    usrp: &mut UsrpSession,
    hop: &mut HopSession,
    hz: u64,
    center_milli_hz: u64,
    usrp_goes_on: bool,
    hop_goes_on: bool,
)
    requires
        hz <= 18_000_000_000_000_000,
        call_ensures(
            UsrpSession::react,
            (usrp, RunLiveResult::TuneToChannel(hz), center_milli_hz),
            usrp_goes_on,
        ),
        call_ensures(
            HopSession::react,
            (hop, RunLiveResult::TuneToChannel(hz), center_milli_hz),
            hop_goes_on,
        ),
    ensures
        usrp_goes_on,
        hop_goes_on,
        final(usrp).tuned_milli_hz == Some((1000 * hz) as u64),
        !final(usrp).sweeping,
        final(usrp).standard is None,
        final(usrp).rate_milli_hz == old(usrp).rate_milli_hz,
        final(hop).tuned_milli_hz == Some((1000 * hz) as u64),
        final(hop).standard is None,
{
}

/// A signal that was lost, skipped or passed over sends a sweeping session back to its
/// sweep, and ends one that was given a channel.
pub proof fn law_lost_signal_resumes_the_sweep(
    usrp: &mut UsrpSession,
    hop: &mut HopSession,
    result: RunLiveResult,
    center_milli_hz: u64,
    usrp_goes_on: bool,
    hop_goes_on: bool,
)
    requires
        result is SignalLost || result is SkipFrequency || result is NextChannel,
        call_ensures(UsrpSession::react, (usrp, result, center_milli_hz), usrp_goes_on),
        call_ensures(HopSession::react, (hop, result, center_milli_hz), hop_goes_on),
    ensures
        usrp_goes_on == old(usrp).auto_scan,
        hop_goes_on == old(hop).auto_scan,
        old(usrp).auto_scan ==> final(usrp).sweeping && final(usrp).tuned_milli_hz is None,
        old(hop).auto_scan ==> final(hop).tuned_milli_hz is None,
        !old(usrp).auto_scan ==> final(usrp).tuned_milli_hz == old(usrp).tuned_milli_hz,
        !old(hop).auto_scan ==> final(hop).tuned_milli_hz == old(hop).tuned_milli_hz,
        final(usrp).rate_milli_hz == old(usrp).rate_milli_hz,
        final(usrp).standard == old(usrp).standard,
        final(hop).standard == old(hop).standard,
{
}

/// Overruns take a USRP 5 MSPS down as long as it runs above 16; a session on a named
/// channel goes on just as long. A stream session does not step down.
pub proof fn law_overruns_step_down(
    usrp: &mut UsrpSession,
    hop: &mut HopSession,
    center_milli_hz: u64,
    usrp_goes_on: bool,
    hop_goes_on: bool,
)
    requires
        call_ensures(
            UsrpSession::react,
            (usrp, RunLiveResult::TooManyOverruns, center_milli_hz),
            usrp_goes_on,
        ),
        call_ensures(
            HopSession::react,
            (hop, RunLiveResult::TooManyOverruns, center_milli_hz),
            hop_goes_on,
        ),
    ensures
        old(usrp).rate_milli_hz > 16_000_000_000 ==> final(usrp).rate_milli_hz == old(
            usrp,
        ).rate_milli_hz - 5_000_000_000,
        old(usrp).rate_milli_hz <= 16_000_000_000 ==> final(usrp).rate_milli_hz == old(
            usrp,
        ).rate_milli_hz,
        usrp_goes_on == (old(usrp).auto_scan || old(usrp).rate_milli_hz > 16_000_000_000),
        old(usrp).auto_scan ==> final(usrp).sweeping && final(usrp).tuned_milli_hz is None,
        !old(usrp).auto_scan ==> final(usrp).tuned_milli_hz == old(usrp).tuned_milli_hz,
        hop_goes_on == old(hop).auto_scan,
{
}

/// What a session does next follows from where it stands: a tuned one that is not
/// sweeping runs, any other sweeps.
pub proof fn law_session_runs_where_it_is_tuned(
    usrp: &UsrpSession,
    hop: &HopSession,
    usrp_next: Next,
    hop_next: Next,
)
    requires
        call_ensures(UsrpSession::next, (usrp,), usrp_next),
        call_ensures(HopSession::next, (hop,), hop_next),
    ensures
        usrp_next is Sweep <==> usrp.sweeping || usrp.tuned_milli_hz is None,
        usrp_next matches Next::Tune(f) ==> usrp.tuned_milli_hz == Some(f),
        hop_next is Sweep <==> hop.tuned_milli_hz is None,
        hop_next matches Next::Tune(f) ==> hop.tuned_milli_hz == Some(f),
{
}

/// A rate that was named is kept for the picture; any other is narrowed to the channel.
pub proof fn law_named_rate_is_kept(
    named: bool,
    scan_rate_milli_hz: u64,
    deviation_milli_hz: u64,
    demod: DemodKind,
    r: u64,
)
    requires
        call_ensures(live_rate, (named, scan_rate_milli_hz, deviation_milli_hz, demod), r),
    ensures
        named ==> r == scan_rate_milli_hz,
        !named ==> r == locked_rate(scan_rate_milli_hz as int, deviation_milli_hz as int, demod),
{
}

/// Two rates differ where they are more than a hertz apart.
pub proof fn law_rates_differ_above_a_hertz(using: u64, requested: u64, r: bool)
    requires
        call_ensures(rate_differs, (using, requested), r),
    ensures
        r <==> away(using as int, requested as int) > 1_000,
{
}

/// A sweep begins with a plan for its bands at four fifths of its rate, which is what the
/// panel then shows; what the panel saw before stays.
pub proof fn law_sweep_begins(
    band: &mut BandScan,
    rate_milli_hz: u64,
    bands: ScanBands,
    skipped: &HashSet<u64>,
    hops: Vec<i64>,
)
    requires
        call_ensures(begin_sweep, (band, rate_milli_hz, bands, skipped), hops),
    ensures
        final(band).tunes@ == hops@,
        final(band).span_milli_hz == 4 * rate_milli_hz as int / 5,
        all_reached(entry_freqs(catalog(bands is All)), hops@, 4 * rate_milli_hz as int / 5),
        final(band).energies@ == old(band).energies@,
        final(band).detections@ == old(band).detections@,
        final(band).lock_milli_hz == old(band).lock_milli_hz,
        final(band).last_sweep_end == old(band).last_sweep_end,
{
    let span = usable_span(rate_milli_hz as int);
    let channels = entry_freqs(catalog(bands is All));
    assert(span == 4 * rate_milli_hz as int / 5);
    law_plan_covers_every_channel(channels, span);
    lemma_reached(channels, hops@, span);
}

/// A USRP session told of a find is tuned to it and knows what it was taken for.
pub proof fn law_find_is_remembered(usrp: &mut UsrpSession, milli_hz: u64, signal: Signal)
    requires
        call_ensures(UsrpSession::found, (usrp, milli_hz, signal), ()),
    ensures
        final(usrp).tuned_milli_hz == Some(milli_hz),
        signal is Pal || signal is Ntsc ==> final(usrp).standard == Some(signal),
        signal is Other ==> final(usrp).standard is None,
        final(usrp).rate_milli_hz == old(usrp).rate_milli_hz,
        final(usrp).skipped == old(usrp).skipped,
{
}

} // verus!
