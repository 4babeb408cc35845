//! What a receiver backend does between runs of the picture window: tune, sweep, skip,
//! step down, or stop.

use std::collections::HashSet;

use vstd::prelude::*;

use crate::band_scan::Signal;
use crate::order::{gap, round_div};
use crate::rates::{locked_capture_rate, locked_rate, DemodKind};
use crate::reader::fallback;
use crate::viewer::RunLiveResult;

verus! {

/// Sample rate of the USRP where none is asked for, in millihertz.
pub const USRP_DEFAULT_RATE_MILLI_HZ: u64 = 25_000_000_000;

/// The USRP steps its rate down only from above this.
pub const USRP_STEP_FLOOR_MILLI_HZ: u64 = 16_000_000_000;

/// How far the USRP steps its rate down.
pub const USRP_STEP_MILLI_HZ: u64 = 5_000_000_000;

/// Sample rate of the Aaronia where none is asked for, in millihertz.
pub const AARONIA_DEFAULT_RATE_MILLI_HZ: u64 = 61_440_000_000;

/// Highest frequency that can be tuned to, in hertz.
pub const MAX_TUNE_HZ: u64 = 18_000_000_000_000_000;

/// What a session wants done next.
#[derive(Debug, Clone, Copy, PartialEq, Eq, Structural)]
pub enum Next {
    /// Tune to this frequency, in millihertz.
    Tune(u64),
    /// Sweep the band for a signal.
    Sweep,
}

/// The key a frequency is skipped by: whole hertz.
pub open spec fn skip_key(milli_hz: int) -> u64 {
    round_div(milli_hz, 1000) as u64
}

fn key_of(milli_hz: u64) -> (k: u64)
    ensures
        k == skip_key(milli_hz as int),
{
    let k: u64 = (milli_hz / 500 + 1) / 2;
    proof {
        let m = milli_hz as int;
        assert((2 * m + 1000) / 2000 == (m / 500 + 1) / 2);
        assert(round_div(m, 1000) == (2 * m + 1000) / 2000);
    }
    k
}

/// The skipped frequencies after a run at `center_milli_hz` ended.
pub open spec fn skips_with(
    skipped: Set<u64>,
    result: RunLiveResult,
    center_milli_hz: int,
) -> Set<u64> {
    if result is SkipFrequency {
        skipped.insert(skip_key(center_milli_hz))
    } else {
        skipped
    }
}

/// The skipped frequencies after several runs, each given by how it ended and its
/// centre.
pub open spec fn skips_after(skipped: Set<u64>, runs: Seq<(RunLiveResult, int)>) -> Set<u64>
    decreases runs.len(),
{
    if runs.len() == 0 {
        skipped
    } else {
        skips_with(skips_after(skipped, runs.drop_last()), runs.last().0, runs.last().1)
    }
}

/// A skipped frequency stays skipped for the rest of the session, whatever happens
/// after, and nothing else is ever skipped.
pub proof fn law_skips_last(skipped: Set<u64>, runs: Seq<(RunLiveResult, int)>, key: u64)
    ensures
        skips_after(skipped, runs).contains(key) == (skipped.contains(key) || exists|i: int|
            0 <= i < runs.len() && (#[trigger] runs[i]).0 is SkipFrequency && skip_key(runs[i].1)
                == key),
    decreases runs.len(),
{
    if runs.len() > 0 {
        let before = runs.drop_last();
        let n = runs.len() - 1;
        law_skips_last(skipped, before, key);
        assert(forall|i: int| 0 <= i < n ==> #[trigger] runs[i] == before[i]);
        if skips_after(skipped, before).contains(key) && !skipped.contains(key) {
            let i = choose|i: int|
                0 <= i < before.len() && (#[trigger] before[i]).0 is SkipFrequency && skip_key(
                    before[i].1,
                ) == key;
            assert(runs[i].0 is SkipFrequency);
        }
        if runs[n].0 is SkipFrequency && skip_key(runs[n].1) == key {
            assert(runs.last() == runs[n]);
        }
    }
}

/// The USRP's rate after a run ended.
pub open spec fn rate_after(rate_milli_hz: int, result: RunLiveResult) -> int {
    if result is TooManyOverruns && rate_milli_hz > USRP_STEP_FLOOR_MILLI_HZ {
        rate_milli_hz - USRP_STEP_MILLI_HZ
    } else {
        rate_milli_hz
    }
}

/// The USRP's rate after several runs.
pub open spec fn rate_after_all(rate_milli_hz: int, results: Seq<RunLiveResult>) -> int
    decreases results.len(),
{
    if results.len() == 0 {
        rate_milli_hz
    } else {
        rate_after(rate_after_all(rate_milli_hz, results.drop_last()), results.last())
    }
}

/// Overruns only ever lower the rate, and never below one step under the floor, or
/// below where it began.
pub proof fn law_stepping_down_stops(rate_milli_hz: int, results: Seq<RunLiveResult>)
    ensures
        rate_after_all(rate_milli_hz, results) <= rate_milli_hz,
        rate_after_all(rate_milli_hz, results) == rate_milli_hz || rate_after_all(
            rate_milli_hz,
            results,
        ) > USRP_STEP_FLOOR_MILLI_HZ - USRP_STEP_MILLI_HZ,
    decreases results.len(),
{
    if results.len() > 0 {
        law_stepping_down_stops(rate_milli_hz, results.drop_last());
    }
}

/// A session of the USRP backend.
pub struct UsrpSession {
    /// Whether no channel was named, so that the band is swept.
    pub auto_scan: bool,
    pub rate_milli_hz: u64,
    pub sweeping: bool,
    pub tuned_milli_hz: Option<u64>,
    /// What the sweep classified the chosen signal as. It is carried into the live
    /// decode.
    pub standard: Option<Signal>,
    pub skipped: HashSet<u64>,
}

impl UsrpSession {
    /// A session that does not sweep has a frequency, and one with a named channel
    /// never sweeps.
    pub open spec fn wf(&self) -> bool {
        &&& !self.sweeping ==> self.tuned_milli_hz is Some
        &&& !self.auto_scan ==> !self.sweeping
    }

    /// Begin with the operator's rate and channel, if given.
    pub fn new(rate_milli_hz: Option<u64>, channel_milli_hz: Option<u64>) -> (s: UsrpSession)
        ensures
            s.wf(),
            s.auto_scan == (channel_milli_hz is None),
            s.sweeping == s.auto_scan,
            s.tuned_milli_hz == channel_milli_hz,
            s.standard is None,
            s.rate_milli_hz == (match rate_milli_hz {
                Some(r) => r,
                None => USRP_DEFAULT_RATE_MILLI_HZ,
            }),
            s.skipped@ == Set::<u64>::empty(),
    {
        broadcast use vstd::std_specs::hash::group_hash_axioms;

        let auto_scan: bool = channel_milli_hz.is_none();
        UsrpSession {
            auto_scan,
            rate_milli_hz: match rate_milli_hz {
                Some(r) => r,
                None => USRP_DEFAULT_RATE_MILLI_HZ,
            },
            sweeping: auto_scan,
            tuned_milli_hz: channel_milli_hz,
            standard: None,
            skipped: HashSet::new(),
        }
    }

    /// What to do next.
    pub open spec fn wanted(&self) -> Next {
        match self.tuned_milli_hz {
            Some(f) => if self.sweeping {
                Next::Sweep
            } else {
                Next::Tune(f)
            },
            None => Next::Sweep,
        }
    }

    /// What to do next. A session that does not sweep always has a frequency.
    pub fn next(&self) -> (n: Next)
        requires
            self.wf(),
        ensures
            n == self.wanted(),
            !self.auto_scan ==> n is Tune,
    {
        if self.sweeping {
            return Next::Sweep;
        }
        match self.tuned_milli_hz {
            Some(f) => Next::Tune(f),
            None => Next::Sweep,
        }
    }

    /// The sweep settled on a signal: this run is at its frequency, and its verdict on
    /// the standard comes along.
    pub fn found(&mut self, milli_hz: u64, signal: Signal)
        requires
            old(self).wf(),
        ensures
            final(self).wf(),
            *final(self) == (UsrpSession {
                tuned_milli_hz: Some(milli_hz),
                standard: verdict(signal),
                ..*old(self)
            }),
    {
        self.tuned_milli_hz = Some(milli_hz);
        self.standard = verdict_on(signal);
    }

    /// The sweep ended. Says what to do with what it came back with.
    pub fn swept(&mut self, outcome: ScanOutcome) -> (next: AfterSweep)
        requires
            old(self).wf(),
        ensures
            final(self).wf(),
            *final(self) == (match outcome {
                ScanOutcome::Found(f, signal) => UsrpSession {
                    tuned_milli_hz: Some(f),
                    standard: verdict(signal),
                    ..*old(self)
                },
                _ => *old(self),
            }),
            next == after_sweep(outcome),
    {
        match outcome {
            ScanOutcome::Found(f, signal) => {
                self.found(f, signal);
                AfterSweep::Run(f)
            },
            ScanOutcome::Empty => AfterSweep::SweepAgain,
            ScanOutcome::Quit => AfterSweep::Stop,
        }
    }

    /// The session with the sweep resumed, where there is one to resume.
    pub open spec fn resumed(self) -> UsrpSession {
        if self.auto_scan {
            UsrpSession { sweeping: true, tuned_milli_hz: None, ..self }
        } else {
            self
        }
    }

    /// Whether the rate can still be stepped down.
    pub open spec fn can_step_down(&self) -> bool {
        self.rate_milli_hz > USRP_STEP_FLOOR_MILLI_HZ
    }

    /// The run at `center_milli_hz` ended. Says whether the session goes on.
    pub fn react(&mut self, result: RunLiveResult, center_milli_hz: u64) -> (go_on: bool)
        requires
            old(self).wf(),
            result matches RunLiveResult::TuneToChannel(hz) ==> hz <= MAX_TUNE_HZ,
        ensures
            final(self).wf(),
            final(self).auto_scan == old(self).auto_scan,
            final(self).skipped@ == skips_with(
                old(self).skipped@,
                result,
                center_milli_hz as int,
            ),
            final(self).rate_milli_hz == rate_after(old(self).rate_milli_hz as int, result),
            final(self).standard == (if result is TuneToChannel {
                None
            } else {
                old(self).standard
            }),
            go_on == (match result {
                RunLiveResult::UserExit => false,
                RunLiveResult::SignalLost
                | RunLiveResult::SkipFrequency
                | RunLiveResult::NextChannel => old(self).auto_scan,
                RunLiveResult::TooManyOverruns => old(self).auto_scan || old(
                    self
                ).can_step_down(),
                RunLiveResult::TuneToChannel(_) => true,
            }),
            final(self).sweeping == (match result {
                RunLiveResult::UserExit => old(self).sweeping,
                RunLiveResult::TuneToChannel(_) => false,
                _ => old(self).auto_scan || old(self).sweeping,
            }),
            final(self).tuned_milli_hz == (match result {
                RunLiveResult::UserExit => old(self).tuned_milli_hz,
                RunLiveResult::TuneToChannel(hz) => Some((1000 * hz) as u64),
                _ => if old(self).auto_scan {
                    None
                } else {
                    old(self).tuned_milli_hz
                },
            }),
    {
        broadcast use vstd::std_specs::hash::group_hash_axioms;

        match result {
            RunLiveResult::UserExit => false,
            RunLiveResult::SignalLost | RunLiveResult::NextChannel => self.resume(),
            RunLiveResult::SkipFrequency => {
                self.skipped.insert(key_of(center_milli_hz));
                self.resume()
            },
            RunLiveResult::TuneToChannel(hz) => {
                self.tuned_milli_hz = Some(1000 * hz);
                self.standard = None;
                self.sweeping = false;
                true
            },
            RunLiveResult::TooManyOverruns => {
                if self.rate_milli_hz > USRP_STEP_FLOOR_MILLI_HZ {
                    self.rate_milli_hz = self.rate_milli_hz - USRP_STEP_MILLI_HZ;
                    self.resume();
                    true
                } else {
                    self.resume()
                }
            },
        }
    }

    /// Resume the sweep. Says whether there is one to resume.
    fn resume(&mut self) -> (r: bool)
        requires
            old(self).wf(),
        ensures
            final(self).wf(),
            r == old(self).auto_scan,
            *final(self) == old(self).resumed(),
    {
        if self.auto_scan {
            self.sweeping = true;
            self.tuned_milli_hz = None;
            true
        } else {
            false
        }
    }
}

/// What a sweep came back with.
#[derive(Debug, Clone, Copy, PartialEq, Eq, Structural)]
pub enum ScanOutcome {
    /// A channel to tune to, in millihertz, and what the sweep classified it as.
    Found(u64, Signal),
    /// The band was quiet this pass.
    Empty,
    /// The operator closed the scan window or pressed `Q`.
    Quit,
}

/// What follows a sweep.
#[derive(Debug, Clone, Copy, PartialEq, Eq, Structural)]
pub enum AfterSweep {
    /// Run at this frequency, in millihertz.
    Run(u64),
    SweepAgain,
    /// The session is over.
    Stop,
}

/// What follows a sweep: a find is run at, a quiet band is swept again, and the operator
/// who quits a sweep quits the session.
pub open spec fn after_sweep(outcome: ScanOutcome) -> AfterSweep {
    match outcome {
        ScanOutcome::Found(f, _) => AfterSweep::Run(f),
        ScanOutcome::Empty => AfterSweep::SweepAgain,
        ScanOutcome::Quit => AfterSweep::Stop,
    }
}

/// A concrete verdict on the standard, if there is one.
pub open spec fn verdict(signal: Signal) -> Option<Signal> {
    match signal {
        Signal::Pal | Signal::Ntsc => Some(signal),
        Signal::Other => None,
    }
}

fn verdict_on(signal: Signal) -> (v: Option<Signal>)
    ensures
        v == verdict(signal),
{
    match signal {
        Signal::Pal | Signal::Ntsc => Some(signal),
        Signal::Other => None,
    }
}

/// What the sweep measured on air is what the picture is decoded with where a second
/// look finds nothing of its own: the verdict reaches the decoder as its fallback.
pub proof fn law_sweep_verdict_is_decoded(signal: Signal)
    requires
        signal is Pal || signal is Ntsc,
    ensures
        fallback(verdict(signal)) == signal,
{
}

/// A session of a hopping backend: HackRF or Aaronia.
pub struct HopSession {
    /// Whether no channel was named, so that the band is swept.
    pub auto_scan: bool,
    pub tuned_milli_hz: Option<u64>,
    /// What the sweep classified the chosen signal as. It is carried into the live
    /// decode, so that a concrete verdict is not re-derived from one look.
    pub standard: Option<Signal>,
    pub skipped: HashSet<u64>,
    /// Which sweep is next, for the sensitive-sweep cadence.
    pub sweep_n: u32,
}

impl HopSession {
    /// A session with a named channel has a frequency.
    pub open spec fn wf(&self) -> bool {
        !self.auto_scan ==> self.tuned_milli_hz is Some
    }

    /// Begin with the operator's channel, if given.
    pub fn new(channel_milli_hz: Option<u64>) -> (s: HopSession)
        ensures
            s.wf(),
            s.auto_scan == (channel_milli_hz is None),
            s.tuned_milli_hz == channel_milli_hz,
            s.standard is None,
            s.skipped@ == Set::<u64>::empty(),
            s.sweep_n == 0,
    {
        broadcast use vstd::std_specs::hash::group_hash_axioms;

        HopSession {
            auto_scan: channel_milli_hz.is_none(),
            tuned_milli_hz: channel_milli_hz,
            standard: None,
            skipped: HashSet::new(),
            sweep_n: 0,
        }
    }

    /// What to do next.
    pub open spec fn wanted(&self) -> Next {
        match self.tuned_milli_hz {
            Some(f) => Next::Tune(f),
            None => Next::Sweep,
        }
    }

    /// What to do next. A session with a named channel never sweeps.
    pub fn next(&self) -> (n: Next)
        requires
            self.wf(),
        ensures
            n == self.wanted(),
            !self.auto_scan ==> n is Tune,
    {
        match self.tuned_milli_hz {
            Some(f) => Next::Tune(f),
            None => Next::Sweep,
        }
    }

    /// Number the sweep that is about to begin.
    pub fn begin_sweep(&mut self) -> (n: u32)
        requires
            old(self).wf(),
        ensures
            final(self).wf(),
            n == old(self).sweep_n,
            *final(self) == (HopSession { sweep_n: final(self).sweep_n, ..*old(self) }),
            final(self).sweep_n == (if n == u32::MAX {
                0
            } else {
                n + 1
            }),
    {
        let n: u32 = self.sweep_n;
        self.sweep_n = if n == u32::MAX {
            0
        } else {
            n + 1
        };
        n
    }

    /// The sweep ended. Says what to do with what it came back with. The find is this
    /// run's alone: it is not kept as the channel to come back to.
    pub fn swept(&mut self, outcome: ScanOutcome) -> (next: AfterSweep)
        requires
            old(self).wf(),
        ensures
            final(self).wf(),
            *final(self) == (HopSession {
                standard: match outcome {
                    ScanOutcome::Found(_, signal) => verdict(signal),
                    _ => old(self).standard,
                },
                ..*old(self)
            }),
            next == after_sweep(outcome),
    {
        match outcome {
            ScanOutcome::Found(f, signal) => {
                self.standard = verdict_on(signal);
                AfterSweep::Run(f)
            },
            ScanOutcome::Empty => AfterSweep::SweepAgain,
            ScanOutcome::Quit => AfterSweep::Stop,
        }
    }

    /// The run at `center_milli_hz` ended. Says whether the session goes on.
    pub fn react(&mut self, result: RunLiveResult, center_milli_hz: u64) -> (go_on: bool)
        requires
            old(self).wf(),
            result matches RunLiveResult::TuneToChannel(hz) ==> hz <= MAX_TUNE_HZ,
        ensures
            final(self).wf(),
            final(self).auto_scan == old(self).auto_scan,
            final(self).sweep_n == old(self).sweep_n,
            final(self).skipped@ == skips_with(
                old(self).skipped@,
                result,
                center_milli_hz as int,
            ),
            final(self).standard == (if result is TuneToChannel {
                None
            } else {
                old(self).standard
            }),
            go_on == (match result {
                RunLiveResult::UserExit => false,
                RunLiveResult::TuneToChannel(_) => true,
                _ => old(self).auto_scan,
            }),
            final(self).tuned_milli_hz == (match result {
                RunLiveResult::UserExit => old(self).tuned_milli_hz,
                RunLiveResult::TuneToChannel(hz) => Some((1000 * hz) as u64),
                _ => if old(self).auto_scan {
                    None
                } else {
                    old(self).tuned_milli_hz
                },
            }),
    {
        broadcast use vstd::std_specs::hash::group_hash_axioms;

        match result {
            RunLiveResult::UserExit => false,
            RunLiveResult::SignalLost
            | RunLiveResult::NextChannel
            | RunLiveResult::TooManyOverruns => self.resume(),
            RunLiveResult::SkipFrequency => {
                self.skipped.insert(key_of(center_milli_hz));
                self.resume()
            },
            RunLiveResult::TuneToChannel(hz) => {
                self.tuned_milli_hz = Some(1000 * hz);
                self.standard = None;
                true
            },
        }
    }

    /// Resume the sweep. Says whether there is one to resume.
    fn resume(&mut self) -> (r: bool)
        requires
            old(self).wf(),
        ensures
            final(self).wf(),
            r == old(self).auto_scan,
            *final(self) == (HopSession {
                tuned_milli_hz: if old(self).auto_scan {
                    None
                } else {
                    old(self).tuned_milli_hz
                },
                ..*old(self)
            }),
    {
        if self.auto_scan {
            self.tuned_milli_hz = None;
            true
        } else {
            false
        }
    }
}

/// The rate to hold a channel at: the scan rate where the operator named one, else the
/// lowest that holds the channel.
pub fn live_rate(
    rate_named: bool,
    scan_rate_milli_hz: u64,
    deviation_milli_hz: u64,
    demod: DemodKind,
) -> (r: u64)
    ensures
        r == (if rate_named {
            scan_rate_milli_hz as int
        } else {
            locked_rate(scan_rate_milli_hz as int, deviation_milli_hz as int, demod)
        }),
{
    if rate_named {
        scan_rate_milli_hz
    } else {
        locked_capture_rate(scan_rate_milli_hz, deviation_milli_hz, demod)
    }
}

/// Whether the rate in use is another than the one asked for: more than a hertz off.
pub fn rate_differs(using_milli_hz: u64, requested_milli_hz: u64) -> (r: bool)
    ensures
        r == (gap(using_milli_hz as int, requested_milli_hz as int) > 1000),
{
    if using_milli_hz >= requested_milli_hz {
        using_milli_hz - requested_milli_hz > 1000
    } else {
        requested_milli_hz - using_milli_hz > 1000
    }
}

} // verus!
