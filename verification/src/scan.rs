//! The decisions of a sweep: what to do with each packet, and what a finished sweep
//! came to.

use std::collections::HashSet;

use vstd::prelude::*;

use crate::band_scan::{BandScan, Signal};
use crate::bands::{catalog, entry_freqs, snap_to_nearest_fpv_channel, snapped, ScanBands};
use crate::plan::{as_tunes, build_scan_hops, planned, usable_span, usable_span_of};
use crate::session::ScanOutcome;

verus! {

/// Where a packet stands in its hop and its sweep.
#[derive(Debug, Clone, Copy, PartialEq, Eq, Structural)]
pub struct Hop {
    /// The first packet since a retune.
    pub first_packet: bool,
    /// Every hop has had its packets.
    pub sweep_complete: bool,
}

/// What to do with a packet of the sweep.
#[derive(Debug, Clone, Copy, PartialEq, Eq, Structural)]
pub enum PacketAction {
    /// The operator is done.
    Quit,
    /// The hop has had its packets: drain the rest of the dwell.
    Drain,
    /// Run the detector; `replace` where the tune's previous bars and hits go.
    Detect { replace: bool },
}

/// What to do with a packet, given whether the scan window is still wanted and what the
/// sweep's progress made of the packet. A plan of a single tune never retunes, so
/// there every packet is a new look where `always_replace` asks for it.
pub fn on_packet(window_alive: bool, hop: Option<Hop>, always_replace: bool) -> (a: PacketAction)
    ensures
        a == (if !window_alive {
            PacketAction::Quit
        } else {
            match hop {
                Some(h) => PacketAction::Detect { replace: h.first_packet || always_replace },
                None => PacketAction::Drain,
            }
        }),
{
    if !window_alive {
        return PacketAction::Quit;
    }
    match hop {
        Some(h) => PacketAction::Detect { replace: h.first_packet || always_replace },
        None => PacketAction::Drain,
    }
}

/// What follows a detection of the single-stage sweep.
#[derive(Debug, Clone, Copy, PartialEq, Eq, Structural)]
pub enum SweepAction {
    /// The operator is done.
    Quit,
    /// On to the next packet.
    GoOn,
    /// The sweep is over: tune to the best hit, if there is one.
    Finish,
}

/// What follows a detection: the last hop gets its full packet budget before the sweep
/// counts as done.
pub fn after_detection(window_alive: bool, hop: Hop) -> (a: SweepAction)
    ensures
        a == (if !window_alive {
            SweepAction::Quit
        } else if hop.sweep_complete {
            SweepAction::Finish
        } else {
            SweepAction::GoOn
        }),
{
    if !window_alive {
        SweepAction::Quit
    } else if hop.sweep_complete {
        SweepAction::Finish
    } else {
        SweepAction::GoOn
    }
}

/// The best hit of a sweep: where it is, in millihertz, and what it was taken for.
pub open spec fn outcome_of(best: Option<(u64, Signal)>) -> ScanOutcome {
    match best {
        Some(hit) => ScanOutcome::Found(
            snapped(entry_freqs(catalog(true)), hit.0 as int) as u64,
            hit.1,
        ),
        None => ScanOutcome::Empty,
    }
}

/// What a finished sweep came to: the best hit snapped to its channel, or nothing.
pub fn scan_outcome(best: Option<(u64, Signal)>) -> (r: ScanOutcome)
    ensures
        r == outcome_of(best),
        r !is Quit,
{
    match best {
        Some(hit) => ScanOutcome::Found(snap_to_nearest_fpv_channel(hit.0), hit.1),
        None => ScanOutcome::Empty,
    }
}

/// Plan a sweep: set the panel up for it and give the hops.
pub fn begin_sweep(
    band: &mut BandScan,
    rate_milli_hz: u64,
    bands: ScanBands,
    skipped: &HashSet<u64>,
) -> (hops: Vec<i64>)
    requires
        old(band).wf(),
    ensures
        final(band).wf(),
        as_tunes(hops@) == planned(
            entry_freqs(catalog(bands.whole())),
            usable_span(rate_milli_hz as int),
        ),
        final(band).tunes@ == hops@,
        final(band).span_milli_hz == usable_span(rate_milli_hz as int),
        forall|y: u64| final(band).skipped@.contains(y) <==> skipped@.contains(y),
        hops@ == old(band).tunes@ ==> final(band).visited@ == old(band).visited@,
        hops@ == old(band).tunes@ ==> final(band).active_tune == old(band).active_tune,
        hops@ != old(band).tunes@ ==> final(band).active_tune is None,
        hops@ != old(band).tunes@ ==> forall|i: int|
            0 <= i < hops@.len() ==> #[trigger] final(band).visited@[i] is None,
        final(band).channels@ == old(band).channels@,
        final(band).rows@ == old(band).rows@,
        final(band).energies@ == old(band).energies@,
        final(band).detections@ == old(band).detections@,
        final(band).lock_milli_hz == old(band).lock_milli_hz,
        final(band).last_sweep_end == old(band).last_sweep_end,
{
    let hops: Vec<i64> = build_scan_hops(rate_milli_hz, bands);
    let plan: Vec<i64> = copied(&hops);
    band.set_plan(plan, usable_span_of(rate_milli_hz));
    band.set_skipped(skipped);
    hops
}

fn copied(v: &Vec<i64>) -> (r: Vec<i64>)
    ensures
        r@ == v@,
{
    let mut r: Vec<i64> = Vec::new();
    let mut i: usize = 0;
    while i < v.len()
        invariant
            i <= v@.len(),
            r@ == v@.take(i as int),
        decreases v@.len() - i,
    {
        r.push(v[i]);
        i = i + 1;
        assert(r@ =~= v@.take(i as int));
    }
    assert(r@ =~= v@);
    r
}

/// How far a two-stage sweep has come.
#[derive(Debug, Clone, Copy, PartialEq, Eq, Structural)]
pub enum Stage {
    /// Sweeping the planned tunes; `passes` came back empty so far.
    Coarse { passes: u64 },
    /// Trying the channels near a hit; `fallback_milli_hz` is tuned to where none of
    /// them shows video.
    Fine { fallback_milli_hz: u64, signal: Signal },
    /// Tune to this frequency, where the sweep took the hit for this signal.
    Done { milli_hz: u64, signal: Signal },
}

/// A hit of the coarse stage: where to go without refinement, what the sweep took it
/// for, and how many channels are worth trying.
#[derive(Debug, Clone, Copy, PartialEq, Eq, Structural)]
pub struct CoarseHit {
    pub fallback_milli_hz: u64,
    pub signal: Signal,
    pub candidates: usize,
}

impl Stage {
    /// The stage after a complete coarse sweep.
    pub open spec fn swept(self, hit: Option<CoarseHit>) -> Stage {
        match hit {
            Some(h) => if h.candidates == 0 {
                Stage::Done { milli_hz: h.fallback_milli_hz, signal: h.signal }
            } else {
                Stage::Fine { fallback_milli_hz: h.fallback_milli_hz, signal: h.signal }
            },
            None => match self {
                Stage::Coarse { passes } => Stage::Coarse {
                    passes: if passes == u64::MAX {
                        u64::MAX
                    } else {
                        (passes + 1) as u64
                    },
                },
                _ => self,
            },
        }
    }

    /// A coarse sweep is complete: settle on a hit with nothing to refine, refine one
    /// with channels near it, or sweep again.
    pub fn finish_coarse(self, hit: Option<CoarseHit>) -> (s: Stage)
        requires
            self is Coarse,
        ensures
            s == self.swept(hit),
            hit is None ==> s is Coarse,
            hit is Some ==> s !is Coarse,
    {
        match hit {
            Some(h) => if h.candidates == 0 {
                Stage::Done { milli_hz: h.fallback_milli_hz, signal: h.signal }
            } else {
                Stage::Fine { fallback_milli_hz: h.fallback_milli_hz, signal: h.signal }
            },
            None => match self {
                Stage::Coarse { passes } => Stage::Coarse {
                    passes: if passes == u64::MAX {
                        passes
                    } else {
                        passes + 1
                    },
                },
                _ => self,
            },
        }
    }

    /// The stage after the channels near a hit have been tried.
    pub open spec fn refined(self, best_milli_hz: Option<u64>) -> Stage {
        match self {
            Stage::Fine { fallback_milli_hz, signal } => Stage::Done {
                milli_hz: match best_milli_hz {
                    Some(f) => f,
                    None => fallback_milli_hz,
                },
                signal,
            },
            _ => self,
        }
    }

    /// The channels near the hit have been tried: the best of them, else the fallback.
    pub fn finish_fine(self, best_milli_hz: Option<u64>) -> (s: Stage)
        requires
            self is Fine,
        ensures
            s == self.refined(best_milli_hz),
            s is Done,
    {
        match self {
            Stage::Fine { fallback_milli_hz, signal } => Stage::Done {
                milli_hz: match best_milli_hz {
                    Some(f) => f,
                    None => fallback_milli_hz,
                },
                signal,
            },
            _ => self,
        }
    }
}

/// The operator hears of a fruitless sweep no more often than this.
pub const PROGRESS_EVERY_US: u64 = 5_000_000;

/// Whether to say that the sweep is still going on. Time-gated: a sweep may take a
/// tenth of a second or two seconds.
pub fn progress_due(since_last_us: u64) -> (r: bool)
    ensures
        r == (since_last_us >= PROGRESS_EVERY_US),
{
    since_last_us >= PROGRESS_EVERY_US
}

/// A two-stage sweep with a hit always ends in a tune, at once or after the channels
/// near it were tried, and what the sweep took the hit for comes along.
pub proof fn law_hit_ends_in_a_tune(s: Stage, hit: CoarseHit, best_milli_hz: Option<u64>)
    requires
        s is Coarse,
    ensures
        s.swept(Some(hit)) is Done || s.swept(Some(hit)) is Fine,
        s.swept(Some(hit)) matches Stage::Done { milli_hz, signal } ==> milli_hz
            == hit.fallback_milli_hz && signal == hit.signal,
        s.swept(Some(hit)).refined(best_milli_hz) matches Stage::Done { milli_hz, signal }
            && signal == hit.signal,
{
}

} // verus!
