//! Feeding samples to the decoders: the live stream's bookkeeping, and a file's.

use vstd::prelude::*;

use crate::band_scan::Signal;
use crate::order::gap;
use crate::viewer::{EXIT_OVERRUNS, EXIT_SIGNAL_LOST, RUNNING};

verus! {

/// What a backend wants done when the source flags an overrun.
#[derive(Debug, Clone, Copy, PartialEq, Eq, Structural)]
pub enum OverrunPolicy {
    /// The host cannot keep up with the hardware: give the channel up so the caller
    /// can step the sample rate down.
    StepDown,
    /// A gap in a network stream glitches the picture and says nothing about the
    /// channel. Count it, keep going.
    Tolerate,
}

/// Overruns are counted over this long.
pub const OVERRUN_WINDOW_US: u64 = 60_000_000;

/// This many overruns within the window give the channel up.
pub const OVERRUNS_TO_STEP_DOWN: u64 = 2;

/// The live stream's bookkeeping.
#[derive(Debug)]
pub struct LiveReader {
    pub policy: OverrunPolicy,
    /// Packets between two lock checks.
    pub check_every: u64,
    pub packets: u64,
    pub overruns: u64,
    /// Fields decoded as of the last lock check.
    pub fields_seen: u64,
    pub dropped: u64,
}

/// What a packet calls for.
#[derive(Debug, Clone, Copy, PartialEq, Eq, Structural)]
pub struct PacketStep {
    /// Why the run ends here, `RUNNING` where it does not.
    pub exit: u8,
    /// The overrun window starts over.
    pub clear_overruns: bool,
    /// Look whether the signal is still there.
    pub check_lock: bool,
}

/// The next count, held at the largest.
pub open spec fn counted(n: u64) -> u64 {
    if n == u64::MAX {
        n
    } else {
        (n + 1) as u64
    }
}

fn count(n: u64) -> (r: u64)
    ensures
        r == counted(n),
{
    if n == u64::MAX {
        n
    } else {
        n + 1
    }
}

impl LiveReader {
    /// The counters before the first packet.
    pub fn new(policy: OverrunPolicy, check_every: u64) -> (r: LiveReader)
        ensures
            r.policy == policy,
            r.check_every == check_every,
            r.packets == 0,
            r.overruns == 0,
            r.fields_seen == 0,
            r.dropped == 0,
    {
        LiveReader { policy, check_every, packets: 0, overruns: 0, fields_seen: 0, dropped: 0 }
    }

    /// Whether a packet gives the channel up.
    pub open spec fn gives_up(&self, overrun: bool) -> bool {
        overrun && self.policy is StepDown && counted(self.overruns) >= OVERRUNS_TO_STEP_DOWN
    }

    /// A packet arrived; `since_clear_us` is how long ago the overrun window started.
    pub fn on_packet(&mut self, overrun: bool, since_clear_us: u64) -> (s: PacketStep)
        requires
            old(self).check_every > 0,
        ensures
            final(self).policy == old(self).policy,
            final(self).check_every == old(self).check_every,
            final(self).fields_seen == old(self).fields_seen,
            final(self).dropped == old(self).dropped,
            final(self).packets == counted(old(self).packets),
            s.exit == (if old(self).gives_up(overrun) {
                EXIT_OVERRUNS
            } else {
                RUNNING
            }),
            s.clear_overruns == (!old(self).gives_up(overrun) && since_clear_us
                >= OVERRUN_WINDOW_US),
            s.check_lock == (!old(self).gives_up(overrun) && final(self).packets % old(
                self
            ).check_every == 0),
            final(self).overruns == (if s.clear_overruns {
                0
            } else if overrun {
                counted(old(self).overruns)
            } else {
                old(self).overruns
            }),
    {
        self.packets = count(self.packets);
        if overrun {
            self.overruns = count(self.overruns);
            let step_down: bool = match self.policy {
                OverrunPolicy::StepDown => true,
                OverrunPolicy::Tolerate => false,
            };
            if step_down && self.overruns >= OVERRUNS_TO_STEP_DOWN {
                return PacketStep { exit: EXIT_OVERRUNS, clear_overruns: false, check_lock: false };
            }
        }
        let clear_overruns: bool = since_clear_us >= OVERRUN_WINDOW_US;
        if clear_overruns {
            self.overruns = 0;
        }
        PacketStep {
            exit: RUNNING,
            clear_overruns,
            check_lock: self.packets % self.check_every == 0,
        }
    }

    /// Whether a field was decoded since the last lock check.
    pub fn decoding(&mut self, fields: u64) -> (r: bool)
        ensures
            r == (fields > old(self).fields_seen),
            *final(self) == (LiveReader { fields_seen: fields, ..*old(self) }),
    {
        let r: bool = fields > self.fields_seen;
        self.fields_seen = fields;
        r
    }

    /// A chunk was dropped because a decoder was behind.
    pub fn count_dropped(&mut self)
        ensures
            *final(self) == (LiveReader { dropped: counted(old(self).dropped), ..*old(self) }),
    {
        self.dropped = count(self.dropped);
    }
}

/// The exit code of a lock check.
pub fn lock_exit(released: bool) -> (code: u8)
    ensures
        code == (if released {
            EXIT_SIGNAL_LOST
        } else {
            RUNNING
        }),
{
    if released {
        EXIT_SIGNAL_LOST
    } else {
        RUNNING
    }
}

/// What became of a chunk offered to a decoder.
#[derive(Debug, Clone, Copy, PartialEq, Eq, Structural)]
pub enum Delivery {
    Sent,
    /// The decoder is behind: the chunk was dropped.
    Full,
    /// The decoder is gone.
    Closed,
}

/// What one decoder has yet to be told: that the stream broke before its next chunk.
/// Each decoder carries its own, since a chunk one of them missed is no hole for
/// another.
#[derive(Debug, Clone, Copy, PartialEq, Eq, Structural)]
pub struct Feed {
    pub pending: bool,
}

impl Feed {
    /// A decoder that has been told everything.
    pub fn new() -> (f: Feed)
        ensures
            !f.pending,
    {
        Feed { pending: false }
    }

    /// Whether the next chunk is marked as following a break.
    pub fn breaks(&self, overran: bool) -> (r: bool)
        ensures
            r == (self.pending || overran),
    {
        self.pending || overran
    }

    /// The feed after an offer.
    pub open spec fn after(self, d: Delivery) -> Feed {
        match d {
            Delivery::Sent => Feed { pending: false },
            Delivery::Full => Feed { pending: true },
            Delivery::Closed => self,
        }
    }

    /// A chunk was offered. Says whether the decoder stays.
    pub fn offered(&mut self, d: Delivery) -> (stays: bool)
        ensures
            *final(self) == old(self).after(d),
            stays == (d !is Closed),
    {
        match d {
            Delivery::Sent => {
                self.pending = false;
                true
            },
            Delivery::Full => {
                self.pending = true;
                true
            },
            Delivery::Closed => false,
        }
    }
}

/// The feed after a run of offers.
pub open spec fn feed_after(f: Feed, offers: Seq<Delivery>) -> Feed
    decreases offers.len(),
{
    if offers.len() == 0 {
        f
    } else {
        feed_after(f, offers.drop_last()).after(offers.last())
    }
}

/// A decoder that stays is told of a break exactly when the packet itself follows one
/// or the chunk before it was dropped: no hole goes untold, and none is told twice.
pub proof fn law_every_hole_is_told_once(f: Feed, offers: Seq<Delivery>, overran: bool)
    requires
        offers.len() > 0,
        forall|i: int| 0 <= i < offers.len() ==> #[trigger] offers[i] !is Closed,
    ensures
        (feed_after(f, offers).pending || overran) == (overran || offers.last() is Full),
{
    assert(offers[offers.len() - 1] !is Closed);
}

/// How much longer a wait of `limit_us` has to go, if at all.
pub fn time_left(elapsed_us: u64, limit_us: u64) -> (r: Option<u64>)
    ensures
        r == (if elapsed_us < limit_us {
            Some((limit_us - elapsed_us) as u64)
        } else {
            None
        }),
{
    if elapsed_us < limit_us {
        Some(limit_us - elapsed_us)
    } else {
        None
    }
}

/// How long to wait for a clean record of the standard before deciding on whatever was
/// gathered.
pub const STANDARD_DETECT_PATIENCE_US: u64 = 1_500_000;

/// How long the RTSA HTTP server may go on delivering the previous centre's samples
/// after a retune.
pub const AARONIA_HTTP_TUNE_SETTLE_US: u64 = 400_000;

/// How much longer to gather samples for the standard, if at all.
pub fn gathering_left(ready: bool, elapsed_us: u64) -> (r: Option<u64>)
    ensures
        r == (if !ready && elapsed_us < STANDARD_DETECT_PATIENCE_US {
            Some((STANDARD_DETECT_PATIENCE_US - elapsed_us) as u64)
        } else {
            None
        }),
{
    if ready {
        None
    } else {
        time_left(elapsed_us, STANDARD_DETECT_PATIENCE_US)
    }
}

/// Packets this far from the first one's centre belong to another tune.
pub const SAME_CENTER_MILLI_HZ: i64 = 1_000;

/// Whether a packet belongs to the acquisition that the first one began: the same rate
/// and the same centre.
pub fn same_tune(
    rate_hz: u32,
    first_rate_hz: u32,
    center_milli_hz: i64,
    first_center_milli_hz: i64,
) -> (r: bool)
    ensures
        r == (rate_hz == first_rate_hz && gap(
            center_milli_hz as int,
            first_center_milli_hz as int,
        ) <= SAME_CENTER_MILLI_HZ),
{
    rate_hz == first_rate_hz && crate::band_scan::distance(
        center_milli_hz as i128,
        first_center_milli_hz as i128,
    ) <= SAME_CENTER_MILLI_HZ as i128
}

/// The standard decoded where the channel's own look finds none: the sweep's verdict,
/// else PAL.
pub open spec fn fallback(scan_hint: Option<Signal>) -> Signal {
    match scan_hint {
        Some(Signal::Ntsc) => Signal::Ntsc,
        _ => Signal::Pal,
    }
}

/// The standard to fall back on while a channel is analysed: what the sweep made of it,
/// else PAL.
pub fn fallback_standard(scan_hint: Option<Signal>) -> (s: Signal)
    ensures
        s == fallback(scan_hint),
{
    match scan_hint {
        Some(Signal::Ntsc) => Signal::Ntsc,
        _ => Signal::Pal,
    }
}

/// Bytes of one complex sample in a recording.
pub const BYTES_PER_SAMPLE: usize = 8;

/// Looping playback of a recording.
#[derive(Debug)]
pub struct FileReader {
    /// The recording wrapped to its start, and the next chunk has not said so yet.
    pub wrapped: bool,
}

/// What a read of a recording came to.
#[derive(Debug, Clone, Copy, PartialEq, Eq, Structural)]
pub enum ReadStep {
    /// The end: go back to the start.
    Rewind,
    /// Whole samples read, and whether they run on from the last ones.
    Chunk { samples: usize, discontinuous: bool },
    /// The recording cannot be read.
    Stop,
}

/// Whether the next chunk follows the wrap, after a read.
pub open spec fn wraps(wrapped: bool, bytes: Option<usize>) -> bool {
    match bytes {
        Some(n) => n == 0,
        None => wrapped,
    }
}

/// Whether the next chunk follows the wrap, after several reads.
pub open spec fn wrapped_after(wrapped: bool, reads: Seq<Option<usize>>) -> bool
    decreases reads.len(),
{
    if reads.len() == 0 {
        wrapped
    } else {
        wraps(wrapped_after(wrapped, reads.drop_last()), reads.last())
    }
}

/// While a recording can be read, a chunk is marked as following a break exactly when
/// the read before it found the end: every wrap is told, and told once.
pub proof fn law_every_wrap_is_told_once(wrapped: bool, reads: Seq<Option<usize>>)
    requires
        reads.len() > 0,
        forall|i: int| 0 <= i < reads.len() ==> #[trigger] reads[i] is Some,
    ensures
        wrapped_after(wrapped, reads) == (reads.last() == Some(0usize)),
{
    assert(reads[reads.len() - 1] is Some);
}

impl FileReader {
    /// Playback at the start of a recording.
    pub fn new() -> (r: FileReader)
        ensures
            !r.wrapped,
    {
        FileReader { wrapped: false }
    }

    /// A read gave so many bytes, or failed.
    pub fn on_read(&mut self, bytes: Option<usize>) -> (s: ReadStep)
        ensures
            s == (match bytes {
                Some(n) => if n == 0 {
                    ReadStep::Rewind
                } else {
                    ReadStep::Chunk {
                        samples: n / BYTES_PER_SAMPLE,
                        discontinuous: old(self).wrapped,
                    }
                },
                None => ReadStep::Stop,
            }),
            final(self).wrapped == wraps(old(self).wrapped, bytes),
    {
        match bytes {
            Some(n) => {
                if n == 0 {
                    self.wrapped = true;
                    return ReadStep::Rewind;
                }
                let discontinuous: bool = self.wrapped;
                self.wrapped = false;
                ReadStep::Chunk { samples: n / BYTES_PER_SAMPLE, discontinuous }
            },
            None => ReadStep::Stop,
        }
    }
}

} // verus!
