//! The decode worker's bookkeeping: which samples of the demodulated stream are still
//! to be decoded, and what is done with a decoded field.
//!
//! The demodulated samples themselves live with the signal processing; here they are
//! counted.

use vstd::prelude::*;

use crate::float::{
    div_half_even, divide, lemma_nearest_size, lemma_quotient_at_most, lemma_quotient_size,
    nearest, quotient, round, round_half_even, SINGLE,
};
use crate::text::{decimal, push_decimal};

verus! {

/// Samples a field takes at least: its visible lines and twenty-two more, in single
/// precision.
pub open spec fn field_samples(rate_hz: int, is_pal: bool) -> int {
    let (lines, lines_per_second) = if is_pal {
        (310int, 15_625int)
    } else {
        (262int, 15_734int)
    };
    let (n, p) = quotient(nearest(rate_hz, SINGLE as int), lines_per_second, SINGLE as int);
    nearest(n * lines, SINGLE as int) / p
}

/// Samples a field takes at least.
fn least_samples(rate_hz: u32, is_pal: bool) -> (r: usize)
    ensures
        r == field_samples(rate_hz as int, is_pal),
{
    let (lines, lines_per_second): (u128, u128) = if is_pal {
        (310, 15_625)
    } else {
        (262, 15_734)
    };
    proof {
        lemma_nearest_size(rate_hz as int, SINGLE as int);
    }
    let rate: u128 = round(rate_hz as u128, SINGLE);
    proof {
        lemma_quotient_size(rate as int, lines_per_second as int, SINGLE as int);
        lemma_quotient_at_most(rate as int, lines_per_second as int, SINGLE as int, 600_000);
    }
    let (n, p): (u128, u128) = divide(rate, lines_per_second, SINGLE);
    proof {
        assert(n * lines <= 310 * 0x100_0000 && n * lines <= (310 * 600_000) * p)
            by (nonlinear_arith)
            requires
                0 <= n <= 0x100_0000,
                n <= 600_000 * p,
                0 <= lines <= 310,
        ;
        lemma_nearest_size(n * lines, SINGLE as int);
        let m = nearest(n * lines, SINGLE as int);
        assert(m / (p as int) <= 372_000_000) by (nonlinear_arith)
            requires
                0 <= m <= 372_000_000 * p,
                p >= 1,
        ;
    }
    (round(n * lines, SINGLE) / p) as usize
}

/// The demodulated stream's bookkeeping.
#[derive(Debug)]
pub struct DecodeCursor {
    /// Samples in the buffer.
    pub buffered: usize,
    /// Those of them already decoded.
    pub start: usize,
    /// Where `start` stands in the whole stream.
    pub coordinate: u64,
    /// The next slice does not run on from the last one.
    pub discontinuous: bool,
    /// Decoded samples beyond this many are removed from the buffer.
    pub compact_after: usize,
    /// More samples than this are too far behind to be caught up with.
    pub live_region_cap: usize,
    /// Samples kept when the rest is skipped.
    pub keep_on_skip: usize,
    pub min_samples_per_field: usize,
    /// Fields decoded.
    pub frame_count: u64,
}

/// The part of the stream to decode next.
#[derive(Debug, Clone, Copy, PartialEq, Eq, Structural)]
pub struct Slice {
    pub start: usize,
    pub coordinate: u64,
    pub discontinuous: bool,
}

impl DecodeCursor {
    /// Whether the counts hang together.
    pub open spec fn wf(&self) -> bool {
        &&& self.start <= self.buffered
        &&& self.keep_on_skip <= self.live_region_cap
    }

    /// Samples that are still to be decoded.
    pub open spec fn live(&self) -> int {
        self.buffered - self.start
    }

    /// Where the buffer's end stands in the whole stream.
    pub open spec fn stream_end(&self) -> int {
        self.coordinate + self.live()
    }

    /// The bookkeeping of an empty stream at a working rate.
    pub fn new(rate_hz: u32, is_pal: bool) -> (c: DecodeCursor)
        ensures
            c.wf(),
            c.buffered == 0,
            c.start == 0,
            c.coordinate == 0,
            !c.discontinuous,
            c.compact_after == rate_hz / 30,
            c.live_region_cap == rate_hz / 12,
            c.keep_on_skip == rate_hz / 60,
            c.min_samples_per_field == field_samples(rate_hz as int, is_pal),
            c.frame_count == 0,
    {
        DecodeCursor {
            buffered: 0,
            start: 0,
            coordinate: 0,
            discontinuous: false,
            compact_after: (rate_hz / 30) as usize,
            live_region_cap: (rate_hz / 12) as usize,
            keep_on_skip: (rate_hz / 60) as usize,
            min_samples_per_field: least_samples(rate_hz, is_pal),
            frame_count: 0,
        }
    }

    /// The stream broke: what was buffered is forgotten, and the next slice says so.
    pub fn handle_discontinuity(&mut self)
        requires
            old(self).wf(),
        ensures
            final(self).wf(),
            *final(self) == (DecodeCursor {
                buffered: 0,
                start: 0,
                discontinuous: true,
                ..*old(self)
            }),
    {
        self.buffered = 0;
        self.start = 0;
        self.discontinuous = true;
    }

    /// Samples were appended to the buffer.
    pub fn appended(&mut self, n: usize)
        requires
            old(self).wf(),
            old(self).buffered + n <= usize::MAX,
        ensures
            final(self).wf(),
            *final(self) == (DecodeCursor {
                buffered: (old(self).buffered + n) as usize,
                ..*old(self)
            }),
            final(self).stream_end() == old(self).stream_end() + n,
    {
        self.buffered = self.buffered + n;
    }

    /// The part to decode next, where there is enough for a field. A break is told to
    /// the first slice after it and to no other.
    pub fn next_slice(&mut self) -> (r: Option<Slice>)
        requires
            old(self).wf(),
        ensures
            final(self).wf(),
            r == (if old(self).live() >= old(self).min_samples_per_field {
                Some(
                    Slice {
                        start: old(self).start,
                        coordinate: old(self).coordinate,
                        discontinuous: old(self).discontinuous,
                    },
                )
            } else {
                None
            }),
            *final(self) == (DecodeCursor {
                discontinuous: old(self).discontinuous && r is None,
                ..*old(self)
            }),
    {
        if self.buffered - self.start >= self.min_samples_per_field {
            let s: Slice = Slice {
                start: self.start,
                coordinate: self.coordinate,
                discontinuous: self.discontinuous,
            };
            self.discontinuous = false;
            Some(s)
        } else {
            None
        }
    }

    /// The stream after `n` more samples are done with.
    pub open spec fn advanced(self, n: int) -> DecodeCursor {
        DecodeCursor {
            start: (self.start + n) as usize,
            coordinate: (self.coordinate + n) as u64,
            ..self
        }
    }

    /// Samples were decoded, or given up after an error.
    pub fn advance(&mut self, n: usize)
        requires
            old(self).wf(),
            n <= old(self).live(),
            old(self).coordinate + n <= u64::MAX,
        ensures
            final(self).wf(),
            *final(self) == old(self).advanced(n as int),
            final(self).stream_end() == old(self).stream_end(),
    {
        self.start = self.start + n;
        self.coordinate = self.coordinate + n as u64;
    }

    /// Remove decoded samples from the buffer once there are enough of them. Says how
    /// many go from its front.
    pub fn compact(&mut self) -> (drained: usize)
        requires
            old(self).wf(),
        ensures
            final(self).wf(),
            drained == (if old(self).start > old(self).compact_after {
                old(self).start
            } else {
                0
            }),
            *final(self) == (DecodeCursor {
                buffered: (old(self).buffered - drained) as usize,
                start: (old(self).start - drained) as usize,
                ..*old(self)
            }),
            final(self).live() == old(self).live(),
            final(self).stream_end() == old(self).stream_end(),
            final(self).start <= final(self).compact_after,
    {
        if self.start > self.compact_after {
            let drained: usize = self.start;
            self.buffered = self.buffered - drained;
            self.start = 0;
            drained
        } else {
            0
        }
    }

    /// Skip ahead where the decoder has fallen too far behind, keeping the newest
    /// samples. Says how many were skipped, if any; the decoder's history goes with
    /// them.
    pub fn catch_up(&mut self) -> (skipped: Option<usize>)
        requires
            old(self).wf(),
            old(self).coordinate + old(self).buffered <= u64::MAX,
        ensures
            final(self).wf(),
            skipped == (if old(self).live() > old(self).live_region_cap {
                Some((old(self).live() - old(self).keep_on_skip) as usize)
            } else {
                None
            }),
            *final(self) == (match skipped {
                Some(n) => old(self).advanced(n as int),
                None => *old(self),
            }),
            final(self).live() <= old(self).live_region_cap,
            final(self).stream_end() == old(self).stream_end(),
    {
        let live: usize = self.buffered - self.start;
        if live > self.live_region_cap {
            let n: usize = live - self.keep_on_skip;
            self.start = self.start + n;
            self.coordinate = self.coordinate + n as u64;
            Some(n)
        } else {
            None
        }
    }

    /// A field came out.
    pub fn count_field(&mut self) -> (n: u64)
        requires
            old(self).wf(),
        ensures
            final(self).wf(),
            n == (if old(self).frame_count == u64::MAX {
                u64::MAX
            } else {
                (old(self).frame_count + 1) as u64
            }),
            *final(self) == (DecodeCursor { frame_count: n, ..*old(self) }),
    {
        self.frame_count = if self.frame_count == u64::MAX {
            self.frame_count
        } else {
            self.frame_count + 1
        };
        self.frame_count
    }
}

/// Whether link metrics are reported with a field: the first three, and every
/// thirtieth.
pub fn metrics_due(debug: bool, frame: u64) -> (r: bool)
    ensures
        r == (debug && (frame <= 3 || frame % 30 == 0)),
{
    debug && (frame <= 3 || frame % 30 == 0)
}

/// Whether a field is saved as a picture: the first three, and three of the steady
/// state.
pub fn snapshot_due(debug: bool, frame: u64) -> (r: bool)
    ensures
        r == (debug && (frame <= 3 || 30 <= frame <= 32)),
{
    debug && (frame <= 3 || (30 <= frame && frame <= 32))
}

/// File name of a saved field.
pub open spec fn snapshot_name(milli_hz: int, frame: int) -> Seq<char> {
    "fpv_frame_"@ + (if milli_hz < 0 {
        "-"@
    } else {
        Seq::empty()
    }) + decimal(
        round_half_even(
            if milli_hz < 0 {
                -milli_hz
            } else {
                milli_hz
            },
            1_000_000_000,
        ),
    ) + "MHz_"@ + decimal(frame) + ".png"@
}

/// File name of a saved field.
pub fn snapshot_path(milli_hz: i64, frame: u64) -> (path: String)
    requires
        milli_hz > i64::MIN,
    ensures
        path@ == snapshot_name(milli_hz as int, frame as int),
{
    let mut path: String = String::new();
    path.append("fpv_frame_");
    let size: u64 = if milli_hz < 0 {
        path.append("-");
        (-milli_hz) as u64
    } else {
        milli_hz as u64
    };
    push_decimal(&mut path, div_half_even(size as u128, 1_000_000_000) as u64);
    path.append("MHz_");
    push_decimal(&mut path, frame);
    path.append(".png");
    assert(path@ =~= snapshot_name(milli_hz as int, frame as int));
    path
}

/// Red, green and blue of the `i`-th byte's pixel.
pub open spec fn rgb_byte(pixels: Seq<u32>, i: int) -> u8 {
    let p = pixels[i / 3] as int;
    if i % 3 == 0 {
        (p / 65536 % 256) as u8
    } else if i % 3 == 1 {
        (p / 256 % 256) as u8
    } else {
        (p % 256) as u8
    }
}

/// A field as bytes of red, green and blue.
pub fn rgb_bytes(pixels: &Vec<u32>) -> (rgb: Vec<u8>)
    requires
        pixels@.len() * 3 <= usize::MAX,
    ensures
        rgb@ == Seq::new(pixels@.len() * 3, |i: int| rgb_byte(pixels@, i)),
{
    let mut rgb: Vec<u8> = Vec::new();
    let mut i: usize = 0;
    while i < pixels.len()
        invariant
            i <= pixels@.len(),
            rgb@ == Seq::new((i * 3) as nat, |k: int| rgb_byte(pixels@, k)),
        decreases pixels@.len() - i,
    {
        let p: u32 = pixels[i];
        rgb.push((p / 65536 % 256) as u8);
        rgb.push((p / 256 % 256) as u8);
        rgb.push((p % 256) as u8);
        i = i + 1;
        assert(rgb@ =~= Seq::new((i * 3) as nat, |k: int| rgb_byte(pixels@, k)));
    }
    rgb
}

/// The buffer for the next field: one the display gave up, one it handed back, or a
/// black one.
pub fn next_frame_buffer(displaced: Option<Vec<u32>>, recycled: Option<Vec<u32>>, len: usize) -> (buf:
    Vec<u32>)
    ensures
        buf@ == (match displaced {
            Some(b) => b@,
            None => match recycled {
                Some(b) => b@,
                None => Seq::new(len as nat, |i: int| 0u32),
            },
        }),
{
    match displaced {
        Some(b) => b,
        None => match recycled {
            Some(b) => b,
            None => black(len),
        },
    }
}

/// A black picture.
pub fn black(len: usize) -> (buf: Vec<u32>)
    ensures
        buf@ == Seq::new(len as nat, |i: int| 0u32),
{
    let mut buf: Vec<u32> = Vec::new();
    while buf.len() < len
        invariant
            buf@.len() <= len,
            forall|i: int| 0 <= i < buf@.len() ==> #[trigger] buf@[i] == 0u32,
        decreases len - buf@.len(),
    {
        buf.push(0);
    }
    assert(buf@ =~= Seq::new(len as nat, |i: int| 0u32));
    buf
}

/// The state of the timing recovery, as reported.
pub fn timing_state(locked: bool, coasted_fields: u64) -> (s: &'static str)
    ensures
        s@ == (if !locked {
            "Searching"@
        } else if coasted_fields > 0 {
            "Coasting"@
        } else {
            "Tracking"@
        }),
{
    if !locked {
        "Searching"
    } else if coasted_fields > 0 {
        "Coasting"
    } else {
        "Tracking"
    }
}

} // verus!
