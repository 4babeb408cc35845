//! The window a sweep draws into.

use std::time::Instant;

use vstd::prelude::*;

use crate::axis::MAX_PIXELS;
use crate::band_scan::BandScan;
use crate::clock::{elapsed_ns, now};
use crate::input::Key;
use crate::panel::{ages_fit, less, standalone_painted, Ages, DIM};
use crate::raster::{draw_string, text_painted, BG};

verus! {

/// The scan window redraws no faster than this.
pub const REDRAW_EVERY_NS: u64 = 40_000_000;

/// Width of the scan window.
pub const SCAN_WIDTH: usize = 720;

/// Least height of the scan window.
pub const SCAN_MIN_HEIGHT: usize = 120;

/// The picture of the scan window. One is kept across empty sweeps, so the operator
/// sees one window, not a new one per pass.
#[derive(Debug)]
pub struct ScanWindow {
    pub buf: Vec<u32>,
    pub w: usize,
    pub h: usize,
    pub last_draw: Option<Instant>,
}

/// The panel alone with the hint how to leave, in the slot the header's lock has while
/// there is one.
pub open spec fn scan_painted(w: int, h: int, b: BandScan, ages: Ages) -> Seq<u32> {
    text_painted(
        standalone_painted((w * h) as nat, w, h, b, ages),
        w,
        h,
        less(w, 56),
        4,
        "q quit"@,
        DIM,
    )
}

/// Whether a picture is due, given the age of the last one in nanoseconds.
pub open spec fn due(age_ns: Option<u64>) -> bool {
    age_ns matches Some(ns) ==> ns >= REDRAW_EVERY_NS
}

/// Whether a picture is due, given the age of the last one in nanoseconds.
pub fn redraw_due(age_ns: Option<u64>) -> (r: bool)
    ensures
        r == due(age_ns),
{
    match age_ns {
        Some(ns) => ns >= REDRAW_EVERY_NS,
        None => true,
    }
}

/// Whether the sweep goes on: the window is open, and neither `Q` nor `Esc` was pressed
/// where a new picture was shown. The keys are read with a new picture only.
pub fn keeps_scanning(drawn: bool, open: bool, pressed: &Vec<Key>) -> (r: bool)
    ensures
        r == (open && (drawn ==> !pressed@.contains(Key::Q) && !pressed@.contains(
            Key::Escape,
        ))),
{
    if !drawn {
        return open;
    }
    let mut i: usize = 0;
    while i < pressed.len()
        invariant
            drawn,
            i <= pressed@.len(),
            forall|k: int| 0 <= k < i ==> pressed@[k] != Key::Q && pressed@[k] != Key::Escape,
        decreases pressed@.len() - i,
    {
        if pressed[i] == Key::Q || pressed[i] == Key::Escape {
            assert(pressed@[i as int] == Key::Q || pressed@[i as int] == Key::Escape);
            return false;
        }
        i = i + 1;
    }
    open
}

impl ScanWindow {
    /// Whether the picture fills its buffer and can be drawn.
    pub open spec fn wf(&self) -> bool {
        &&& self.w <= MAX_PIXELS
        &&& self.h <= MAX_PIXELS
        &&& self.w * self.h == self.buf@.len()
    }

    /// A picture tall enough for a panel of `height` rows.
    pub fn open(height: usize) -> (v: ScanWindow)
        requires
            height <= MAX_PIXELS,
            720 * height <= usize::MAX,
        ensures
            v.wf(),
            v.w == SCAN_WIDTH,
            v.h == (if height > SCAN_MIN_HEIGHT {
                height
            } else {
                SCAN_MIN_HEIGHT
            }),
            v.buf@ == Seq::new((v.w * v.h) as nat, |i: int| BG),
            v.last_draw is None,
    {
        let h: usize = if height > SCAN_MIN_HEIGHT {
            height
        } else {
            SCAN_MIN_HEIGHT
        };
        let len: usize = SCAN_WIDTH * h;
        let mut buf: Vec<u32> = Vec::new();
        while buf.len() < len
            invariant
                buf@.len() <= len,
                forall|i: int| 0 <= i < buf@.len() ==> #[trigger] buf@[i] == BG,
            decreases len - buf@.len(),
        {
            buf.push(BG);
        }
        assert(buf@ =~= Seq::new(len as nat, |i: int| BG));
        ScanWindow { buf, w: SCAN_WIDTH, h, last_draw: None }
    }

    /// Whether `after` is this picture brought up to date at a moment, where its last
    /// drawing is `age_ns` old: drawn anew if that is due, and otherwise as it was.
    pub open spec fn updated(
        &self,
        after: ScanWindow,
        band: BandScan,
        age_ns: Option<u64>,
        at: Instant,
        ages: Ages,
    ) -> bool {
        if due(age_ns) {
            &&& after.w == self.w
            &&& after.h == self.h
            &&& after.last_draw == Some(at)
            &&& after.buf@ == scan_painted(self.w as int, self.h as int, band, ages)
        } else {
            after == *self
        }
    }

    /// Redraw from `band` unless the last picture is too recent. Says whether a new
    /// picture was drawn.
    pub fn update(&mut self, band: &BandScan) -> (drawn: bool)
        requires
            old(self).wf(),
            band.wf(),
        ensures
            final(self).wf(),
            exists|age_ns: Option<u64>, at: Instant, ages: Ages|
                {
                    &&& age_ns is Some == old(self).last_draw is Some
                    &&& ages_fit(*band, ages)
                    &&& drawn == due(age_ns)
                    &&& #[trigger] old(self).updated(*final(self), *band, age_ns, at, ages)
                },
    {
        let age_ns: Option<u64> = match &self.last_draw {
            Some(t) => Some(elapsed_ns(t)),
            None => None,
        };
        let ages: Ages = band.ages();
        self.update_aged(band, age_ns, now(), &ages)
    }

    /// `update` at a given moment, with the age of the last picture and the ages it
    /// shows.
    pub fn update_aged(
        &mut self,
        band: &BandScan,
        age_ns: Option<u64>,
        at: Instant,
        ages: &Ages,
    ) -> (drawn: bool)
        requires
            old(self).wf(),
            band.wf(),
            ages_fit(*band, *ages),
        ensures
            final(self).wf(),
            drawn == due(age_ns),
            old(self).updated(*final(self), *band, age_ns, at, *ages),
    {
        if !redraw_due(age_ns) {
            return false;
        }
        self.last_draw = Some(at);
        self.buf = self.drawn_aged(band, ages);
        true
    }

    /// The picture of a panel with given ages.
    pub fn drawn_aged(&self, band: &BandScan, ages: &Ages) -> (buf: Vec<u32>)
        requires
            self.wf(),
            band.wf(),
            ages_fit(*band, *ages),
        ensures
            buf@.len() == self.w * self.h,
            buf@ == scan_painted(self.w as int, self.h as int, *band, *ages),
    {
        let len: usize = self.buf.len();
        let mut buf: Vec<u32> = Vec::new();
        while buf.len() < len
            invariant
                buf@.len() <= len,
            decreases len - buf@.len(),
        {
            buf.push(BG);
        }
        let slice: &mut [u32] = buf.as_mut_slice();
        band.draw_standalone_aged(slice, self.w, self.h, ages);
        draw_string(slice, self.w, self.h, self.w.saturating_sub(56), 4, "q quit", DIM);
        buf
    }
}

} // verus!
