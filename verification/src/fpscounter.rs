//! Bookkeeping of frame times: how long the last frame took, and when the
//! frame rate is due to be reported again.

use vstd::prelude::*;

verus! {

/// Nanoseconds that pass between two reports of the frame rate.
pub const REPORT_INTERVAL: u64 = 3_000_000_000;

/// Remembers when the last frame was drawn and when the frame rate was
/// last reported. Times are nanoseconds since the counter was made.
#[derive(Clone, Copy, Debug)]
pub struct FpsCounter {
    last_frame: u64,
    last_print: u64,
}

/// What the counter has to say about one frame.
#[derive(Clone, Copy, Debug, PartialEq, Eq, Structural)]
pub struct Frame {
    /// Nanoseconds since the frame before.
    pub elapsed: u64,
    /// Whether the frame rate is due to be reported.
    pub report: bool,
}

/// Nanoseconds from `earlier` to `later`, zero where the clock went back.
pub open spec fn time_between(earlier: u64, later: u64) -> u64 {
    if later >= earlier {
        (later - earlier) as u64
    } else {
        0
    }
}

impl FpsCounter {
    /// When the last frame was drawn.
    pub closed spec fn last_frame(&self) -> u64 {
        self.last_frame
    }

    /// When the frame rate was last reported.
    pub closed spec fn last_print(&self) -> u64 {
        self.last_print
    }

    /// A counter that starts counting now, at time zero.
    pub fn new() -> (r: FpsCounter)
        ensures
            r.last_frame() == 0,
            r.last_print() == 0,
    {
        FpsCounter { last_frame: 0, last_print: 0 }
    }

    /// Records a frame drawn at time `now`. The frame rate is due once more
    /// than `REPORT_INTERVAL` has passed since the last report, and the
    /// report then counts as made.
    pub fn frame(&mut self, now: u64) -> (frame: Frame)
        ensures
            frame.elapsed == time_between(old(self).last_frame(), now),
            frame.report == (time_between(old(self).last_print(), now) > REPORT_INTERVAL),
            final(self).last_frame() == now,
            final(self).last_print() == if frame.report {
                now
            } else {
                old(self).last_print()
            },
    {
        let elapsed: u64 = if now >= self.last_frame {
            now - self.last_frame
        } else {
            0
        };
        self.last_frame = now;
        let silent: u64 = if now >= self.last_print {
            now - self.last_print
        } else {
            0
        };
        let report = silent > REPORT_INTERVAL;
        if report {
            self.last_print = now;
        }
        Frame { elapsed, report }
    }
}

} // verus!
