//! Timing statistics of tagged blocks of code, kept per tag over a few frames.
//!
//! Durations are held in nanoseconds; the clock is read by the caller.
use vstd::prelude::*;

verus! {

/// The number of frames over which per-frame timings are kept.
pub const MAX_AVG_N: usize = 3;

/// The largest duration that a duration value can hold, in nanoseconds: `u64::MAX`
/// seconds and 999 999 999 nanoseconds.
pub const MAX_DURATION_NANOS: u128 = 18446744073709551615999999999;

/// How often a block ran in a frame, and for how long in all.
#[derive(Copy, Clone, Debug)]
pub struct CountsAndDuration {
    pub count: usize,
    pub duration: u128,
}

/// The timings of one tagged block.
pub struct DebugStruct {
    pub count: usize,
    pub count_per_frame: usize,
    pub cpu_counts: u64,
    pub durations: u128,
    pub durations_per_frame: [CountsAndDuration; MAX_AVG_N],
    pub _cycles: u64,
}

impl DebugStruct {
    /// Timings with nothing recorded.
    pub fn new() -> (d: DebugStruct)
        ensures
            d.count == 0,
            d.count_per_frame == 0,
            d.cpu_counts == 0,
            d.durations == 0,
            forall|k: int| 0 <= k < MAX_AVG_N ==> #[trigger] d.durations_per_frame@[k].count == 0
                && d.durations_per_frame@[k].duration == 0,
            d._cycles == 0,
    {
        let zero = CountsAndDuration { count: 0, duration: 0 };
        DebugStruct {
            count: 0,
            count_per_frame: 0,
            cpu_counts: 0,
            durations: 0,
            durations_per_frame: [zero, zero, zero],
            _cycles: 0,
        }
    }

    /// Records one run of the block in frame number `frame`: the stopwatch read `elapsed`
    /// for the running total and, read once more, `elapsed_in_frame` for the frame's slot
    /// `frame % MAX_AVG_N`.
    pub fn record_sample(&mut self, frame: usize, elapsed: u128, elapsed_in_frame: u128)
        requires
            old(self).count < usize::MAX,
            old(self).count_per_frame < usize::MAX,
            old(self).durations + elapsed <= MAX_DURATION_NANOS,
            old(self).durations_per_frame@[(frame % MAX_AVG_N) as int].count < usize::MAX,
            old(self).durations_per_frame@[(frame % MAX_AVG_N) as int].duration + elapsed_in_frame
                <= MAX_DURATION_NANOS,
        ensures
            final(self).count == old(self).count + 1,
            final(self).count_per_frame == old(self).count_per_frame + 1,
            final(self).durations == old(self).durations + elapsed,
            final(self).durations_per_frame@ == old(self).durations_per_frame@.update(
                (frame % MAX_AVG_N) as int,
                CountsAndDuration {
                    count: (old(self).durations_per_frame@[(frame % MAX_AVG_N) as int].count + 1) as usize,
                    duration: (old(self).durations_per_frame@[(frame % MAX_AVG_N) as int].duration
                        + elapsed_in_frame) as u128,
                },
            ),
            final(self).cpu_counts == old(self).cpu_counts,
            final(self)._cycles == old(self)._cycles,
    {
        self.durations = self.durations + elapsed;
        self.count = self.count + 1;
        let k = frame % MAX_AVG_N;
        let slot = self.durations_per_frame[k];
        self.durations_per_frame[k] = CountsAndDuration {
            count: slot.count + 1,
            duration: slot.duration + elapsed_in_frame,
        };
        self.count_per_frame = self.count_per_frame + 1;
    }

    /// Starts frame number `frame`: no run counted in it yet, and its slot
    /// `frame % MAX_AVG_N` cleared.
    pub fn reset_frame(&mut self, frame: usize)
        ensures
            final(self).count_per_frame == 0,
            final(self).durations_per_frame@ == old(self).durations_per_frame@.update(
                (frame % MAX_AVG_N) as int,
                CountsAndDuration { count: 0, duration: 0 },
            ),
            final(self).count == old(self).count,
            final(self).durations == old(self).durations,
            final(self).cpu_counts == old(self).cpu_counts,
            final(self)._cycles == old(self)._cycles,
    {
        self.count_per_frame = 0;
        let k = frame % MAX_AVG_N;
        self.durations_per_frame[k] = CountsAndDuration { count: 0, duration: 0 };
    }
}

} // verus!
