use vstd::prelude::*;

verus! {

/// Length of one simulation tick, in nanoseconds.
pub const DELTA_TIME_NANOS: u64 = 16700000;

/// Fires once every `trigger_time` nanoseconds of simulated time.
pub struct Timer {
    trigger_time: u64,
    time_waited: u64,
}

impl Timer {
    pub closed spec fn trigger(&self) -> u64 {
        self.trigger_time
    }

    pub closed spec fn waited(&self) -> u64 {
        self.time_waited
    }

    /// A timer that fires after `trigger_time` nanoseconds, or on the first
    /// tick when `trigger_at_start` holds.
    pub fn new(trigger_time: u64, trigger_at_start: bool) -> (r: Self)
        ensures
            r.trigger() == trigger_time,
            r.waited() == (if trigger_at_start { trigger_time } else { 0 }),
    {
        if trigger_at_start {
            Timer { trigger_time, time_waited: trigger_time }
        } else {
            Timer { trigger_time, time_waited: 0 }
        }
    }

    /// Lets one tick pass; tells whether the timer fired, and if so starts
    /// it over.
    pub fn triggered(&mut self) -> (r: bool)
        ensures
            final(self).trigger() == old(self).trigger(),
            r == (old(self).waited() + DELTA_TIME_NANOS >= old(self).trigger()),
            final(self).waited() == (if r { 0 } else { old(self).waited() + DELTA_TIME_NANOS }),
    {
        self.time_waited = self.time_waited.saturating_add(DELTA_TIME_NANOS);
        if self.time_waited >= self.trigger_time {
            self.time_waited = 0;
            return true;
        }
        false
    }
}

} // verus!
