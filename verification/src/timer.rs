//! A pausable countdown clock with time banking, over instants that the
//! caller reads from one monotonic clock and hands in.
use vstd::prelude::*;

verus! {

/// A countdown clock.  `time` is the banked remainder; while `running`,
/// whatever elapsed since the instant `mark` counts against it.  All
/// durations and instants share one unit and one monotonic origin chosen by
/// the caller.
#[derive(Clone, Copy)]
pub struct Timer {
    pub time: u64,
    pub mark: u64,
    pub running: bool,
}

impl Timer {
    /// A running timer was marked at or before the given instant.
    pub open spec fn marked_by(self, now: u64) -> bool {
        self.running ==> self.mark <= now
    }

    /// The remaining time at instant `now`, floored at zero.
    pub open spec fn spec_time(self, now: u64) -> u64 {
        if self.running {
            if self.time <= now - self.mark {
                0
            } else {
                (self.time - (now - self.mark)) as u64
            }
        } else {
            self.time
        }
    }

    /// The timer after it starts counting at instant `now`; one already
    /// running is unchanged.
    pub open spec fn resumed(self, now: u64) -> Timer {
        if self.running {
            self
        } else {
            Timer { time: self.time, mark: now, running: true }
        }
    }

    /// The timer after it stops at instant `now`, banking the remainder; one
    /// already stopped is unchanged.
    pub open spec fn paused(self, now: u64) -> Timer {
        if self.running {
            Timer { time: self.spec_time(now), mark: self.mark, running: false }
        } else {
            self
        }
    }

    pub fn new(time: u64, running: bool, now: u64) -> (t: Timer)
        ensures
            t == (Timer { time, mark: now, running }),
    {
        Timer { time, mark: now, running }
    }

    /// The remaining time at instant `now`.
    pub fn time(&self, now: u64) -> (r: u64)
        requires
            self.marked_by(now),
        ensures
            r == self.spec_time(now),
    {
        if self.running {
            let elapsed = now - self.mark;
            if self.time <= elapsed {
                0
            } else {
                self.time - elapsed
            }
        } else {
            self.time
        }
    }

    pub fn running(&self) -> (r: bool)
        ensures
            r == self.running,
    {
        self.running
    }

    /// Starts the clock at instant `now`; a running timer is unchanged.
    pub fn resume(&mut self, now: u64)
        ensures
            *final(self) == old(self).resumed(now),
    {
        if !self.running {
            self.mark = now;
            self.running = true;
        }
    }

    /// Stops the clock at instant `now` and banks the remainder; a stopped
    /// timer is unchanged.
    pub fn pause(&mut self, now: u64)
        requires
            old(self).marked_by(now),
        ensures
            *final(self) == old(self).paused(now),
    {
        if self.running {
            let remaining = self.time(now);
            self.time = remaining;
            self.running = false;
        }
    }

    /// Credits `delta` to the banked time whether or not the clock runs
    /// (a Fischer-style increment).
    pub fn add(&mut self, delta: u64)
        requires
            old(self).time + delta <= u64::MAX,
        ensures
            *final(self) == (Timer { time: (old(self).time + delta) as u64, ..*old(self) }),
    {
        self.time += delta;
    }
}

/// Resuming a stopped timer and pausing it again at the same instant changes
/// nothing observable: the banked time is as before and the clock is stopped.
pub proof fn lemma_resume_pause_noop(t: Timer, now: u64)
    requires
        !t.running,
    ensures
        t.resumed(now).paused(now).time == t.time,
        !t.resumed(now).paused(now).running,
{
}

} // verus!
