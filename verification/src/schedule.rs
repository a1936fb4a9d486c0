//! When to rebuild the spatial index: on a fixed cadence of its own,
//! whatever the length of a tick.

use vstd::prelude::*;

verus! {

/// What a [`RebuildSchedule`] stands for: the cadence, and the time since
/// the snapshot in use was built, both in thousandths of a second.
pub struct Cadence {
    pub interval: nat,
    pub elapsed: nat,
}

/// Tracks the age of the snapshot in use. The age stays below the interval:
/// no query ever reads positions that are older.
pub struct RebuildSchedule {
    interval: u32,
    elapsed: u32,
}

impl View for RebuildSchedule {
    type V = Cadence;

    closed spec fn view(&self) -> Cadence {
        Cadence { interval: self.interval as nat, elapsed: self.elapsed as nat }
    }
}

/// Whether a snapshot of age `elapsed` is due for a rebuild once `dt` more
/// has passed.
pub open spec fn rebuild_due(c: Cadence, dt: nat) -> bool {
    c.elapsed + dt >= c.interval
}

/// The cadence after `dt` has passed: the age starts again at zero if the
/// rebuild is due, and else grows by `dt`.
pub open spec fn after(c: Cadence, dt: nat) -> Cadence {
    Cadence {
        interval: c.interval,
        elapsed: if rebuild_due(c, dt) {
            0
        } else {
            c.elapsed + dt
        },
    }
}

impl RebuildSchedule {
    #[verifier::type_invariant]
    spec fn fresh_enough(&self) -> bool {
        self.elapsed == 0 || self.elapsed < self.interval
    }

    /// A schedule for a snapshot that was just built, to be rebuilt every
    /// `interval` thousandths of a second.
    pub fn new(interval: u32) -> (schedule: RebuildSchedule)
        ensures
            schedule@ == (Cadence { interval: interval as nat, elapsed: 0 }),
    {
        RebuildSchedule { interval, elapsed: 0 }
    }

    /// The cadence, in thousandths of a second.
    pub fn interval(&self) -> (ms: u32)
        ensures
            ms == self@.interval,
    {
        self.interval
    }

    /// The age of the snapshot in use, in thousandths of a second. It is
    /// zero or below the interval.
    pub fn elapsed(&self) -> (ms: u32)
        ensures
            ms == self@.elapsed,
            ms == 0 || ms < self@.interval,
    {
        proof {
            use_type_invariant(self);
        }
        self.elapsed
    }

    /// Lets `dt` thousandths of a second pass and says whether the snapshot
    /// is to be rebuilt now: whether its age has reached the interval.
    pub fn advance(&mut self, dt: u16) -> (due: bool)
        ensures
            due == rebuild_due(old(self)@, dt as nat),
            final(self)@ == after(old(self)@, dt as nat),
            final(self)@.elapsed == 0 || final(self)@.elapsed < final(self)@.interval,
    {
        proof {
            use_type_invariant(&*self);
        }
        let age: u64 = self.elapsed as u64 + dt as u64;
        if age >= self.interval as u64 {
            self.elapsed = 0;
            true
        } else {
            self.elapsed = age as u32;
            false
        }
    }
}

} // verus!
