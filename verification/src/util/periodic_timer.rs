//! A timer that fires once per interval, when asked.

use vstd::prelude::*;

verus! {

/// Calls `time::precise_time_ns`: nanoseconds of a high-resolution counter
/// since an unspecified epoch. The value depends on when it is asked for, so
/// nothing is stated of it.
#[verifier::external_body]
fn precise_now_ns() -> (now: u64) {
    time::precise_time_ns()
}

/// Fires when at least one interval has passed since it last fired (or since
/// it was made).
pub struct PeriodicTimer {
    interval_ns: u64,
    start_ns: u64,
}

impl PeriodicTimer {
    /// Length of the interval, in nanoseconds.
    pub closed spec fn interval(&self) -> u64 {
        self.interval_ns
    }

    /// The instant, in nanoseconds, from which the current interval runs.
    pub closed spec fn start(&self) -> u64 {
        self.start_ns
    }

    /// Whether the timer fires when asked at `now_ns`: the interval has passed.
    pub open spec fn due(&self, now_ns: u64) -> bool {
        now_ns >= self.start() && now_ns - self.start() >= self.interval()
    }

    /// Whether `after` and `fired` are the timer and its answer after it was
    /// asked at the instant `now_ns`: it fires when the interval has passed,
    /// and the next interval then starts at `now_ns`; otherwise nothing
    /// changes.
    pub open spec fn asked_at(&self, now_ns: u64, after: PeriodicTimer, fired: bool) -> bool {
        &&& fired == self.due(now_ns)
        &&& after.interval() == self.interval()
        &&& after.start() == if fired {
            now_ns
        } else {
            self.start()
        }
    }

    /// A timer whose first interval starts at `now_ns`.
    pub fn starting_at(interval_ns: u64, now_ns: u64) -> (timer: PeriodicTimer)
        ensures
            timer.interval() == interval_ns,
            timer.start() == now_ns,
    {
        PeriodicTimer { interval_ns, start_ns: now_ns }
    }

    /// A timer whose first interval starts now.
    pub fn new(interval_ns: u64) -> (timer: PeriodicTimer)
        ensures
            timer.interval() == interval_ns,
    {
        let now = precise_now_ns();
        PeriodicTimer::starting_at(interval_ns, now)
    }

    /// Asks the timer at the instant `now_ns`. When the interval has passed it
    /// fires, and the next interval starts at `now_ns`; otherwise nothing changes.
    pub fn did_fire_at(&mut self, now_ns: u64) -> (fired: bool)
        ensures
            old(self).asked_at(now_ns, *final(self), fired),
            fired == old(self).due(now_ns),
            final(self).interval() == old(self).interval(),
            fired ==> final(self).start() == now_ns,
            !fired ==> final(self).start() == old(self).start(),
    {
        if now_ns >= self.start_ns && now_ns - self.start_ns >= self.interval_ns {
            self.start_ns = now_ns;
            true
        } else {
            false
        }
    }

    /// Asks the timer now. Which instant "now" is, is not known beforehand:
    /// the timer and its answer are what `did_fire_at` gives for some
    /// instant, the one that the clock showed.
    pub fn did_fire(&mut self) -> (fired: bool)
        ensures
            exists|now_ns: u64| #[trigger] old(self).asked_at(now_ns, *final(self), fired),
            final(self).interval() == old(self).interval(),
            fired ==> old(self).due(final(self).start()),
            !fired ==> final(self).start() == old(self).start(),
    {
        let now = precise_now_ns();
        let fired = self.did_fire_at(now);
        assert(old(self).asked_at(now, *self, fired));
        fired
    }
}

} // verus!
