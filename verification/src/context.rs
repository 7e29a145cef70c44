//! Yielding to the executor: a future that is pending once, then ready.

use vstd::prelude::*;

verus! {

/// The state of a yield: whether it has already given way once.
pub struct YieldNow {
    yielded: bool,
}

impl YieldNow {
    /// Whether the yield has already given way once.
    pub closed spec fn has_yielded(self) -> bool {
        self.yielded
    }

    /// One poll of the yield: ready if it already gave way; else it gives way
    /// now (the caller wakes the task so that it is polled again) and is
    /// pending. Returns whether it is ready.
    pub fn poll_step(&mut self) -> (ready: bool)
        ensures
            ready == old(self).has_yielded(),
            final(self).has_yielded(),
    {
        if self.yielded {
            true
        } else {
            self.yielded = true;
            false
        }
    }
}

/// A yield that has not given way yet.
pub fn yield_now() -> (r: YieldNow)
    ensures
        !r.has_yielded(),
{
    YieldNow { yielded: false }
}

/// A fresh yield is pending at its first poll and ready at its second.
pub proof fn law_yield_twice(y0: YieldNow, y1: YieldNow, y2: YieldNow, first: bool, second: bool)
    requires
        !y0.has_yielded(),
        first == y0.has_yielded(),
        y1.has_yielded(),
        second == y1.has_yielded(),
    ensures
        !first,
        second,
{
}

} // verus!
