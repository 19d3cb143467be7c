//! The counting permit pool that bounds latency-probe concurrency.
//!
//! The latency stage launches one task per candidate, but at most `cap` of
//! them may be connecting at once. This type is the admission rule of that
//! pool: a task may start only when a permit is granted, and returns its
//! permit when its whole attempt sequence is done. Its invariant — never
//! more permits out than the cap — holds after every operation. The
//! surrounding binary drives its semaphore by the same rule.

use vstd::prelude::*;

verus! {

/// A counting permit pool with a fixed capacity.
#[derive(Clone, Copy, PartialEq, Eq, Structural, Debug)]
pub struct ProbePermits {
    /// The concurrency cap the pool was created with.
    pub cap: usize,
    /// Permits currently handed out: tasks in the "connecting" state.
    pub in_flight: usize,
}

impl ProbePermits {
    /// The pool never hands out more permits than its capacity.
    pub open spec fn wf(self) -> bool {
        self.in_flight <= self.cap
    }

    /// A fresh pool with every permit available.
    pub fn new(cap: usize) -> (r: ProbePermits)
        ensures
            r.wf(),
            r.cap == cap,
            r.in_flight == 0,
    {
        ProbePermits { cap, in_flight: 0 }
    }

    /// Admits a task when a permit is free: granted exactly when the pool
    /// is below its cap, and one more permit is out afterwards.
    pub fn try_acquire(&mut self) -> (granted: bool)
        requires
            old(self).wf(),
        ensures
            final(self).wf(),
            final(self).cap == old(self).cap,
            granted <==> old(self).in_flight < old(self).cap,
            granted ==> final(self).in_flight == old(self).in_flight + 1,
            !granted ==> final(self).in_flight == old(self).in_flight,
    {
        if self.in_flight < self.cap {
            self.in_flight = self.in_flight + 1;
            true
        } else {
            false
        }
    }

    /// Returns a task's permit when its attempt sequence — success or
    /// failure — has completed.
    pub fn release(&mut self)
        requires
            old(self).wf(),
            old(self).in_flight >= 1,
        ensures
            final(self).wf(),
            final(self).cap == old(self).cap,
            final(self).in_flight == old(self).in_flight - 1,
    {
        self.in_flight = self.in_flight - 1;
    }
}

/// With a concurrency cap of `cap`, no more than `cap` probe tasks are ever
/// simultaneously connecting: every pool operation preserves the bound.
pub proof fn lemma_concurrency_bounded(p: ProbePermits)
    requires
        p.wf(),
    ensures
        p.in_flight <= p.cap,
{
}

} // verus!
