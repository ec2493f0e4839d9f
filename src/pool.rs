use vstd::prelude::*;

verus! {

/// What a worker pool knows of its units of work: how many were submitted,
/// wait in the queue, run, and have finished.
pub struct PoolLedger {
    submitted: u64,
    queued: u64,
    running: u64,
    finished: u64,
}

impl PoolLedger {
    #[verifier::type_invariant]
    spec fn inv(&self) -> bool {
        self.submitted == self.queued + self.running + self.finished
    }

    pub closed spec fn submitted_spec(&self) -> nat {
        self.submitted as nat
    }

    pub closed spec fn queued_spec(&self) -> nat {
        self.queued as nat
    }

    pub closed spec fn running_spec(&self) -> nat {
        self.running as nat
    }

    pub closed spec fn finished_spec(&self) -> nat {
        self.finished as nat
    }

    pub fn new() -> (l: PoolLedger)
        ensures
            l.submitted_spec() == 0,
            l.queued_spec() == 0,
            l.running_spec() == 0,
            l.finished_spec() == 0,
    {
        PoolLedger { submitted: 0, queued: 0, running: 0, finished: 0 }
    }

    pub fn submitted(&self) -> (n: u64)
        ensures
            n == self.submitted_spec(),
    {
        self.submitted
    }

    /// A unit of work joins the queue.
    pub fn submit(&mut self)
        requires
            old(self).submitted_spec() < u64::MAX,
        ensures
            final(self).submitted_spec() == old(self).submitted_spec() + 1,
            final(self).queued_spec() == old(self).queued_spec() + 1,
            final(self).running_spec() == old(self).running_spec(),
            final(self).finished_spec() == old(self).finished_spec(),
    {
        proof {
            use_type_invariant(&*self);
        }
        *self = PoolLedger {
            submitted: self.submitted + 1,
            queued: self.queued + 1,
            running: self.running,
            finished: self.finished,
        };
    }

    /// A worker takes a unit from the queue; `false` when it is empty.
    pub fn start(&mut self) -> (taken: bool)
        ensures
            taken == (old(self).queued_spec() > 0),
            final(self).submitted_spec() == old(self).submitted_spec(),
            final(self).finished_spec() == old(self).finished_spec(),
            taken ==> final(self).queued_spec() == old(self).queued_spec() - 1
                && final(self).running_spec() == old(self).running_spec() + 1,
            !taken ==> final(self).queued_spec() == old(self).queued_spec()
                && final(self).running_spec() == old(self).running_spec(),
    {
        proof {
            use_type_invariant(&*self);
        }
        if self.queued > 0 {
            *self = PoolLedger {
                submitted: self.submitted,
                queued: self.queued - 1,
                running: self.running + 1,
                finished: self.finished,
            };
            true
        } else {
            false
        }
    }

    /// A running unit has completed.
    pub fn finish(&mut self)
        requires
            old(self).running_spec() > 0,
        ensures
            final(self).submitted_spec() == old(self).submitted_spec(),
            final(self).queued_spec() == old(self).queued_spec(),
            final(self).running_spec() == old(self).running_spec() - 1,
            final(self).finished_spec() == old(self).finished_spec() + 1,
    {
        proof {
            use_type_invariant(&*self);
        }
        *self = PoolLedger {
            submitted: self.submitted,
            queued: self.queued,
            running: self.running - 1,
            finished: self.finished + 1,
        };
    }

    /// Whether a join may return: nothing waits and nothing runs, so every
    /// unit that was submitted has finished.
    pub fn is_drained(&self) -> (d: bool)
        ensures
            d == (self.queued_spec() == 0 && self.running_spec() == 0),
            d ==> self.finished_spec() == self.submitted_spec(),
    {
        proof {
            use_type_invariant(self);
        }
        self.queued == 0 && self.running == 0
    }
}

} // verus!
