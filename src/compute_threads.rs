use vstd::prelude::*;

verus! {

/// The permit count of the compute limiter: at most `max` cracking tasks hold
/// a permit at once. Waiting for a permit is the caller's part: a refused
/// `acquire` is retried after a `release`.
pub struct CrackLimiter {
    counter: usize,
    max: usize,
}

impl CrackLimiter {
    /// The number of permits held.
    pub closed spec fn active(&self) -> nat {
        self.counter as nat
    }

    /// The number of permits there are.
    pub closed spec fn capacity(&self) -> nat {
        self.max as nat
    }

    /// No more permits are held than there are.
    pub closed spec fn wf(&self) -> bool {
        self.counter <= self.max
    }

    /// Bounded parallelism: no more permits are held than there are. With a
    /// single permit, at most one cracking task holds it at any time, and an
    /// `acquire` made while it is held is refused until it is released.
    pub proof fn lemma_within_capacity(&self)
        requires
            self.wf(),
        ensures
            self.active() <= self.capacity(),
            self.capacity() == 1 && self.active() == 1 ==> !(self.active() < self.capacity()),
    {
    }

    /// A limiter with `max` permits, none held.
    pub fn new(max: usize) -> (r: Self)
        ensures
            r.wf(),
            r.active() == 0,
            r.capacity() == max,
    {
        CrackLimiter { counter: 0, max }
    }

    /// Takes a permit if one is free, and says whether it did.
    pub fn acquire(&mut self) -> (r: bool)
        requires
            old(self).wf(),
        ensures
            final(self).wf(),
            final(self).capacity() == old(self).capacity(),
            r == (old(self).active() < old(self).capacity()),
            r ==> final(self).active() == old(self).active() + 1,
            !r ==> final(self).active() == old(self).active(),
    {
        if self.counter < self.max {
            self.counter = self.counter + 1;
            true
        } else {
            false
        }
    }

    /// Gives a held permit back.
    pub fn release(&mut self)
        requires
            old(self).wf(),
            old(self).active() > 0,
        ensures
            final(self).wf(),
            final(self).capacity() == old(self).capacity(),
            final(self).active() == old(self).active() - 1,
    {
        self.counter = self.counter - 1;
    }
}

} // verus!
