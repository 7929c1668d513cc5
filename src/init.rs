use vstd::prelude::*;

verus! {

/// An at-most-once latch guarding installation of the logger in one
/// execution context. It starts unset and, once set, is never reset.
pub struct InitLatch {
    initialized: bool,
}

impl InitLatch {
    pub closed spec fn is_set(&self) -> bool {
        self.initialized
    }

    /// A latch that has not run installation yet.
    pub fn new() -> (r: InitLatch)
        ensures
            !r.is_set(),
    {
        InitLatch { initialized: false }
    }

    pub fn is_initialized(&self) -> (r: bool)
        ensures
            r == self.is_set(),
    {
        self.initialized
    }

    /// Claims the installation: `true` on the first call only, after
    /// which the latch is set for good.
    pub fn claim(&mut self) -> (first: bool)
        ensures
            first == !old(self).is_set(),
            final(self).is_set(),
    {
        let first = !self.initialized;
        self.initialized = true;
        first
    }
}

/// One claim on a latch: `first` was returned and `before` became `after`.
pub open spec fn claimed(before: InitLatch, after: InitLatch, first: bool) -> bool {
    first == !before.is_set() && after.is_set()
}

/// Claiming twice installs at most once, and exactly once when the latch
/// started unset: the second claim is a no-op.
pub proof fn lemma_claim_idempotent(
    l0: InitLatch,
    l1: InitLatch,
    l2: InitLatch,
    first: bool,
    second: bool,
)
    requires
        claimed(l0, l1, first),
        claimed(l1, l2, second),
    ensures
        !second,
        l2.is_set(),
        first == !l0.is_set(),
{
}

} // verus!
