//! The admission pool: a counting permit source of fixed capacity.
//!
//! An operation may begin its real work only once it holds a permit, and
//! the permit is handed back when the scheduler has absorbed that
//! operation's outcome. The permit pool therefore bounds operations that have
//! started and whose results have not yet been consumed.

use vstd::prelude::*;

verus! {

/// A bounded pool of permits. No more than `limit` permits are ever
/// outstanding at once.
pub struct AdmissionGate {
    limit: usize,
    outstanding: usize,
}

impl AdmissionGate {
    /// The fixed capacity the permit pool was created with.
    pub closed spec fn limit(&self) -> int {
        self.limit as int
    }

    /// How many permits are currently held.
    pub closed spec fn outstanding(&self) -> int {
        self.outstanding as int
    }

    pub open spec fn wf(&self) -> bool {
        &&& self.limit() >= 1
        &&& 0 <= self.outstanding() <= self.limit()
    }

    pub fn new(limit: usize) -> (r: Self)
        requires
            limit >= 1,
        ensures
            r.wf(),
            r.limit() == limit,
            r.outstanding() == 0,
    {
        AdmissionGate { limit, outstanding: 0 }
    }

    /// Hands out a permit exactly when fewer than `limit` are outstanding.
    pub fn try_acquire(&mut self) -> (r: bool)
        requires
            old(self).wf(),
        ensures
            final(self).wf(),
            final(self).limit() == old(self).limit(),
            r == (old(self).outstanding() < old(self).limit()),
            r ==> final(self).outstanding() == old(self).outstanding() + 1,
            !r ==> final(self).outstanding() == old(self).outstanding(),
    {
        if self.outstanding < self.limit {
            self.outstanding = self.outstanding + 1;
            true
        } else {
            false
        }
    }

    /// Returns a permit to the pool.
    pub fn release(&mut self)
        requires
            old(self).wf(),
            old(self).outstanding() >= 1,
        ensures
            final(self).wf(),
            final(self).limit() == old(self).limit(),
            final(self).outstanding() == old(self).outstanding() - 1,
    {
        self.outstanding = self.outstanding - 1;
    }
}

} // verus!
