//! A pair of index heaps that trade roles between polling passes.
//!
//! One heap (the non-empty side) is drained during a pass while operations
//! that are still pending are re-queued on the other (the empty side), so
//! no operation is polled twice in one pass and nothing is reallocated.
//! [`BinaryHeapPair::refresh`] re-points the roles at the start of a pass,
//! once the previously drained side is empty.

use vstd::prelude::*;

use crate::task::heap::IndexHeap;

verus! {

/// Two heaps and a flag that says which one currently plays the non-empty
/// (drained) role. When the flag is set, the second heap is drained.
pub struct BinaryHeapPair<T> {
    one: IndexHeap<T>,
    two: IndexHeap<T>,
    flip: bool,
}

impl<T> BinaryHeapPair<T> {
    /// The first underlying heap.
    pub closed spec fn one(&self) -> IndexHeap<T> {
        self.one
    }

    /// The second underlying heap.
    pub closed spec fn two(&self) -> IndexHeap<T> {
        self.two
    }

    /// Whether the second heap currently plays the drained role.
    pub closed spec fn is_flipped(&self) -> bool {
        self.flip
    }

    /// The heap being drained this pass.
    pub open spec fn active_heap(&self) -> IndexHeap<T> {
        if self.is_flipped() {
            self.two()
        } else {
            self.one()
        }
    }

    /// The heap receiving still-pending operations this pass.
    pub open spec fn standby_heap(&self) -> IndexHeap<T> {
        if self.is_flipped() {
            self.one()
        } else {
            self.two()
        }
    }

    pub open spec fn wf(&self) -> bool {
        self.one().wf() && self.two().wf()
    }

    pub fn new(one: IndexHeap<T>, two: IndexHeap<T>) -> (r: Self)
        ensures
            r.one() == one,
            r.two() == two,
            r.is_flipped() == (one@.len() == 0),
    {
        let cond = one.is_empty();
        BinaryHeapPair { one, two, flip: cond }
    }

    /// The side holding this pass's operations, to be drained.
    pub fn not_empty(&mut self) -> (r: &mut IndexHeap<T>)
        ensures
            *r == old(self).active_heap(),
            final(self).active_heap() == *final(r),
            final(self).standby_heap() == old(self).standby_heap(),
            final(self).is_flipped() == old(self).is_flipped(),
    {
        if self.flip {
            &mut self.two
        } else {
            &mut self.one
        }
    }

    /// The side collecting operations that survive to the next pass.
    pub fn empty(&mut self) -> (r: &mut IndexHeap<T>)
        ensures
            *r == old(self).standby_heap(),
            final(self).standby_heap() == *final(r),
            final(self).active_heap() == old(self).active_heap(),
            final(self).is_flipped() == old(self).is_flipped(),
    {
        if self.flip {
            &mut self.one
        } else {
            &mut self.two
        }
    }

    /// Re-points the roles for a new pass: the first heap keeps the drained
    /// role exactly when it still holds something. Meant to be called once
    /// the previously drained side has been emptied, so that the heap that
    /// collected the survivors becomes the one to drain.
    pub fn refresh(&mut self)
        ensures
            final(self).one() == old(self).one(),
            final(self).two() == old(self).two(),
            final(self).is_flipped() == (old(self).one()@.len() == 0),
    {
        self.flip = self.one.is_empty();
    }
}

} // verus!
