//! An indexed item and a priority queue of such items, ordered by index.
//!
//! Results and pending operations both travel as a [`TaskItem`]: a payload
//! paired with its submission index. [`IndexHeap`] keeps items sorted so
//! that the smallest index — the one due next — is always removed first,
//! which is what the scheduler's in-order emission rests on.

use vstd::prelude::*;

verus! {

/// A payload paired with its submission index. The index alone decides
/// the item's priority: the smallest index is served first.
pub struct TaskItem<T>(pub usize, pub T);

/// A priority queue of [`TaskItem`]s that always yields the item with the
/// smallest index. Items are kept sorted by strictly descending index, so
/// the minimum sits at the back; indices are unique by construction.
pub struct IndexHeap<T> {
    items: Vec<TaskItem<T>>,
}

impl<T> View for IndexHeap<T> {
    type V = Seq<TaskItem<T>>;

    closed spec fn view(&self) -> Seq<TaskItem<T>> {
        self.items@
    }
}

impl<T> IndexHeap<T> {
    /// Indices strictly decrease from front to back, which both keeps the
    /// minimum at the back and makes every index unique.
    pub open spec fn seq_wf(s: Seq<TaskItem<T>>) -> bool {
        forall|i: int, j: int| 0 <= i < j < s.len() ==> #[trigger] s[i].0 > #[trigger] s[j].0
    }

    /// The heap's items satisfy [`IndexHeap::seq_wf`].
    pub open spec fn wf(&self) -> bool {
        Self::seq_wf(self@)
    }

    /// Whether some item of `s` carries index `k`.
    pub open spec fn seq_contains_index(s: Seq<TaskItem<T>>, k: int) -> bool {
        exists|i: int| 0 <= i < s.len() && #[trigger] s[i].0 == k
    }

    /// Whether some stored item carries index `k`.
    pub open spec fn contains_index(&self, k: int) -> bool {
        Self::seq_contains_index(self@, k)
    }

    /// The set of indices stored in the heap.
    pub open spec fn index_set(&self) -> Set<int> {
        Self::seq_index_set(self@)
    }

    pub fn new() -> (r: Self)
        ensures
            r@ =~= Seq::<TaskItem<T>>::empty(),
            r.wf(),
    {
        IndexHeap { items: Vec::new() }
    }

    pub fn len(&self) -> (r: usize)
        ensures
            r == self@.len(),
    {
        self.items.len()
    }

    pub fn is_empty(&self) -> (r: bool)
        ensures
            r == (self@.len() == 0),
    {
        self.items.len() == 0
    }

    /// The smallest stored index, if any: the index of the item at the back.
    pub fn peek_index(&self) -> (r: Option<usize>)
        ensures
            match r {
                Some(k) => {
                    &&& self@.len() > 0
                    &&& k == self@.last().0
                },
                None => self@.len() == 0,
            },
    {
        if self.items.len() == 0 {
            None
        } else {
            Some(self.items[self.items.len() - 1].0)
        }
    }

    /// Inserts an item whose index is not yet present, keeping the order.
    pub fn push(&mut self, item: TaskItem<T>)
        requires
            old(self).wf(),
            !old(self).contains_index(item.0 as int),
        ensures
            final(self).wf(),
            exists|p: int|
                0 <= p <= old(self)@.len() && final(self)@ =~= #[trigger] old(self)@.insert(
                    p,
                    item,
                ),
            final(self)@.len() == old(self)@.len() + 1,
            forall|k: int|
                Self::seq_contains_index(final(self)@, k) == (Self::seq_contains_index(
                    old(self)@,
                    k,
                ) || k == item.0 as int),
    {
        let mut p: usize = 0;
        // Walk past the items with a larger index; insert before the rest.
        while p < self.items.len() && self.items[p].0 > item.0
            invariant
                0 <= p <= self@.len(),
                forall|i: int| 0 <= i < p ==> #[trigger] self@[i].0 > item.0,
                self.wf(),
                !self.contains_index(item.0 as int),
                self@ == old(self)@,
            decreases self@.len() - p,
        {
            p = p + 1;
        }
        proof {
            // Everything at or past p has a smaller index than the new item.
            assert forall|j: int| p <= j < self@.len() implies #[trigger] self@[j].0
                < item.0 by {
                if p < self@.len() {
                    assert(self@[p as int].0 != item.0);
                }
            }
        }
        self.items.insert(p, item);
        proof {
            let s = old(self)@;
            assert(final(self)@ =~= s.insert(p as int, item));
            assert forall|k: int|
                Self::seq_contains_index(final(self)@, k) == (Self::seq_contains_index(
                old(self)@,
                k,
            ) || k == item.0 as int) by {
                if final(self).contains_index(k) {
                    let i = choose|i: int|
                        0 <= i < final(self)@.len() && #[trigger] final(self)@[i].0 == k;
                    if i < p {
                        assert(s[i].0 == k);
                    } else if i > p {
                        assert(s[i - 1].0 == k);
                    }
                } else {
                    if k == item.0 as int {
                        assert(final(self)@[p as int].0 == k);
                    } else if old(self).contains_index(k) {
                        let i = choose|i: int| 0 <= i < s.len() && #[trigger] s[i].0 == k;
                        if i < p {
                            assert(final(self)@[i].0 == k);
                        } else {
                            assert(final(self)@[i + 1].0 == k);
                        }
                    }
                }
            }
        }
    }

    /// The indices of a sequence of items, as a set.
    pub open spec fn seq_index_set(s: Seq<TaskItem<T>>) -> Set<int> {
        Set::new(|k: int| Self::seq_contains_index(s, k))
    }

    /// Since indices strictly decrease, the set of stored indices has
    /// exactly one member per stored item.
    pub proof fn lemma_seq_index_set_len(s: Seq<TaskItem<T>>)
        requires
            forall|i: int, j: int| 0 <= i < j < s.len() ==> #[trigger] s[i].0 > #[trigger] s[j].0,
        ensures
            Self::seq_index_set(s).finite(),
            Self::seq_index_set(s).len() == s.len(),
        decreases s.len(),
    {
        if s.len() == 0 {
            assert(Self::seq_index_set(s) =~= Set::<int>::empty());
        } else {
            let s0 = s.drop_last();
            Self::lemma_seq_index_set_len(s0);
            assert forall|k: int|
                Self::seq_index_set(s).contains(k) == Self::seq_index_set(s0).insert(
                s.last().0 as int,
            ).contains(k) by {
                if Self::seq_index_set(s).contains(k) {
                    let i = choose|i: int| 0 <= i < s.len() && #[trigger] s[i].0 == k;
                    if i < s.len() - 1 {
                        assert(s0[i].0 == k);
                    }
                } else if Self::seq_index_set(s0).contains(k) {
                    let i = choose|i: int| 0 <= i < s0.len() && #[trigger] s0[i].0 == k;
                    assert(s[i].0 == k);
                } else if k == s.last().0 as int {
                    assert(s[s.len() - 1].0 == k);
                }
            }
            assert(Self::seq_index_set(s) =~= Self::seq_index_set(s0).insert(s.last().0 as int));
            assert(!Self::seq_index_set(s0).contains(s.last().0 as int)) by {
                if Self::seq_index_set(s0).contains(s.last().0 as int) {
                    let i = choose|i: int|
                        0 <= i < s0.len() && #[trigger] s0[i].0 == s.last().0;
                    assert(s[i].0 > s[s.len() - 1].0);
                }
            }
        }
    }

    /// Removes and returns the item with the smallest index.
    pub fn pop(&mut self) -> (r: Option<TaskItem<T>>)
        requires
            old(self).wf(),
        ensures
            final(self).wf(),
            match r {
                Some(item) => {
                    &&& old(self)@.len() > 0
                    &&& item == old(self)@.last()
                    &&& final(self)@ =~= old(self)@.drop_last()
                    &&& forall|k: int|
                        Self::seq_contains_index(final(self)@, k) == (Self::seq_contains_index(
                            old(self)@,
                            k,
                        ) && k != item.0 as int)
                    &&& forall|k: int|
                        Self::seq_contains_index(final(self)@, k) ==> k > item.0
                },
                None => {
                    &&& old(self)@.len() == 0
                    &&& final(self)@ =~= old(self)@
                },
            },
    {
        let r = self.items.pop();
        proof {
            if old(self)@.len() > 0 {
                let item = old(self)@.last();
                let s = old(self)@;
                assert forall|k: int| final(self).contains_index(k) implies k > item.0 by {
                    let i = choose|i: int|
                        0 <= i < final(self)@.len() && #[trigger] final(self)@[i].0 == k;
                    assert(s[i].0 == k);
                    assert(s[i].0 > s[s.len() - 1].0);
                }
                assert forall|k: int|
                    Self::seq_contains_index(final(self)@, k) == (Self::seq_contains_index(
                    old(self)@,
                    k,
                ) && k != item.0 as int) by {
                    if old(self).contains_index(k) && k != item.0 as int {
                        let i = choose|i: int| 0 <= i < s.len() && #[trigger] s[i].0 == k;
                        assert(i < s.len() - 1);
                        assert(final(self)@[i].0 == k);
                    } else if final(self).contains_index(k) {
                        let i = choose|i: int|
                            0 <= i < final(self)@.len() && #[trigger] final(self)@[i].0 == k;
                        assert(s[i].0 == k);
                    }
                }
            }
        }
        r
    }
}

} // verus!
