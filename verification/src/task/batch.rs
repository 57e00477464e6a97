//! The materializing batch runner's verified core.
//!
//! The batch variant runs whole operations on a host runtime and collects
//! `(index, outcome)` pairs in completion order. What is verified here is
//! everything the runner decides: [`BatchController`] says which operation
//! may start next and stops the batch on the first failure, and
//! [`collect_results`] / [`collect_options`] / [`reorder`] turn the
//! collected outcomes into the submission-ordered result — failing with
//! exactly the first failure observed, by completion order.

use vstd::prelude::*;
use vstd::set_lib::lemma_int_range;
use vstd::set_lib::lemma_len_subset;
use vstd::set_lib::set_int_range;

use crate::task::heap::IndexHeap;
use crate::task::heap::TaskItem;

verus! {

/// Decides starts and stops for one batch run: at most `limit` operations
/// in flight, operations started in submission order, and no further
/// starts once a failure has been observed.
pub struct BatchController {
    total: usize,
    limit: usize,
    started: usize,
    in_flight: usize,
    stopped: bool,
}

impl BatchController {
    /// How many operations the batch holds.
    pub closed spec fn total(&self) -> int {
        self.total as int
    }

    /// The concurrency limit the batch was created with.
    pub closed spec fn limit(&self) -> int {
        self.limit as int
    }

    /// Operations with an index below this have been started; starts are
    /// handed out in submission order.
    pub closed spec fn started_count(&self) -> int {
        self.started as int
    }

    /// Started operations whose finish has not been reported.
    pub closed spec fn in_flight(&self) -> int {
        self.in_flight as int
    }

    /// Set once a failure is reported; no operation starts afterwards.
    pub closed spec fn is_stopped(&self) -> bool {
        self.stopped
    }

    pub open spec fn wf(&self) -> bool {
        &&& self.limit() >= 1
        &&& 0 <= self.in_flight() <= self.limit()
        &&& self.in_flight() <= self.started() <= self.total()
    }

    /// Alias kept short for the bound above.
    pub open spec fn started(&self) -> int {
        self.started_count()
    }

    /// A zero limit could never start anything; it is a caller error,
    /// checked by callers that cannot rule it out.
    pub fn new(n: usize, limit: usize) -> (r: Self)
        requires
            limit >= 1,
        ensures
            r.wf(),
            r.total() == n,
            r.limit() == limit,
            r.started_count() == 0,
            r.in_flight() == 0,
            !r.is_stopped(),
    {
        BatchController { total: n, limit, started: 0, in_flight: 0, stopped: false }
    }

    /// Hands out the next operation to start exactly when the batch is
    /// not stopped, operations remain, and the limit has room. After a
    /// failure has been observed, nothing ever starts.
    pub fn try_start(&mut self) -> (r: Option<usize>)
        requires
            old(self).wf(),
        ensures
            final(self).wf(),
            final(self).total() == old(self).total(),
            final(self).limit() == old(self).limit(),
            final(self).is_stopped() == old(self).is_stopped(),
            match r {
                Some(i) => {
                    &&& !old(self).is_stopped()
                    &&& old(self).started_count() < old(self).total()
                    &&& old(self).in_flight() < old(self).limit()
                    &&& i == old(self).started_count()
                    &&& final(self).started_count() == old(self).started_count() + 1
                    &&& final(self).in_flight() == old(self).in_flight() + 1
                },
                None => {
                    &&& (old(self).is_stopped() || old(self).started_count() >= old(self).total()
                        || old(self).in_flight() >= old(self).limit())
                    &&& final(self).started_count() == old(self).started_count()
                    &&& final(self).in_flight() == old(self).in_flight()
                },
            },
    {
        if !self.stopped && self.started < self.total && self.in_flight < self.limit {
            let i = self.started;
            self.started = self.started + 1;
            self.in_flight = self.in_flight + 1;
            Some(i)
        } else {
            None
        }
    }

    /// Records one operation's finish. A failure stops the batch: later
    /// `try_start` calls return nothing.
    pub fn finish(&mut self, ok: bool)
        requires
            old(self).wf(),
            old(self).in_flight() >= 1,
        ensures
            final(self).wf(),
            final(self).total() == old(self).total(),
            final(self).limit() == old(self).limit(),
            final(self).started_count() == old(self).started_count(),
            final(self).in_flight() == old(self).in_flight() - 1,
            final(self).is_stopped() == (old(self).is_stopped() || !ok),
    {
        self.in_flight = self.in_flight - 1;
        if !ok {
            self.stopped = true;
        }
    }
}

/// Position of the first failed outcome of `s`, in completion order, or
/// `s.len()` when every outcome succeeded.
pub open spec fn first_err_pos<T, E>(s: Seq<(usize, Result<T, E>)>) -> int
    decreases s.len(),
{
    if s.len() == 0 {
        0
    } else if s[0].1 is Err {
        0
    } else {
        1 + first_err_pos(s.drop_first())
    }
}

/// What `first_err_pos` finds: everything before it succeeded, and the
/// position itself — when inside the sequence — failed.
pub proof fn lemma_first_err_pos_props<T, E>(s: Seq<(usize, Result<T, E>)>)
    ensures
        0 <= first_err_pos(s) <= s.len(),
        forall|j: int| 0 <= j < first_err_pos(s) ==> s[j].1 is Ok,
        first_err_pos(s) < s.len() ==> s[first_err_pos(s)].1 is Err,
    decreases s.len(),
{
    if s.len() > 0 && !(s[0].1 is Err) {
        lemma_first_err_pos_props(s.drop_first());
        assert forall|j: int| 0 <= j < first_err_pos(s) implies s[j].1 is Ok by {
            if j > 0 {
                assert(s.drop_first()[j - 1].1 is Ok);
            }
        }
    }
}

/// Every index of a distinct, bounded index sequence occurs: `len` many
/// distinct values below `len` cover the whole range.
proof fn lemma_distinct_indices_cover<T>(s: Seq<TaskItem<T>>, k: int)
    requires
        forall|i: int, j: int| 0 <= i < j < s.len() ==> #[trigger] s[i].0 != #[trigger] s[j].0,
        forall|i: int| 0 <= i < s.len() ==> (#[trigger] s[i].0 as int) < s.len(),
        0 <= k < s.len(),
    ensures
        IndexHeap::<T>::seq_contains_index(s, k),
{
    lemma_distinct_seq_index_set_len(s);
    let set = IndexHeap::<T>::seq_index_set(s);
    if !set.contains(k) {
        let range_without = set_int_range(0, s.len() as int).remove(k);
        assert forall|x: int| set.contains(x) implies range_without.contains(x) by {
            let i = choose|i: int| 0 <= i < s.len() && #[trigger] s[i].0 == x;
            assert(0 <= x < s.len());
        }
        lemma_int_range(0, s.len() as int);
        lemma_len_subset(set, range_without);
    }
}

/// Distinct indices give the index set one member per item, whatever the
/// order of the items.
proof fn lemma_distinct_seq_index_set_len<T>(s: Seq<TaskItem<T>>)
    requires
        forall|i: int, j: int| 0 <= i < j < s.len() ==> #[trigger] s[i].0 != #[trigger] s[j].0,
    ensures
        IndexHeap::<T>::seq_index_set(s).finite(),
        IndexHeap::<T>::seq_index_set(s).len() == s.len(),
    decreases s.len(),
{
    if s.len() == 0 {
        assert(IndexHeap::<T>::seq_index_set(s) =~= Set::<int>::empty());
    } else {
        let s0 = s.drop_last();
        lemma_distinct_seq_index_set_len(s0);
        assert forall|k: int|
            IndexHeap::<T>::seq_index_set(s).contains(k) == IndexHeap::<T>::seq_index_set(
            s0,
        ).insert(s.last().0 as int).contains(k) by {
            if IndexHeap::<T>::seq_contains_index(s, k) {
                let i = choose|i: int| 0 <= i < s.len() && #[trigger] s[i].0 == k;
                if i < s.len() - 1 {
                    assert(s0[i].0 == k);
                }
            } else if IndexHeap::<T>::seq_contains_index(s0, k) {
                let i = choose|i: int| 0 <= i < s0.len() && #[trigger] s0[i].0 == k;
                assert(s[i].0 == k);
            } else if k == s.last().0 as int {
                assert(s[s.len() - 1].0 == k);
            }
        }
        assert(IndexHeap::<T>::seq_index_set(s) =~= IndexHeap::<T>::seq_index_set(s0).insert(
            s.last().0 as int,
        ));
        assert(!IndexHeap::<T>::seq_index_set(s0).contains(s.last().0 as int)) by {
            if IndexHeap::<T>::seq_contains_index(s0, s.last().0 as int) {
                let i = choose|i: int| 0 <= i < s0.len() && #[trigger] s0[i].0 == s.last().0;
                assert(s[i].0 != s[s.len() - 1].0);
            }
        }
    }
}

/// Every item of `h` is one of the items of `all` at position `lo` or
/// later.
pub open spec fn drawn_from<T>(h: Seq<TaskItem<T>>, all: Seq<TaskItem<T>>, lo: int) -> bool {
    forall|i: int| #![trigger h[i]]
        0 <= i < h.len() ==> exists|j: int| lo <= j < all.len() && all[j] == h[i]
}

/// Reindexes completion-ordered items to submission order: each item's
/// payload lands at its own index. The items must carry each index below
/// the length exactly once.
#[verifier::loop_isolation(false)]
pub fn reorder<T>(pairs: Vec<TaskItem<T>>) -> (r: Vec<T>)
    requires
        forall|i: int, j: int|
            0 <= i < j < pairs@.len() ==> #[trigger] pairs@[i].0 != #[trigger] pairs@[j].0,
        forall|i: int| 0 <= i < pairs@.len() ==> (#[trigger] pairs@[i].0 as int) < pairs@.len(),
    ensures
        r@.len() == pairs@.len(),
        forall|j: int|
            0 <= j < pairs@.len() ==> r@[#[trigger] pairs@[j].0 as int] == pairs@[j].1,
{
    let ghost all = pairs@;
    let n = pairs.len();
    let mut heap: IndexHeap<T> = IndexHeap::new();
    let mut rest = pairs;
    while rest.len() > 0
        invariant
            rest@ == all.take(rest@.len() as int),
            rest@.len() <= all.len() == n,
            heap.wf(),
            heap@.len() == all.len() - rest@.len(),
            drawn_from(heap@, all, rest@.len() as int),
            forall|j: int|
                rest@.len() <= j < all.len() ==> IndexHeap::<T>::seq_contains_index(
                    heap@,
                    #[trigger] all[j].0 as int,
                ),
            forall|k: int|
                IndexHeap::<T>::seq_contains_index(heap@, k) ==> exists|j: int|
                    rest@.len() <= j < all.len() && (#[trigger] all[j].0 as int) == k,
        decreases rest@.len(),
    {
        let item = match rest.pop() {
            Some(item) => item,
            None => unreached(),
        };
        let ghost m = rest@.len() as int;
        proof {
            assert(all.take(m + 1).drop_last() =~= all.take(m));
            assert(item == all[m]);
            assert(!heap.contains_index(item.0 as int)) by {
                if IndexHeap::<T>::seq_contains_index(heap@, item.0 as int) {
                    let j = choose|j: int|
                        m + 1 <= j < all.len() && (#[trigger] all[j].0 as int) == item.0 as int;
                    assert(all[m].0 != all[j].0);
                }
            }
        }
        let ghost pre = heap@;
        heap.push(item);
        proof {
            let p = choose|p: int|
                0 <= p <= pre.len() && heap@ =~= #[trigger] pre.insert(p, item);
            pre.insert_ensures(p, item);
            assert forall|i: int| #![trigger heap@[i]]
                0 <= i < heap@.len() implies exists|j: int|
                    m <= j < all.len() && all[j] == heap@[i] by {
                if i < p {
                    assert(heap@[i] == pre[i]);
                    let j = choose|j: int| m + 1 <= j < all.len() && all[j] == pre[i];
                    assert(all[j] == heap@[i]);
                } else if i == p {
                    assert(heap@[i] == item);
                    assert(all[m] == heap@[i]);
                } else {
                    assert(heap@[i] == pre[i - 1]);
                    let j = choose|j: int| m + 1 <= j < all.len() && all[j] == pre[i - 1];
                    assert(all[j] == heap@[i]);
                }
            }
            assert(drawn_from(heap@, all, m));
        }
    }
    let mut out: Vec<T> = Vec::new();
    proof {
        assert(all.take(0int) =~= Seq::<TaskItem<T>>::empty());
        let lo = rest@.len() as int;
        assert(drawn_from(heap@, all, lo));
        assert forall|i: int| #![trigger heap@[i]]
            0 <= i < heap@.len() implies exists|j: int|
                0 <= j < all.len() && all[j] == heap@[i] by {
            let j = choose|j: int| lo <= j < all.len() && all[j] == heap@[i];
            assert(0 <= j < all.len() && all[j] == heap@[i]);
        }
        assert(drawn_from(heap@, all, 0));
    }
    while out.len() < n
        invariant
            out@.len() <= n == all.len(),
            heap.wf(),
            heap@.len() == all.len() - out@.len(),
            drawn_from(heap@, all, 0),
            forall|i: int| 0 <= i < heap@.len() ==> (#[trigger] heap@[i].0 as int) >= out@.len(),
            forall|j: int|
                0 <= j < all.len() && (#[trigger] all[j].0 as int) >= out@.len()
                    ==> IndexHeap::<T>::seq_contains_index(heap@, all[j].0 as int),
            forall|j: int|
                0 <= j < all.len() && (#[trigger] all[j].0 as int) < out@.len() ==> out@[all[j].0
                    as int] == all[j].1,
        decreases n - out@.len(),
    {
        proof {
            // Some submitted item carries the next due index, so it is
            // still in the heap, and it is the heap's minimum.
            lemma_distinct_indices_cover(all, out@.len() as int);
            let j = choose|j: int| 0 <= j < all.len() && #[trigger] all[j].0 == out@.len();
            assert(IndexHeap::<T>::seq_contains_index(heap@, out@.len() as int));
        }
        let ghost pre_heap = heap@;
        let item = match heap.pop() {
            Some(item) => item,
            None => unreached(),
        };
        proof {
            assert(item.0 == out@.len());
            assert forall|i: int| #![trigger heap@[i]]
                0 <= i < heap@.len() implies exists|j: int|
                    0 <= j < all.len() && all[j] == heap@[i] by {
                assert(heap@[i] == pre_heap[i]);
                let j = choose|j: int| 0 <= j < all.len() && all[j] == pre_heap[i];
                assert(all[j] == heap@[i]);
            }
            assert(drawn_from(heap@, all, 0));
        }
        let ghost pre_out = out@;
        out.push(item.1);
        proof {
            let ghost c = pre_out.len() as int;
            assert(pre_heap[pre_heap.len() - 1] == item);
            let j0 = choose|j: int| 0 <= j < all.len() && all[j] == item;
            assert forall|j: int|
                0 <= j < all.len() && (#[trigger] all[j].0 as int) < out@.len() implies out@[all[j].0
                as int] == all[j].1 by {
                if all[j].0 as int == c {
                    assert(all[j0].0 == all[j].0);
                    if j != j0 {
                        assert(all[j].0 != all[j0].0);
                    }
                    assert(out@[c] == item.1);
                } else {
                    assert(pre_out[all[j].0 as int] == all[j].1);
                }
            }
        }
    }
    out
}

/// Turns completion-ordered fallible outcomes into the submission-ordered
/// results, failing fast: the returned error is exactly the first failure
/// in completion order, and nothing of the batch survives it.
#[verifier::loop_isolation(false)]
pub fn collect_results<T, E>(outcomes: Vec<(usize, Result<T, E>)>) -> (r: Result<Vec<T>, E>)
    requires
        forall|i: int, j: int|
            0 <= i < j < outcomes@.len() ==> #[trigger] outcomes@[i].0 != #[trigger] outcomes@[j].0,
        first_err_pos(outcomes@) == outcomes@.len() ==> forall|i: int|
            0 <= i < outcomes@.len() ==> (#[trigger] outcomes@[i].0 as int) < outcomes@.len(),
    ensures
        match r {
            Ok(v) => {
                &&& first_err_pos(outcomes@) == outcomes@.len()
                &&& v@.len() == outcomes@.len()
                &&& forall|j: int|
                    0 <= j < outcomes@.len() ==> v@[#[trigger] outcomes@[j].0 as int]
                        == outcomes@[j].1->Ok_0
            },
            Err(e) => {
                &&& first_err_pos(outcomes@) < outcomes@.len()
                &&& e == outcomes@[first_err_pos(outcomes@)].1->Err_0
            },
        },
{
    let ghost all = outcomes@;
    proof {
        lemma_first_err_pos_props(all);
        assert(all.skip(0) =~= all);
    }
    let mut items: Vec<TaskItem<T>> = Vec::new();
    let mut rest = outcomes;
    while rest.len() > 0
        invariant
            all.len() >= rest@.len(),
            rest@ == all.skip(all.len() - rest@.len()),
            items@.len() == all.len() - rest@.len(),
            forall|j: int|
                0 <= j < items@.len() ==> #[trigger] items@[j] == TaskItem(
                    all[j].0,
                    all[j].1->Ok_0,
                ),
            forall|j: int| 0 <= j < items@.len() ==> all[j].1 is Ok,
            first_err_pos(all) >= items@.len(),
            first_err_pos(all) - items@.len() == first_err_pos(rest@),
        decreases rest@.len(),
    {
        let ghost c = all.len() - rest@.len();
        let (idx, res) = rest.remove(0);
        proof {
            assert(all.skip(c)[0] == all[c]);
            assert(all.skip(c).remove(0) =~= all.skip(c).drop_first());
            assert(all.skip(c).drop_first() =~= all.skip(c + 1));
        }
        match res {
            Ok(v) => {
                proof {
                    assert(first_err_pos(all.skip(c)) == 1 + first_err_pos(all.skip(c + 1)));
                }
                items.push(TaskItem(idx, v));
            },
            Err(e) => {
                proof {
                    assert(first_err_pos(all.skip(c)) == 0);
                    assert(first_err_pos(all) == c);
                }
                return Err(e);
            },
        }
    }
    proof {
        assert(first_err_pos(all) == all.len());
        assert forall|i: int, j: int|
            0 <= i < j < items@.len() implies #[trigger] items@[i].0 != #[trigger] items@[j].0 by {
            assert(all[i].0 != all[j].0);
        }
        assert forall|i: int|
            0 <= i < items@.len() implies (#[trigger] items@[i].0 as int) < items@.len() by {
            assert((all[i].0 as int) < all.len());
        }
    }
    let v = reorder(items);
    proof {
        assert forall|j: int|
            0 <= j < all.len() implies v@[#[trigger] all[j].0 as int] == all[j].1->Ok_0 by {
            assert(items@[j] == TaskItem(all[j].0, all[j].1->Ok_0));
            assert(v@[items@[j].0 as int] == items@[j].1);
        }
    }
    Ok(v)
}

/// The optional flavor: absent outcomes abort the batch, present ones are
/// reindexed to submission order.
#[verifier::loop_isolation(false)]
pub fn collect_options<T>(outcomes: Vec<(usize, Option<T>)>) -> (r: Option<Vec<T>>)
    requires
        forall|i: int, j: int|
            0 <= i < j < outcomes@.len() ==> #[trigger] outcomes@[i].0 != #[trigger] outcomes@[j].0,
        (forall|i: int| 0 <= i < outcomes@.len() ==> #[trigger] outcomes@[i].1 is Some)
            ==> forall|i: int|
            0 <= i < outcomes@.len() ==> (#[trigger] outcomes@[i].0 as int) < outcomes@.len(),
    ensures
        match r {
            Some(v) => {
                &&& forall|i: int| 0 <= i < outcomes@.len() ==> #[trigger] outcomes@[i].1 is Some
                &&& v@.len() == outcomes@.len()
                &&& forall|j: int|
                    0 <= j < outcomes@.len() ==> v@[#[trigger] outcomes@[j].0 as int]
                        == outcomes@[j].1->0
            },
            None => exists|i: int|
                0 <= i < outcomes@.len() && #[trigger] outcomes@[i].1 is None,
        },
{
    let ghost all = outcomes@;
    proof {
        assert(all.skip(0) =~= all);
    }
    let mut items: Vec<TaskItem<T>> = Vec::new();
    let mut rest = outcomes;
    while rest.len() > 0
        invariant
            all.len() >= rest@.len(),
            rest@ == all.skip(all.len() - rest@.len()),
            items@.len() == all.len() - rest@.len(),
            forall|j: int|
                0 <= j < items@.len() ==> #[trigger] items@[j] == TaskItem(all[j].0, all[j].1->0),
            forall|j: int| 0 <= j < items@.len() ==> all[j].1 is Some,
        decreases rest@.len(),
    {
        let ghost c = all.len() - rest@.len();
        let (idx, res) = rest.remove(0);
        proof {
            assert(all.skip(c)[0] == all[c]);
            assert(all.skip(c).remove(0) =~= all.skip(c).drop_first());
            assert(all.skip(c).drop_first() =~= all.skip(c + 1));
        }
        match res {
            Some(v) => {
                items.push(TaskItem(idx, v));
            },
            None => {
                proof {
                    assert(all[c].1 is None);
                }
                return None;
            },
        }
    }
    proof {
        assert forall|i: int, j: int|
            0 <= i < j < items@.len() implies #[trigger] items@[i].0 != #[trigger] items@[j].0 by {
            assert(all[i].0 != all[j].0);
        }
        assert forall|i: int|
            0 <= i < items@.len() implies (#[trigger] items@[i].0 as int) < items@.len() by {
            assert(all[i].1 is Some);
            assert((all[i].0 as int) < all.len());
        }
    }
    let v = reorder(items);
    proof {
        assert forall|j: int|
            0 <= j < all.len() implies v@[#[trigger] all[j].0 as int] == all[j].1->0 by {
            assert(items@[j] == TaskItem(all[j].0, all[j].1->0));
            assert(v@[items@[j].0 as int] == items@[j].1);
        }
    }
    Some(v)
}

} // verus!
