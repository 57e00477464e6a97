//! The ordered scheduler: a pull-based state machine that emits results
//! strictly in submission order while a bounded number of operations run.
//!
//! The machine owns no operations; a driver does. One pull works in
//! passes: [`Task::begin_pass`] re-points the swap-pair buffer,
//! [`Task::next_op`] hands the driver the pending operation to poll next
//! (admitting it through the permit pool if it has not started yet), and the
//! driver reports the outcome with [`Task::op_ready`], [`Task::op_pending`]
//! or [`Task::op_aborted`]. Once the pass is drained, [`Task::try_emit`]
//! releases the next in-order result, if it has arrived.

use vstd::prelude::*;
use vstd::set_lib::lemma_int_range;
use vstd::set_lib::lemma_len_subset;
use vstd::set_lib::set_int_range;

use crate::task::gate::AdmissionGate;
use crate::task::heap::IndexHeap;
use crate::task::heap::TaskItem;
use crate::task::pair::BinaryHeapPair;

verus! {

/// The scheduler for one batch of `total` operations with a fixed
/// concurrency limit. Results are emitted in submission order: result `k`
/// is never handed out before every result with a smaller index.
pub struct Task<T> {
    futs: BinaryHeapPair<()>,
    rets: IndexHeap<T>,
    gate: AdmissionGate,
    futs_len: usize,
    pos: usize,
    admitted: usize,
    aborted: bool,
    polling: Option<usize>,
    emitted: Ghost<Seq<T>>,
    completed: Ghost<Map<int, T>>,
}

impl<T> Task<T> {
    /// How many operations were submitted.
    pub closed spec fn total(&self) -> int {
        self.futs_len as int
    }

    /// The next index due for emission; everything below it is out.
    pub closed spec fn cursor(&self) -> int {
        self.pos as int
    }

    /// Operations with an index below this hold or have held a permit.
    /// Admission is FIFO by submission index, so they form a prefix.
    pub closed spec fn admitted_count(&self) -> int {
        self.admitted as int
    }

    /// Whether the admission pool closed before some operation started;
    /// terminal, and everything buffered is discarded.
    pub closed spec fn is_aborted(&self) -> bool {
        self.aborted
    }

    /// The index handed to the driver by `next_op` and not yet reported.
    pub closed spec fn polling_index(&self) -> Option<usize> {
        self.polling
    }

    /// Every result emitted so far, in emission order.
    pub closed spec fn emitted_seq(&self) -> Seq<T> {
        self.emitted@
    }

    /// The value each completed operation resolved to, by index.
    pub closed spec fn completed_map(&self) -> Map<int, T> {
        self.completed@
    }

    /// The buffer drained during the current pass.
    pub closed spec fn active(&self) -> Seq<TaskItem<()>> {
        self.futs.active_heap()@
    }

    /// The buffer collecting operations that stay pending this pass.
    pub closed spec fn standby(&self) -> Seq<TaskItem<()>> {
        self.futs.standby_heap()@
    }

    /// The completed-but-unemitted results, ordered by index.
    pub closed spec fn rets_seq(&self) -> Seq<TaskItem<T>> {
        self.rets@
    }

    pub closed spec fn gate_limit(&self) -> int {
        self.gate.limit()
    }

    pub closed spec fn gate_outstanding(&self) -> int {
        self.gate.outstanding()
    }

    /// Whether the driver was handed index `k` and has not reported yet.
    pub open spec fn is_polling(&self, k: int) -> bool {
        match self.polling_index() {
            Some(p) => p as int == k,
            None => false,
        }
    }

    /// Whether operation `k` has not completed: it waits in a buffer or
    /// sits with the driver.
    pub open spec fn is_pending(&self, k: int) -> bool {
        ||| IndexHeap::<()>::seq_contains_index(self.active(), k)
        ||| IndexHeap::<()>::seq_contains_index(self.standby(), k)
        ||| self.is_polling(k)
    }

    /// Whether operation `k` completed but its result was not emitted yet.
    pub open spec fn is_buffered(&self, k: int) -> bool {
        IndexHeap::<T>::seq_contains_index(self.rets_seq(), k)
    }

    /// Operation `k` sits in exactly one place — the active buffer, the
    /// standby buffer, the driver's hands or the result buffer — exactly
    /// when it is neither emitted nor out of range.
    pub open spec fn cell_ok(&self, k: int) -> bool {
        let a = IndexHeap::<()>::seq_contains_index(self.active(), k);
        let s = IndexHeap::<()>::seq_contains_index(self.standby(), k);
        let p = self.is_polling(k);
        let b = self.is_buffered(k);
        &&& (self.cursor() <= k < self.total()) == (a || s || p || b)
        &&& !(a && s)
        &&& !(a && p)
        &&& !(s && p)
        &&& !(a && b)
        &&& !(s && b)
        &&& !(p && b)
    }

    /// Every operation not yet emitted is pending or buffered, exactly
    /// once, and nowhere else.
    pub open spec fn partition_ok(&self) -> bool {
        forall|k: int| #[trigger] self.cell_ok(k)
    }

    /// The permit pool's outstanding permits are exactly the admitted operations
    /// whose outcome has not been absorbed, and every operation past the
    /// admitted prefix is still pending.
    pub open spec fn accounting_ok(&self) -> bool {
        &&& self.gate_outstanding() == self.admitted_count() - self.cursor()
            - self.rets_seq().len()
        &&& forall|k: int| self.admitted_count() <= k < self.total() ==> self.is_pending(k)
    }

    /// Buffered results carry the value their operation completed with.
    pub open spec fn results_ok(&self) -> bool {
        forall|i: int|
            0 <= i < self.rets_seq().len() ==> {
                &&& self.completed_map().contains_key(#[trigger] self.rets_seq()[i].0 as int)
                &&& self.rets_seq()[i].1 == self.completed_map()[self.rets_seq()[i].0 as int]
            }
    }

    /// Everything below the cursor went out, in index order, with the
    /// value its operation completed with.
    pub open spec fn emitted_ok(&self) -> bool {
        &&& self.emitted_seq().len() == self.cursor()
        &&& forall|i: int|
            0 <= i < self.cursor() ==> #[trigger] self.completed_map().contains_key(i)
        &&& forall|i: int|
            0 <= i < self.cursor() ==> #[trigger] self.emitted_seq()[i]
                == self.completed_map()[i]
    }

    pub open spec fn polling_ok(&self) -> bool {
        match self.polling_index() {
            Some(k) => self.cursor() <= k < self.total() && k < self.admitted_count(),
            None => true,
        }
    }

    pub open spec fn wf(&self) -> bool {
        &&& IndexHeap::<()>::seq_wf(self.active())
        &&& IndexHeap::<()>::seq_wf(self.standby())
        &&& IndexHeap::<T>::seq_wf(self.rets_seq())
        &&& self.gate_limit() >= 1
        &&& 0 <= self.gate_outstanding() <= self.gate_limit()
        &&& 0 <= self.cursor() <= self.total()
        &&& 0 <= self.admitted_count() <= self.total()
        &&& self.polling_ok()
        &&& self.emitted_ok()
        &&& self.results_ok()
        &&& !self.is_aborted() ==> self.partition_ok()
        &&& !self.is_aborted() ==> self.accounting_ok()
    }

    /// Facts quantified over one state do not carry to a later state by
    /// themselves; this lemma moves `emitted_ok` across a step that leaves
    /// the emitted results, the cursor and the completion record alone.
    proof fn lemma_emitted_ok_frame(pre: &Self, post: &Self)
        requires
            pre.emitted_ok(),
            post.emitted_seq() == pre.emitted_seq(),
            post.cursor() == pre.cursor(),
            post.completed_map() == pre.completed_map(),
        ensures
            post.emitted_ok(),
    {
        assert forall|i: int|
            0 <= i < post.cursor() implies #[trigger] post.completed_map().contains_key(i) by {
            assert(pre.completed_map().contains_key(i));
        }
        assert forall|i: int|
            0 <= i < post.cursor() implies #[trigger] post.emitted_seq()[i]
                == post.completed_map()[i] by {
            assert(pre.emitted_seq()[i] == pre.completed_map()[i]);
        }
    }

    /// Moves `results_ok` across a step that leaves the result buffer and
    /// the completion record alone.
    proof fn lemma_results_ok_frame(pre: &Self, post: &Self)
        requires
            pre.results_ok(),
            post.rets_seq() == pre.rets_seq(),
            post.completed_map() == pre.completed_map(),
        ensures
            post.results_ok(),
    {
        assert forall|i: int|
            0 <= i < post.rets_seq().len() implies {
                &&& post.completed_map().contains_key(#[trigger] post.rets_seq()[i].0 as int)
                &&& post.rets_seq()[i].1 == post.completed_map()[post.rets_seq()[i].0 as int]
            } by {
            assert(pre.completed_map().contains_key(pre.rets_seq()[i].0 as int));
            assert(pre.rets_seq()[i].1 == pre.completed_map()[pre.rets_seq()[i].0 as int]);
        }
    }

    /// Sets up a batch of `n` operations, none yet admitted or completed.
    ///
    /// A zero limit would deadlock every operation at the permit pool, so it is a
    /// caller error and ruled out here; callers that cannot guarantee it
    /// must check before constructing the scheduler.
    pub fn new(n: usize, limit: usize) -> (r: Self)
        requires
            limit >= 1,
        ensures
            r.wf(),
            r.total() == n,
            r.cursor() == 0,
            r.admitted_count() == 0,
            !r.is_aborted(),
            r.polling_index() is None,
            r.emitted_seq() =~= Seq::<T>::empty(),
            r.completed_map() =~= Map::<int, T>::empty(),
            forall|k: int| r.is_pending(k) == (0 <= k < n),
            forall|k: int| !r.is_buffered(k),
            r.gate_limit() == limit,
            r.gate_outstanding() == 0,
    {
        let mut initial: IndexHeap<()> = IndexHeap::new();
        let mut i: usize = 0;
        while i < n
            invariant
                0 <= i <= n,
                initial.wf(),
                initial@.len() == i,
                forall|k: int|
                    IndexHeap::<()>::seq_contains_index(initial@, k) == (0 <= k < i),
            decreases n - i,
        {
            proof {
                assert(!initial.contains_index(i as int));
            }
            initial.push(TaskItem(i, ()));
            i = i + 1;
        }
        let futs = BinaryHeapPair::new(initial, IndexHeap::new());
        proof {
            assert(futs.standby_heap()@.len() == 0);
            assert forall|k: int|
                IndexHeap::<()>::seq_contains_index(futs.active_heap()@, k) == (0 <= k
                    < n) by {
                if n == 0 {
                    assert(futs.active_heap() == futs.two());
                } else {
                    assert(futs.active_heap() == futs.one());
                }
            }
        }
        Task {
            futs,
            rets: IndexHeap::new(),
            gate: AdmissionGate::new(limit),
            futs_len: n,
            pos: 0,
            admitted: 0,
            aborted: false,
            polling: None,
            emitted: Ghost(Seq::empty()),
            completed: Ghost(Map::empty()),
        }
    }

    /// Whether pulls report end-of-sequence: the cursor has swept the
    /// whole batch, or the batch aborted.
    pub open spec fn spec_done(&self) -> bool {
        self.cursor() >= self.total() || self.is_aborted()
    }

    pub fn done(&self) -> (r: bool)
        ensures
            r == self.spec_done(),
    {
        self.pos >= self.futs_len || self.aborted
    }

    /// Starts a pass: points the drained role at the buffer that holds
    /// this pass's operations. Contents are untouched. Called between
    /// passes, when the previously drained buffer is empty, so that the
    /// survivors collected last pass are the ones drained next.
    pub fn begin_pass(&mut self)
        requires
            old(self).wf(),
            old(self).polling_index() is None,
        ensures
            final(self).wf(),
            final(self).total() == old(self).total(),
            final(self).cursor() == old(self).cursor(),
            final(self).admitted_count() == old(self).admitted_count(),
            final(self).is_aborted() == old(self).is_aborted(),
            final(self).polling_index() is None,
            final(self).emitted_seq() == old(self).emitted_seq(),
            final(self).completed_map() == old(self).completed_map(),
            final(self).rets_seq() == old(self).rets_seq(),
            forall|k: int| final(self).is_pending(k) == old(self).is_pending(k),
            forall|k: int| final(self).is_buffered(k) == old(self).is_buffered(k),
            final(self).gate_limit() == old(self).gate_limit(),
            final(self).gate_outstanding() == old(self).gate_outstanding(),
            old(self).active().len() == 0 ==> final(self).active() == old(self).standby()
                && final(self).standby().len() == 0,
    {
        self.futs.refresh();
        proof {
            assert forall|k: int| self.is_pending(k) == old(self).is_pending(k) by {
                assert(self.active() == old(self).active() && self.standby() == old(
                    self,
                ).standby() || self.active() == old(self).standby() && self.standby() == old(
                    self,
                ).active());
            }
            if !self.is_aborted() {
                assert forall|k: int| self.cell_ok(k) by {
                    assert(old(self).cell_ok(k));
                }
                assert forall|k: int|
                    self.admitted_count() <= k < self.total() implies self.is_pending(k) by {
                    assert(old(self).is_pending(k));
                    assert(old(self).cell_ok(k));
                }
            }
            Self::lemma_emitted_ok_frame(old(self), self);
            Self::lemma_results_ok_frame(old(self), self);
        }
    }

    /// Hands the driver the next operation of this pass to poll, lowest
    /// index first. An operation that has not started yet is admitted
    /// through the permit pool when it is the next in line and a permit is free;
    /// otherwise it is parked on the standby buffer for the next pass.
    /// Returns `None` once the pass is drained.
    #[verifier::loop_isolation(false)]
    pub fn next_op(&mut self) -> (r: Option<usize>)
        requires
            old(self).wf(),
            old(self).polling_index() is None,
            !old(self).is_aborted(),
        ensures
            final(self).wf(),
            final(self).total() == old(self).total(),
            final(self).cursor() == old(self).cursor(),
            final(self).is_aborted() == old(self).is_aborted(),
            final(self).emitted_seq() == old(self).emitted_seq(),
            final(self).completed_map() == old(self).completed_map(),
            final(self).rets_seq() == old(self).rets_seq(),
            forall|k: int| final(self).is_pending(k) == old(self).is_pending(k),
            forall|k: int| final(self).is_buffered(k) == old(self).is_buffered(k),
            final(self).gate_limit() == old(self).gate_limit(),
            final(self).admitted_count() >= old(self).admitted_count(),
            final(self).admitted_count() <= old(self).admitted_count() + 1,
            // Admission is FIFO by submission index: when an operation is
            // admitted here, it is exactly the next one in line.
            final(self).admitted_count() > old(self).admitted_count() ==> r == Some(
                old(self).admitted_count() as usize,
            ) && final(self).gate_outstanding() == old(self).gate_outstanding() + 1,
            match r {
                Some(ord) => {
                    &&& final(self).polling_index() == Some(ord)
                    &&& old(self).is_pending(ord as int)
                    &&& old(self).cursor() <= ord < old(self).total()
                    &&& (ord as int) < final(self).admitted_count()
                },
                None => {
                    &&& final(self).polling_index() is None
                    &&& final(self).active().len() == 0
                    &&& final(self).admitted_count() == old(self).admitted_count()
                    &&& final(self).gate_outstanding() == old(self).gate_outstanding()
                },
            },
    {
        loop
            invariant
                self.wf(),
                self.polling_index() is None,
                !self.is_aborted(),
                self.total() == old(self).total(),
                self.cursor() == old(self).cursor(),
                self.emitted_seq() == old(self).emitted_seq(),
                self.completed_map() == old(self).completed_map(),
                self.rets_seq() == old(self).rets_seq(),
                forall|k: int| self.is_pending(k) == old(self).is_pending(k),
                forall|k: int| self.is_buffered(k) == old(self).is_buffered(k),
                self.gate_limit() == old(self).gate_limit(),
                self.admitted_count() == old(self).admitted_count(),
                self.gate_outstanding() == old(self).gate_outstanding(),
            decreases self.active().len(),
        {
            let ghost prev = *self;
            let active = self.futs.not_empty();
            let popped = active.pop();
            match popped {
                None => {
                    proof {
                        assert forall|k: int| self.is_pending(k) == old(self).is_pending(k) by {
                            assert(prev.is_pending(k) == old(self).is_pending(k));
                            assert(prev.cell_ok(k));
                        }
                        assert forall|k: int| self.cell_ok(k) by {
                            assert(prev.cell_ok(k));
                        }
                        assert forall|k: int|
                            self.admitted_count() <= k < self.total() implies self.is_pending(
                                k,
                            ) by {
                            assert(prev.is_pending(k));
                            assert(prev.cell_ok(k));
                        }
                        Self::lemma_emitted_ok_frame(&prev, self);
                        Self::lemma_results_ok_frame(&prev, self);
                    }
                    return None;
                },
                Some(TaskItem(ord, ())) => {
                    proof {
                        assert(prev.active()[prev.active().len() - 1].0 == ord);
                        assert(prev.is_pending(ord as int));
                        assert(prev.cell_ok(ord as int));
                        assert(prev.cursor() <= ord < prev.total());
                    }
                    if ord < self.admitted {
                        self.polling = Some(ord);
                        proof {
                            assert forall|k: int|
                                self.is_pending(k) == old(self).is_pending(k) by {
                                assert(prev.is_pending(k) == old(self).is_pending(k));
                                assert(prev.cell_ok(k));
                            }
                            assert forall|k: int| self.cell_ok(k) by {
                                assert(prev.cell_ok(k));
                            }
                            assert forall|k: int|
                                self.admitted_count() <= k < self.total() implies self.is_pending(
                                    k,
                                ) by {
                                assert(prev.is_pending(k));
                                assert(prev.cell_ok(k));
                            }
                            Self::lemma_emitted_ok_frame(&prev, self);
                            Self::lemma_results_ok_frame(&prev, self);
                        }
                        return Some(ord);
                    } else if ord == self.admitted {
                        let got = self.gate.try_acquire();
                        if got {
                            self.admitted = self.admitted + 1;
                            self.polling = Some(ord);
                            proof {
                                assert forall|k: int|
                                    self.is_pending(k) == old(self).is_pending(k) by {
                                    assert(prev.is_pending(k) == old(self).is_pending(k));
                                    assert(prev.cell_ok(k));
                                }
                                assert forall|k: int| self.cell_ok(k) by {
                                    assert(prev.cell_ok(k));
                                }
                                assert forall|k: int|
                                    self.admitted_count() <= k
                                        < self.total() implies self.is_pending(k) by {
                                    assert(prev.is_pending(k));
                                    assert(prev.cell_ok(k));
                                }
                                Self::lemma_emitted_ok_frame(&prev, self);
                                Self::lemma_results_ok_frame(&prev, self);
                            }
                            return Some(ord);
                        } else {
                            proof {
                                assert(!IndexHeap::<()>::seq_contains_index(
                                    self.standby(),
                                    ord as int,
                                ));
                            }
                            let standby = self.futs.empty();
                            standby.push(TaskItem(ord, ()));
                            proof {
                                assert forall|k: int|
                                    self.is_pending(k) == old(self).is_pending(k) by {
                                    assert(prev.is_pending(k) == old(self).is_pending(k));
                                    assert(prev.cell_ok(k));
                                }
                                assert forall|k: int| self.cell_ok(k) by {
                                    assert(prev.cell_ok(k));
                                }
                                assert forall|k: int|
                                    self.admitted_count() <= k
                                        < self.total() implies self.is_pending(k) by {
                                    assert(prev.is_pending(k));
                                    assert(prev.cell_ok(k));
                                }
                                Self::lemma_emitted_ok_frame(&prev, self);
                                Self::lemma_results_ok_frame(&prev, self);
                            }
                        }
                    } else {
                        proof {
                            assert(!IndexHeap::<()>::seq_contains_index(
                                self.standby(),
                                ord as int,
                            ));
                        }
                        let standby = self.futs.empty();
                        standby.push(TaskItem(ord, ()));
                        proof {
                            assert forall|k: int|
                                self.is_pending(k) == old(self).is_pending(k) by {
                                assert(prev.is_pending(k) == old(self).is_pending(k));
                                assert(prev.cell_ok(k));
                            }
                            assert forall|k: int| self.cell_ok(k) by {
                                assert(prev.cell_ok(k));
                            }
                            assert forall|k: int|
                                self.admitted_count() <= k < self.total() implies self.is_pending(
                                    k,
                                ) by {
                                assert(prev.is_pending(k));
                                assert(prev.cell_ok(k));
                            }
                            Self::lemma_emitted_ok_frame(&prev, self);
                            Self::lemma_results_ok_frame(&prev, self);
                        }
                    }
                },
            }
        }
    }

    /// Absorbs a completed operation's value: the result joins the
    /// reassembly buffer and the operation's permit returns to the permit pool.
    pub fn op_ready(&mut self, val: T)
        requires
            old(self).wf(),
            old(self).polling_index() is Some,
            !old(self).is_aborted(),
        ensures
            final(self).wf(),
            final(self).total() == old(self).total(),
            final(self).cursor() == old(self).cursor(),
            final(self).admitted_count() == old(self).admitted_count(),
            final(self).is_aborted() == old(self).is_aborted(),
            final(self).polling_index() is None,
            final(self).emitted_seq() == old(self).emitted_seq(),
            final(self).completed_map() =~= old(self).completed_map().insert(
                old(self).polling_index()->0 as int,
                val,
            ),
            forall|k: int|
                final(self).is_pending(k) == (old(self).is_pending(k) && k != old(
                    self,
                ).polling_index()->0 as int),
            forall|k: int|
                final(self).is_buffered(k) == (old(self).is_buffered(k) || k == old(
                    self,
                ).polling_index()->0 as int),
            final(self).gate_limit() == old(self).gate_limit(),
            final(self).gate_outstanding() == old(self).gate_outstanding() - 1,
    {
        let ord = match self.polling {
            Some(k) => k,
            None => unreached(),
        };
        let ghost gv = val;
        proof {
            self.lemma_outstanding_positive();
            assert(old(self).cell_ok(ord as int));
            assert(!self.rets.contains_index(ord as int));
        }
        self.rets.push(TaskItem(ord, val));
        self.gate.release();
        self.polling = None;
        self.completed = Ghost(self.completed@.insert(ord as int, gv));
        proof {
            let oi = ord as int;
            assert forall|k: int| self.is_pending(k) == (old(self).is_pending(k) && k != oi) by {
                assert(old(self).cell_ok(k));
            }
            assert forall|k: int|
                self.is_buffered(k) == (old(self).is_buffered(k) || k == oi) by {
                assert(old(self).cell_ok(k));
            }
            assert forall|k: int| self.cell_ok(k) by {
                assert(old(self).cell_ok(k));
            }
            assert forall|k: int|
                self.admitted_count() <= k < self.total() implies self.is_pending(k) by {
                assert(old(self).is_pending(k));
                assert(old(self).cell_ok(k));
            }
            assert forall|i: int|
                0 <= i < self.cursor() implies #[trigger] self.completed_map().contains_key(
                    i,
                ) by {
                assert(old(self).completed_map().contains_key(i));
            }
            assert forall|i: int|
                0 <= i < self.cursor() implies #[trigger] self.emitted_seq()[i]
                    == self.completed_map()[i] by {
                assert(old(self).emitted_seq()[i] == old(self).completed_map()[i]);
            }
            let pre = old(self).rets_seq();
            let pos = choose|p: int|
                0 <= p <= pre.len() && self.rets_seq() =~= #[trigger] pre.insert(
                    p,
                    TaskItem(ord, gv),
                );
            pre.insert_ensures(pos, TaskItem(ord, gv));
            assert forall|i: int|
                0 <= i < self.rets_seq().len() implies {
                    &&& self.completed_map().contains_key(#[trigger] self.rets_seq()[i].0 as int)
                    &&& self.rets_seq()[i].1 == self.completed_map()[self.rets_seq()[i].0 as int]
                } by {
                if i < pos {
                    assert(self.rets_seq()[i] == pre[i]);
                    assert(old(self).completed_map().contains_key(pre[i].0 as int));
                    assert(pre[i].1 == old(self).completed_map()[pre[i].0 as int]);
                    assert(old(self).cell_ok(pre[i].0 as int));
                } else if i > pos {
                    assert(self.rets_seq()[i] == pre[i - 1]);
                    assert(old(self).completed_map().contains_key(pre[i - 1].0 as int));
                    assert(pre[i - 1].1 == old(self).completed_map()[pre[i - 1].0 as int]);
                    assert(old(self).cell_ok(pre[i - 1].0 as int));
                }
            }
        }
    }

    /// Shows that an admitted operation being polled implies at least one
    /// outstanding permit: the emitted prefix, the buffered results and
    /// the polled operation all sit below the admitted prefix, disjointly.
    proof fn lemma_outstanding_positive(&self)
        requires
            self.wf(),
            self.polling_index() is Some,
            !self.is_aborted(),
        ensures
            self.gate_outstanding() >= 1,
    {
        let ord = self.polling_index()->0 as int;
        let buf = IndexHeap::<T>::seq_index_set(self.rets_seq());
        let with_ord = buf.insert(ord);
        let admitted_range = set_int_range(self.cursor(), self.admitted_count());
        IndexHeap::<T>::lemma_seq_index_set_len(self.rets_seq());
        // Every buffered index is at least the cursor and below the
        // admitted prefix; so is the polled one, and it is not buffered.
        assert forall|k: int| with_ord.contains(k) implies admitted_range.contains(k) by {
            assert(self.cell_ok(k));
            if k != ord {
                assert(self.is_buffered(k));
                if k >= self.admitted_count() {
                    assert(self.is_pending(k));
                }
            }
        }
        assert(self.cell_ok(ord));
        assert(!buf.contains(ord));
        lemma_int_range(self.cursor(), self.admitted_count());
        lemma_len_subset(with_ord, admitted_range);
        assert(with_ord.len() == buf.len() + 1);
    }

    /// Parks a still-pending operation on the standby buffer; it survives
    /// to the next pass, unchanged.
    pub fn op_pending(&mut self)
        requires
            old(self).wf(),
            old(self).polling_index() is Some,
            !old(self).is_aborted(),
        ensures
            final(self).wf(),
            final(self).total() == old(self).total(),
            final(self).cursor() == old(self).cursor(),
            final(self).admitted_count() == old(self).admitted_count(),
            final(self).is_aborted() == old(self).is_aborted(),
            final(self).polling_index() is None,
            final(self).emitted_seq() == old(self).emitted_seq(),
            final(self).completed_map() == old(self).completed_map(),
            final(self).rets_seq() == old(self).rets_seq(),
            forall|k: int| final(self).is_pending(k) == old(self).is_pending(k),
            forall|k: int| final(self).is_buffered(k) == old(self).is_buffered(k),
            final(self).active() == old(self).active(),
            final(self).gate_limit() == old(self).gate_limit(),
            final(self).gate_outstanding() == old(self).gate_outstanding(),
    {
        let ord = match self.polling {
            Some(k) => k,
            None => unreached(),
        };
        proof {
            assert(old(self).cell_ok(ord as int));
            assert(!IndexHeap::<()>::seq_contains_index(self.standby(), ord as int));
        }
        let standby = self.futs.empty();
        standby.push(TaskItem(ord, ()));
        self.polling = None;
        proof {
            assert forall|k: int| self.is_pending(k) == old(self).is_pending(k) by {
                assert(old(self).cell_ok(k));
            }
            assert forall|k: int| self.cell_ok(k) by {
                assert(old(self).cell_ok(k));
            }
            assert forall|k: int|
                self.admitted_count() <= k < self.total() implies self.is_pending(k) by {
                assert(old(self).is_pending(k));
                assert(old(self).cell_ok(k));
            }
            Self::lemma_emitted_ok_frame(old(self), self);
            Self::lemma_results_ok_frame(old(self), self);
        }
    }

    /// Records that the permit pool closed under the polled operation before it
    /// could start: the whole sequence ends here, buffered results and
    /// all. Terminal.
    pub fn op_aborted(&mut self)
        requires
            old(self).wf(),
            old(self).polling_index() is Some,
        ensures
            final(self).wf(),
            final(self).total() == old(self).total(),
            final(self).cursor() == old(self).cursor(),
            final(self).is_aborted(),
            final(self).spec_done(),
            final(self).polling_index() is None,
            final(self).emitted_seq() == old(self).emitted_seq(),
            final(self).completed_map() == old(self).completed_map(),
    {
        self.aborted = true;
        self.polling = None;
        proof {
            Self::lemma_emitted_ok_frame(old(self), self);
            Self::lemma_results_ok_frame(old(self), self);
        }
    }

    /// Emits the next in-order result exactly when the operation at the
    /// cursor has completed; otherwise the pull suspends. Result `k` is
    /// therefore never handed out before every result with index below
    /// `k`.
    pub fn try_emit(&mut self) -> (r: Option<T>)
        requires
            old(self).wf(),
            old(self).polling_index() is None,
            !old(self).is_aborted(),
        ensures
            final(self).wf(),
            final(self).total() == old(self).total(),
            final(self).admitted_count() == old(self).admitted_count(),
            final(self).is_aborted() == old(self).is_aborted(),
            final(self).polling_index() is None,
            final(self).completed_map() == old(self).completed_map(),
            forall|k: int| final(self).is_pending(k) == old(self).is_pending(k),
            final(self).active() == old(self).active(),
            final(self).standby() == old(self).standby(),
            final(self).gate_limit() == old(self).gate_limit(),
            final(self).gate_outstanding() == old(self).gate_outstanding(),
            if old(self).is_buffered(old(self).cursor()) {
                match r {
                    Some(v) => {
                        &&& v == old(self).completed_map()[old(self).cursor()]
                        &&& final(self).cursor() == old(self).cursor() + 1
                        &&& final(self).emitted_seq() =~= old(self).emitted_seq().push(v)
                        &&& forall|k: int|
                            final(self).is_buffered(k) == (old(self).is_buffered(k) && k != old(
                                self,
                            ).cursor())
                    },
                    None => false,
                }
            } else {
                &&& r is None
                &&& final(self).cursor() == old(self).cursor()
                &&& final(self).emitted_seq() == old(self).emitted_seq()
                &&& final(self).rets_seq() == old(self).rets_seq()
            },
    {
        let head = self.rets.peek_index();
        let emit_now = match head {
            Some(k) => k == self.pos,
            None => false,
        };
        proof {
            // The head of the result buffer is its least index, so it is
            // the cursor exactly when the cursor's result is buffered.
            if old(self).is_buffered(old(self).cursor()) {
                let i = choose|i: int|
                    0 <= i < self.rets_seq().len() && #[trigger] self.rets_seq()[i].0 == old(
                        self,
                    ).cursor();
                assert(self.rets_seq().len() > 0);
                let last = self.rets_seq().len() - 1;
                if i < last {
                    assert(self.rets_seq()[i].0 > self.rets_seq()[last].0);
                }
                assert(old(self).cell_ok(self.rets_seq()[last].0 as int));
                assert(emit_now);
            }
            if emit_now {
                assert(self.rets_seq()[self.rets_seq().len() - 1].0 == old(self).cursor());
                assert(old(self).is_buffered(old(self).cursor()));
            }
        }
        if emit_now {
            let item = match self.rets.pop() {
                Some(item) => item,
                None => unreached(),
            };
            let TaskItem(ord, val) = item;
            let ghost gv = val;
            self.pos = self.pos + 1;
            self.emitted = Ghost(self.emitted@.push(gv));
            proof {
                let oc = old(self).cursor();
                assert(ord == oc);
                // The popped item carried the value its operation
                // completed with.
                assert(old(self).completed_map().contains_key(oc));
                assert(gv == old(self).completed_map()[oc]);
                assert forall|k: int| self.is_pending(k) == old(self).is_pending(k) by {
                    assert(old(self).cell_ok(k));
                }
                assert forall|k: int|
                    self.is_buffered(k) == (old(self).is_buffered(k) && k != oc) by {
                    assert(old(self).cell_ok(k));
                }
                assert forall|k: int| self.cell_ok(k) by {
                    assert(old(self).cell_ok(k));
                }
                assert forall|k: int|
                    self.admitted_count() <= k < self.total() implies self.is_pending(k) by {
                    assert(old(self).is_pending(k));
                    assert(old(self).cell_ok(k));
                }
                assert forall|i: int|
                    0 <= i < self.cursor() implies #[trigger] self.completed_map().contains_key(
                        i,
                    ) by {
                    if i < oc {
                        assert(old(self).completed_map().contains_key(i));
                    }
                }
                assert forall|i: int|
                    0 <= i < self.cursor() implies #[trigger] self.emitted_seq()[i]
                        == self.completed_map()[i] by {
                    if i < oc {
                        assert(old(self).emitted_seq()[i] == old(self).completed_map()[i]);
                    }
                }
                assert forall|i: int|
                    0 <= i < self.rets_seq().len() implies {
                        &&& self.completed_map().contains_key(
                            #[trigger] self.rets_seq()[i].0 as int,
                        )
                        &&& self.rets_seq()[i].1 == self.completed_map()[self.rets_seq()[i].0
                            as int]
                    } by {
                    assert(self.rets_seq()[i] == old(self).rets_seq()[i]);
                    assert(old(self).completed_map().contains_key(
                        old(self).rets_seq()[i].0 as int,
                    ));
                    assert(old(self).rets_seq()[i].1 == old(self).completed_map()[old(
                        self,
                    ).rets_seq()[i].0 as int]);
                }
            }
            Some(val)
        } else {
            None
        }
    }

    /// Once the cursor has swept every submitted operation, nothing is
    /// pending and nothing is buffered: further pulls find nothing and
    /// keep reporting end-of-sequence.
    pub proof fn lemma_exhaustion_is_final(&self)
        requires
            self.wf(),
            !self.is_aborted(),
            self.cursor() == self.total(),
        ensures
            forall|k: int| !self.is_pending(k),
            forall|k: int| !self.is_buffered(k),
            self.spec_done(),
    {
        assert forall|k: int| !self.is_pending(k) && !self.is_buffered(k) by {
            assert(self.cell_ok(k));
        }
    }

    /// The full ordering guarantee: a fully consumed batch emitted, in
    /// submission order, exactly the value each operation completed with —
    /// independent of the order in which operations completed.
    pub proof fn lemma_emission_in_order(&self)
        requires
            self.wf(),
            self.cursor() == self.total(),
        ensures
            self.emitted_seq() =~= Seq::new(
                self.total() as nat,
                |i: int| self.completed_map()[i],
            ),
    {
    }

    /// The admission bound: operations that were admitted and whose
    /// outcome has not been consumed never exceed the limit.
    pub proof fn lemma_admission_bounded(&self)
        requires
            self.wf(),
            !self.is_aborted(),
        ensures
            0 <= self.admitted_count() - (self.cursor() + self.rets_seq().len())
                <= self.gate_limit(),
    {
    }
}

} // verus!
