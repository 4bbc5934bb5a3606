//! Task slots and the decision logic of the driver.
//!
//! A queue owns `BATCH` slots, each empty or occupied by one task, and a
//! ready set of slot indices eligible for another advance step. The driver
//! loop around the queue is split into the decisions made here — report end
//! of sequence, suspend, or pick the slot to advance next — and the one
//! outside step of actually advancing a task, which the caller performs
//! between [`ConcurrentProcessQueue::take`] and
//! [`ConcurrentProcessQueue::restore`].

use vstd::prelude::*;
use vstd::set_lib::*;

use crate::ready_set::ready_after_push;
use crate::ready_set::ready_wf;
use crate::ready_set::AtomicSparseSet;
use crate::ready_set::BATCH;

verus! {

/// Position of the first empty slot at or after `from`, or the number of
/// slots when every slot from `from` on is occupied.
pub open spec fn first_free<F>(slots: Seq<Option<F>>, from: int) -> int
    decreases slots.len() - from
        when 0 <= from <= slots.len()
{
    if from >= slots.len() {
        slots.len() as int
    } else if slots[from] is None {
        from
    } else {
        first_free(slots, from + 1)
    }
}

/// The indices of the occupied slots.
pub open spec fn occupied_slots<F>(slots: Seq<Option<F>>) -> Set<int> {
    set_int_range(0, slots.len() as int).filter(|i: int| slots[i] is Some)
}

/// A fixed-capacity holder of tasks, advanced one step at a time in the
/// order their readiness was signalled (most recent first).
pub struct ConcurrentProcessQueue<F> {
    inner: Vec<Option<F>>,
    sparse: AtomicSparseSet,
}

impl<F> ConcurrentProcessQueue<F> {
    /// The slots: `BATCH` positions, each empty or holding one task.
    pub closed spec fn slots(&self) -> Seq<Option<F>> {
        self.inner@
    }

    /// The ready set's members, oldest push first.
    pub closed spec fn ready(&self) -> Seq<usize> {
        self.sparse@
    }

    /// Structural invariant: `BATCH` slots and a well-formed ready set.
    pub closed spec fn wf(&self) -> bool {
        &&& self.inner@.len() == BATCH
        &&& self.sparse.wf()
    }

    /// No slot holds a task: the queue will never produce a value again
    /// unless a new task is pushed.
    pub open spec fn finished(&self) -> bool {
        forall|i: int| 0 <= i < self.slots().len() ==> !(self.slots()[i] is Some)
    }

    /// What a well-formed queue guarantees of its parts.
    pub proof fn lemma_wf_facts(&self)
        requires
            self.wf(),
        ensures
            self.slots().len() == BATCH,
            ready_wf(self.ready()),
    {
        self.sparse.lemma_view_wf();
    }

    /// An empty queue: all slots free, nothing ready.
    pub fn new() -> (r: Self)
        ensures
            r.wf(),
            r.finished(),
            r.slots().len() == BATCH,
            r.ready() == Seq::<usize>::empty(),
    {
        let mut inner: Vec<Option<F>> = Vec::new();
        while inner.len() < BATCH
            invariant
                inner@.len() <= BATCH,
                forall|k: int| 0 <= k < inner@.len() ==> inner@[k] is None,
            decreases BATCH - inner@.len(),
        {
            inner.push(None);
        }
        ConcurrentProcessQueue { inner, sparse: AtomicSparseSet::new() }
    }

    /// Stores `fut` in the first free slot and marks that slot ready.
    /// Returns whether a free slot existed; when none does, the queue is
    /// left unchanged and the task is reported back as rejected rather
    /// than silently dropped.
    pub fn push(&mut self, fut: F) -> (accepted: bool)
        requires
            old(self).wf(),
        ensures
            final(self).wf(),
            accepted <==> first_free(old(self).slots(), 0) < BATCH,
            accepted ==> {
                let i = first_free(old(self).slots(), 0);
                &&& final(self).slots() == old(self).slots().update(i, Some(fut))
                &&& final(self).ready() == ready_after_push(old(self).ready(), i as usize)
            },
            !accepted ==> {
                &&& final(self).slots() == old(self).slots()
                &&& final(self).ready() == old(self).ready()
            },
    {
        let mut i: usize = 0;
        while i < BATCH
            invariant
                self == old(self),
                self.wf(),
                i <= BATCH,
                forall|k: int| 0 <= k < i ==> self.slots()[k] is Some,
            decreases BATCH - i,
        {
            if self.inner[i].is_none() {
                proof {
                    lemma_first_free_prefix(self.slots(), i as int);
                }
                self.inner.set(i, Some(fut));
                self.sparse.push(i);
                proof {
                    assert(self.slots() =~= old(self).slots().update(i as int, Some(fut)));
                }
                return true;
            }
            i = i + 1;
        }
        proof {
            lemma_first_free_prefix(self.slots(), BATCH as int);
        }
        false
    }

    /// Marks slot `i` ready again: the queue half of the bridging wake
    /// object. The slots themselves are untouched, so waking can never
    /// revive a finished queue.
    pub fn wake(&mut self, i: usize)
        requires
            old(self).wf(),
        ensures
            final(self).wf(),
            final(self).slots() == old(self).slots(),
            final(self).ready() == ready_after_push(old(self).ready(), i),
    {
        self.sparse.push(i);
    }

    /// Whether every slot is empty, i.e. the produced sequence has ended.
    pub fn is_finished(&self) -> (r: bool)
        requires
            self.wf(),
        ensures
            r == self.finished(),
    {
        let mut i: usize = 0;
        while i < BATCH
            invariant
                self.wf(),
                i <= BATCH,
                forall|k: int| 0 <= k < i ==> !(self.slots()[k] is Some),
            decreases BATCH - i,
        {
            if self.inner[i].is_some() {
                return false;
            }
            i = i + 1;
        }
        true
    }

    /// Picks the slot to advance next: pops ready indices, most recently
    /// readied first, dropping stale entries whose slot was already
    /// cleared, until one denotes an occupied slot. `None` means no ready
    /// entry remains and the caller must suspend until a wake arrives.
    ///
    /// The last clause is the wake round trip's backbone: a slot that was
    /// both ready and occupied is either the one returned or still ready,
    /// so its wake cannot be lost to the pruning of stale entries.
    pub fn next_ready(&mut self) -> (r: Option<usize>)
        requires
            old(self).wf(),
        ensures
            final(self).wf(),
            final(self).slots() == old(self).slots(),
            r is None ==> {
                &&& final(self).ready().len() == 0
                &&& forall|k: int| 0 <= k < old(self).ready().len() ==>
                    !(old(self).slots()[old(self).ready()[k] as int] is Some)
            },
            r matches Some(i) ==> {
                let p = final(self).ready().len() as int;
                &&& i < BATCH
                &&& old(self).slots()[i as int] is Some
                &&& p < old(self).ready().len()
                &&& old(self).ready()[p] == i
                &&& final(self).ready() == old(self).ready().take(p)
                &&& forall|k: int| p < k < old(self).ready().len() ==>
                    !(old(self).slots()[old(self).ready()[k] as int] is Some)
            },
            forall|k: int|
                0 <= k < old(self).ready().len()
                    && old(self).slots()[old(self).ready()[k] as int] is Some ==> r == Some(
                    old(self).ready()[k],
                ) || final(self).ready().contains(old(self).ready()[k]),
    {
        proof {
            assert(self.ready().take(self.ready().len() as int) =~= self.ready());
        }
        loop
            invariant
                self.wf(),
                self.slots() == old(self).slots(),
                self.ready().len() <= old(self).ready().len(),
                self.ready() == old(self).ready().take(self.ready().len() as int),
                forall|k: int| self.ready().len() <= k < old(self).ready().len() ==>
                    !(old(self).slots()[old(self).ready()[k] as int] is Some),
            decreases self.ready().len(),
        {
            let ghost len_before = self.ready().len() as int;
            match self.sparse.pop() {
                None => {
                    return None;
                },
                Some(i) => {
                    proof {
                        assert(self.ready() =~= old(self).ready().take(len_before - 1));
                        assert(old(self).ready()[len_before - 1] == i);
                    }
                    if self.inner[i].is_some() {
                        proof {
                            assert forall|k: int|
                                0 <= k < old(self).ready().len()
                                    && old(self).slots()[old(self).ready()[k] as int] is Some
                                    implies Some(i) == Some(old(self).ready()[k]) || self.ready()
                                    .contains(old(self).ready()[k]) by {
                                if k < len_before - 1 {
                                    assert(self.ready()[k] == old(self).ready()[k]);
                                }
                            }
                        }
                        return Some(i);
                    }
                },
            }
        }
    }

    /// Removes the task in occupied slot `i` so the caller can advance it
    /// by one step. The slot becomes empty; a step that is not yet done is
    /// put back with [`Self::restore`], while a finished task's slot stays
    /// empty and its value is the one this advance call produces.
    pub fn take(&mut self, i: usize) -> (fut: F)
        requires
            old(self).wf(),
            i < BATCH,
            old(self).slots()[i as int] is Some,
        ensures
            final(self).wf(),
            Some(fut) == old(self).slots()[i as int],
            final(self).slots() == old(self).slots().update(i as int, None::<F>),
            final(self).ready() == old(self).ready(),
    {
        let opt = self.inner.remove(i);
        self.inner.insert(i, None);
        proof {
            assert(self.slots() =~= old(self).slots().update(i as int, None::<F>));
        }
        match opt {
            Some(fut) => fut,
            None => vstd::pervasive::unreached(),
        }
    }

    /// Puts a task whose step returned "not yet" back into its (empty)
    /// slot, to wait there for its wake-up.
    pub fn restore(&mut self, i: usize, fut: F)
        requires
            old(self).wf(),
            i < BATCH,
            old(self).slots()[i as int] is None,
        ensures
            final(self).wf(),
            final(self).slots() == old(self).slots().update(i as int, Some(fut)),
            final(self).ready() == old(self).ready(),
    {
        self.inner.set(i, Some(fut));
    }
}

impl<F> Default for ConcurrentProcessQueue<F> {
    /// An empty queue, as [`ConcurrentProcessQueue::new`] builds it.
    fn default() -> (r: Self)
        ensures
            r.wf(),
            r.finished(),
            r.slots().len() == BATCH,
            r.ready() == Seq::<usize>::empty(),
    {
        ConcurrentProcessQueue::new()
    }
}

/// Occupancy is checked slot by slot from the front, so a free slot at or
/// after an occupied prefix is the first free slot overall.
proof fn lemma_first_free_prefix<F>(slots: Seq<Option<F>>, i: int)
    requires
        0 <= i <= slots.len(),
        forall|k: int| 0 <= k < i ==> slots[k] is Some,
    ensures
        first_free(slots, i) == first_free(slots, 0),
    decreases i,
{
    if i > 0 {
        lemma_first_free_prefix(slots, i - 1);
    }
}

/// Bounded capacity: a well-formed queue holds at most `BATCH` tasks,
/// since each lives in one of its `BATCH` slots.
pub proof fn lemma_bounded_occupancy<F>(q: &ConcurrentProcessQueue<F>)
    requires
        q.wf(),
    ensures
        q.slots().len() == BATCH,
        occupied_slots(q.slots()).finite(),
        occupied_slots(q.slots()).len() <= BATCH,
{
    q.lemma_wf_facts();
    lemma_int_range(0, BATCH as int);
    lemma_len_subset(occupied_slots(q.slots()), set_int_range(0, BATCH as int));
}

/// A push onto a fully occupied queue finds no free slot, so by `push`'s
/// contract it is rejected and the queue — occupancy included — is left
/// exactly as it was.
pub proof fn lemma_push_full_rejected<F>(slots: Seq<Option<F>>)
    requires
        slots.len() == BATCH,
        forall|i: int| 0 <= i < slots.len() ==> slots[i] is Some,
    ensures
        first_free(slots, 0) == BATCH,
{
    lemma_first_free_prefix(slots, BATCH as int);
}

/// End of sequence is stable: being finished depends on the slots alone,
/// and `wake` and `next_ready` leave every slot in place, so once the
/// queue has produced all its values only a new push can resume it.
pub proof fn lemma_finished_stable<F>(q1: &ConcurrentProcessQueue<F>, q2: &ConcurrentProcessQueue<F>)
    requires
        q1.finished(),
        q2.slots() == q1.slots(),
    ensures
        q2.finished(),
{
}

} // verus!
