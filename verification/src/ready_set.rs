//! A bounded set of slot indices that are ready to be polled.
//!
//! The set stores up to `BATCH` distinct indices from `0..BATCH` in a
//! dense/sparse array pair: the first `len` entries of `dense` are the
//! members, and `sparse[x]` caches the position that `x` last held in
//! `dense`, so membership is decided in constant time. `pop` removes the
//! most recently pushed member (LIFO).

use vstd::prelude::*;
use vstd::seq_lib::*;
use vstd::set_lib::*;

verus! {

/// Number of task slots in a queue, and the capacity of its ready set.
pub const BATCH: usize = 10;

/// What one push does to the members of the ready set, seen through its
/// view: an out-of-range index or one that is already a member is dropped;
/// a new index is appended; a push that finds the set full resets it to
/// empty and drops the incoming index as well.
///
/// The last arm is the documented overflow policy of the dense/sparse
/// layout. Under exclusive access it can never fire, because a full set
/// already holds every in-range index (see
/// [`lemma_missing_member_bounds_len`]); it is kept because the contract
/// describes the code as written, overflow arm included.
pub open spec fn ready_after_push(s: Seq<usize>, x: usize) -> Seq<usize> {
    if BATCH <= x {
        s
    } else if s.contains(x) {
        s
    } else if BATCH <= s.len() {
        Seq::empty()
    } else {
        s.push(x)
    }
}

/// The views a well-formed ready set can take: at most `BATCH` members,
/// every member an in-range slot index, and no index listed twice.
pub open spec fn ready_wf(s: Seq<usize>) -> bool {
    &&& s.len() <= BATCH
    &&& s.no_duplicates()
    &&& forall|k: int| 0 <= k < s.len() ==> s[k] < BATCH
}

/// The set of slot indices currently marked ready, in push order.
///
/// All mutation goes through `&mut self`; exclusive access, which the
/// dense/sparse layout guards with a claim bit held for O(1) critical
/// sections, is here expressed by the borrow itself.
pub struct AtomicSparseSet {
    dense: Vec<usize>,
    sparse: Vec<usize>,
    len: usize,
}

impl View for AtomicSparseSet {
    type V = Seq<usize>;

    /// The members, oldest push first.
    closed spec fn view(&self) -> Seq<usize> {
        self.dense@.take(self.len as int)
    }
}

impl AtomicSparseSet {
    /// Structural invariant: both arrays span `BATCH` positions and hold
    /// in-range values, the live prefix of `dense` has no duplicates, and
    /// `sparse` points each member back at its position in `dense`.
    pub closed spec fn wf(&self) -> bool {
        &&& self.dense@.len() == BATCH
        &&& self.sparse@.len() == BATCH
        &&& self.len <= BATCH
        &&& forall|k: int| 0 <= k < BATCH ==> self.dense@[k] < BATCH
        &&& forall|k: int| 0 <= k < BATCH ==> self.sparse@[k] < BATCH
        &&& forall|j: int, k: int| 0 <= j < k < self.len ==> self.dense@[j] != self.dense@[k]
        &&& forall|k: int| 0 <= k < self.len ==> self.sparse@[self.dense@[k] as int] == k
    }

    /// A well-formed set's view is bounded, in-range and duplicate-free.
    pub proof fn lemma_view_wf(&self)
        requires
            self.wf(),
        ensures
            ready_wf(self@),
    {
        assert forall|i: int, j: int|
            0 <= i < self@.len() && 0 <= j < self@.len() && i != j implies self@[i] != self@[j] by {
            if i < j {
                assert(self.dense@[i] != self.dense@[j]);
            } else {
                assert(self.dense@[j] != self.dense@[i]);
            }
        }
    }

    /// An empty ready set.
    pub fn new() -> (r: Self)
        ensures
            r.wf(),
            r@ == Seq::<usize>::empty(),
    {
        let mut dense: Vec<usize> = Vec::new();
        let mut sparse: Vec<usize> = Vec::new();
        while dense.len() < BATCH
            invariant
                dense@.len() <= BATCH,
                forall|k: int| 0 <= k < dense@.len() ==> dense@[k] == 0,
            decreases BATCH - dense@.len(),
        {
            dense.push(0);
        }
        while sparse.len() < BATCH
            invariant
                sparse@.len() <= BATCH,
                forall|k: int| 0 <= k < sparse@.len() ==> sparse@[k] == 0,
            decreases BATCH - sparse@.len(),
        {
            sparse.push(0);
        }
        let r = AtomicSparseSet { dense, sparse, len: 0 };
        proof {
            assert(r@ =~= Seq::<usize>::empty());
        }
        r
    }

    /// Marks `x` ready. Out-of-range indices and indices already marked are
    /// dropped without change, so marking is idempotent; a full set is reset
    /// (see [`ready_after_push`]).
    pub fn push(&mut self, x: usize)
        requires
            old(self).wf(),
        ensures
            final(self).wf(),
            final(self)@ == ready_after_push(old(self)@, x),
    {
        if x >= BATCH {
            return;
        }
        let s = self.sparse[x];
        let d = self.dense[s];
        if s < self.len && d == x {
            // `x` is already a member: `sparse[x]` points into the live
            // prefix and `dense` maps the position back to `x`.
            proof {
                assert(self@[s as int] == x);
                assert(self@.contains(x));
            }
            return;
        }
        proof {
            assert(!self@.contains(x)) by {
                if self@.contains(x) {
                    let k = choose|k: int| 0 <= k < self@.len() && self@[k] == x;
                    assert(self.dense@[k] == x);
                    assert(self.sparse@[self.dense@[k] as int] == k);
                }
            }
            self.lemma_view_wf();
            lemma_missing_member_bounds_len(self@, x);
        }
        if self.len == BATCH {
            // Overflow policy of the layout: drop every member together
            // with the incoming index. Unreachable under exclusive access,
            // since a full set already contains every in-range index.
            self.len = 0;
            return;
        }
        let pos = self.len;
        self.dense.set(pos, x);
        self.sparse.set(x, pos);
        self.len = pos + 1;
        proof {
            assert(self@ =~= old(self)@.push(x));
            assert forall|k: int| 0 <= k < self.len implies
                self.sparse@[self.dense@[k] as int] == k by {
                if k < pos {
                    assert(old(self)@[k] == self.dense@[k]);
                    assert(self.dense@[k] != x) by {
                        if self.dense@[k] == x {
                            assert(old(self)@.contains(x));
                        }
                    }
                }
            }
        }
    }

    /// Removes and returns the most recently pushed member (LIFO), or
    /// `None` if the set is empty.
    pub fn pop(&mut self) -> (r: Option<usize>)
        requires
            old(self).wf(),
        ensures
            final(self).wf(),
            old(self)@.len() == 0 ==> r is None && final(self)@ == old(self)@,
            old(self)@.len() > 0 ==> {
                &&& r == Some(old(self)@.last())
                &&& final(self)@ == old(self)@.drop_last()
            },
            r matches Some(x) ==> x < BATCH && old(self)@.contains(x),
    {
        proof {
            self.lemma_view_wf();
        }
        if self.len == 0 {
            None
        } else {
            let x = self.dense[self.len - 1];
            self.len = self.len - 1;
            proof {
                assert(self@ =~= old(self)@.drop_last());
                assert(old(self)@[old(self)@.len() - 1] == x);
                assert(old(self)@.contains(x));
            }
            Some(x)
        }
    }
}

impl Default for AtomicSparseSet {
    /// An empty ready set.
    fn default() -> (r: Self)
        ensures
            r.wf(),
            r@ == Seq::<usize>::empty(),
    {
        AtomicSparseSet::new()
    }
}

/// Pigeonhole: the members of a well-formed view are distinct indices drawn
/// from `0..BATCH`, so a view missing some in-range index has fewer than
/// `BATCH` members. In consequence a push never finds the set full unless
/// its index is already a member, and the overflow reset of
/// [`AtomicSparseSet::push`] cannot fire under exclusive access.
pub proof fn lemma_missing_member_bounds_len(s: Seq<usize>, x: usize)
    requires
        ready_wf(s),
        x < BATCH,
        !s.contains(x),
    ensures
        s.len() < BATCH,
{
    let t = s.push(x);
    assert forall|i: int, j: int|
        0 <= i < t.len() && 0 <= j < t.len() && i != j implies t[i] != t[j] by {
        if i < s.len() && j < s.len() {
            assert(t[i] == s[i] && t[j] == s[j]);
        } else if i < s.len() && j == s.len() {
            assert(t[j] == x && t[i] == s[i]);
            if s[i] == x {
                assert(s.contains(x));
            }
        } else {
            assert(t[i] == x && t[j] == s[j]);
            if s[j] == x {
                assert(s.contains(x));
            }
        }
    }
    let ti = t.map_values(|v: usize| v as int);
    assert forall|i: int, j: int|
        0 <= i < ti.len() && 0 <= j < ti.len() && i != j implies ti[i] != ti[j] by {
        assert(t[i] != t[j]);
    }
    ti.unique_seq_to_set();
    assert(ti.to_set().subset_of(set_int_range(0, BATCH as int))) by {
        assert forall|e: int| ti.to_set().contains(e) implies
            set_int_range(0, BATCH as int).contains(e) by {
            assert(ti.contains(e));
            let i = choose|i: int| 0 <= i < ti.len() && ti[i] == e;
            if i < s.len() {
                assert(t[i] == s[i]);
            } else {
                assert(t[i] == x);
            }
        }
    }
    lemma_int_range(0, BATCH as int);
    lemma_len_subset(ti.to_set(), set_int_range(0, BATCH as int));
}

/// Idempotent readiness: marking an index ready twice in a row is the same
/// as marking it once, so any run of pushes of one index leaves at most one
/// entry for it in a well-formed ready set.
pub proof fn lemma_push_idempotent(s: Seq<usize>, x: usize)
    requires
        ready_wf(s),
    ensures
        ready_after_push(ready_after_push(s, x), x) == ready_after_push(s, x),
{
    if x < BATCH && !s.contains(x) {
        lemma_missing_member_bounds_len(s, x);
        let t = s.push(x);
        assert(t[s.len() as int] == x);
        assert(t.contains(x));
    }
}

} // verus!
