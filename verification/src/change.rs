//! Changes: runs of operations that one peer made at one moment.
use vstd::prelude::*;

use crate::id::{Counter, Lamport, Timestamp, ID};
use crate::op::OpItem;
use crate::order::{ReplayKey, Replayed};
use crate::rle::{
    atoms, atoms_before, lemma_atoms_agree, lemma_atoms_full, lemma_atoms_monotone,
    lemma_atoms_empty, lemma_atoms_push, lemma_atoms_step, Rle, RleVec,
};
use crate::version::Frontiers;

verus! {

/// A run of operations of one peer, with the version that it was made on
/// top of.
#[derive(Debug)]
pub struct Change<O> {
    pub ops: RleVec<O>,
    /// The id of the first operation.
    pub id: ID,
    /// The operations that the change directly depends on.
    pub deps: Frontiers,
    /// The Lamport clock of the first operation.
    pub lamport: Lamport,
    pub timestamp: Timestamp,
}

/// Whether something that holds of two operations holds of what they
/// merge to, and of every operation that is the same as one of which it
/// holds.
pub open spec fn kept_by_merging<O: OpItem>(pred: spec_fn(O) -> bool) -> bool {
    &&& forall|x: O, y: O, m: O|
        x.rle_wf() && y.rle_wf() && x.can_merge(&y) && #[trigger] x.is_merge_of(&y, &m) && pred(x)
            && pred(y) ==> pred(m)
    &&& forall|x: O, y: O| #[trigger] x.same_op(&y) && pred(x) ==> pred(y)
}

/// Whether something holds of every one of the operations.
pub open spec fn all_ops<O: OpItem>(ops: Seq<O>, pred: spec_fn(O) -> bool) -> bool {
    forall|j: int| 0 <= j < ops.len() ==> pred(#[trigger] ops[j])
}

/// Whether `after` is what storing `item` behind `before` gives: the item
/// merged into the last of them where it continues it, else added at the
/// end.
pub open spec fn is_push<O: OpItem>(before: Seq<O>, item: O, after: Seq<O>) -> bool {
    if before.len() > 0 && before.last().can_merge(&item) {
        &&& after.len() == before.len()
        &&& after.drop_last() == before.drop_last()
        &&& before.last().is_merge_of(&item, &after.last())
    } else {
        after == before.push(item)
    }
}

/// Whether `after` is what storing copies of `items`, one after the other,
/// behind `before` gives.
pub open spec fn is_pushes<O: OpItem>(before: Seq<O>, items: Seq<O>, after: Seq<O>) -> bool
    decreases items.len(),
{
    if items.len() == 0 {
        after == before
    } else {
        exists|mid: Seq<O>, copy: O|
            is_pushes(before, items.drop_last(), mid) && items.last().same_op(&copy)
                && #[trigger] is_push(mid, copy, after)
    }
}

/// Whether the counters of the operations follow one another from `first`.
pub open spec fn ops_contiguous<O: OpItem>(ops: Seq<O>, first: int) -> bool {
    forall|i: int|
        0 <= i < ops.len() ==> (#[trigger] ops[i]).op_counter() == first + atoms_before(ops, i)
}

impl<O: OpItem> Change<O> {
    /// The number of atomic operations in the change.
    pub open spec fn spec_len(&self) -> nat {
        atoms(self.ops@)
    }

    /// The change holds at least one operation, the counters of its
    /// operations follow one another from the change's id, and neither
    /// counters nor Lamport clocks leave their range.
    pub open spec fn wf(&self) -> bool {
        &&& self.ops.wf()
        &&& self.ops@.len() > 0
        &&& self.deps.wf()
        &&& forall|i: int| 0 <= i < self.deps@.len() ==> (#[trigger] self.deps@[i]).counter >= 0
        &&& 0 <= self.id.counter
        &&& self.id.counter + self.spec_len() <= i32::MAX
        &&& self.lamport + self.spec_len() <= u32::MAX
        &&& ops_contiguous(self.ops@, self.id.counter as int)
    }

    /// The exclusive end of the change's counters.
    pub open spec fn spec_ctr_end(&self) -> int {
        self.id.counter + self.spec_len()
    }

    /// The exclusive end of the change's Lamport clocks.
    pub open spec fn spec_lamport_end(&self) -> int {
        self.lamport + self.spec_len()
    }

    /// Whether the change holds the operation `id`.
    pub open spec fn covers(&self, id: ID) -> bool {
        id.peer == self.id.peer && self.id.counter <= id.counter < self.spec_ctr_end()
    }

    /// A valid change holds at least one atomic operation.
    pub proof fn lemma_len_positive(&self)
        requires
            self.wf(),
        ensures
            self.spec_len() >= 1,
    {
        lemma_atoms_monotone(self.ops@, 0, self.ops@.len() as int);
        lemma_atoms_full(self.ops@);
    }

    /// The number of atomic operations in the change.
    pub fn content_len(&self) -> (n: usize)
        requires
            self.wf(),
        ensures
            n == self.spec_len(),
            n >= 1,
    {
        proof {
            self.lemma_len_positive();
        }
        self.ops.atom_len()
    }

    pub fn id_start(&self) -> (r: ID)
        ensures
            r == self.id,
    {
        self.id
    }

    /// The id of the last operation of the change.
    pub fn id_last(&self) -> (r: ID)
        requires
            self.wf(),
        ensures
            r.peer == self.id.peer,
            r.counter == self.spec_ctr_end() - 1,
    {
        let n = self.content_len();
        ID { peer: self.id.peer, counter: (self.id.counter as i64 + n as i64 - 1) as i32 }
    }

    /// The exclusive end of the counters of the change.
    pub fn ctr_end(&self) -> (r: Counter)
        requires
            self.wf(),
        ensures
            r == self.spec_ctr_end(),
    {
        let n = self.content_len();
        (self.id.counter as i64 + n as i64) as i32
    }

    /// The exclusive end of the Lamport clocks of the change.
    pub fn lamport_end(&self) -> (r: Lamport)
        requires
            self.wf(),
        ensures
            r == self.spec_lamport_end(),
    {
        let n = self.content_len();
        (self.lamport as u64 + n as u64) as u32
    }

    /// Whether `other` is the same change: the same ids, clocks and
    /// dependencies, and operation for operation the same content.
    pub open spec fn same_as(&self, other: &Self) -> bool {
        &&& self.id == other.id
        &&& self.deps@ == other.deps@
        &&& self.lamport == other.lamport
        &&& self.timestamp == other.timestamp
        &&& self.ops@.len() == other.ops@.len()
        &&& forall|i: int| 0 <= i < self.ops@.len() ==> (#[trigger] self.ops@[i]).same_op(&other.ops@[i])
        &&& self.wf() == other.wf()
        &&& self.spec_len() == other.spec_len()
    }

    /// A copy of the change.
    pub fn clone_change(&self) -> (r: Self)
        requires
            self.wf(),
        ensures
            self.same_as(&r),
            r.wf(),
    {
        let ops = clone_ops(&self.ops);
        let r = Change {
            ops,
            id: self.id,
            deps: self.deps.clone_frontiers(),
            lamport: self.lamport,
            timestamp: self.timestamp,
        };
        proof {
            lemma_same_lens(self.ops@, r.ops@, self.ops@.len() as int);
            lemma_atoms_full(self.ops@);
            lemma_atoms_full(r.ops@);
            assert forall|i: int| 0 <= i < r.ops@.len() implies (#[trigger] r.ops@[i]).op_counter()
                == r.id.counter + atoms_before(r.ops@, i) by {
                lemma_same_lens(self.ops@, r.ops@, i);
                assert(self.ops@[i].op_counter() == self.id.counter + atoms_before(self.ops@, i));
            }
        }
        r
    }
}

impl<O: OpItem> Replayed for Change<O> {
    open spec fn spec_key(&self) -> ReplayKey {
        ReplayKey { lamport: self.lamport, peer: self.id.peer, counter: self.id.counter }
    }

    fn key(&self) -> (k: ReplayKey) {
        ReplayKey { lamport: self.lamport, peer: self.id.peer, counter: self.id.counter }
    }
}

/// Adds an operation behind operations whose counters follow one another,
/// merged into the last of them where it continues it.
pub fn push_op<O: OpItem>(ops: &mut RleVec<O>, op: O)
    requires
        old(ops).wf(),
        op.rle_wf(),
        atoms(old(ops)@) + op.rle_len() <= usize::MAX,
        old(ops)@.len() > 0 ==> ops_contiguous(old(ops)@, old(ops)@[0].op_counter())
            && op.op_counter() == old(ops)@[0].op_counter() + atoms(old(ops)@),
    ensures
        final(ops).wf(),
        final(ops)@.len() > 0,
        final(ops)@[0].op_counter() == if old(ops)@.len() > 0 {
            old(ops)@[0].op_counter()
        } else {
            op.op_counter()
        },
        ops_contiguous(final(ops)@, final(ops)@[0].op_counter()),
        atoms(final(ops)@) == atoms(old(ops)@) + op.rle_len(),
        old(ops)@.len() > 0 && old(ops)@.last().can_merge(&op) ==> {
            &&& final(ops)@.len() == old(ops)@.len()
            &&& final(ops)@.drop_last() == old(ops)@.drop_last()
            &&& old(ops)@.last().is_merge_of(&op, &final(ops)@.last())
        },
        !(old(ops)@.len() > 0 && old(ops)@.last().can_merge(&op)) ==> final(ops)@ == old(ops)@.push(
            op,
        ),
        is_push(old(ops)@, op, final(ops)@),
        forall|pred: spec_fn(O) -> bool| #[trigger]
            kept_by_merging(pred) && all_ops(old(ops)@, pred) && pred(op) ==> all_ops(
                final(ops)@,
                pred,
            ),
{
    let ghost before = ops@;
    ops.push(op);
    proof {
        let after = ops@;
        assert forall|pred: spec_fn(O) -> bool| #[trigger]
            kept_by_merging(pred) && all_ops(before, pred) && pred(op) implies all_ops(
            after,
            pred,
        ) by {
            assert forall|j: int| 0 <= j < after.len() implies pred(#[trigger] after[j]) by {
                if before.len() > 0 && before.last().can_merge(&op) {
                    if j < after.len() - 1 {
                        assert(after[j] == after.drop_last()[j]);
                        assert(before[j] == before.drop_last()[j]);
                        assert(pred(before[j]));
                    } else {
                        assert(pred(before[before.len() - 1]));
                        assert(before.last().rle_wf());
                        assert(before.last().is_merge_of(&op, &after[j]));
                    }
                } else {
                    if j < before.len() {
                        assert(pred(before[j]));
                    }
                }
            }
        }
        lemma_atoms_full(before);
        lemma_atoms_empty(before);
        lemma_atoms_empty(after);
        if before.len() > 0 && before.last().can_merge(&op) {
            let first = before[0].op_counter();
            before.last().lemma_merge_counter(&op, &after.last());
            assert forall|i: int| 0 <= i < after.len() implies (#[trigger] after[i]).op_counter()
                == first + atoms_before(after, i) by {
                if i < after.len() - 1 {
                    assert(after[i] == after.drop_last()[i]);
                    assert(before[i] == before.drop_last()[i]);
                }
                assert forall|k: int| 0 <= k < i implies after[k] == before[k] by {
                    assert(after[k] == after.drop_last()[k]);
                    assert(before[k] == before.drop_last()[k]);
                }
                lemma_atoms_agree(after, before, i);
                assert(before[i].op_counter() == first + atoms_before(before, i));
            }
            assert(after[0].op_counter() == first + atoms_before(after, 0));
        } else {
            lemma_atoms_push(before, op);
            if before.len() > 0 {
                let first = before[0].op_counter();
                assert forall|i: int| 0 <= i < after.len() implies (#[trigger] after[i]).op_counter()
                    == first + atoms_before(after, i) by {
                    if i < before.len() {
                        assert(before[i].op_counter() == first + atoms_before(before, i));
                    }
                }
            } else {
                assert(after[0] == op);
            }
        }
    }
}

/// Sequences whose items have pairwise the same length hold the same
/// number of atoms in each prefix.
pub proof fn lemma_same_lens<O: Rle>(a: Seq<O>, b: Seq<O>, k: int)
    requires
        a.len() == b.len(),
        0 <= k <= a.len(),
        forall|i: int| 0 <= i < a.len() ==> (#[trigger] a[i]).rle_len() == b[i].rle_len(),
    ensures
        atoms_before(a, k) == atoms_before(b, k),
    decreases k,
{
    if k > 0 {
        lemma_same_lens(a, b, k - 1);
        lemma_atoms_step(a, k - 1);
        lemma_atoms_step(b, k - 1);
    } else {
        lemma_atoms_empty(a);
        lemma_atoms_empty(b);
    }
}

/// A copy of a sequence of operations, item for item.
pub fn clone_ops<O: OpItem>(ops: &RleVec<O>) -> (r: RleVec<O>)
    requires
        ops.wf(),
    ensures
        r.wf(),
        r@.len() == ops@.len(),
        forall|i: int| 0 <= i < ops@.len() ==> (#[trigger] ops@[i]).same_op(&r@[i]),
        forall|i: int| 0 <= i < ops@.len() ==> (#[trigger] ops@[i]).rle_len() == r@[i].rle_len(),
        forall|i: int|
            0 <= i < ops@.len() ==> (#[trigger] ops@[i]).op_counter() == r@[i].op_counter(),
{
    let mut vec: Vec<O> = Vec::new();
    let mut ends: Vec<usize> = Vec::new();
    let mut i: usize = 0;
    while i < ops.vec.len()
        invariant
            0 <= i <= ops.vec.len(),
            ops.wf(),
            vec@.len() == i,
            ends@.len() == i,
            forall|j: int| 0 <= j < i ==> ends@[j] == ops.ends@[j],
            forall|j: int| 0 <= j < i ==> (#[trigger] ops@[j]).same_op(&vec@[j]),
            forall|j: int| 0 <= j < i ==> (#[trigger] ops@[j]).rle_len() == vec@[j].rle_len(),
            forall|j: int| 0 <= j < i ==> (#[trigger] ops@[j]).op_counter() == vec@[j].op_counter(),
            forall|j: int| 0 <= j < i ==> (#[trigger] vec@[j]).rle_wf(),
        decreases ops.vec.len() - i,
    {
        let c = ops.vec[i].clone_op();
        assert(ops@[i as int].rle_wf());
        vec.push(c);
        ends.push(ops.ends[i]);
        i += 1;
    }
    let r = RleVec { vec, ends };
    proof {
        assert forall|k: int| 0 <= k < r.ends@.len() implies #[trigger] r.ends@[k] == atoms_before(
            r@,
            k + 1,
        ) by {
            lemma_same_lens(ops@, r@, k + 1);
            assert(ops.ends@[k] == atoms_before(ops@, k + 1));
        }
    }
    r
}

impl<O: OpItem> Rle for Change<O> {
    open spec fn rle_wf(&self) -> bool {
        self.wf()
    }

    open spec fn rle_len(&self) -> nat {
        self.spec_len()
    }

    /// A change continues another when it is of the same peer and the same
    /// timestamp, its counters and Lamport clocks follow on, and it depends
    /// on the last operation of the other and on nothing else.
    open spec fn can_merge(&self, next: &Self) -> bool {
        &&& self.id.peer == next.id.peer
        &&& self.timestamp == next.timestamp
        &&& self.spec_ctr_end() == next.id.counter
        &&& self.spec_lamport_end() == next.lamport
        &&& next.deps@ == seq![ID { peer: self.id.peer, counter: (self.spec_ctr_end() - 1) as Counter }]
    }

    /// The merged change keeps the id, clocks and dependencies of the
    /// first, and holds its operations with copies of those of the next
    /// stored behind them one after the other.
    open spec fn is_merge_of(&self, next: &Self, merged: &Self) -> bool {
        &&& merged.id == self.id
        &&& merged.deps@ == self.deps@
        &&& merged.lamport == self.lamport
        &&& merged.timestamp == self.timestamp
        &&& merged.spec_len() == self.spec_len() + next.spec_len()
        &&& merged.wf()
        &&& is_pushes(self.ops@, next.ops@, merged.ops@)
        &&& forall|pred: spec_fn(O) -> bool| #[trigger]
            kept_by_merging(pred) && all_ops(self.ops@, pred) && all_ops(next.ops@, pred) ==> all_ops(
                merged.ops@,
                pred,
            )
    }

    proof fn lemma_len_positive(&self) {
        Change::lemma_len_positive(self);
    }

    proof fn lemma_merge(&self, next: &Self, merged: &Self) {
    }

    fn is_valid(&self) -> (b: bool) {
        if !self.ops.is_valid() || self.ops.merged_len() == 0 || !self.deps.has_no_duplicates()
            || self.id.counter < 0 {
            return false;
        }
        let mut k: usize = 0;
        while k < self.deps.len()
            invariant
                0 <= k <= self.deps@.len(),
                forall|i: int| 0 <= i < k ==> (#[trigger] self.deps@[i]).counter >= 0,
            decreases self.deps@.len() - k,
        {
            if self.deps.get(k).counter < 0 {
                return false;
            }
            k += 1;
        }
        let len = self.ops.atom_len();
        if len > (i32::MAX - self.id.counter) as usize || len > (u32::MAX - self.lamport) as usize {
            return false;
        }
        let mut i: usize = 0;
        let mut before: usize = 0;
        proof {
            lemma_atoms_empty(self.ops@);
        }
        while i < self.ops.merged_len()
            invariant
                0 <= i <= self.ops@.len(),
                self.ops.wf(),
                0 <= self.id.counter,
                self.id.counter + atoms(self.ops@) <= i32::MAX,
                before == atoms_before(self.ops@, i as int),
                forall|j: int|
                    0 <= j < i ==> (#[trigger] self.ops@[j]).op_counter() == self.id.counter
                        + atoms_before(self.ops@, j),
            decreases self.ops@.len() - i,
        {
            proof {
                lemma_atoms_step(self.ops@, i as int);
                lemma_atoms_monotone(self.ops@, i as int + 1, self.ops@.len() as int);
                lemma_atoms_full(self.ops@);
                assert(self.ops@[i as int].rle_wf());
            }
            let op = self.ops.get_merged(i);
            if op.counter() as i64 != self.id.counter as i64 + before as i64 {
                return false;
            }
            before = before + op.atom_len();
            i += 1;
        }
        true
    }

    fn atom_len(&self) -> (n: usize) {
        self.content_len()
    }

    fn is_mergable(&self, next: &Self) -> (b: bool) {
        if self.id.peer != next.id.peer || self.timestamp != next.timestamp {
            return false;
        }
        if self.ctr_end() != next.id.counter {
            return false;
        }
        if self.lamport_end() != next.lamport {
            return false;
        }
        if next.deps.len() != 1 {
            return false;
        }
        let d = next.deps.get(0);
        let last = self.id_last();
        let b = d.peer == last.peer && d.counter == last.counter;
        proof {
            if b {
                assert(next.deps@ =~= seq![d]);
            } else {
                assert(next.deps@[0] == d);
            }
        }
        b
    }

    fn merge(&mut self, next: &Self) {
        let ghost first = self.id.counter as int;
        let ghost base = old(self).spec_len();
        let mut j: usize = 0;
        proof {
            lemma_atoms_empty(next.ops@);
            Change::lemma_len_positive(next);
            assert(self.ops@[0].op_counter() == first + atoms_before(self.ops@, 0));
            lemma_atoms_empty(self.ops@);
            assert(next.ops@.take(0) =~= Seq::<O>::empty());
        }
        while j < next.ops.vec.len()
            invariant
                0 <= j <= next.ops@.len(),
                next.wf(),
                self.ops.wf(),
                self.ops@.len() > 0,
                self.id == old(self).id,
                self.deps == old(self).deps,
                self.lamport == old(self).lamport,
                self.timestamp == old(self).timestamp,
                first == self.id.counter,
                base == old(self).spec_len(),
                next.id.counter == first + base,
                first + base + next.spec_len() <= i32::MAX,
                self.lamport + base + next.spec_len() <= u32::MAX,
                atoms(self.ops@) == base + atoms_before(next.ops@, j as int),
                self.ops@[0].op_counter() == first,
                ops_contiguous(self.ops@, first),
                is_pushes(old(self).ops@, next.ops@.take(j as int), self.ops@),
                forall|pred: spec_fn(O) -> bool| #[trigger]
                    kept_by_merging(pred) && all_ops(old(self).ops@, pred) && all_ops(
                        next.ops@,
                        pred,
                    ) ==> all_ops(self.ops@, pred),
            decreases next.ops@.len() - j,
        {
            let op = next.ops.vec[j].clone_op();
            let ghost before = self.ops@;
            proof {
                assert(next.ops@[j as int].rle_wf());
                lemma_atoms_step(next.ops@, j as int);
                lemma_atoms_monotone(next.ops@, j as int + 1, next.ops@.len() as int);
                lemma_atoms_full(next.ops@);
                assert(next.ops@[j as int].op_counter() == next.id.counter + atoms_before(
                    next.ops@,
                    j as int,
                ));
            }
            push_op(&mut self.ops, op);
            proof {
                let after = self.ops@;
                let items = next.ops@.take(j + 1);
                assert(items.drop_last() =~= next.ops@.take(j as int));
                assert(items.last() == next.ops@[j as int]);
                assert(is_push(before, op, after));
                assert forall|pred: spec_fn(O) -> bool| #[trigger]
                    kept_by_merging(pred) && all_ops(old(self).ops@, pred) && all_ops(
                        next.ops@,
                        pred,
                    ) implies all_ops(after, pred) by {
                    assert(all_ops(before, pred));
                    assert(pred(next.ops@[j as int]));
                    assert(next.ops@[j as int].same_op(&op));
                    assert(pred(op));
                }
            }
            j += 1;
        }
        proof {
            lemma_atoms_full(next.ops@);
            assert(next.ops@.take(next.ops@.len() as int) =~= next.ops@);
        }
    }
}

} // verus!
