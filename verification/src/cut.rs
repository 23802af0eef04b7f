//! The part of an exchanged change that lies after its first operations.
use vstd::prelude::*;

use crate::arena::SharedArena;
use crate::change::{ops_contiguous, Change};
use crate::id::{Counter, ID};
use crate::op::{OpItem, RemoteOp};
use crate::rle::{
    atoms, atoms_before, index_at, lemma_atoms_empty, lemma_atoms_full, lemma_atoms_monotone,
    lemma_atoms_push, lemma_atoms_step, lemma_index_unique, Rle, RleVec, Sliceable,
};
use crate::version::Frontiers;

verus! {

impl Change<RemoteOp> {
    /// Whether every piece of every operation has its position in range.
    pub open spec fn can_cut(&self) -> bool {
        forall|j: int| 0 <= j < self.ops@.len() ==> (#[trigger] self.ops@[j]).content@.in_range()
    }

    /// Whether every operation carries what belongs in its container.
    pub open spec fn fits(&self) -> bool {
        forall|j: int|
            0 <= j < self.ops@.len() ==> SharedArena::fits(
                (#[trigger] self.ops@[j]).content@,
                self.ops@[j].container.spec_container_type(),
            )
    }

    /// Whether `tail` is the change without its first `k` atomic
    /// operations: it starts `k` counters and clocks later, depends on the
    /// operation just before it and on nothing else, and holds what is left
    /// of the operation that holds atom `k` and the operations after it.
    pub open spec fn is_tail(&self, k: int, tail: &Change<RemoteOp>) -> bool {
        let i = index_at(self.ops@, k);
        let off = k - atoms_before(self.ops@, i);
        &&& tail.wf()
        &&& tail.id == ID { peer: self.id.peer, counter: (self.id.counter + k) as Counter }
        &&& tail.lamport == self.lamport + k
        &&& tail.timestamp == self.timestamp
        &&& tail.deps@ == seq![
            ID { peer: self.id.peer, counter: (self.id.counter + k - 1) as Counter },
        ]
        &&& tail.spec_len() == self.spec_len() - k
        &&& tail.ops@.len() == self.ops@.len() - i
        &&& self.ops@[i].is_slice_of(off, self.ops@[i].rle_len() as int, &tail.ops@[0])
        &&& forall|j: int| 1 <= j < tail.ops@.len() ==> (#[trigger] tail.ops@[j])@ == self.ops@[i + j]@
    }

    /// What fits its containers, fits them cut.
    pub proof fn lemma_tail_fits(&self, k: int, tail: &Change<RemoteOp>)
        requires
            self.wf(),
            0 < k < self.spec_len(),
            self.is_tail(k, tail),
            self.fits(),
        ensures
            tail.fits(),
    {
        lemma_atoms_full(self.ops@);
        crate::rle::lemma_index_exists(self.ops@, k);
        let i = index_at(self.ops@, k);
        assert(crate::rle::within(self.ops@, i, k));
        assert forall|j: int| 0 <= j < tail.ops@.len() implies SharedArena::fits(
            (#[trigger] tail.ops@[j]).content@,
            tail.ops@[j].container.spec_container_type(),
        ) by {
            let o = self.ops@[i + j];
            assert(SharedArena::fits(o.content@, o.container.spec_container_type()));
            if j > 0 {
                assert(tail.ops@[j]@ == o@);
            }
        }
    }

    /// The change without its first `k` atomic operations.
    pub fn tail(&self, k: usize) -> (r: Change<RemoteOp>)
        requires
            self.wf(),
            self.can_cut(),
            0 < k < self.spec_len(),
        ensures
            self.is_tail(k as int, &r),
    {
        proof {
            lemma_atoms_full(self.ops@);
        }
        let found = self.ops.get_by_atom_index(k).unwrap();
        let i = found.merged_index;
        let off = found.offset;
        proof {
            lemma_index_unique(self.ops@, i as int, k as int);
            lemma_atoms_step(self.ops@, i as int);
            lemma_atoms_monotone(self.ops@, i as int + 1, self.ops@.len() as int);
            assert(self.ops@[i as int].rle_wf());
            assert(self.ops@[i as int].op_counter() == self.id.counter + atoms_before(
                self.ops@,
                i as int,
            ));
        }
        let len_i = found.element.atom_len();
        let piece = found.element.slice(off, len_i);
        let ghost first: int = self.id.counter + k;
        let mut ops: RleVec<RemoteOp> = RleVec::new();
        proof {
            lemma_atoms_empty(ops@);
        }
        ops.push_unmerged(piece);
        proof {
            lemma_atoms_empty(ops@);
            assert(ops@ =~= seq![piece]);
        }
        let n = self.ops.merged_len();
        assert(i < n);
        let mut j: usize = i + 1;
        while j < n
            invariant
                i < j <= self.ops@.len(),
                n == self.ops@.len(),
                self.wf(),
                0 < k < self.spec_len(),
                first == self.id.counter + k,
                ops.wf(),
                ops@.len() == j - i,
                ops@[0] == piece,
                atoms(ops@) == atoms_before(self.ops@, j as int) - k,
                forall|m: int|
                    1 <= m < ops@.len() ==> (#[trigger] ops@[m])@ == self.ops@[i + m]@,
                ops_contiguous(ops@, first),
            decreases self.ops@.len() - j,
        {
            let ghost before = ops@;
            proof {
                assert(self.ops@[j as int].rle_wf());
                lemma_atoms_step(self.ops@, j as int);
                lemma_atoms_monotone(self.ops@, j as int + 1, self.ops@.len() as int);
                lemma_atoms_full(self.ops@);
                assert(self.ops@[j as int].op_counter() == self.id.counter + atoms_before(
                    self.ops@,
                    j as int,
                ));
            }
            let c = self.ops.get_merged(j).clone_op();
            ops.push_unmerged(c);
            proof {
                let after = ops@;
                lemma_atoms_push(before, c);
                lemma_atoms_full(before);
                assert forall|m: int| 0 <= m < after.len() implies (#[trigger] after[m]).op_counter()
                    == first + atoms_before(after, m) by {
                    if m < before.len() {
                        assert(before[m].op_counter() == first + atoms_before(before, m));
                    }
                }
            }
            j += 1;
        }
        proof {
            lemma_atoms_full(self.ops@);
        }
        Change {
            ops,
            id: ID { peer: self.id.peer, counter: (self.id.counter as i64 + k as i64) as i32 },
            deps: Frontiers::from_id(
                ID { peer: self.id.peer, counter: (self.id.counter as i64 + k as i64 - 1) as i32 },
            ),
            lamport: (self.lamport as u64 + k as u64) as u32,
            timestamp: self.timestamp,
        }
    }
}

} // verus!
