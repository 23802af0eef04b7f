//! Figures on the size of a log.
use vstd::prelude::*;

use crate::change::Change;
use crate::id::PeerID;
use crate::op::Op;
use crate::oplog::OpLog;
use crate::rle::{
    atoms, atoms_before, lemma_atoms_empty, lemma_atoms_full, lemma_atoms_monotone,
    lemma_atoms_step,
};
use crate::version::{lemma_sum_le, lemma_sum_over_peers, peers_of, sum_over, sum_over_peers};

verus! {

broadcast use vstd::std_specs::hash::group_hash_axioms;

/// How much a log holds.
#[derive(Debug, PartialEq, Eq, Clone, Copy, Structural)]
pub struct SizeReport {
    /// The number of stored changes.
    pub total_changes: usize,
    /// The number of stored operations.
    pub total_ops: usize,
    /// The number of atomic operations.
    pub total_atom_ops: usize,
    /// The number of peers that the causal graph knows.
    pub total_dag_node: usize,
}

/// The number of operations that the first `k` changes store.
pub open spec fn ops_before(chain: Seq<Change<Op>>, k: int) -> nat
    decreases k,
{
    if k <= 0 {
        0
    } else {
        ops_before(chain, k - 1) + chain[k - 1].ops@.len()
    }
}

/// Valid changes hold no more changes and no more stored operations than
/// atomic operations.
pub proof fn lemma_counts_within_atoms(chain: Seq<Change<Op>>, k: int)
    requires
        0 <= k <= chain.len(),
        forall|i: int| 0 <= i < chain.len() ==> (#[trigger] chain[i]).wf(),
    ensures
        k <= atoms_before(chain, k),
        ops_before(chain, k) <= atoms_before(chain, k),
    decreases k,
{
    if k > 0 {
        lemma_counts_within_atoms(chain, k - 1);
        lemma_atoms_step(chain, k - 1);
        let c = chain[k - 1];
        assert(c.wf());
        lemma_atoms_monotone(c.ops@, 0, c.ops@.len() as int);
        lemma_atoms_full(c.ops@);
        lemma_atoms_empty(c.ops@);
    } else {
        lemma_atoms_empty(chain);
    }
}

impl OpLog {
    /// The number of stored operations.
    pub open spec fn spec_total_ops(&self) -> nat {
        sum_over_peers(
            self.changes@.dom(),
            |p: PeerID| ops_before(self.changes@[p]@, self.changes@[p]@.len() as int),
        )
    }

    /// The number of atomic operations.
    pub open spec fn spec_total_atom_ops(&self) -> nat {
        sum_over_peers(self.changes@.dom(), |p: PeerID| atoms(self.changes@[p]@))
    }

    /// How much the log holds: its changes, their stored operations, their
    /// atomic operations, and the peers of its causal graph.
    pub fn size_report(&self) -> (r: SizeReport)
        requires
            self.wf(),
            self.spec_total_atom_ops() <= usize::MAX,
        ensures
            r.total_changes == self.spec_len_changes(),
            r.total_ops == self.spec_total_ops(),
            r.total_atom_ops == self.spec_total_atom_ops(),
            r.total_dag_node == self.dag.map@.len(),
    {
        let keys = peers_of(&self.changes);
        let ghost f_changes = |p: PeerID| self.changes@[p]@.len();
        let ghost f_ops = |p: PeerID|
            ops_before(self.changes@[p]@, self.changes@[p]@.len() as int);
        let ghost f_atoms = |p: PeerID| atoms(self.changes@[p]@);
        let mut total_changes: usize = 0;
        let mut total_ops: usize = 0;
        let mut total_atom_ops: usize = 0;
        let mut i: usize = 0;
        proof {
            lemma_sum_over_peers(keys@, self.changes@.dom(), f_changes);
            lemma_sum_over_peers(keys@, self.changes@.dom(), f_ops);
            lemma_sum_over_peers(keys@, self.changes@.dom(), f_atoms);
        }
        while i < keys.len()
            invariant
                0 <= i <= keys.len(),
                self.wf(),
                f_changes == (|p: PeerID| self.changes@[p]@.len()),
                f_ops == (|p: PeerID|
                    ops_before(self.changes@[p]@, self.changes@[p]@.len() as int)),
                f_atoms == (|p: PeerID| atoms(self.changes@[p]@)),
                forall|p: PeerID| keys@.contains(p) <==> self.changes@.contains_key(p),
                total_changes == sum_over(keys@.take(i as int), f_changes),
                total_ops == sum_over(keys@.take(i as int), f_ops),
                total_atom_ops == sum_over(keys@.take(i as int), f_atoms),
                sum_over(keys@, f_atoms) <= usize::MAX,
            decreases keys.len() - i,
        {
            let p = keys[i];
            assert(keys@.contains(p));
            let chain = self.changes.get(&p).unwrap();
            proof {
                assert(keys@.take(i + 1).drop_last() =~= keys@.take(i as int));
                assert forall|q: PeerID| keys@.contains(q) implies #[trigger] f_changes(q)
                    <= f_atoms(q) by {
                    lemma_counts_within_atoms(
                        self.changes@[q]@,
                        self.changes@[q]@.len() as int,
                    );
                    lemma_atoms_full(self.changes@[q]@);
                }
                assert forall|q: PeerID| keys@.contains(q) implies #[trigger] f_ops(q) <= f_atoms(
                    q,
                ) by {
                    lemma_counts_within_atoms(
                        self.changes@[q]@,
                        self.changes@[q]@.len() as int,
                    );
                    lemma_atoms_full(self.changes@[q]@);
                }
                lemma_sum_le(keys@, f_changes, f_atoms, i + 1);
                lemma_sum_le(keys@, f_ops, f_atoms, i + 1);
                lemma_sum_le(keys@, f_atoms, f_atoms, i + 1);
                lemma_counts_within_atoms(chain@, chain@.len() as int);
                lemma_atoms_full(chain@);
            }
            // the stored operations of the changes of this peer
            let mut ops: usize = 0;
            let mut j: usize = 0;
            while j < chain.merged_len()
                invariant
                    0 <= j <= chain@.len(),
                    forall|k: int| 0 <= k < chain@.len() ==> (#[trigger] chain@[k]).wf(),
                    ops == ops_before(chain@, j as int),
                    ops_before(chain@, chain@.len() as int) <= usize::MAX,
                decreases chain@.len() - j,
            {
                proof {
                    lemma_ops_before_monotone(chain@, j + 1, chain@.len() as int);
                }
                ops = ops + chain.get_merged(j).ops.merged_len();
                j += 1;
            }
            total_changes = total_changes + chain.merged_len();
            total_ops = total_ops + ops;
            total_atom_ops = total_atom_ops + chain.atom_len();
            i += 1;
        }
        assert(keys@.take(keys.len() as int) =~= keys@);
        SizeReport {
            total_changes,
            total_ops,
            total_atom_ops,
            total_dag_node: self.dag.map.len(),
        }
    }
}

/// The number of stored operations grows with the number of changes.
pub proof fn lemma_ops_before_monotone(chain: Seq<Change<Op>>, a: int, b: int)
    requires
        0 <= a <= b,
    ensures
        ops_before(chain, a) <= ops_before(chain, b),
    decreases b - a,
{
    if a < b {
        lemma_ops_before_monotone(chain, a, b - 1);
    }
}

} // verus!
