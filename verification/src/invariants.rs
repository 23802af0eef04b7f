//! What holds of every sound log, stated operation by operation.
use vstd::prelude::*;

use crate::id::{PeerID, ID};
use crate::oplog::{changes_chain, OpLog};
use crate::rle::{
    atoms_before, index_at, lemma_atoms_empty, lemma_atoms_full, lemma_atoms_monotone,
    lemma_atoms_step,
};

verus! {

impl OpLog {
    /// The version of a sound log covers exactly the operations of its
    /// changes: it includes an operation if and only if one of the changes
    /// of the operation's peer holds it.
    pub proof fn lemma_version_is_what_changes_hold(&self, id: ID)
        requires
            self.wf(),
        ensures
            (self.dag.vv.includes(id) && id.counter >= 0) <==> exists|i: int|
                0 <= i < self.peer_changes(id.peer).len() && (#[trigger] self.peer_changes(
                    id.peer,
                )[i]).covers(id),
    {
        let chain = self.peer_changes(id.peer);
        assert(self.dag.vv.end(id.peer) == self.dag.end(id.peer));
        if self.dag.vv.includes(id) && id.counter >= 0 {
            self.lemma_change_of(id);
            let i = index_at(chain, id.counter as int);
            assert(chain[i].covers(id));
        }
        if exists|i: int| 0 <= i < chain.len() && (#[trigger] chain[i]).covers(id) {
            let i = choose|i: int| 0 <= i < chain.len() && (#[trigger] chain[i]).covers(id);
            assert(self.changes@.contains_key(id.peer));
            assert(changes_chain(chain, id.peer));
            assert(chain[i].id.counter == atoms_before(chain, i));
            lemma_atoms_step(chain, i);
            lemma_atoms_monotone(chain, i + 1, chain.len() as int);
            lemma_atoms_full(chain);
        }
    }

    /// The changes that a sound log holds of a peer start at counter zero
    /// and follow one another without a gap.
    pub proof fn lemma_changes_without_gap(&self, peer: PeerID, i: int)
        requires
            self.wf(),
            0 <= i < self.peer_changes(peer).len(),
        ensures
            self.peer_changes(peer)[0].id.counter == 0,
            self.peer_changes(peer)[i].id.peer == peer,
            i + 1 < self.peer_changes(peer).len() ==> self.peer_changes(peer)[i + 1].id.counter
                == self.peer_changes(peer)[i].spec_ctr_end(),
            i + 1 == self.peer_changes(peer).len() ==> self.dag.vv.end(peer) == self.peer_changes(
                peer,
            )[i].spec_ctr_end(),
    {
        let chain = self.peer_changes(peer);
        assert(self.changes@.contains_key(peer));
        assert(changes_chain(chain, peer));
        assert(chain[0].id.counter == atoms_before(chain, 0));
        assert(chain[i].id.counter == atoms_before(chain, i));
        lemma_atoms_empty(chain);
        lemma_atoms_step(chain, i);
        lemma_atoms_full(chain);
        assert(self.dag.vv.end(peer) == self.dag.end(peer));
        if i + 1 < chain.len() {
            assert(chain[i + 1].id.counter == atoms_before(chain, i + 1));
        }
    }

    /// Every node of the causal graph of a sound log has all that it
    /// depends on in its version, with smaller Lamport clocks than its own.
    pub proof fn lemma_dependencies_come_first(&self, peer: PeerID, i: int, k: int)
        requires
            self.wf(),
            0 <= i < self.dag.nodes(peer).len(),
            0 <= k < self.dag.nodes(peer)[i].deps@.len(),
        ensures
            self.dag.nodes(peer)[i].vv.includes(self.dag.nodes(peer)[i].deps@[k]),
            self.dag.lamport_of(self.dag.nodes(peer)[i].deps@[k]) < self.dag.nodes(peer)[i].lamport,
    {
        assert(self.dag.map@.contains_key(peer));
        assert(self.dag.node_ok(self.dag.map@[peer]@[i]));
    }

    /// The next Lamport clock of a sound log is past the clock of every
    /// operation that the log holds.
    pub proof fn lemma_next_lamport_is_past_all(&self, id: ID)
        requires
            self.wf(),
            self.has(id),
        ensures
            self.dag.lamport_of(id) < self.next_lamport,
    {
        self.lemma_change_of(id);
        let c = self.change_of(id);
        assert(self.change_ok(c));
        self.dag.lemma_node_of(id);
        self.dag.lemma_node_of(c.id);
        // the change and the operation lie in one node
        let nodes = self.dag.nodes(id.peer);
        let n = self.dag.node_of(c.id);
        let j = index_at(nodes, c.id.counter as int);
        self.dag.lemma_in_node(id.peer, j, id.counter as int);
        assert(self.dag.node_of(id) == n);
    }
}

} // verus!
