//! The operation log: every change that a document has seen, with the
//! causal graph over them.
use std::cmp::Ordering;
use std::collections::HashMap;
use vstd::prelude::*;

use crate::arena::SharedArena;
use crate::change::{all_ops, kept_by_merging, Change};
use crate::dag::{same_head, AppDag, AppDagNode};
use crate::error::LoroError;
use crate::id::{Counter, Lamport, PeerID, Timestamp, ID};
use crate::op::{Op, OpItem, RemoteOp};
use crate::pending::PendingChanges;
use crate::rle::{
    all_wf, atoms, atoms_before, index_at, lemma_atoms_empty, lemma_atoms_full,
    lemma_atoms_monotone, lemma_atoms_push, lemma_atoms_step, lemma_index_exists,
    lemma_index_unique, lemma_prefix_lens, lemma_same_lens_across, within, Rle, RleVec,
};
use crate::version::{
    lemma_filter_contains, lemma_sum_le, lemma_sum_over_peers, lemma_take_push_contains, peers_of,
    sum_over, sum_over_peers, Frontiers, VersionVector,
};

verus! {

broadcast use vstd::std_specs::hash::group_hash_axioms;

/// For each peer the changes that the log holds of it.
pub type ClientChanges = HashMap<PeerID, RleVec<Change<Op>>>;

/// For each peer a run of changes as replicas exchange them.
pub type RemoteClientChanges = HashMap<PeerID, Vec<Change<RemoteOp>>>;

/// The history of a document: its changes peer by peer, the causal graph
/// over them, the arena that their operations point into, and the changes
/// that wait for a dependency.
#[derive(Debug)]
pub struct OpLog {
    pub dag: AppDag,
    pub arena: SharedArena,
    pub changes: ClientChanges,
    /// The Lamport clock of the next operation; clocks start at zero.
    pub next_lamport: Lamport,
    pub latest_timestamp: Timestamp,
    pub pending_changes: PendingChanges,
}

/// The changes of one peer: their counters follow one another from zero.
pub open spec fn changes_chain(chain: Seq<Change<Op>>, peer: PeerID) -> bool {
    &&& chain.len() > 0
    &&& all_wf(chain)
    &&& forall|i: int|
        0 <= i < chain.len() ==> (#[trigger] chain[i]).id.peer == peer && chain[i].id.counter
            == atoms_before(chain, i)
}

/// The text of the error for a dependency that the log does not hold.
pub open spec fn missing_dep_text(id: ID) -> Seq<char> {
    "Missing dep "@ + id.text()
}

impl OpLog {
    /// The changes of a peer; none for a peer that the log does not know.
    pub open spec fn peer_changes(&self, peer: PeerID) -> Seq<Change<Op>> {
        if self.changes@.contains_key(peer) {
            self.changes@[peer]@
        } else {
            Seq::empty()
        }
    }

    /// What holds of each change: the graph holds it in one node, with its
    /// Lamport clock and its dependencies; and neither its timestamp nor
    /// its clocks are ahead of the log's.
    pub open spec fn change_ok(&self, c: Change<Op>) -> bool {
        &&& self.dag.has(c.id)
        &&& c.lamport == self.dag.lamport_of(c.id)
        &&& c.deps@ == self.dag.deps_at(c.id)
        &&& c.spec_ctr_end() <= self.dag.node_of(c.id).spec_ctr_end()
        &&& c.timestamp <= self.latest_timestamp
        &&& c.spec_lamport_end() <= self.next_lamport
    }

    /// The graph and the arena are sound; the log holds changes of exactly
    /// the peers of the graph; the changes of a peer cover its counters
    /// from zero to where the graph ends, without a gap; and each change
    /// agrees with the graph.
    pub open spec fn wf(&self) -> bool {
        &&& self.dag.wf()
        &&& self.arena.wf()
        &&& self.pending_changes.wf()
        &&& forall|p: PeerID| self.changes@.contains_key(p) <==> self.dag.map@.contains_key(p)
        &&& forall|p: PeerID| #[trigger]
            self.changes@.contains_key(p) ==> {
                &&& self.changes@[p].wf()
                &&& changes_chain(self.changes@[p]@, p)
                &&& atoms(self.changes@[p]@) == self.dag.end(p)
            }
        &&& forall|p: PeerID, i: int|
            self.changes@.contains_key(p) && 0 <= i < self.changes@[p]@.len() ==> self.change_ok(
                #[trigger] self.changes@[p]@[i],
            )
    }

    /// Whether the log holds the operation.
    pub open spec fn has(&self, id: ID) -> bool {
        self.dag.has(id)
    }

    /// The first of the dependencies that the log does not hold.
    pub open spec fn first_missing(&self, deps: Seq<ID>) -> Option<ID>
        decreases deps.len(),
    {
        if deps.len() == 0 {
            None
        } else if self.first_missing(deps.drop_last()) is Some {
            self.first_missing(deps.drop_last())
        } else if !self.dag.vv.includes(deps.last()) {
            Some(deps.last())
        } else {
            None
        }
    }

    /// No dependency is missing exactly where the version includes them all.
    pub proof fn lemma_first_missing(&self, deps: Seq<ID>)
        ensures
            self.first_missing(deps) is None <==> forall|i: int|
                0 <= i < deps.len() ==> self.dag.vv.includes(#[trigger] deps[i]),
        decreases deps.len(),
    {
        if deps.len() > 0 {
            self.lemma_first_missing(deps.drop_last());
            if self.first_missing(deps) is None {
                assert forall|i: int| 0 <= i < deps.len() implies self.dag.vv.includes(
                    #[trigger] deps[i],
                ) by {
                    if i < deps.len() - 1 {
                        assert(deps.drop_last()[i] == deps[i]);
                    }
                }
            } else if self.first_missing(deps.drop_last()) is Some {
                let i = choose|i: int|
                    0 <= i < deps.drop_last().len() && !self.dag.vv.includes(
                        #[trigger] deps.drop_last()[i],
                    );
                assert(deps.drop_last()[i] == deps[i]);
            } else {
                assert(!self.dag.vv.includes(deps[deps.len() - 1]));
            }
        }
    }

    /// Whether the log takes a change in: it does not hold the first
    /// operation of the change yet, and it holds every dependency.
    pub open spec fn accepts(&self, change: &Change<Op>) -> bool {
        &&& self.dag.vv.end(change.id.peer) <= change.id.counter
        &&& self.first_missing(change.deps@) is None
    }

    /// Whether the change, which the log takes in, follows on what the
    /// log holds.
    pub open spec fn admits(&self, change: &Change<Op>) -> bool {
        self.dag.admits(change.id, change.lamport, change.deps@, change.spec_len())
    }

    /// Whether `later` is this log after it took in `change`, whatever
    /// became of the frontiers: the graph has grown by the run of the
    /// change, the change is stored behind the changes of its peer, merged
    /// into the last of them where it continues it, and the clocks of the
    /// log are not behind the change.
    pub open spec fn applied(&self, change: &Change<Op>, later: &OpLog) -> bool {
        let peer = change.id.peer;
        &&& later.arena == self.arena
        &&& later.pending_changes == self.pending_changes
        &&& later.next_lamport == if self.next_lamport < change.spec_lamport_end() {
            change.spec_lamport_end()
        } else {
            self.next_lamport as int
        }
        &&& later.latest_timestamp == if self.latest_timestamp < change.timestamp {
            change.timestamp
        } else {
            self.latest_timestamp
        }
        &&& self.dag.appended(
            change.id,
            change.lamport,
            change.deps@,
            change.spec_len(),
            &later.dag,
        )
        &&& forall|q: PeerID|
            q != peer ==> (#[trigger] later.changes@.contains_key(q)) == self.changes@.contains_key(q)
        &&& forall|q: PeerID|
            q != peer && self.changes@.contains_key(q) ==> #[trigger] later.changes@[q]
                == self.changes@[q]
        &&& later.changes@.contains_key(peer)
        &&& {
            let before = self.peer_changes(peer);
            let after = later.peer_changes(peer);
            if before.len() > 0 && before.last().can_merge(change) {
                &&& after.len() == before.len()
                &&& after.drop_last() == before.drop_last()
                &&& before.last().is_merge_of(change, &after.last())
            } else {
                after == before.push(*change)
            }
        }
    }

    /// What storing an admitted change behind the changes of its peer
    /// gives.
    pub proof fn lemma_changes_chain(
        before: Seq<Change<Op>>,
        after: Seq<Change<Op>>,
        change: Change<Op>,
        merges: bool,
    )
        requires
            change.wf(),
            before.len() == 0 ==> change.id.counter == 0 && !merges,
            before.len() > 0 ==> changes_chain(before, change.id.peer) && atoms(before)
                == change.id.counter,
            all_wf(after),
            merges ==> {
                &&& after.len() == before.len()
                &&& after.drop_last() == before.drop_last()
                &&& before.last().is_merge_of(&change, &after.last())
            },
            !merges ==> after == before.push(change),
        ensures
            changes_chain(after, change.id.peer),
            atoms(after) == change.spec_ctr_end(),
            forall|i: int|
                0 <= i < after.len() ==> (i < before.len() && (#[trigger] after[i]) == before[i]) || (
                merges && i == after.len() - 1) || (!merges && after[i] == change),
    {
        let peer = change.id.peer;
        lemma_atoms_full(after);
        lemma_atoms_full(before);
        lemma_atoms_empty(before);
        if merges {
            let k = before.len() - 1;
            assert forall|i: int| 0 <= i < k implies after[i] == before[i] by {
                assert(after[i] == after.drop_last()[i]);
                assert(before[i] == before.drop_last()[i]);
            }
            assert forall|i: int| 0 <= i < k implies (#[trigger] before[i]).rle_len()
                == after[i].rle_len() by {}
            lemma_prefix_lens(before, after, k);
            lemma_atoms_step(before, k);
            lemma_atoms_step(after, k);
            assert(before[k].id.counter == atoms_before(before, k));
            assert forall|i: int| 0 <= i < after.len() implies (#[trigger] after[i]).id.peer == peer
                && after[i].id.counter == atoms_before(after, i) by {
                if i < k {
                    assert forall|j: int| 0 <= j < i implies (#[trigger] before[j]).rle_len()
                        == after[j].rle_len() by {}
                    lemma_prefix_lens(before, after, i);
                    assert(before[i].id.counter == atoms_before(before, i));
                }
            }
        } else {
            lemma_atoms_push(before, change);
            assert forall|i: int| 0 <= i < after.len() implies (#[trigger] after[i]).id.peer == peer
                && after[i].id.counter == atoms_before(after, i) by {
                if i < before.len() {
                    assert(before[i].id.counter == atoms_before(before, i));
                } else {
                    lemma_atoms_empty(after);
                    lemma_atoms_full(before);
                }
            }
        }
    }

    /// A change that agrees with a log agrees with the log after its graph
    /// and its clocks have grown.
    pub proof fn lemma_change_ok_grows(&self, later: &OpLog, peer: PeerID, c: Change<Op>)
        requires
            self.dag.nodes_wf(),
            self.dag.grows_to(&later.dag, peer),
            self.change_ok(c),
            self.next_lamport <= later.next_lamport,
            self.latest_timestamp <= later.latest_timestamp,
        ensures
            later.change_ok(c),
    {
        self.dag.lemma_grows_keeps(&later.dag, peer, c.id);
    }

    /// Takes in a change that follows on what the log holds. The frontiers
    /// stay as they are.
    pub fn apply(&mut self, change: Change<Op>)
        requires
            old(self).wf(),
            change.wf(),
            old(self).admits(&change),
        ensures
            final(self).wf(),
            old(self).applied(&change, final(self)),
            final(self).dag.frontiers == old(self).dag.frontiers,
            old(self).resolved() && old(self).resolves(&change) ==> final(self).resolved(),
    {
        let peer = change.id.peer;
        let ghost before = *old(self);
        let ghost old_chain = before.peer_changes(peer);
        let ghost old_nodes = before.dag.nodes(peer);
        let len = change.content_len();
        let lamport_end = change.lamport_end();
        if self.next_lamport < lamport_end {
            self.next_lamport = lamport_end;
        }
        if self.latest_timestamp < change.timestamp {
            self.latest_timestamp = change.timestamp;
        }
        let deps = change.deps.clone_frontiers();
        self.dag.append(change.id, change.lamport, deps, len);
        let mut chain = match self.changes.remove(&peer) {
            Some(c) => c,
            None => RleVec::new(),
        };
        assert(chain@ =~= old_chain);
        proof {
            lemma_atoms_full(old_chain);
            lemma_atoms_empty(old_chain);
            lemma_atoms_empty(Seq::<AppDagNode>::empty());
        }
        chain.push(change);
        let ghost new_chain = chain@;
        self.changes.insert(peer, chain);
        proof {
            let after = *self;
            let merges = old_chain.len() > 0 && old_chain.last().can_merge(&change);
            assert(after.peer_changes(peer) == new_chain);
            Self::lemma_changes_chain(old_chain, new_chain, change, merges);
            assert forall|p: PeerID| #[trigger] after.changes@.contains_key(p) implies {
                &&& after.changes@[p].wf()
                &&& changes_chain(after.changes@[p]@, p)
                &&& atoms(after.changes@[p]@) == after.dag.end(p)
            } by {
                if p != peer {
                    assert(before.changes@.contains_key(p));
                    assert(after.changes@[p] == before.changes@[p]);
                    assert(before.dag.map@.contains_key(p));
                    before.dag.lemma_grows_others(&after.dag, peer, p);
                }
            }
            assert forall|p: PeerID, i: int|
                after.changes@.contains_key(p) && 0 <= i < after.changes@[p]@.len() implies after.change_ok(
                #[trigger] after.changes@[p]@[i],
            ) by {
                let c = after.changes@[p]@[i];
                if p != peer {
                    assert(before.changes@.contains_key(p));
                    assert(after.changes@[p] == before.changes@[p]);
                    assert(before.change_ok(before.changes@[p]@[i]));
                    before.lemma_change_ok_grows(&after, peer, c);
                } else if i < old_chain.len() && c == old_chain[i] {
                    assert(before.change_ok(before.changes@[peer]@[i]));
                    before.lemma_change_ok_grows(&after, peer, c);
                } else if merges {
                    // the last change has grown, and so has the last node
                    let m = old_chain.last();
                    assert(before.change_ok(before.changes@[peer]@[old_chain.len() - 1]));
                    before.dag.lemma_grows_keeps(&after.dag, peer, m.id);
                    before.dag.lemma_node_of(m.id);
                    let k = index_at(old_nodes, m.id.counter as int);
                    lemma_atoms_step(old_nodes, k);
                    lemma_atoms_full(old_nodes);
                    if k < old_nodes.len() - 1 {
                        lemma_atoms_monotone(old_nodes, k + 1, old_nodes.len() as int);
                    }
                    assert(k == old_nodes.len() - 1);
                    assert(AppDag::self_dep(change.id, change.deps@));
                } else {
                    assert(c == change);
                    before.dag.lemma_admits(
                        change.id,
                        change.lamport,
                        change.deps@,
                        change.spec_len(),
                    );
                    if AppDag::self_dep(change.id, change.deps@) {
                        let last = old_nodes.last();
                        assert(last.wf());
                        assert(same_head(last, after.dag.nodes(peer).last())) by {
                            before.dag.lemma_in_node_last(peer, change.id.counter);
                            before.dag.lemma_grows_keeps(
                                &after.dag,
                                peer,
                                AppDag::top(peer, change.id.counter),
                            );
                        }
                    }
                }
            }
            if before.resolved() && before.resolves(&change) {
                let pred = |op: Op| self.arena.settles(&op);
                self.arena.lemma_merging_keeps_settled();
                assert forall|p: PeerID, i: int|
                    after.changes@.contains_key(p) && 0 <= i < after.changes@[p]@.len() implies after.resolves(
                    #[trigger] &after.changes@[p]@[i],
                ) by {
                    let c = after.changes@[p]@[i];
                    if p != peer {
                        assert(before.changes@.contains_key(p));
                        assert(after.changes@[p] == before.changes@[p]);
                        assert(before.resolves(&before.changes@[p]@[i]));
                    } else if i < old_chain.len() && c == old_chain[i] {
                        assert(before.resolves(&before.changes@[peer]@[i]));
                    } else if merges {
                        let m = old_chain.last();
                        assert(before.resolves(&before.changes@[peer]@[old_chain.len() - 1]));
                        assert(all_ops(m.ops@, pred)) by {
                            assert forall|j: int| 0 <= j < m.ops@.len() implies pred(
                                #[trigger] m.ops@[j],
                            ) by {
                                assert(self.arena.settles(&m.ops@[j]));
                            }
                        }
                        assert(all_ops(change.ops@, pred)) by {
                            assert forall|j: int| 0 <= j < change.ops@.len() implies pred(
                                #[trigger] change.ops@[j],
                            ) by {
                                assert(self.arena.settles(&change.ops@[j]));
                            }
                        }
                        assert(kept_by_merging(pred));
                        assert(all_ops(c.ops@, pred));
                        assert forall|j: int| 0 <= j < c.ops@.len() implies self.arena.settles(
                            #[trigger] &c.ops@[j],
                        ) by {
                            assert(pred(c.ops@[j]));
                        }
                    } else {
                        assert(c == change);
                    }
                }
            }
        }
    }

    /// The first of the dependencies that the log does not hold, if there
    /// is one.
    fn check_deps(&self, deps: &Frontiers) -> (r: Result<(), ID>)
        ensures
            match r {
                Ok(_) => self.first_missing(deps@) is None,
                Err(id) => self.first_missing(deps@) == Some(id),
            },
    {
        let mut i: usize = 0;
        assert(deps@.take(0) =~= Seq::<ID>::empty());
        while i < deps.len()
            invariant
                0 <= i <= deps@.len(),
                self.first_missing(deps@.take(i as int)) is None,
            decreases deps@.len() - i,
        {
            let dep = deps.get(i);
            proof {
                assert(deps@.take(i + 1).drop_last() =~= deps@.take(i as int));
            }
            if !self.dag.vv.includes_id(dep) {
                proof {
                    self.lemma_missing_prefix(deps@, i + 1);
                }
                return Err(dep);
            }
            i += 1;
        }
        assert(deps@.take(deps@.len() as int) =~= deps@);
        Ok(())
    }

    /// A dependency that is missing among the first of the dependencies is
    /// the first that is missing among them all.
    pub proof fn lemma_missing_prefix(&self, deps: Seq<ID>, k: int)
        requires
            0 <= k <= deps.len(),
            self.first_missing(deps.take(k)) is Some,
        ensures
            self.first_missing(deps) == self.first_missing(deps.take(k)),
        decreases deps.len() - k,
    {
        if k < deps.len() {
            assert(deps.drop_last().take(k) =~= deps.take(k));
            self.lemma_missing_prefix(deps.drop_last(), k);
        } else {
            assert(deps.take(k) =~= deps);
        }
    }

    /// Takes in a change that this replica made.
    ///
    /// A change whose first operation the log holds already is refused as
    /// a reuse of its id. A change with a dependency that the log does not
    /// hold is set aside under the first such dependency, and refused with
    /// a decode error that names it. Any other change is stored: the graph
    /// grows by it, the clocks of the log move up to it, and in the
    /// frontiers its last operation takes the place of its dependencies
    /// and of the earlier operations of its peer.
    pub fn import_local_change(&mut self, change: Change<Op>) -> (r: Result<(), LoroError>)
        requires
            old(self).wf(),
            change.wf(),
            old(self).accepts(&change) ==> old(self).admits(&change),
        ensures
            final(self).wf(),
            old(self).dag.vv.end(change.id.peer) > change.id.counter ==> {
                &&& r == Err::<(), LoroError>(LoroError::UsedOpID { id: change.id })
                &&& *final(self) == *old(self)
            },
            old(self).dag.vv.end(change.id.peer) <= change.id.counter && old(self).first_missing(
                change.deps@,
            ) is Some ==> {
                let missing = old(self).first_missing(change.deps@)->0;
                &&& r is Err
                &&& r->Err_0 is DecodeError
                &&& r->Err_0.message() == missing_dep_text(missing)
                &&& final(self).pending_changes.waits_for(missing)
                &&& final(self).pending_changes.waiting(missing) == old(
                    self,
                ).pending_changes.waiting(missing).push(change)
                &&& forall|other: ID|
                    other != missing ==> #[trigger] final(self).pending_changes.waits_for(other)
                        == old(self).pending_changes.waits_for(other)
                &&& forall|other: ID|
                    other != missing ==> final(self).pending_changes.waiting(other) == old(
                        self,
                    ).pending_changes.waiting(other)
                &&& final(self).dag == old(self).dag
                &&& final(self).changes == old(self).changes
                &&& final(self).arena == old(self).arena
                &&& final(self).next_lamport == old(self).next_lamport
                &&& final(self).latest_timestamp == old(self).latest_timestamp
            },
            old(self).accepts(&change) ==> {
                &&& r is Ok
                &&& old(self).applied(&change, final(self))
                &&& final(self).dag.frontiers@ == old(self).dag.frontiers@.filter(
                    |id: ID| !change.deps@.contains(id),
                ).filter(|id: ID| id.peer != change.id.peer).push(
                    ID { peer: change.id.peer, counter: (change.spec_ctr_end() - 1) as Counter },
                )
            },
            old(self).accepts(&change) && old(self).dag.frontiers_current()
                ==> final(self).dag.frontiers_current(),
            old(self).resolved() && old(self).resolves(&change) ==> final(self).resolved(),
    {
        let cur_end = self.dag.vv.get_end(change.id.peer);
        if cur_end > change.id.counter {
            return Err(LoroError::UsedOpID { id: change.id });
        }
        match self.check_deps(&change.deps) {
            Err(missing) => {
                let mut msg = String::from_str("Missing dep ");
                let text = missing.to_string();
                msg.append(text.as_str());
                self.pending_changes.add(missing, change);
                return Err(LoroError::DecodeError(msg));
            },
            Ok(_) => {},
        }
        let last = change.id_last();
        let peer = change.id.peer;
        let deps = change.deps.clone_frontiers();
        self.apply(change);
        let ghost mid = *self;
        let ghost f0 = self.dag.frontiers@;
        self.dag.frontiers.retain_non_included(&deps);
        self.dag.frontiers.filter_peer(peer);
        proof {
            lemma_filter_contains(
                f0.filter(|id: ID| !deps@.contains(id)),
                |id: ID| id.peer != peer,
                last,
            );
        }
        self.dag.frontiers.push(last);
        proof {
            old(self).dag.lemma_appended_frontiers(
                change.id,
                change.lamport,
                change.deps@,
                change.spec_len(),
                &mid.dag,
                &self.dag,
            );
            mid.lemma_wf_frontiers(self);
            if old(self).dag.frontiers_current() {
                let f1 = f0.filter(|id: ID| !deps@.contains(id));
                let f2 = f1.filter(|id: ID| id.peer != peer);
                assert forall|x: ID|
                    self.dag.frontiers.set().contains(x) <==> self.dag.heads(
                        self.dag.vv@,
                    ).contains(x) by {
                    old(self).dag.lemma_heads_after_append(
                        &self.dag,
                        change.id,
                        change.lamport,
                        change.deps@,
                        change.spec_len(),
                        x,
                    );
                    lemma_filter_contains(f0, |id: ID| !deps@.contains(id), x);
                    lemma_filter_contains(f1, |id: ID| id.peer != peer, x);
                    assert(f2.to_set().insert(last).contains(x) <==> (x == last || f2.contains(x)));
                    assert(old(self).dag.frontiers.set().contains(x) <==> f0.contains(x));
                }
                assert(self.dag.frontiers.set() =~= self.dag.heads(self.dag.vv@));
            }
        }
        Ok(())
    }

    /// A log stays sound when the frontiers of its graph change.
    pub proof fn lemma_wf_frontiers(&self, later: &OpLog)
        requires
            self.wf(),
            later.dag.map == self.dag.map,
            later.dag.vv == self.dag.vv,
            later.dag.frontiers.wf(),
            later.arena == self.arena,
            later.changes == self.changes,
            later.next_lamport == self.next_lamport,
            later.latest_timestamp == self.latest_timestamp,
            later.pending_changes == self.pending_changes,
        ensures
            later.wf(),
    {
        self.dag.lemma_wf_frontiers(&later.dag);
        assert forall|p: PeerID| #[trigger] later.changes@.contains_key(p) implies {
            &&& later.changes@[p].wf()
            &&& changes_chain(later.changes@[p]@, p)
            &&& atoms(later.changes@[p]@) == later.dag.end(p)
        } by {
            assert(later.dag.nodes(p) == self.dag.nodes(p));
        }
        assert forall|p: PeerID, i: int|
            later.changes@.contains_key(p) && 0 <= i < later.changes@[p]@.len() implies later.change_ok(
            #[trigger] later.changes@[p]@[i],
        ) by {
            let c = later.changes@[p]@[i];
            assert(self.change_ok(self.changes@[p]@[i]));
            assert(later.dag.nodes(c.id.peer) == self.dag.nodes(c.id.peer));
            assert(later.dag.node_of(c.id) == self.dag.node_of(c.id));
        }
    }

    pub fn new() -> (r: Self)
        ensures
            r.wf(),
            r.dag.map@ == Map::<PeerID, RleVec<AppDagNode>>::empty(),
            r.dag.vv@ == Map::<PeerID, Counter>::empty(),
            r.dag.frontiers@ == Seq::<ID>::empty(),
            r.changes@ == Map::<PeerID, RleVec<Change<Op>>>::empty(),
            r.next_lamport == 0,
            r.latest_timestamp == 0,
            r.pending_changes.entries@.len() == 0,
            r.arena.containers@.len() == 0 && r.arena.text@.len() == 0 && r.arena.values@.len()
                == 0,
            r.dag.frontiers_current(),
            r.resolved(),
    {
        OpLog {
            dag: AppDag::new(),
            arena: SharedArena::new(),
            changes: HashMap::new(),
            next_lamport: 0,
            latest_timestamp: 0,
            pending_changes: PendingChanges::new(),
        }
    }

    /// An empty log over an arena.
    pub fn new_with_arena(arena: SharedArena) -> (r: Self)
        requires
            arena.wf(),
        ensures
            r.wf(),
            r.arena == arena,
            r.dag.map@ == Map::<PeerID, RleVec<AppDagNode>>::empty(),
            r.dag.vv@ == Map::<PeerID, Counter>::empty(),
            r.dag.frontiers@ == Seq::<ID>::empty(),
            r.changes@ == Map::<PeerID, RleVec<Change<Op>>>::empty(),
            r.next_lamport == 0,
            r.latest_timestamp == 0,
            r.pending_changes.entries@.len() == 0,
            r.dag.frontiers_current(),
            r.resolved(),
    {
        OpLog {
            dag: AppDag::new(),
            arena,
            changes: HashMap::new(),
            next_lamport: 0,
            latest_timestamp: 0,
            pending_changes: PendingChanges::new(),
        }
    }

    /// The change that holds an operation.
    pub open spec fn change_of(&self, id: ID) -> Change<Op> {
        self.peer_changes(id.peer)[index_at(self.peer_changes(id.peer), id.counter as int)]
    }

    /// Where an operation that the log holds lies: in a change of its peer.
    pub proof fn lemma_change_of(&self, id: ID)
        requires
            self.wf(),
            self.has(id),
        ensures
            self.changes@.contains_key(id.peer),
            0 <= index_at(self.peer_changes(id.peer), id.counter as int) < self.peer_changes(
                id.peer,
            ).len(),
            self.change_of(id).wf(),
            self.change_of(id).covers(id),
            self.change_ok(self.change_of(id)),
    {
        let chain = self.peer_changes(id.peer);
        if !self.changes@.contains_key(id.peer) {
            lemma_atoms_empty(Seq::<AppDagNode>::empty());
        }
        assert(self.dag.map@.contains_key(id.peer));
        assert(self.changes@.contains_key(id.peer));
        lemma_index_exists(chain, id.counter as int);
        let i = index_at(chain, id.counter as int);
        assert(within(chain, i, id.counter as int));
        lemma_atoms_step(chain, i);
        assert(chain[i].wf());
        assert(self.change_ok(self.changes@[id.peer]@[i]));
    }

    /// The change that holds an operation, if the log holds the operation:
    /// the position one past the last operation of a peer is no operation.
    pub fn lookup_change(&self, id: ID) -> (r: Option<&Change<Op>>)
        requires
            self.wf(),
        ensures
            r is Some <==> (self.dag.vv.includes(id) && id.counter >= 0),
            r is Some ==> *r->0 == self.change_of(id) && r->0.covers(id),
    {
        assert(self.dag.vv.end(id.peer) == self.dag.end(id.peer));
        match self.changes.get(&id.peer) {
            None => None,
            Some(chain) => {
                let total = chain.atom_len();
                if id.counter >= 0 && (id.counter as usize) < total {
                    proof {
                        self.lemma_change_of(id);
                    }
                    let found = chain.get_by_atom_index(id.counter as usize).unwrap();
                    proof {
                        lemma_index_unique(chain@, found.merged_index as int, id.counter as int);
                    }
                    Some(found.element)
                } else {
                    None
                }
            },
        }
    }

    /// The operation with an id, if the log holds it.
    pub fn lookup_op(&self, id: ID) -> (r: Option<&Op>)
        requires
            self.wf(),
        ensures
            r is Some <==> (self.dag.vv.includes(id) && id.counter >= 0),
            r is Some ==> {
                let c = self.change_of(id);
                let k = index_at(c.ops@, id.counter - c.id.counter);
                &&& 0 <= k < c.ops@.len()
                &&& *r->0 == c.ops@[k]
                &&& r->0.counter <= id.counter < r->0.counter + r->0.rle_len()
            },
    {
        match self.lookup_change(id) {
            None => None,
            Some(change) => {
                proof {
                    assert(self.dag.vv.end(id.peer) == self.dag.end(id.peer));
                    self.lemma_change_of(id);
                }
                let offset = (id.counter - change.id.counter) as usize;
                proof {
                    lemma_index_exists(change.ops@, offset as int);
                    lemma_atoms_full(change.ops@);
                }
                let found = change.ops.get_by_atom_index(offset).unwrap();
                proof {
                    let k = found.merged_index as int;
                    lemma_index_unique(change.ops@, k, offset as int);
                    lemma_atoms_step(change.ops@, k);
                    assert(change.ops@[k].op_counter() == change.id.counter + atoms_before(
                        change.ops@,
                        k,
                    ));
                }
                Some(found.element)
            },
        }
    }

    /// Whether stored item `i` of the changes of a peer is the one that an
    /// atom-index lookup of `counter` finds: the last change for the
    /// position one past the last operation.
    pub open spec fn found_at(&self, peer: PeerID, i: int, counter: int) -> bool {
        self.changes@.contains_key(peer) && self.changes@[peer].holds(i, counter)
    }

    /// A copy of the change that an atom-index lookup of the id finds. The
    /// position one past the last operation of a peer finds its last
    /// change.
    pub fn get_change_at(&self, id: ID) -> (r: Option<Change<Op>>)
        requires
            self.wf(),
        ensures
            r is Some <==> (self.changes@.contains_key(id.peer) && 0 <= id.counter
                <= self.dag.vv.end(id.peer)),
            r is Some ==> exists|i: int|
                self.found_at(id.peer, i, id.counter as int) && (
                #[trigger] self.peer_changes(id.peer)[i]).same_as(&r->0),
    {
        assert(self.dag.vv.end(id.peer) == self.dag.end(id.peer));
        if id.counter < 0 {
            return None;
        }
        match self.changes.get(&id.peer) {
            None => None,
            Some(chain) => match chain.get_by_atom_index(id.counter as usize) {
                None => None,
                Some(found) => {
                    assert(chain@[found.merged_index as int].wf());
                    let c = found.element.clone_change();
                    assert(self.found_at(id.peer, found.merged_index as int, id.counter as int));
                    assert(self.peer_changes(id.peer)[found.merged_index as int].same_as(&c));
                    Some(c)
                },
            },
        }
    }

    /// Copies of the changes of a peer from the one that an atom-index
    /// lookup of the id finds.
    pub fn get_change_since(&self, id: ID) -> (r: Vec<Change<Op>>)
        requires
            self.wf(),
        ensures
            !(self.changes@.contains_key(id.peer) && 0 <= id.counter <= self.dag.vv.end(id.peer))
                ==> r@.len() == 0,
            (self.changes@.contains_key(id.peer) && 0 <= id.counter <= self.dag.vv.end(id.peer))
                ==> exists|i: int|
                self.found_at(id.peer, i, id.counter as int) && r@.len() == self.peer_changes(
                    id.peer,
                ).len() - i && forall|k: int|
                    0 <= k < r@.len() ==> (#[trigger] self.peer_changes(id.peer)[i + k]).same_as(
                        &r@[k],
                    ),
    {
        assert(self.dag.vv.end(id.peer) == self.dag.end(id.peer));
        let mut out: Vec<Change<Op>> = Vec::new();
        if id.counter < 0 {
            return out;
        }
        match self.changes.get(&id.peer) {
            None => {},
            Some(chain) => match chain.get_by_atom_index(id.counter as usize) {
                None => {},
                Some(found) => {
                    let start = found.merged_index;
                    let mut j: usize = start;
                    while j < chain.merged_len()
                        invariant
                            start <= j <= chain@.len(),
                            chain.wf(),
                            out@.len() == j - start,
                            forall|k: int|
                                0 <= k < out@.len() ==> (#[trigger] chain@[start + k]).same_as(
                                    &out@[k],
                                ),
                        decreases chain@.len() - j,
                    {
                        assert(chain@[j as int].wf());
                        let c = chain.get_merged(j).clone_change();
                        out.push(c);
                        j += 1;
                    }
                    assert(self.found_at(id.peer, start as int, id.counter as int));
                },
            },
        }
        out
    }

    /// The latest timestamp among the changes that hold the given
    /// operations, as far as the log holds them; zero where it holds none.
    pub open spec fn timestamp_of(&self, ids: Seq<ID>) -> Timestamp
        decreases ids.len(),
    {
        if ids.len() == 0 {
            0
        } else {
            let rest = self.timestamp_of(ids.drop_last());
            let id = ids.last();
            if self.dag.vv.includes(id) && id.counter >= 0 && rest < self.change_of(id).timestamp {
                self.change_of(id).timestamp
            } else {
                rest
            }
        }
    }

    /// The latest timestamp among the changes that hold the frontiers.
    pub fn get_timestamp_of_version(&self, f: &Frontiers) -> (t: Timestamp)
        requires
            self.wf(),
        ensures
            t == self.timestamp_of(f@),
    {
        let mut t: Timestamp = 0;
        let mut i: usize = 0;
        assert(f@.take(0) =~= Seq::<ID>::empty());
        while i < f.len()
            invariant
                0 <= i <= f@.len(),
                self.wf(),
                t == self.timestamp_of(f@.take(i as int)),
            decreases f@.len() - i,
        {
            proof {
                assert(f@.take(i + 1).drop_last() =~= f@.take(i as int));
            }
            match self.lookup_change(f.get(i)) {
                Some(change) => {
                    if t < change.timestamp {
                        t = change.timestamp;
                    }
                },
                None => {},
            }
            i += 1;
        }
        assert(f@.take(f@.len() as int) =~= f@);
        t
    }

    /// The number of changes that the log stores.
    pub open spec fn spec_len_changes(&self) -> nat {
        sum_over_peers(self.changes@.dom(), |p: PeerID| self.changes@[p]@.len())
    }

    /// The number of changes that the log stores; changes that were merged
    /// count once.
    pub fn len_changes(&self) -> (n: usize)
        requires
            self.spec_len_changes() <= usize::MAX,
        ensures
            n == self.spec_len_changes(),
    {
        let keys = peers_of(&self.changes);
        let ghost f = |p: PeerID| self.changes@[p]@.len();
        let mut n: usize = 0;
        let mut i: usize = 0;
        proof {
            lemma_sum_over_peers(keys@, self.changes@.dom(), f);
        }
        while i < keys.len()
            invariant
                0 <= i <= keys.len(),
                f == (|p: PeerID| self.changes@[p]@.len()),
                forall|p: PeerID| keys@.contains(p) <==> self.changes@.contains_key(p),
                n == sum_over(keys@.take(i as int), f),
                sum_over(keys@, f) <= usize::MAX,
            decreases keys.len() - i,
        {
            let p = keys[i];
            assert(keys@.contains(p));
            proof {
                assert(keys@.take(i + 1).drop_last() =~= keys@.take(i as int));
                lemma_sum_le(keys@, f, f, i + 1);
            }
            let chain = self.changes.get(&p).unwrap();
            n = n + chain.merged_len();
            i += 1;
        }
        assert(keys@.take(keys.len() as int) =~= keys@);
        n
    }

    /// A stored operation in the form in which replicas exchange it.
    pub fn local_op_to_remote(&self, op: &Op) -> (r: RemoteOp)
        requires
            self.arena.holds(op),
        ensures
            r@ == self.arena.resolve(op),
            op.rle_wf() ==> r.rle_wf() && r.rle_len() == op.rle_len(),
    {
        self.arena.local_op_to_remote(op)
    }

    /// Whether the arena holds what the operations of a change point at.
    pub open spec fn resolves(&self, change: &Change<Op>) -> bool {
        forall|j: int| 0 <= j < change.ops@.len() ==> self.arena.settles(#[trigger] &change.ops@[j])
    }

    /// Whether the arena holds what the operations of the log point at.
    pub open spec fn resolved(&self) -> bool {
        forall|p: PeerID, i: int|
            self.changes@.contains_key(p) && 0 <= i < self.changes@[p]@.len() ==> self.resolves(
                #[trigger] &self.changes@[p]@[i],
            )
    }

    /// Whether `remote` is `local` in the form in which replicas exchange
    /// changes: the same ids, clocks and dependencies, and operation for
    /// operation the content that the arena holds.
    pub open spec fn exported(&self, local: &Change<Op>, remote: &Change<RemoteOp>) -> bool {
        &&& remote.id == local.id
        &&& remote.deps@ == local.deps@
        &&& remote.lamport == local.lamport
        &&& remote.timestamp == local.timestamp
        &&& remote.ops@.len() == local.ops@.len()
        &&& forall|j: int|
            0 <= j < local.ops@.len() ==> (#[trigger] remote.ops@[j])@ == self.arena.resolve(
                &local.ops@[j],
            )
        &&& remote.wf()
        &&& remote.spec_len() == local.spec_len()
    }

    /// A change in the form in which replicas exchange changes, its content
    /// taken out of the arena.
    pub fn convert_change_to_remote(&self, change: &Change<Op>) -> (r: Change<RemoteOp>)
        requires
            change.wf(),
            self.resolves(change),
        ensures
            self.exported(change, &r),
    {
        let mut vec: Vec<RemoteOp> = Vec::new();
        let mut ends: Vec<usize> = Vec::new();
        let mut j: usize = 0;
        while j < change.ops.vec.len()
            invariant
                0 <= j <= change.ops@.len(),
                change.wf(),
                self.resolves(change),
                vec@.len() == j,
                ends@.len() == j,
                forall|k: int| 0 <= k < j ==> ends@[k] == change.ops.ends@[k],
                forall|k: int|
                    0 <= k < j ==> (#[trigger] vec@[k])@ == self.arena.resolve(&change.ops@[k])
                        && vec@[k].rle_wf() && vec@[k].rle_len() == change.ops@[k].rle_len(),
            decreases change.ops@.len() - j,
        {
            assert(self.arena.holds(&change.ops@[j as int]));
            assert(change.ops@[j as int].rle_wf());
            let op = self.local_op_to_remote(&change.ops.vec[j]);
            vec.push(op);
            ends.push(change.ops.ends[j]);
            j += 1;
        }
        let ops = RleVec { vec, ends };
        let r = Change {
            ops,
            id: change.id,
            deps: change.deps.clone_frontiers(),
            lamport: change.lamport,
            timestamp: change.timestamp,
        };
        proof {
            assert forall|k: int| 0 <= k <= r.ops@.len() implies atoms_before(r.ops@, k)
                == atoms_before(change.ops@, k) by {
                assert forall|i: int| 0 <= i < k implies (#[trigger] r.ops@[i]).rle_len()
                    == change.ops@[i].rle_len() by {}
                lemma_same_lens_across(r.ops@, change.ops@, k);
            }
            assert forall|k: int| 0 <= k < r.ops.ends@.len() implies #[trigger] r.ops.ends@[k]
                == atoms_before(r.ops@, k + 1) by {
                assert(change.ops.ends@[k] == atoms_before(change.ops@, k + 1));
            }
            lemma_atoms_full(r.ops@);
            lemma_atoms_full(change.ops@);
            assert forall|i: int| 0 <= i < r.ops@.len() implies (#[trigger] r.ops@[i]).op_counter()
                == r.id.counter + atoms_before(r.ops@, i) by {
                assert(change.ops@[i].op_counter() == change.id.counter + atoms_before(
                    change.ops@,
                    i,
                ));
                assert(r.ops@[i]@ == self.arena.resolve(&change.ops@[i]));
            }
        }
        r
    }

    /// Whether `batch` is what the log holds beyond the version `from`:
    /// for every peer of which the log holds more than `from`, the changes
    /// of the peer from the one that holds the first operation that `from`
    /// lacks, in the form in which replicas exchange them.
    pub open spec fn is_export(
        &self,
        from: Map<PeerID, Counter>,
        batch: Map<PeerID, Vec<Change<RemoteOp>>>,
    ) -> bool {
        &&& forall|p: PeerID|
            batch.contains_key(p) <==> self.dag.vv.end(p) > crate::version::end_of(from, p)
        &&& forall|p: PeerID| #[trigger]
            batch.contains_key(p) ==> {
                let chain = self.peer_changes(p);
                let i = index_at(chain, crate::version::end_of(from, p));
                &&& 0 <= i < chain.len()
                &&& batch[p]@.len() == chain.len() - i
                &&& forall|k: int|
                    0 <= k < batch[p]@.len() ==> self.exported(
                        &chain[i + k],
                        #[trigger] &batch[p]@[k],
                    )
            }
    }

    /// What the log holds beyond the version `from`.
    pub fn export_changes_from(&self, from: &VersionVector) -> (r: RemoteClientChanges)
        requires
            self.wf(),
            self.resolved(),
            forall|p: PeerID| from.end(p) >= 0,
        ensures
            self.is_export(from@, r@),
    {
        let mut out: RemoteClientChanges = HashMap::new();
        let keys = peers_of(&self.dag.vv.ends);
        let mut n: usize = 0;
        while n < keys.len()
            invariant
                0 <= n <= keys.len(),
                self.wf(),
                self.resolved(),
                forall|p: PeerID| from.end(p) >= 0,
                keys@.no_duplicates(),
                forall|p: PeerID| keys@.contains(p) <==> self.dag.vv@.contains_key(p),
                forall|p: PeerID|
                    out@.contains_key(p) <==> (keys@.take(n as int).contains(p)
                        && self.dag.vv.end(p) > from.end(p)),
                forall|p: PeerID| #[trigger]
                    out@.contains_key(p) ==> {
                        let chain = self.peer_changes(p);
                        let i = index_at(chain, from.end(p));
                        &&& 0 <= i < chain.len()
                        &&& out@[p]@.len() == chain.len() - i
                        &&& forall|k: int|
                            0 <= k < out@[p]@.len() ==> self.exported(
                                &chain[i + k],
                                #[trigger] &out@[p]@[k],
                            )
                    },
            decreases keys.len() - n,
        {
            let peer = keys[n];
            assert(keys@.contains(peer));
            proof {
                lemma_take_push_contains(keys@, n as int);
            }
            let end = self.dag.vv.get_end(peer);
            let start = from.get_end(peer);
            if end > start {
                assert(self.dag.vv.end(peer) == self.dag.end(peer));
                let probe = ID { peer, counter: start };
                proof {
                    self.lemma_change_of(probe);
                }
                let chain = self.changes.get(&peer).unwrap();
                let found = chain.get_by_atom_index(start as usize).unwrap();
                let first = found.merged_index;
                proof {
                    lemma_index_unique(chain@, first as int, start as int);
                }
                let mut temp: Vec<Change<RemoteOp>> = Vec::new();
                let mut j: usize = first;
                while j < chain.merged_len()
                    invariant
                        first <= j <= chain@.len(),
                        self.wf(),
                        self.resolved(),
                        self.changes@.contains_key(peer),
                        *chain == self.changes@[peer],
                        temp@.len() == j - first,
                        forall|k: int|
                            0 <= k < temp@.len() ==> self.exported(
                                &chain@[first + k],
                                #[trigger] &temp@[k],
                            ),
                    decreases chain@.len() - j,
                {
                    assert(chain@[j as int].wf());
                    assert(self.resolves(&self.changes@[peer]@[j as int]));
                    let c = self.convert_change_to_remote(chain.get_merged(j));
                    temp.push(c);
                    j += 1;
                }
                out.insert(peer, temp);
            }
            n += 1;
        }
        proof {
            assert(keys@.take(keys.len() as int) =~= keys@);
            assert forall|p: PeerID| out@.contains_key(p) <==> self.dag.vv.end(p) > from.end(
                p,
            ) by {
                if self.dag.vv.end(p) > from.end(p) {
                    assert(self.dag.vv@.contains_key(p));
                }
            }
        }
        out
    }

    pub fn latest_timestamp(&self) -> (t: Timestamp)
        ensures
            t == self.latest_timestamp,
    {
        self.latest_timestamp
    }

    pub fn next_lamport(&self) -> (l: Lamport)
        ensures
            l == self.next_lamport,
    {
        self.next_lamport
    }

    /// The id of the next operation of a peer.
    pub fn next_id(&self, peer: PeerID) -> (id: ID)
        ensures
            id.peer == peer,
            id.counter == self.dag.vv.end(peer),
    {
        ID { peer, counter: self.dag.vv.get_end(peer) }
    }

    /// Whether the log holds no change and its arena nothing.
    pub fn is_empty(&self) -> (b: bool)
        requires
            self.wf(),
        ensures
            b == (self.dag.map@.len() == 0 && self.arena.containers@.len() == 0
                && self.arena.text@.len() == 0 && self.arena.values@.len() == 0),
    {
        self.dag.map.len() == 0 && self.arena.is_empty()
    }

    pub fn get_peer_changes(&self, peer: PeerID) -> (r: Option<&RleVec<Change<Op>>>)
        ensures
            match r {
                Some(v) => self.changes@.contains_key(peer) && *v == self.changes@[peer],
                None => !self.changes@.contains_key(peer),
            },
    {
        self.changes.get(&peer)
    }

    /// The version that the log covers.
    pub fn vv(&self) -> (r: &VersionVector)
        ensures
            *r == self.dag.vv,
    {
        &self.dag.vv
    }

    /// The heads of the version that the log covers.
    pub fn frontiers(&self) -> (r: &Frontiers)
        ensures
            *r == self.dag.frontiers,
    {
        &self.dag.frontiers
    }

    /// How the version of the log stands to the frontiers: equal where
    /// they are the log's own; greater where the log holds them all; less
    /// in every other case, which takes in versions that neither hold the
    /// other.
    pub fn cmp_frontiers(&self, other: &Frontiers) -> (r: Ordering)
        ensures
            r == Ordering::Equal <==> self.dag.frontiers.set() == other.set(),
            r == Ordering::Greater <==> (self.dag.frontiers.set() != other.set() && forall|i: int|
                0 <= i < other@.len() ==> self.dag.vv.includes(#[trigger] other@[i])),
    {
        self.dag.cmp_frontiers(other)
    }
}

} // verus!
