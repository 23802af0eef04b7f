//! The causal graph of a log: which operations happened before which.
use std::cmp::Ordering;
use std::collections::HashMap;
use vstd::prelude::*;

use crate::id::{Counter, CounterSpan, Lamport, PeerID, ID};
use crate::order::{
    in_replay_order, lemma_same_items, lemma_same_items_pairwise, sort_for_replay, ReplayKey,
    Replayed,
};
use crate::rle::{
    all_wf, atoms, atoms_before, index_at, lemma_atoms_empty, lemma_atoms_full,
    lemma_atoms_monotone, lemma_atoms_push, lemma_atoms_step, lemma_index_exists,
    lemma_index_unique, lemma_prefix_lens, Rle, RleVec, Sliceable,
};
use crate::shared_vv::ImVersionVector;
use crate::version::{
    end_of, lemma_take_push_contains, merged, met, peers_of, Frontiers, IdSpanVector,
    VersionVector,
};

verus! {

broadcast use vstd::std_specs::hash::group_hash_axioms;

/// A run of operations of one peer in the causal graph. Only the first
/// operation has dependencies of its own; each later one depends on the
/// one before it.
#[derive(Debug)]
pub struct AppDagNode {
    pub peer: PeerID,
    /// The counter of the first operation.
    pub cnt: Counter,
    /// The Lamport clock of the first operation.
    pub lamport: Lamport,
    /// What the first operation depends on.
    pub deps: Frontiers,
    /// The version just before the first operation.
    pub vv: ImVersionVector,
    pub len: usize,
}

impl AppDagNode {
    pub open spec fn wf(&self) -> bool {
        &&& self.len >= 1
        &&& 0 <= self.cnt
        &&& self.cnt + self.len <= i32::MAX
        &&& self.lamport + self.len <= u32::MAX
        &&& self.deps.wf()
    }

    /// The exclusive end of the node's counters.
    pub open spec fn spec_ctr_end(&self) -> int {
        self.cnt + self.len
    }

    /// The exclusive end of the node's Lamport clocks.
    pub open spec fn spec_lamport_end(&self) -> int {
        self.lamport + self.len
    }

    /// The exclusive end of the counters of the node.
    pub fn ctr_end(&self) -> (r: Counter)
        requires
            self.wf(),
        ensures
            r == self.spec_ctr_end(),
    {
        (self.cnt as i64 + self.len as i64) as i32
    }

    /// The exclusive end of the Lamport clocks of the node.
    pub fn lamport_end(&self) -> (r: Lamport)
        requires
            self.wf(),
        ensures
            r == self.spec_lamport_end(),
    {
        (self.lamport as u64 + self.len as u64) as u32
    }

    /// The id of the node's last operation.
    pub fn id_last(&self) -> (r: ID)
        requires
            self.wf(),
        ensures
            r.peer == self.peer,
            r.counter == self.spec_ctr_end() - 1,
    {
        ID { peer: self.peer, counter: (self.cnt as i64 + self.len as i64 - 1) as i32 }
    }
}

impl Rle for AppDagNode {
    open spec fn rle_wf(&self) -> bool {
        self.wf()
    }

    open spec fn rle_len(&self) -> nat {
        self.len as nat
    }

    /// A node continues another when it is of the same peer, its counters
    /// and Lamport clocks follow on, and it depends on the last operation
    /// of the other and on nothing else.
    open spec fn can_merge(&self, next: &Self) -> bool {
        &&& self.peer == next.peer
        &&& self.cnt + self.len == next.cnt
        &&& self.lamport + self.len == next.lamport
        &&& next.deps@ == seq![ID { peer: self.peer, counter: (next.cnt - 1) as Counter }]
    }

    /// The merged node is the first one, longer by the length of the next.
    open spec fn is_merge_of(&self, next: &Self, merged: &Self) -> bool {
        &&& merged.peer == self.peer
        &&& merged.cnt == self.cnt
        &&& merged.lamport == self.lamport
        &&& merged.deps == self.deps
        &&& merged.vv == self.vv
        &&& merged.len == self.len + next.len
    }

    proof fn lemma_len_positive(&self) {
    }

    proof fn lemma_merge(&self, next: &Self, merged: &Self) {
    }

    fn is_valid(&self) -> (b: bool) {
        self.len >= 1 && self.cnt >= 0 && self.len <= (i32::MAX - self.cnt) as usize && self.len
            <= (u32::MAX - self.lamport) as usize && self.deps.has_no_duplicates()
    }

    fn atom_len(&self) -> (n: usize) {
        self.len
    }

    fn is_mergable(&self, next: &Self) -> (b: bool) {
        if self.peer != next.peer || self.ctr_end() != next.cnt || self.lamport_end()
            != next.lamport || next.deps.len() != 1 {
            return false;
        }
        let d = next.deps.get(0);
        let b = d.peer == self.peer && d.counter == next.cnt - 1;
        proof {
            if b {
                assert(next.deps@ =~= seq![d]);
            } else {
                assert(next.deps@[0] == d);
            }
        }
        b
    }

    fn merge(&mut self, next: &Self) {
        self.len = self.len + next.len;
    }
}

impl Sliceable for AppDagNode {
    open spec fn can_slice(&self, from: int, to: int) -> bool {
        true
    }

    /// A piece that starts within the node depends on the operation before
    /// it, and its version is that of the node raised up to the piece.
    open spec fn is_slice_of(&self, from: int, to: int, piece: &Self) -> bool {
        &&& piece.peer == self.peer
        &&& piece.cnt == self.cnt + from
        &&& piece.lamport == self.lamport + from
        &&& piece.len == to - from
        &&& piece.vv@ == if from == 0 {
            self.vv@
        } else {
            raise(self.vv@, self.peer, (self.cnt + from) as Counter)
        }
        &&& piece.deps@ == if from == 0 {
            self.deps@
        } else {
            seq![ID { peer: self.peer, counter: (self.cnt + from - 1) as Counter }]
        }
    }

    fn slice(&self, from: usize, to: usize) -> (piece: Self) {
        let mut vv = self.vv.clone_im();
        let deps = if from == 0 {
            self.deps.clone_frontiers()
        } else {
            let prev = ID { peer: self.peer, counter: (self.cnt as i64 + from as i64 - 1) as i32 };
            vv.extend_to_include_last_id(prev);
            Frontiers::from_id(prev)
        };
        AppDagNode {
            peer: self.peer,
            cnt: (self.cnt as i64 + from as i64) as i32,
            lamport: (self.lamport as u64 + from as u64) as u32,
            deps,
            vv,
            len: to - from,
        }
    }
}

impl Replayed for AppDagNode {
    open spec fn spec_key(&self) -> ReplayKey {
        ReplayKey { lamport: self.lamport, peer: self.peer, counter: self.cnt }
    }

    fn key(&self) -> (k: ReplayKey) {
        ReplayKey { lamport: self.lamport, peer: self.peer, counter: self.cnt }
    }
}

/// A version raised so that it covers `peer` up to `end`.
pub open spec fn raise(m: Map<PeerID, Counter>, peer: PeerID, end: Counter) -> Map<
    PeerID,
    Counter,
> {
    if m.contains_key(peer) && end <= m[peer] {
        m
    } else {
        m.insert(peer, end)
    }
}

/// Whether version `a` covers no more than version `b`.
pub open spec fn le_map(a: Map<PeerID, Counter>, b: Map<PeerID, Counter>) -> bool {
    forall|p: PeerID| #[trigger] end_of(a, p) <= end_of(b, p)
}

/// Whether a version holds an operation of the peer.
pub open spec fn in_reach(v: Map<PeerID, Counter>, q: PeerID) -> bool {
    v.contains_key(q)
}

/// The nodes of one peer: they are of that peer, and their counters follow
/// one another from zero.
pub open spec fn chain_ok(nodes: Seq<AppDagNode>, peer: PeerID) -> bool {
    &&& nodes.len() > 0
    &&& all_wf(nodes)
    &&& forall|i: int|
        0 <= i < nodes.len() ==> (#[trigger] nodes[i]).peer == peer && nodes[i].cnt
            == atoms_before(nodes, i)
    &&& forall|i: int, j: int|
        0 <= i < j < nodes.len() ==> (#[trigger] nodes[i]).spec_lamport_end() <= (
        #[trigger] nodes[j]).lamport
}

/// Whether two nodes differ in length at most.
pub open spec fn same_head(a: AppDagNode, b: AppDagNode) -> bool {
    &&& a.peer == b.peer
    &&& a.cnt == b.cnt
    &&& a.lamport == b.lamport
    &&& a.deps@ == b.deps@
    &&& a.vv@ == b.vv@
}

/// Whether two nodes are the same run with the same dependencies and the
/// same version.
pub open spec fn same_node(a: AppDagNode, b: AppDagNode) -> bool {
    same_head(a, b) && a.len == b.len
}

/// Whether two chains hold the same nodes.
pub open spec fn same_nodes(a: Seq<AppDagNode>, b: Seq<AppDagNode>) -> bool {
    &&& a.len() == b.len()
    &&& forall|i: int| 0 <= i < a.len() ==> same_node(#[trigger] a[i], b[i])
}

/// Whether two stored chains hold the same nodes, with the same running
/// totals.
pub open spec fn same_chain(a: RleVec<AppDagNode>, b: RleVec<AppDagNode>) -> bool {
    same_nodes(a@, b@) && a.ends@ == b.ends@
}

/// A stored chain that holds the same nodes as a sound one is sound.
pub proof fn lemma_same_chain_ok(a: RleVec<AppDagNode>, b: RleVec<AppDagNode>, p: PeerID)
    requires
        a.wf(),
        chain_ok(a@, p),
        same_chain(a, b),
    ensures
        b.wf(),
        chain_ok(b@, p),
        chain_extends(a@, b@),
        atoms(b@) == atoms(a@),
        forall|k: int| 0 <= k <= a@.len() ==> atoms_before(b@, k) == atoms_before(a@, k),
{
    assert forall|k: int| 0 <= k <= a@.len() implies atoms_before(b@, k) == atoms_before(
        a@,
        k,
    ) by {
        assert forall|i: int| 0 <= i < k implies (#[trigger] a@[i]).rle_len() == b@[i].rle_len() by {
            assert(same_node(a@[i], b@[i]));
        }
        lemma_prefix_lens(a@, b@, k);
    }
    lemma_atoms_full(a@);
    lemma_atoms_full(b@);
    assert forall|k: int| 0 <= k < b@.len() implies (#[trigger] b@[k]).rle_wf() by {
        assert(same_node(a@[k], b@[k]));
        assert(a@[k].rle_wf());
    }
    assert forall|i: int| 0 <= i < b@.len() implies (#[trigger] b@[i]).peer == p && b@[i].cnt
        == atoms_before(b@, i) by {
        assert(same_node(a@[i], b@[i]));
    }
    assert forall|i: int, j: int| 0 <= i < j < b@.len() implies (#[trigger] b@[i]).spec_lamport_end()
        <= (#[trigger] b@[j]).lamport by {
        assert(same_node(a@[i], b@[i]));
        assert(same_node(a@[j], b@[j]));
        assert(a@[i].spec_lamport_end() <= a@[j].lamport);
    }
    assert forall|i: int| 0 <= i < b.ends@.len() implies #[trigger] b.ends@[i] == atoms_before(
        b@,
        i + 1,
    ) by {
        assert(a.ends@[i] == atoms_before(a@, i + 1));
    }
    assert forall|i: int| 0 <= i < a@.len() implies same_head(#[trigger] a@[i], b@[i]) by {
        assert(same_node(a@[i], b@[i]));
    }
    assert forall|i: int| 0 <= i < a@.len() - 1 implies (#[trigger] a@[i]).len == b@[i].len by {
        assert(same_node(a@[i], b@[i]));
    }
    if a@.len() > 0 {
        assert(same_node(a@[a@.len() - 1], b@[a@.len() - 1]));
    }
}

/// Whether the chain `b` is the chain `a` grown at its end: the last node
/// of `a` may be longer in `b`, and nodes may follow it.
pub open spec fn chain_extends(a: Seq<AppDagNode>, b: Seq<AppDagNode>) -> bool {
    &&& a.len() <= b.len()
    &&& forall|i: int| 0 <= i < a.len() ==> same_head(#[trigger] a[i], b[i])
    &&& forall|i: int| 0 <= i < a.len() - 1 ==> (#[trigger] a[i]).len == b[i].len
    &&& a.len() > 0 ==> a[a.len() - 1].len <= b[a.len() - 1].len
}

/// In a grown chain every operation of the chain lies where it lay.
pub proof fn lemma_chain_extends(a: Seq<AppDagNode>, b: Seq<AppDagNode>, c: int)
    requires
        chain_extends(a, b),
        all_wf(a),
        all_wf(b),
        0 <= c < atoms(a),
    ensures
        0 <= c < atoms(b),
        index_at(b, c) == index_at(a, c),
        0 <= index_at(a, c) < a.len(),
{
    lemma_index_exists(a, c);
    let i = index_at(a, c);
    assert forall|k: int| 0 <= k < i implies (#[trigger] a[k]).rle_len() == b[k].rle_len() by {
        assert(a[k].len == b[k].len);
    }
    lemma_prefix_lens(a, b, i);
    lemma_atoms_step(a, i);
    lemma_atoms_step(b, i);
    assert(same_head(a[i], b[i]));
    assert(a[i].len <= b[i].len) by {
        if i < a.len() - 1 {
            assert(a[i].len == b[i].len);
        }
    }
    lemma_index_unique(b, i, c);
    lemma_atoms_monotone(b, i + 1, b.len() as int);
    lemma_atoms_full(b);
}

/// The causal graph: for each peer its nodes, with the version that the
/// graph covers and the heads of that version.
#[derive(Debug)]
pub struct AppDag {
    pub map: HashMap<PeerID, RleVec<AppDagNode>>,
    pub frontiers: Frontiers,
    pub vv: VersionVector,
}

impl Default for AppDag {
    fn default() -> (r: Self)
        ensures
            r.wf(),
            r.map@ == Map::<PeerID, RleVec<AppDagNode>>::empty(),
            r.vv@ == Map::<PeerID, Counter>::empty(),
            r.frontiers@ == Seq::<ID>::empty(),
            r.frontiers.set() == r.heads(r.vv@),
    {
        AppDag::new()
    }
}

impl AppDag {
    /// The nodes of a peer; none for a peer that the graph does not know.
    pub open spec fn nodes(&self, peer: PeerID) -> Seq<AppDagNode> {
        if self.map@.contains_key(peer) {
            self.map@[peer]@
        } else {
            Seq::empty()
        }
    }

    /// The number of operations of a peer in the graph.
    pub open spec fn end(&self, peer: PeerID) -> nat {
        atoms(self.nodes(peer))
    }

    /// Whether the graph holds the operation.
    pub open spec fn has(&self, id: ID) -> bool {
        0 <= id.counter < self.end(id.peer)
    }

    /// The node that holds an operation.
    pub open spec fn node_of(&self, id: ID) -> AppDagNode {
        self.nodes(id.peer)[index_at(self.nodes(id.peer), id.counter as int)]
    }

    /// The Lamport clock of an operation.
    pub open spec fn lamport_of(&self, id: ID) -> int {
        self.node_of(id).lamport + (id.counter - self.node_of(id).cnt)
    }

    /// What the run that starts at an operation depends on: where the
    /// operation starts its node, what the node depends on; else the
    /// operation just before it.
    pub open spec fn deps_at(&self, id: ID) -> Seq<ID> {
        if id.counter == self.node_of(id).cnt {
            self.node_of(id).deps@
        } else {
            seq![ID { peer: id.peer, counter: (id.counter - 1) as Counter }]
        }
    }

    /// The version made of an operation and everything before it.
    pub open spec fn version_at(&self, id: ID) -> Map<PeerID, Counter> {
        raise(self.node_of(id).vv@, id.peer, (id.counter + 1) as Counter)
    }

    /// The version made of some operations and everything before them.
    pub open spec fn version_of(&self, ids: Seq<ID>) -> Map<PeerID, Counter>
        decreases ids.len(),
    {
        if ids.len() == 0 {
            Map::empty()
        } else {
            merged(self.version_of(ids.drop_last()), self.version_at(ids.last()))
        }
    }

    /// The Lamport clock of an operation made on top of `ids`: one more
    /// than the largest clock among them; zero on top of nothing.
    pub open spec fn next_lamport_of(&self, ids: Seq<ID>) -> int
        decreases ids.len(),
    {
        if ids.len() == 0 {
            0
        } else {
            let rest = self.next_lamport_of(ids.drop_last());
            let this = self.lamport_of(ids.last()) + 1;
            if rest < this {
                this
            } else {
                rest
            }
        }
    }

    /// Whether the graph holds each of the operations.
    pub open spec fn has_all(&self, ids: Seq<ID>) -> bool {
        forall|i: int| 0 <= i < ids.len() ==> self.has(#[trigger] ids[i])
    }

    /// The last operation of `peer` in a version that covers it up to `end`.
    pub open spec fn top(peer: PeerID, end: Counter) -> ID {
        ID { peer, counter: (end - 1) as Counter }
    }

    /// What holds of a version `v` taken just before an operation with
    /// Lamport clock `lamport`: it reaches only operations that the graph
    /// holds; their clocks are smaller; and it holds all that comes before
    /// the operations that it holds.
    pub open spec fn reach_ok(&self, v: Map<PeerID, Counter>, lamport: int) -> bool {
        forall|q: PeerID| #[trigger]
            in_reach(v, q) ==> {
                &&& 0 < v[q] <= self.end(q)
                &&& self.lamport_of(Self::top(q, v[q])) < lamport
                &&& le_map(self.version_at(Self::top(q, v[q])), v)
            }
    }

    /// What holds of each node: its version is sound and covers the peer of
    /// the node up to the node; and the node's dependencies are in its
    /// version and have smaller Lamport clocks.
    pub open spec fn node_ok(&self, n: AppDagNode) -> bool {
        &&& self.reach_ok(n.vv@, n.lamport as int)
        &&& end_of(n.vv@, n.peer) == n.cnt
        &&& forall|i: int|
            0 <= i < n.deps@.len() ==> self.has(#[trigger] n.deps@[i]) && n.vv.includes(n.deps@[i])
                && self.lamport_of(n.deps@[i]) < n.lamport
    }

    /// The nodes of each peer form a chain, and each node is sound.
    pub open spec fn nodes_wf(&self) -> bool {
        &&& forall|p: PeerID| #[trigger]
            self.map@.contains_key(p) ==> self.map@[p].wf() && chain_ok(self.map@[p]@, p)
        &&& forall|p: PeerID, i: int|
            self.map@.contains_key(p) && 0 <= i < self.map@[p]@.len() ==> self.node_ok(
                #[trigger] self.map@[p]@[i],
            )
    }

    /// The graph is sound, and its version covers exactly its nodes.
    pub open spec fn wf(&self) -> bool {
        &&& self.nodes_wf()
        &&& self.frontiers.wf()
        &&& forall|p: PeerID| self.vv@.contains_key(p) <==> self.map@.contains_key(p)
        &&& forall|p: PeerID| #[trigger] self.vv.end(p) == self.end(p)
    }

    /// Where an operation lies: in a node of its peer, at its place.
    pub proof fn lemma_node_of(&self, id: ID)
        requires
            self.nodes_wf(),
            self.has(id),
        ensures
            self.map@.contains_key(id.peer),
            0 <= index_at(self.nodes(id.peer), id.counter as int) < self.nodes(id.peer).len(),
            self.node_of(id).wf(),
            self.node_of(id).peer == id.peer,
            self.node_of(id).cnt <= id.counter < self.node_of(id).spec_ctr_end(),
            self.node_ok(self.node_of(id)),
            self.lamport_of(id) < self.node_of(id).spec_lamport_end(),
            self.node_of(id).lamport <= self.lamport_of(id),
    {
        let nodes = self.nodes(id.peer);
        if !self.map@.contains_key(id.peer) {
            lemma_atoms_empty(Seq::<AppDagNode>::empty());
        }
        lemma_index_exists(nodes, id.counter as int);
        let i = index_at(nodes, id.counter as int);
        lemma_atoms_step(nodes, i);
        assert(nodes[i].peer == id.peer);
        assert(self.node_ok(self.map@[id.peer]@[i]));
    }

    /// An operation that lies in a node is held by the graph, and the node
    /// is its node.
    pub proof fn lemma_in_node(&self, p: PeerID, i: int, c: int)
        requires
            self.nodes_wf(),
            self.map@.contains_key(p),
            0 <= i < self.map@[p]@.len(),
            self.map@[p]@[i].cnt <= c < self.map@[p]@[i].spec_ctr_end(),
        ensures
            0 <= c < self.end(p),
            index_at(self.nodes(p), c) == i,
    {
        let nodes = self.nodes(p);
        lemma_atoms_step(nodes, i);
        lemma_atoms_monotone(nodes, i + 1, nodes.len() as int);
        lemma_atoms_full(nodes);
        lemma_index_unique(nodes, i, c);
    }

    /// Whether a run of `len` operations that starts at `id`, with the
    /// given Lamport clock and dependencies, can follow what the graph
    /// holds: it starts where the operations of its peer end, the graph
    /// holds its dependencies, its clock is the one that follows from them,
    /// and it comes after the operations that its peer made before.
    pub open spec fn admits(&self, id: ID, lamport: Lamport, deps: Seq<ID>, len: nat) -> bool {
        &&& len >= 1
        &&& id.counter == self.end(id.peer)
        &&& id.counter + len <= i32::MAX
        &&& lamport + len <= u32::MAX
        &&& deps.no_duplicates()
        &&& self.has_all(deps)
        &&& lamport == self.next_lamport_of(deps)
        &&& id.counter > 0 ==> end_of(self.version_of(deps), id.peer) == id.counter
    }

    /// Whether `later` is this graph after a run of `len` operations that
    /// starts at `id` was added to it: the chain of the peer has grown by
    /// the run, which lies in its last node; that node is the one that was
    /// the last before, where the run depends on an operation of its own
    /// peer and on nothing else, and a new one with the version of the
    /// dependencies in every other case.
    pub open spec fn appended(
        &self,
        id: ID,
        lamport: Lamport,
        deps: Seq<ID>,
        len: nat,
        later: &AppDag,
    ) -> bool {
        &&& later.wf()
        &&& later.vv@ == self.vv@.insert(id.peer, (id.counter + len) as Counter)
        &&& self.grows_to(later, id.peer)
        &&& later.end(id.peer) == id.counter + len
        &&& later.has(id)
        &&& later.lamport_of(id) == lamport
        &&& later.node_of(id).spec_ctr_end() == id.counter + len
        &&& later.node_of(id) == later.nodes(id.peer).last()
        &&& Self::self_dep(id, deps) ==> {
            &&& later.nodes(id.peer).len() == self.nodes(id.peer).len()
            &&& later.nodes(id.peer).last().len == self.nodes(id.peer).last().len + len
        }
        &&& !Self::self_dep(id, deps) ==> {
            &&& later.nodes(id.peer).len() == self.nodes(id.peer).len() + 1
            &&& later.nodes(id.peer).last().cnt == id.counter
            &&& later.nodes(id.peer).last().len == len
            &&& later.nodes(id.peer).last().lamport == lamport
            &&& later.nodes(id.peer).last().deps@ == deps
            &&& later.nodes(id.peer).last().vv@ == self.version_of(deps)
        }
    }

    /// A graph stays what it is to a graph that it has grown from when its
    /// frontiers change.
    pub proof fn lemma_appended_frontiers(
        &self,
        id: ID,
        lamport: Lamport,
        deps: Seq<ID>,
        len: nat,
        mid: &AppDag,
        later: &AppDag,
    )
        requires
            self.appended(id, lamport, deps, len, mid),
            later.map == mid.map,
            later.vv == mid.vv,
            later.frontiers.wf(),
        ensures
            self.appended(id, lamport, deps, len, later),
    {
        mid.lemma_wf_frontiers(later);
        assert(later.nodes(id.peer) == mid.nodes(id.peer));
        assert(later.end(id.peer) == mid.end(id.peer));
        assert(later.node_of(id) == mid.node_of(id));
        assert(later.lamport_of(id) == mid.lamport_of(id));
    }

    /// A graph stays sound when its frontiers change.
    pub proof fn lemma_wf_frontiers(&self, later: &AppDag)
        requires
            self.wf(),
            later.map == self.map,
            later.vv == self.vv,
            later.frontiers.wf(),
        ensures
            later.wf(),
    {
        self.lemma_same_nodes(later);
        assert forall|p: PeerID| #[trigger] later.vv.end(p) == later.end(p) by {
            assert(self.vv.end(p) == self.end(p));
            assert(later.nodes(p) == self.nodes(p));
        }
    }

    /// Graphs with the same nodes have the same heads.
    pub proof fn lemma_same_heads(&self, later: &AppDag, v: Map<PeerID, Counter>)
        requires
            later.map == self.map,
        ensures
            later.heads(v) == self.heads(v),
    {
        assert forall|p: PeerID| later.is_head(v, p) <==> self.is_head(v, p) by {
            assert forall|q: PeerID| #[trigger] in_reach(v, q) implies later.node_of(
                Self::top(q, v[q]),
            ) == self.node_of(Self::top(q, v[q])) by {
                assert(later.nodes(q) == self.nodes(q));
            }
            if later.is_head(v, p) {
                assert forall|q: PeerID| #[trigger] in_reach(v, q) && q != p && v[q] > 0 implies end_of(
                    self.node_of(Self::top(q, v[q])).vv@,
                    p,
                ) < end_of(v, p) by {}
            }
            if self.is_head(v, p) {
                assert forall|q: PeerID| #[trigger] in_reach(v, q) && q != p && v[q] > 0 implies end_of(
                    later.node_of(Self::top(q, v[q])).vv@,
                    p,
                ) < end_of(v, p) by {}
            }
        }
        assert(later.heads(v) =~= self.heads(v));
    }

    /// The nodes of a graph are sound whatever its version and its
    /// frontiers are.
    pub proof fn lemma_same_nodes(&self, later: &AppDag)
        requires
            self.nodes_wf(),
            later.map == self.map,
        ensures
            later.nodes_wf(),
            forall|p: PeerID| later.end(p) == self.end(p),
    {
        assert forall|p: PeerID| later.end(p) == self.end(p) by {
            assert(later.nodes(p) == self.nodes(p));
        }
        assert forall|p: PeerID, i: int|
            later.map@.contains_key(p) && 0 <= i < later.map@[p]@.len() implies later.node_ok(
            #[trigger] later.map@[p]@[i],
        ) by {
            let n = later.map@[p]@[i];
            assert(self.node_ok(self.map@[p]@[i]));
            assert forall|q: PeerID| #[trigger] in_reach(n.vv@, q) implies {
                &&& 0 < n.vv@[q] <= later.end(q)
                &&& later.lamport_of(Self::top(q, n.vv@[q])) < n.lamport
                &&& le_map(later.version_at(Self::top(q, n.vv@[q])), n.vv@)
            } by {
                let t = Self::top(q, n.vv@[q]);
                assert(later.end(q) == self.end(q));
                assert(later.nodes(q) == self.nodes(q));
                assert(later.node_of(t) == self.node_of(t));
                assert(later.lamport_of(t) == self.lamport_of(t));
                assert(later.version_at(t) == self.version_at(t));
            }
            assert forall|k: int| 0 <= k < n.deps@.len() implies later.has(#[trigger] n.deps@[k])
                && n.vv.includes(n.deps@[k]) && later.lamport_of(n.deps@[k]) < n.lamport by {
                let d = n.deps@[k];
                assert(later.nodes(d.peer) == self.nodes(d.peer));
                assert(later.node_of(d) == self.node_of(d));
            }
        }
    }

    /// Whether `later` is this graph with the chain of `peer` grown at its
    /// end, and nothing else changed.
    pub open spec fn grows_to(&self, later: &AppDag, peer: PeerID) -> bool {
        &&& later.map@.contains_key(peer)
        &&& forall|q: PeerID|
            q != peer ==> (#[trigger] later.map@.contains_key(q)) == self.map@.contains_key(q)
        &&& forall|q: PeerID|
            q != peer && self.map@.contains_key(q) ==> same_chain(
                self.map@[q],
                #[trigger] later.map@[q],
            )
        &&& chain_extends(self.nodes(peer), later.nodes(peer))
        &&& all_wf(later.nodes(peer))
    }

    /// In a graph that has grown by operations of one peer, the chains of
    /// the other peers are as they were.
    pub proof fn lemma_grows_others(&self, later: &AppDag, peer: PeerID, q: PeerID)
        requires
            self.nodes_wf(),
            self.grows_to(later, peer),
            q != peer,
        ensures
            chain_extends(self.nodes(q), later.nodes(q)),
            all_wf(later.nodes(q)),
            later.end(q) == self.end(q),
            self.map@.contains_key(q) ==> later.map@.contains_key(q) && later.map@[q].wf()
                && chain_ok(later.map@[q]@, q) && same_chain(self.map@[q], later.map@[q]),
    {
        if self.map@.contains_key(q) {
            assert(later.map@.contains_key(q));
            assert(same_chain(self.map@[q], later.map@[q]));
            lemma_same_chain_ok(self.map@[q], later.map@[q], q);
        } else {
            assert(!later.map@.contains_key(q));
        }
    }

    /// What a graph holds, a grown graph holds at the same place.
    pub proof fn lemma_grows_keeps(&self, later: &AppDag, peer: PeerID, id: ID)
        requires
            self.nodes_wf(),
            self.grows_to(later, peer),
            self.has(id),
        ensures
            later.has(id),
            same_head(self.node_of(id), later.node_of(id)),
            self.node_of(id).len <= later.node_of(id).len,
            index_at(later.nodes(id.peer), id.counter as int) == index_at(
                self.nodes(id.peer),
                id.counter as int,
            ),
            later.lamport_of(id) == self.lamport_of(id),
            later.version_at(id) == self.version_at(id),
    {
        self.lemma_node_of(id);
        let q = id.peer;
        if q != peer {
            self.lemma_grows_others(later, peer, q);
        }
        lemma_chain_extends(self.nodes(q), later.nodes(q), id.counter as int);
        let i = index_at(self.nodes(q), id.counter as int);
        assert(same_head(self.nodes(q)[i], later.nodes(q)[i]));
        if i < self.nodes(q).len() - 1 {
            assert(self.nodes(q)[i].len == later.nodes(q)[i].len);
        }
    }

    /// A grown graph holds of every peer at least what the graph held.
    pub proof fn lemma_grows_end(&self, later: &AppDag, peer: PeerID, q: PeerID)
        requires
            self.nodes_wf(),
            self.grows_to(later, peer),
        ensures
            self.end(q) <= later.end(q),
    {
        if q == peer {
            let a = self.nodes(peer);
            let b = later.nodes(peer);
            if a.len() > 0 {
                assert forall|k: int| 0 <= k < a.len() - 1 implies (#[trigger] a[k]).rle_len()
                    == b[k].rle_len() by {
                    assert(a[k].len == b[k].len);
                }
                lemma_prefix_lens(a, b, a.len() - 1);
                lemma_atoms_step(a, a.len() - 1);
                lemma_atoms_step(b, a.len() - 1);
                lemma_atoms_full(a);
                lemma_atoms_monotone(b, a.len() as int, b.len() as int);
                lemma_atoms_full(b);
            } else {
                lemma_atoms_empty(a);
            }
        } else {
            self.lemma_grows_others(later, peer, q);
        }
    }

    /// A version that is sound in a graph is sound in a grown graph.
    pub proof fn lemma_grows_reach_ok(
        &self,
        later: &AppDag,
        peer: PeerID,
        v: Map<PeerID, Counter>,
        lamport: int,
    )
        requires
            self.nodes_wf(),
            self.grows_to(later, peer),
            self.reach_ok(v, lamport),
        ensures
            later.reach_ok(v, lamport),
    {
        assert forall|q: PeerID| #[trigger] in_reach(v, q) implies {
            &&& 0 < v[q] <= later.end(q)
            &&& later.lamport_of(Self::top(q, v[q])) < lamport
            &&& le_map(later.version_at(Self::top(q, v[q])), v)
        } by {
            self.lemma_grows_end(later, peer, q);
            self.lemma_grows_keeps(later, peer, Self::top(q, v[q]));
        }
    }

    /// A node that is sound in a graph is sound in a grown graph.
    pub proof fn lemma_grows_node_ok(&self, later: &AppDag, peer: PeerID, n: AppDagNode)
        requires
            self.nodes_wf(),
            self.grows_to(later, peer),
            self.node_ok(n),
        ensures
            later.node_ok(n),
    {
        self.lemma_grows_reach_ok(later, peer, n.vv@, n.lamport as int);
        assert forall|i: int| 0 <= i < n.deps@.len() implies later.has(#[trigger] n.deps@[i])
            && n.vv.includes(n.deps@[i]) && later.lamport_of(n.deps@[i]) < n.lamport by {
            self.lemma_grows_keeps(later, peer, n.deps@[i]);
        }
    }

    /// The version made of an operation and everything before it is sound
    /// and ends, for the peer of the operation, just after it.
    pub proof fn lemma_version_at(&self, id: ID)
        requires
            self.nodes_wf(),
            self.has(id),
        ensures
            self.reach_ok(self.version_at(id), self.lamport_of(id) + 1),
            end_of(self.version_at(id), id.peer) == id.counter + 1,
            le_map(self.node_of(id).vv@, self.version_at(id)),
    {
        self.lemma_node_of(id);
        let n = self.node_of(id);
        let v = self.version_at(id);
        assert(self.node_ok(n));
        assert forall|q: PeerID| #[trigger] in_reach(v, q) implies {
            &&& 0 < v[q] <= self.end(q)
            &&& self.lamport_of(Self::top(q, v[q])) < self.lamport_of(id) + 1
            &&& le_map(self.version_at(Self::top(q, v[q])), v)
        } by {
            if q != id.peer {
                assert(in_reach(n.vv@, q));
                assert(le_map(self.version_at(Self::top(q, n.vv@[q])), n.vv@));
                assert forall|r: PeerID| #[trigger]
                    end_of(self.version_at(Self::top(q, v[q])), r) <= end_of(v, r) by {
                    assert(end_of(self.version_at(Self::top(q, n.vv@[q])), r) <= end_of(n.vv@, r));
                }
            } else {
                if n.vv@.contains_key(q) {
                    assert(in_reach(n.vv@, q));
                }
                assert(Self::top(q, v[q]) == id);
            }
        }
    }

    /// The version made of operations and everything before them is sound,
    /// and holds the version of each of them.
    pub proof fn lemma_version_of(&self, ids: Seq<ID>)
        requires
            self.nodes_wf(),
            self.has_all(ids),
        ensures
            self.reach_ok(self.version_of(ids), self.next_lamport_of(ids)),
            forall|i: int|
                0 <= i < ids.len() ==> le_map(
                    self.version_at(#[trigger] ids[i]),
                    self.version_of(ids),
                ),
        decreases ids.len(),
    {
        if ids.len() > 0 {
            let head = ids.drop_last();
            let last = ids.last();
            assert(self.has(ids[ids.len() - 1]));
            assert forall|i: int| 0 <= i < head.len() implies self.has(#[trigger] head[i]) by {
                assert(head[i] == ids[i]);
            }
            self.lemma_version_of(head);
            self.lemma_version_at(last);
            let v = self.version_of(ids);
            let vh = self.version_of(head);
            let vl = self.version_at(last);
            let lh = self.next_lamport_of(head);
            let ll = self.lamport_of(last) + 1;
            assert forall|p: PeerID| #[trigger] end_of(vh, p) <= end_of(v, p) by {
                if vl.contains_key(p) {
                    assert(in_reach(vl, p));
                }
                if vh.contains_key(p) {
                    assert(in_reach(vh, p));
                }
            }
            assert forall|p: PeerID| #[trigger] end_of(vl, p) <= end_of(v, p) by {
                if vl.contains_key(p) {
                    assert(in_reach(vl, p));
                }
                if vh.contains_key(p) {
                    assert(in_reach(vh, p));
                }
            }
            assert forall|q: PeerID| #[trigger] in_reach(v, q) implies {
                &&& 0 < v[q] <= self.end(q)
                &&& self.lamport_of(Self::top(q, v[q])) < self.next_lamport_of(ids)
                &&& le_map(self.version_at(Self::top(q, v[q])), v)
            } by {
                if vh.contains_key(q) && (!vl.contains_key(q) || vl[q] <= vh[q]) {
                    assert(v[q] == vh[q]);
                    assert(in_reach(vh, q));
                    assert(le_map(self.version_at(Self::top(q, vh[q])), vh));
                    assert forall|r: PeerID| #[trigger]
                        end_of(self.version_at(Self::top(q, v[q])), r) <= end_of(v, r) by {
                        assert(end_of(self.version_at(Self::top(q, vh[q])), r) <= end_of(vh, r));
                        assert(end_of(vh, r) <= end_of(v, r));
                    }
                } else {
                    assert(vl.contains_key(q));
                    assert(v[q] == vl[q]);
                    assert(in_reach(vl, q));
                    assert(le_map(self.version_at(Self::top(q, vl[q])), vl));
                    assert forall|r: PeerID| #[trigger]
                        end_of(self.version_at(Self::top(q, v[q])), r) <= end_of(v, r) by {
                        assert(end_of(self.version_at(Self::top(q, vl[q])), r) <= end_of(vl, r));
                        assert(end_of(vl, r) <= end_of(v, r));
                    }
                }
            }
            assert forall|i: int| 0 <= i < ids.len() implies le_map(
                self.version_at(#[trigger] ids[i]),
                v,
            ) by {
                if i < head.len() {
                    assert(head[i] == ids[i]);
                    assert(le_map(self.version_at(head[i]), vh));
                    assert forall|r: PeerID| #[trigger]
                        end_of(self.version_at(ids[i]), r) <= end_of(v, r) by {
                        assert(end_of(self.version_at(head[i]), r) <= end_of(vh, r));
                        assert(end_of(vh, r) <= end_of(v, r));
                    }
                }
            }
        }
    }

    /// Whether `v` is the version made of the operations `ids` and
    /// everything before them: it holds the version of each of them, and
    /// reaches, for each peer, no further than one of them does.
    pub open spec fn is_version_of(&self, v: Map<PeerID, Counter>, ids: Set<ID>) -> bool {
        &&& forall|id: ID| #[trigger] ids.contains(id) ==> le_map(self.version_at(id), v)
        &&& forall|q: PeerID| #[trigger]
            in_reach(v, q) ==> exists|id: ID|
                ids.contains(id) && #[trigger] in_reach(self.version_at(id), q) && self.version_at(
                    id,
                )[q] == v[q]
    }

    /// The version made of a sequence of operations is the version of the
    /// operations as a set.
    pub proof fn lemma_version_of_set(&self, ids: Seq<ID>)
        requires
            self.nodes_wf(),
            self.has_all(ids),
        ensures
            self.is_version_of(self.version_of(ids), ids.to_set()),
        decreases ids.len(),
    {
        let v = self.version_of(ids);
        self.lemma_version_of(ids);
        assert forall|id: ID| #[trigger] ids.to_set().contains(id) implies le_map(
            self.version_at(id),
            v,
        ) by {
            let i = choose|i: int| 0 <= i < ids.len() && ids[i] == id;
            assert(le_map(self.version_at(ids[i]), v));
        }
        if ids.len() > 0 {
            let head = ids.drop_last();
            let last = ids.last();
            assert forall|i: int| 0 <= i < head.len() implies self.has(#[trigger] head[i]) by {
                assert(head[i] == ids[i]);
            }
            self.lemma_version_of_set(head);
            let vh = self.version_of(head);
            let vl = self.version_at(last);
            assert forall|q: PeerID| #[trigger] in_reach(v, q) implies exists|id: ID|
                ids.to_set().contains(id) && #[trigger] in_reach(self.version_at(id), q)
                    && self.version_at(id)[q] == v[q] by {
                if vh.contains_key(q) && (!vl.contains_key(q) || vl[q] <= vh[q]) {
                    assert(in_reach(vh, q));
                    let id = choose|id: ID|
                        head.to_set().contains(id) && #[trigger] in_reach(self.version_at(id), q)
                            && self.version_at(id)[q] == vh[q];
                    let i = choose|i: int| 0 <= i < head.len() && head[i] == id;
                    assert(ids[i] == id);
                    assert(ids.to_set().contains(id));
                } else {
                    assert(ids[ids.len() - 1] == last);
                    assert(ids.to_set().contains(last));
                    assert(in_reach(vl, q));
                }
            }
        }
    }

    /// The clock that follows from some operations is larger than the
    /// clock of each.
    pub proof fn lemma_next_lamport_of(&self, ids: Seq<ID>, i: int)
        requires
            0 <= i < ids.len(),
        ensures
            self.lamport_of(ids[i]) < self.next_lamport_of(ids),
        decreases ids.len(),
    {
        if i < ids.len() - 1 {
            self.lemma_next_lamport_of(ids.drop_last(), i);
            assert(ids.drop_last()[i] == ids[i]);
        }
    }

    /// On top of operations that are each the last of its node, the clock
    /// is the largest of the clocks at which those nodes end.
    pub proof fn lemma_next_lamport_at_node_ends(&self, ids: Seq<ID>)
        requires
            ids.len() > 0,
            forall|j: int|
                0 <= j < ids.len() ==> (#[trigger] ids[j]).counter == self.node_of(
                    ids[j],
                ).spec_ctr_end() - 1,
        ensures
            forall|j: int|
                0 <= j < ids.len() ==> self.node_of(#[trigger] ids[j]).spec_lamport_end()
                    <= self.next_lamport_of(ids),
            exists|j: int|
                0 <= j < ids.len() && self.node_of(#[trigger] ids[j]).spec_lamport_end()
                    == self.next_lamport_of(ids),
        decreases ids.len(),
    {
        let rest = ids.drop_last();
        let n = ids.len() - 1;
        assert(self.lamport_of(ids[n]) + 1 == self.node_of(ids[n]).spec_lamport_end());
        if rest.len() > 0 {
            assert forall|j: int| 0 <= j < rest.len() implies (#[trigger] rest[j]).counter
                == self.node_of(rest[j]).spec_ctr_end() - 1 by {
                assert(rest[j] == ids[j]);
            }
            self.lemma_next_lamport_at_node_ends(rest);
            let w = choose|j: int|
                0 <= j < rest.len() && self.node_of(#[trigger] rest[j]).spec_lamport_end()
                    == self.next_lamport_of(rest);
            assert(rest[w] == ids[w]);
            assert forall|j: int| 0 <= j < ids.len() implies self.node_of(
                #[trigger] ids[j],
            ).spec_lamport_end() <= self.next_lamport_of(ids) by {
                if j < n {
                    assert(rest[j] == ids[j]);
                }
            }
            if self.next_lamport_of(rest) < self.lamport_of(ids[n]) + 1 {
                assert(self.node_of(ids[n]).spec_lamport_end() == self.next_lamport_of(ids));
            } else {
                assert(self.node_of(ids[w]).spec_lamport_end() == self.next_lamport_of(ids));
            }
        } else {
            assert(self.next_lamport_of(rest) == 0);
            assert(self.node_of(ids[n]).spec_lamport_end() == self.next_lamport_of(ids));
        }
    }

    /// Whether a run depends on an operation of its own peer and on
    /// nothing else.
    pub open spec fn self_dep(id: ID, deps: Seq<ID>) -> bool {
        deps.len() == 1 && deps[0].peer == id.peer
    }

    /// Where a run that the graph admits stands with respect to the last
    /// node of its peer.
    pub proof fn lemma_admits(&self, id: ID, lamport: Lamport, deps: Seq<ID>, len: nat)
        requires
            self.wf(),
            self.admits(id, lamport, deps, len),
        ensures
            self.reach_ok(self.version_of(deps), lamport as int),
            end_of(self.version_of(deps), id.peer) == id.counter,
            forall|i: int|
                0 <= i < deps.len() ==> self.has(#[trigger] deps[i]) && end_of(
                    self.version_of(deps),
                    deps[i].peer,
                ) > deps[i].counter && self.lamport_of(deps[i]) < lamport,
            id.counter > 0 ==> {
                &&& self.nodes(id.peer).len() > 0
                &&& self.nodes(id.peer).last().spec_ctr_end() == id.counter
                &&& self.nodes(id.peer).last().spec_lamport_end() <= lamport
            },
            id.counter == 0 ==> self.nodes(id.peer).len() == 0,
            Self::self_dep(id, deps) ==> {
                &&& id.counter > 0
                &&& deps == seq![Self::top(id.peer, id.counter)]
                &&& self.nodes(id.peer).last().spec_lamport_end() == lamport
            },
    {
        let peer = id.peer;
        let nodes = self.nodes(peer);
        let v = self.version_of(deps);
        self.lemma_version_of(deps);
        lemma_atoms_full(nodes);
        assert(end_of(v, peer) == id.counter) by {
            if v.contains_key(peer) {
                assert(in_reach(v, peer));
            }
        }
        assert forall|i: int| 0 <= i < deps.len() implies self.has(#[trigger] deps[i]) && end_of(
            v,
            deps[i].peer,
        ) > deps[i].counter && self.lamport_of(deps[i]) < lamport by {
            self.lemma_next_lamport_of(deps, i);
            self.lemma_version_at(deps[i]);
            assert(le_map(self.version_at(deps[i]), v));
            assert(end_of(self.version_at(deps[i]), deps[i].peer) <= end_of(v, deps[i].peer));
        }
        if nodes.len() > 0 {
            let k = nodes.len() - 1;
            assert(chain_ok(nodes, peer));
            lemma_atoms_step(nodes, k);
            lemma_atoms_monotone(nodes, 0, k);
            assert(nodes[k].wf());
            let prev = Self::top(peer, id.counter);
            self.lemma_in_node(peer, k, prev.counter as int);
            assert(in_reach(v, peer));
            assert(self.lamport_of(prev) < lamport);
            if Self::self_dep(id, deps) {
                let d = deps[0];
                assert(self.has(d));
                self.lemma_node_of(d);
                self.lemma_version_at(d);
                assert(deps.drop_last() =~= Seq::<ID>::empty());
                assert(self.version_of(deps.drop_last()) =~= Map::<PeerID, Counter>::empty());
                assert(v =~= self.version_at(d));
                assert(d.counter == id.counter - 1);
                assert(self.next_lamport_of(deps.drop_last()) == 0);
                assert(deps =~= seq![prev]);
            }
        } else {
            lemma_atoms_empty(nodes);
            if Self::self_dep(id, deps) {
                assert(self.has(deps[0]));
            }
        }
    }

    /// What pushing an admitted run onto the chain of its peer gives.
    pub proof fn lemma_append_chain(
        old_nodes: Seq<AppDagNode>,
        new_nodes: Seq<AppDagNode>,
        node: AppDagNode,
        merges: bool,
    )
        requires
            node.wf(),
            old_nodes.len() == 0 ==> node.cnt == 0 && !merges,
            old_nodes.len() > 0 ==> chain_ok(old_nodes, node.peer) && old_nodes.last().spec_ctr_end()
                == node.cnt && old_nodes.last().spec_lamport_end() <= node.lamport,
            all_wf(new_nodes),
            merges ==> {
                &&& new_nodes.len() == old_nodes.len()
                &&& new_nodes.drop_last() == old_nodes.drop_last()
                &&& old_nodes.last().is_merge_of(&node, &new_nodes.last())
                &&& old_nodes.last().spec_lamport_end() == node.lamport
            },
            !merges ==> new_nodes == old_nodes.push(node),
        ensures
            chain_extends(old_nodes, new_nodes),
            chain_ok(new_nodes, node.peer),
            atoms(new_nodes) == node.cnt + node.len,
            forall|i: int|
                0 <= i < new_nodes.len() ==> (i < old_nodes.len() && same_head(
                    old_nodes[i],
                    #[trigger] new_nodes[i],
                )) || (!merges && new_nodes[i] == node),
            new_nodes.len() > 0,
            new_nodes.last().cnt <= node.cnt < new_nodes.last().spec_ctr_end(),
            new_nodes.last().lamport + (node.cnt - new_nodes.last().cnt) == node.lamport,
    {
        let peer = node.peer;
        lemma_atoms_full(new_nodes);
        lemma_atoms_full(old_nodes);
        if merges {
            assert forall|i: int| 0 <= i < old_nodes.len() - 1 implies new_nodes[i]
                == old_nodes[i] by {
                assert(new_nodes[i] == new_nodes.drop_last()[i]);
                assert(old_nodes[i] == old_nodes.drop_last()[i]);
            }
        } else {
            lemma_atoms_push(old_nodes, node);
        }
        assert(chain_extends(old_nodes, new_nodes));
        assert forall|i: int| 0 <= i < new_nodes.len() implies (#[trigger] new_nodes[i]).peer
            == peer && new_nodes[i].cnt == atoms_before(new_nodes, i) by {
            if i < old_nodes.len() {
                assert(same_head(old_nodes[i], new_nodes[i]));
                assert forall|k: int| 0 <= k < i implies (#[trigger] old_nodes[k]).rle_len()
                    == new_nodes[k].rle_len() by {
                    assert(old_nodes[k].len == new_nodes[k].len);
                }
                lemma_prefix_lens(old_nodes, new_nodes, i);
                assert(old_nodes[i].cnt == atoms_before(old_nodes, i));
            } else {
                assert(new_nodes[i] == node);
                if old_nodes.len() > 0 {
                    lemma_atoms_step(old_nodes, old_nodes.len() - 1);
                } else {
                    lemma_atoms_empty(new_nodes);
                }
            }
        }
        assert forall|i: int, j: int| 0 <= i < j < new_nodes.len() implies (
        #[trigger] new_nodes[i]).spec_lamport_end() <= (#[trigger] new_nodes[j]).lamport by {
            assert(same_head(old_nodes[i], new_nodes[i]));
            if j < old_nodes.len() {
                assert(same_head(old_nodes[j], new_nodes[j]));
                assert(old_nodes[i].len == new_nodes[i].len);
                assert(old_nodes[i].spec_lamport_end() <= old_nodes[j].lamport);
            } else {
                assert(new_nodes[j] == node);
                assert(new_nodes[i] == old_nodes[i]);
                let k = old_nodes.len() - 1;
                assert(old_nodes[k].wf());
                if i < k {
                    assert(old_nodes[i].spec_lamport_end() <= old_nodes[k].lamport);
                }
            }
        }
        let k = new_nodes.len() - 1;
        lemma_atoms_step(new_nodes, k);
        assert(new_nodes[k].wf());
    }

    /// A node that differs from a sound node in length at most is sound.
    pub proof fn lemma_same_head_ok(&self, o: AppDagNode, n: AppDagNode)
        requires
            self.node_ok(o),
            same_head(o, n),
        ensures
            self.node_ok(n),
    {
        assert forall|q: PeerID| #[trigger] in_reach(n.vv@, q) implies {
            &&& 0 < n.vv@[q] <= self.end(q)
            &&& self.lamport_of(Self::top(q, n.vv@[q])) < n.lamport
            &&& le_map(self.version_at(Self::top(q, n.vv@[q])), n.vv@)
        } by {
            assert(in_reach(o.vv@, q));
        }
        assert forall|i: int| 0 <= i < n.deps@.len() implies self.has(#[trigger] n.deps@[i])
            && n.vv.includes(n.deps@[i]) && self.lamport_of(n.deps@[i]) < n.lamport by {
            assert(self.has(o.deps@[i]));
        }
    }

    /// A graph whose one chain has grown by an admitted run is sound.
    pub proof fn lemma_append_nodes(&self, later: &AppDag, peer: PeerID, node: AppDagNode)
        requires
            self.nodes_wf(),
            self.grows_to(later, peer),
            later.map@[peer].wf(),
            chain_ok(later.map@[peer]@, peer),
            forall|i: int|
                0 <= i < later.nodes(peer).len() ==> (i < self.nodes(peer).len() && same_head(
                    self.nodes(peer)[i],
                    #[trigger] later.nodes(peer)[i],
                )) || later.nodes(peer)[i] == node,
            self.reach_ok(node.vv@, node.lamport as int),
            end_of(node.vv@, node.peer) == node.cnt,
            forall|i: int|
                0 <= i < node.deps@.len() ==> self.has(#[trigger] node.deps@[i]) && end_of(
                    node.vv@,
                    node.deps@[i].peer,
                ) > node.deps@[i].counter && self.lamport_of(node.deps@[i]) < node.lamport,
        ensures
            later.nodes_wf(),
    {
        assert forall|p: PeerID| #[trigger] later.map@.contains_key(p) implies later.map@[p].wf()
            && chain_ok(later.map@[p]@, p) by {
            if p != peer {
                assert(self.map@.contains_key(p));
                self.lemma_grows_others(later, peer, p);
            }
        }
        assert forall|p: PeerID, i: int|
            later.map@.contains_key(p) && 0 <= i < later.map@[p]@.len() implies later.node_ok(
            #[trigger] later.map@[p]@[i],
        ) by {
            let n = later.map@[p]@[i];
            if p != peer {
                assert(self.map@.contains_key(p));
                self.lemma_grows_others(later, peer, p);
                let o = self.map@[p]@[i];
                assert(same_node(o, n));
                assert(self.node_ok(o));
                self.lemma_same_head_ok(o, n);
                self.lemma_grows_node_ok(later, peer, n);
            } else if i < self.nodes(peer).len() && same_head(self.nodes(peer)[i], n) {
                let o = self.map@[peer]@[i];
                assert(self.node_ok(o));
                self.lemma_same_head_ok(o, n);
                self.lemma_grows_node_ok(later, peer, n);
            } else {
                assert(n == node);
                self.lemma_grows_reach_ok(later, peer, n.vv@, n.lamport as int);
                assert forall|k: int| 0 <= k < n.deps@.len() implies later.has(
                    #[trigger] n.deps@[k],
                ) && n.vv.includes(n.deps@[k]) && later.lamport_of(n.deps@[k]) < n.lamport by {
                    self.lemma_grows_keeps(later, peer, n.deps@[k]);
                }
            }
        }
    }

    /// Adds a run of `len` operations that starts at `id`. Where the run
    /// depends on the operation just before it and on nothing else, the
    /// last node of its peer grows; else the run becomes a new node, whose
    /// version is the version of its dependencies.
    pub fn append(&mut self, id: ID, lamport: Lamport, deps: Frontiers, len: usize)
        requires
            old(self).wf(),
            old(self).admits(id, lamport, deps@, len as nat),
        ensures
            old(self).appended(id, lamport, deps@, len as nat, final(self)),
            final(self).frontiers == old(self).frontiers,
    {
        let peer = id.peer;
        let ghost before = *old(self);
        let ghost old_nodes = before.nodes(peer);
        let ghost dseq = deps@;
        let self_dep = deps.len() == 1 && deps.get(0).peer == peer;
        proof {
            before.lemma_admits(id, lamport, dseq, len as nat);
            lemma_atoms_full(old_nodes);
        }
        let vv = if self_dep {
            // the run goes into the last node, whose version stays
            ImVersionVector::new()
        } else {
            self.frontiers_to_im_vv(&deps)
        };
        let node = AppDagNode { peer, cnt: id.counter, lamport, deps, vv, len };
        let mut nodes = match self.map.remove(&peer) {
            Some(n) => n,
            None => RleVec::new(),
        };
        assert(nodes@ =~= old_nodes);
        nodes.push(node);
        let ghost new_nodes = nodes@;
        self.map.insert(peer, nodes);
        self.vv.set_end(peer, (id.counter as i64 + len as i64) as i32);
        proof {
            let after = *self;
            let merges = Self::self_dep(id, dseq);
            assert(after.map@.contains_key(peer));
            assert(after.nodes(peer) == new_nodes);
            if merges {
                assert(old_nodes.last().can_merge(&node));
            } else {
                assert(!(old_nodes.len() > 0 && old_nodes.last().can_merge(&node))) by {
                    if old_nodes.len() > 0 && old_nodes.last().can_merge(&node) {
                        assert(dseq.len() == 1);
                        assert(dseq[0].peer == peer);
                    }
                }
            }
            Self::lemma_append_chain(old_nodes, new_nodes, node, merges);
            assert(before.grows_to(&after, peer));
            if merges {
                // the node that grew keeps its version
                let k = old_nodes.len() - 1;
                let prev = Self::top(peer, id.counter);
                lemma_atoms_step(old_nodes, k);
                lemma_atoms_monotone(old_nodes, 0, k);
                before.lemma_in_node(peer, k, prev.counter as int);
                assert(before.node_ok(before.map@[peer]@[k]));
                assert forall|i: int| 0 <= i < new_nodes.len() implies (i < old_nodes.len()
                    && same_head(old_nodes[i], #[trigger] new_nodes[i])) by {}
                before.lemma_append_nodes(&after, peer, old_nodes[k]);
            } else {
                before.lemma_append_nodes(&after, peer, node);
            }
            assert forall|p: PeerID| #[trigger] after.vv.end(p) == after.end(p) by {
                if p != peer {
                    assert(before.vv.end(p) == before.end(p));
                    if before.map@.contains_key(p) {
                        assert(after.map@.contains_key(p));
                        assert(after.map@[p] == before.map@[p]);
                    } else {
                        assert(!after.map@.contains_key(p));
                    }
                }
            }
            assert(forall|p: PeerID| after.vv@.contains_key(p) <==> after.map@.contains_key(p));
            let k = new_nodes.len() - 1;
            after.lemma_in_node(peer, k, id.counter as int);
            lemma_atoms_step(new_nodes, k);
            lemma_atoms_full(new_nodes);
        }
    }

    pub fn new() -> (r: Self)
        ensures
            r.wf(),
            r.map@ == Map::<PeerID, RleVec<AppDagNode>>::empty(),
            r.vv@ == Map::<PeerID, Counter>::empty(),
            r.frontiers@ == Seq::<ID>::empty(),
            r.frontiers.set() == r.heads(r.vv@),
    {
        let r = AppDag { map: HashMap::new(), frontiers: Frontiers::new(), vv: VersionVector::new() };
        proof {
            assert(r.frontiers.set() =~= r.heads(r.vv@));
            assert forall|p: PeerID| #[trigger] r.vv.end(p) == r.end(p) by {
                assert(r.nodes(p) =~= Seq::<AppDagNode>::empty());
                lemma_atoms_empty(r.nodes(p));
            }
        }
        r
    }

    /// Whether the graph holds the operation.
    pub fn contains(&self, id: ID) -> (b: bool)
        requires
            self.wf(),
        ensures
            b == self.has(id),
    {
        assert(self.vv.end(id.peer) == self.end(id.peer));
        id.counter >= 0 && self.vv.includes_id(id)
    }

    /// The node that holds an operation.
    pub fn get_node(&self, id: ID) -> (n: &AppDagNode)
        requires
            self.nodes_wf(),
            self.has(id),
        ensures
            *n == self.node_of(id),
    {
        proof {
            self.lemma_node_of(id);
            lemma_atoms_full(self.nodes(id.peer));
        }
        let nodes = self.map.get(&id.peer).unwrap();
        let found = nodes.get_by_atom_index(id.counter as usize).unwrap();
        proof {
            lemma_index_unique(nodes@, found.merged_index as int, id.counter as int);
        }
        found.element
    }

    /// The Lamport clock of an operation.
    pub fn get_lamport(&self, id: ID) -> (l: Lamport)
        requires
            self.nodes_wf(),
            self.has(id),
        ensures
            l == self.lamport_of(id),
    {
        proof {
            self.lemma_node_of(id);
        }
        let n = self.get_node(id);
        (n.lamport as i64 + (id.counter as i64 - n.cnt as i64)) as u32
    }

    /// The version made of an operation and everything before it.
    pub fn get_version_at(&self, id: ID) -> (vv: VersionVector)
        requires
            self.nodes_wf(),
            self.has(id),
        ensures
            vv@ == self.version_at(id),
    {
        proof {
            self.lemma_node_of(id);
        }
        let n = self.get_node(id);
        let mut vv = n.vv.to_vv();
        vv.extend_to_include_last_id(id);
        vv
    }

    /// The version made of the frontiers and everything before them.
    pub fn frontiers_to_im_vv(&self, frontiers: &Frontiers) -> (vv: ImVersionVector)
        requires
            self.nodes_wf(),
            self.has_all(frontiers@),
        ensures
            vv@ == self.version_of(frontiers@),
    {
        let mut vv = ImVersionVector::new();
        let mut i: usize = 0;
        assert(frontiers@.take(0) =~= Seq::<ID>::empty());
        while i < frontiers.len()
            invariant
                0 <= i <= frontiers@.len(),
                self.nodes_wf(),
                self.has_all(frontiers@),
                vv@ == self.version_of(frontiers@.take(i as int)),
            decreases frontiers@.len() - i,
        {
            let id = frontiers.get(i);
            proof {
                self.lemma_node_of(id);
            }
            // the copy shares the storage of the node's version; only the entries that
            // are raised from here on are new
            let mut at = self.get_node(id).vv.clone_im();
            at.extend_to_include_last_id(id);
            if i == 0 {
                assert(merged(vv@, at@) =~= at@);
                vv = at;
            } else {
                vv.merge(&at);
            }
            proof {
                assert(frontiers@.take(i + 1).drop_last() =~= frontiers@.take(i as int));
            }
            i += 1;
        }
        assert(frontiers@.take(frontiers@.len() as int) =~= frontiers@);
        vv
    }

    /// The version made of the frontiers and everything before them, if
    /// the graph holds them all.
    pub fn frontiers_to_vv(&self, frontiers: &Frontiers) -> (r: Option<VersionVector>)
        requires
            self.wf(),
        ensures
            self.has_all(frontiers@) ==> r is Some && r->0@ == self.version_of(frontiers@),
            !self.has_all(frontiers@) ==> r is None,
    {
        let mut i: usize = 0;
        while i < frontiers.len()
            invariant
                0 <= i <= frontiers@.len(),
                self.wf(),
                forall|j: int| 0 <= j < i ==> self.has(#[trigger] frontiers@[j]),
            decreases frontiers@.len() - i,
        {
            if !self.contains(frontiers.get(i)) {
                return None;
            }
            i += 1;
        }
        Some(self.frontiers_to_im_vv(frontiers).to_vv())
    }

    /// Whether a version reaches no further than the graph.
    pub open spec fn within_graph(&self, v: Map<PeerID, Counter>) -> bool {
        forall|q: PeerID| #[trigger] in_reach(v, q) ==> v[q] <= self.end(q)
    }

    /// Whether the last operation of `p` in version `v` is a head of `v`:
    /// the last operation of no other peer in `v` comes after it.
    pub open spec fn is_head(&self, v: Map<PeerID, Counter>, p: PeerID) -> bool {
        &&& end_of(v, p) > 0
        &&& forall|q: PeerID|
            #[trigger] in_reach(v, q) && q != p && v[q] > 0 ==> end_of(
                self.node_of(Self::top(q, v[q])).vv@,
                p,
            ) < end_of(v, p)
    }

    /// The heads of a version: of the last operations of the peers, those
    /// that come before none of the others.
    pub open spec fn heads(&self, v: Map<PeerID, Counter>) -> Set<ID> {
        Set::new(|id: ID| self.is_head(v, id.peer) && id.counter == end_of(v, id.peer) - 1)
    }

    /// Whether the last operation of `p` in the version is one of its heads.
    fn check_head(&self, vv: &VersionVector, keys: &Vec<PeerID>, p: PeerID) -> (b: bool)
        requires
            self.nodes_wf(),
            self.within_graph(vv@),
            forall|q: PeerID| keys@.contains(q) <==> vv@.contains_key(q),
            end_of(vv@, p) > 0,
        ensures
            b == self.is_head(vv@, p),
    {
        let e = vv.get_end(p);
        let mut j: usize = 0;
        while j < keys.len()
            invariant
                0 <= j <= keys.len(),
                self.nodes_wf(),
                self.within_graph(vv@),
                e == end_of(vv@, p),
                forall|q: PeerID| keys@.contains(q) <==> vv@.contains_key(q),
                forall|k: int|
                    0 <= k < j && (#[trigger] keys@[k]) != p && end_of(vv@, keys@[k]) > 0 ==> end_of(
                        self.node_of(Self::top(keys@[k], vv@[keys@[k]])).vv@,
                        p,
                    ) < e,
            decreases keys.len() - j,
        {
            let q = keys[j];
            assert(keys@.contains(q));
            let eq = vv.get_end(q);
            if q != p && eq > 0 {
                assert(in_reach(vv@, q));
                let n = self.get_node(ID { peer: q, counter: eq - 1 });
                if n.vv.get_end(p) >= e {
                    return false;
                }
            }
            j += 1;
        }
        proof {
            assert forall|q: PeerID| #[trigger] in_reach(vv@, q) && q != p && vv@[q] > 0 implies end_of(
                self.node_of(Self::top(q, vv@[q])).vv@,
                p,
            ) < end_of(vv@, p) by {
                assert(keys@.contains(q));
                let k = choose|k: int| 0 <= k < keys@.len() && keys@[k] == q;
                assert(keys@[k] == q);
            }
        }
        true
    }

    /// The heads of a version that the graph holds.
    pub fn vv_to_frontiers(&self, vv: &VersionVector) -> (r: Frontiers)
        requires
            self.nodes_wf(),
            self.within_graph(vv@),
        ensures
            r.set() == self.heads(vv@),
            r.wf(),
            r.one_per_peer(),
    {
        let keys = peers_of(&vv.ends);
        let mut out = Frontiers::new();
        let mut i: usize = 0;
        while i < keys.len()
            invariant
                0 <= i <= keys.len(),
                self.nodes_wf(),
                self.within_graph(vv@),
                keys@.no_duplicates(),
                forall|q: PeerID| keys@.contains(q) <==> vv@.contains_key(q),
                forall|id: ID|
                    out@.contains(id) <==> (keys@.take(i as int).contains(id.peer)
                        && self.heads(vv@).contains(id)),
                out.wf(),
                out.one_per_peer(),
            decreases keys.len() - i,
        {
            let p = keys[i];
            assert(keys@.contains(p));
            let e = vv.get_end(p);
            let ghost before = out@;
            proof {
                lemma_take_push_contains(keys@, i as int);
            }
            if e > 0 && self.check_head(vv, &keys, p) {
                let id = ID { peer: p, counter: e - 1 };
                assert(self.heads(vv@).contains(id));
                assert(!before.contains(id));
                assert forall|k: int| 0 <= k < before.len() implies (#[trigger] before[k]).peer
                    != p by {
                    assert(before.contains(before[k]));
                }
                out.ids.push(id);
                proof {
                    assert forall|x: ID|
                        out@.contains(x) <==> (keys@.take(i + 1).contains(x.peer) && self.heads(
                            vv@,
                        ).contains(x)) by {
                        if before.contains(x) {
                            let k = choose|k: int| 0 <= k < before.len() && before[k] == x;
                            assert(out@[k] == x);
                        }
                        if x == id {
                            assert(out@[before.len() as int] == x);
                        }
                        if out@.contains(x) {
                            let k = choose|k: int| 0 <= k < out@.len() && out@[k] == x;
                            if k < before.len() {
                                assert(before[k] == x);
                            }
                        }
                    }
                }
            }
            i += 1;
        }
        proof {
            assert(keys@.take(keys.len() as int) =~= keys@);
            assert forall|id: ID| out.set().contains(id) <==> self.heads(vv@).contains(id) by {
                if self.heads(vv@).contains(id) {
                    assert(vv@.contains_key(id.peer));
                    assert(keys@.contains(id.peer));
                }
            }
            assert(out.set() =~= self.heads(vv@));
        }
        out
    }

    /// The latest operations that come before both `a` and `b`, or are
    /// among them: the heads of the version that the versions of `a` and of
    /// `b` share.
    pub fn find_common_ancestor(&self, a: &Frontiers, b: &Frontiers) -> (r: Frontiers)
        requires
            self.nodes_wf(),
            self.has_all(a@),
            self.has_all(b@),
        ensures
            r.set() == self.heads(met(self.version_of(a@), self.version_of(b@))),
            r.wf(),
            r.one_per_peer(),
            self.has_all(r@),
    {
        let va = self.frontiers_to_im_vv(a).to_vv();
        let vb = self.frontiers_to_im_vv(b).to_vv();
        let shared = va.meet(&vb);
        proof {
            self.lemma_version_of(a@);
            assert forall|q: PeerID| #[trigger] in_reach(shared@, q) implies shared@[q] <= self.end(
                q,
            ) by {
                assert(in_reach(va@, q));
            }
        }
        let r = self.vv_to_frontiers(&shared);
        proof {
            assert forall|i: int| 0 <= i < r@.len() implies self.has(#[trigger] r@[i]) by {
                assert(r@.contains(r@[i]));
                assert(r.set().contains(r@[i]));
                assert(in_reach(shared@, r@[i].peer));
            }
        }
        r
    }

    /// How the version of the graph stands to the frontiers: equal where
    /// they are the graph's own; greater where the graph holds them all;
    /// less in every other case, which takes in versions that neither hold
    /// the other.
    pub fn cmp_frontiers(&self, other: &Frontiers) -> (r: Ordering)
        ensures
            r == Ordering::Equal <==> self.frontiers.set() == other.set(),
            r == Ordering::Greater <==> (self.frontiers.set() != other.set() && forall|i: int|
                0 <= i < other@.len() ==> self.vv.includes(#[trigger] other@[i])),
    {
        if self.frontiers.eq_set(other) {
            return Ordering::Equal;
        }
        let mut i: usize = 0;
        while i < other.len()
            invariant
                0 <= i <= other@.len(),
                self.frontiers.set() != other.set(),
                forall|j: int| 0 <= j < i ==> self.vv.includes(#[trigger] other@[j]),
            decreases other@.len() - i,
        {
            if !self.vv.includes_id(other.get(i)) {
                return Ordering::Less;
            }
            i += 1;
        }
        Ordering::Greater
    }

    /// Whether the spans lie within what the graph holds.
    pub open spec fn spans_within(&self, spans: Map<PeerID, CounterSpan>) -> bool {
        forall|p: PeerID| #[trigger]
            spans.contains_key(p) ==> 0 <= spans[p].start <= spans[p].end <= self.end(p)
    }

    /// Whether `piece` is what a node of the graph holds of the spans: a
    /// run of operations that lies in one node and in the span of its
    /// peer, and ends only where the node or the span ends.
    pub open spec fn is_piece(&self, spans: Map<PeerID, CounterSpan>, piece: &AppDagNode) -> bool {
        let first = ID { peer: piece.peer, counter: piece.cnt };
        let node = self.node_of(first);
        &&& piece.wf()
        &&& spans.contains_key(piece.peer)
        &&& spans[piece.peer].start <= piece.cnt
        &&& piece.spec_ctr_end() <= spans[piece.peer].end
        &&& self.has(first)
        &&& piece.spec_ctr_end() <= node.spec_ctr_end()
        &&& node.is_slice_of(piece.cnt - node.cnt, piece.spec_ctr_end() - node.cnt, piece)
        &&& (piece.cnt == spans[piece.peer].start || piece.cnt == node.cnt)
        &&& (piece.spec_ctr_end() == spans[piece.peer].end || piece.spec_ctr_end()
            == node.spec_ctr_end())
    }

    /// Whether a run of operations holds the operation.
    pub open spec fn covers(piece: &AppDagNode, id: ID) -> bool {
        piece.peer == id.peer && piece.cnt <= id.counter < piece.spec_ctr_end()
    }

    /// Whether two runs hold no operation in common.
    pub open spec fn apart(a: AppDagNode, b: AppDagNode) -> bool {
        a.peer != b.peer || a.spec_ctr_end() <= b.cnt || b.spec_ctr_end() <= a.cnt
    }

    /// Whether no two of the runs hold an operation in common.
    pub open spec fn all_apart(pieces: Seq<AppDagNode>) -> bool {
        forall|a: int, b: int|
            0 <= a < pieces.len() && 0 <= b < pieces.len() && a != b ==> Self::apart(
                pieces[a],
                pieces[b],
            )
    }

    /// Whether one of the runs holds the operation.
    pub open spec fn covered(pieces: Seq<AppDagNode>, id: ID) -> bool {
        exists|k: int| 0 <= k < pieces.len() && Self::covers(#[trigger] &pieces[k], id)
    }

    /// What runs hold, runs that follow them in a longer sequence hold too.
    pub proof fn lemma_covered_prefix(a: Seq<AppDagNode>, b: Seq<AppDagNode>, id: ID)
        requires
            Self::covered(a, id),
            a.len() <= b.len(),
            forall|k: int| 0 <= k < a.len() ==> a[k] == b[k],
        ensures
            Self::covered(b, id),
    {
        let k = choose|k: int| 0 <= k < a.len() && Self::covers(#[trigger] &a[k], id);
        assert(Self::covers(&b[k], id));
    }

    /// What runs hold, the same runs in another order hold too.
    pub proof fn lemma_covered_same_items(a: Seq<AppDagNode>, b: Seq<AppDagNode>, id: ID)
        requires
            Self::covered(a, id),
            forall|x: AppDagNode| a.contains(x) <==> b.contains(x),
        ensures
            Self::covered(b, id),
    {
        let k = choose|k: int| 0 <= k < a.len() && Self::covers(#[trigger] &a[k], id);
        assert(a.contains(a[k]));
        let m = choose|m: int| 0 <= m < b.len() && b[m] == a[k];
        assert(Self::covers(&b[m], id));
    }

    /// The node that follows the node of an operation starts where that
    /// node ends.
    pub proof fn lemma_next_node(&self, id: ID)
        requires
            self.nodes_wf(),
            self.has(id),
            self.node_of(id).spec_ctr_end() < self.end(id.peer),
        ensures
            self.has(ID { peer: id.peer, counter: self.node_of(id).spec_ctr_end() as Counter }),
            self.node_of(
                ID { peer: id.peer, counter: self.node_of(id).spec_ctr_end() as Counter },
            ).cnt == self.node_of(id).spec_ctr_end(),
    {
        self.lemma_node_of(id);
        let nodes = self.nodes(id.peer);
        let i = index_at(nodes, id.counter as int);
        lemma_atoms_step(nodes, i);
        lemma_atoms_full(nodes);
        assert(nodes[i].cnt == atoms_before(nodes, i));
        if i + 1 == nodes.len() {
            assert(false);
        }
        assert(nodes[i + 1].cnt == atoms_before(nodes, i + 1));
        assert(nodes[i + 1].wf());
        self.lemma_in_node(id.peer, i + 1, nodes[i + 1].cnt as int);
    }

    /// Adds to `out` what the nodes of a peer hold of its span, node by
    /// node.
    fn slice_span(&self, spans: &IdSpanVector, peer: PeerID, out: &mut Vec<AppDagNode>)
        requires
            self.nodes_wf(),
            self.spans_within(spans@),
            spans@.contains_key(peer),
            forall|k: int| 0 <= k < old(out)@.len() ==> self.is_piece(spans@, #[trigger] &old(out)@[k]),
            forall|k: int| 0 <= k < old(out)@.len() ==> (#[trigger] old(out)@[k]).peer != peer,
            Self::all_apart(old(out)@),
        ensures
            Self::all_apart(final(out)@),
            forall|k: int|
                old(out)@.len() <= k < final(out)@.len() ==> (#[trigger] final(out)@[k]).peer == peer,
            old(out)@.len() <= final(out)@.len(),
            forall|k: int| 0 <= k < old(out)@.len() ==> final(out)@[k] == old(out)@[k],
            forall|k: int|
                0 <= k < final(out)@.len() ==> self.is_piece(spans@, #[trigger] &final(out)@[k]),
            forall|id: ID|
                id.peer == peer && spans@[peer].covers(id.counter as int) ==> Self::covered(
                    final(out)@,
                    id,
                ),
    {
        let span = *spans.get(&peer).unwrap();
        let mut c: Counter = span.start;
        while c < span.end
            invariant
                self.nodes_wf(),
                self.spans_within(spans@),
                spans@.contains_key(peer),
                span == spans@[peer],
                span.start <= c,
                span.start <= span.end,
                c <= span.end,
                c < span.end ==> (c == span.start || self.node_of(ID { peer, counter: c }).cnt
                    == c),
                old(out)@.len() <= out@.len(),
                forall|k: int| 0 <= k < old(out)@.len() ==> out@[k] == old(out)@[k],
                forall|k: int| 0 <= k < out@.len() ==> self.is_piece(spans@, #[trigger] &out@[k]),
                forall|id: ID|
                    id.peer == peer && span.start <= id.counter < c ==> Self::covered(out@, id),
                Self::all_apart(out@),
                forall|k: int| 0 <= k < old(out)@.len() ==> (#[trigger] out@[k]).peer != peer,
                forall|k: int|
                    old(out)@.len() <= k < out@.len() ==> (#[trigger] out@[k]).peer == peer
                        && out@[k].spec_ctr_end() <= c,
            decreases span.end - c,
        {
            let first = ID { peer, counter: c };
            proof {
                self.lemma_node_of(first);
            }
            let node = self.get_node(first);
            let from = (c - node.cnt) as usize;
            let node_end = node.ctr_end();
            let stop = if node_end < span.end {
                node_end
            } else {
                span.end
            };
            let to = (stop - node.cnt) as usize;
            let piece = node.slice(from, to);
            let ghost before = out@;
            out.push(piece);
            proof {
                let after = out@;
                let last = before.len() as int;
                assert(after[last] == piece);
                assert forall|k: int| 0 <= k < before.len() implies after[k] == before[k] by {}
                assert(self.node_of(ID { peer: piece.peer, counter: piece.cnt }) == *node);
                assert(self.is_piece(spans@, &piece));
                assert forall|a: int, b: int|
                    0 <= a < after.len() && 0 <= b < after.len() && a != b implies Self::apart(
                    after[a],
                    after[b],
                ) by {
                    if a < last && b < last {
                        assert(Self::apart(before[a], before[b]));
                    } else if a == last {
                        assert(after[b] == before[b]);
                    } else {
                        assert(after[a] == before[a]);
                    }
                }
                assert forall|id: ID|
                    id.peer == peer && span.start <= id.counter < stop implies Self::covered(
                    after,
                    id,
                ) by {
                    if id.counter < c {
                        Self::lemma_covered_prefix(before, after, id);
                    } else {
                        assert(Self::covers(&after[last], id));
                    }
                }
                if stop < span.end {
                    self.lemma_next_node(first);
                }
            }
            c = stop;
        }
    }

    /// What the nodes of the graph hold of the spans, node by node, in
    /// replay order: by Lamport clock, then by peer, then by counter.
    pub fn iter_causal(&self, spans: &IdSpanVector) -> (r: Vec<AppDagNode>)
        requires
            self.nodes_wf(),
            self.spans_within(spans@),
        ensures
            in_replay_order(r@),
            forall|k: int| 0 <= k < r@.len() ==> self.is_piece(spans@, #[trigger] &r@[k]),
            forall|id: ID|
                spans@.contains_key(id.peer) && spans@[id.peer].covers(id.counter as int)
                    ==> Self::covered(r@, id),
            Self::all_apart(r@),
    {
        let mut out: Vec<AppDagNode> = Vec::new();
        let keys = peers_of(spans);
        let mut n: usize = 0;
        while n < keys.len()
            invariant
                0 <= n <= keys.len(),
                self.nodes_wf(),
                self.spans_within(spans@),
                keys@.no_duplicates(),
                forall|p: PeerID| keys@.contains(p) <==> spans@.contains_key(p),
                forall|k: int| 0 <= k < out@.len() ==> self.is_piece(spans@, #[trigger] &out@[k]),
                forall|id: ID|
                    keys@.take(n as int).contains(id.peer) && spans@[id.peer].covers(
                        id.counter as int,
                    ) ==> Self::covered(out@, id),
                Self::all_apart(out@),
                forall|k: int|
                    0 <= k < out@.len() ==> keys@.take(n as int).contains((#[trigger] out@[k]).peer),
            decreases keys.len() - n,
        {
            let peer = keys[n];
            assert(keys@.contains(peer));
            proof {
                lemma_take_push_contains(keys@, n as int);
            }
            let ghost before = out@;
            self.slice_span(spans, peer, &mut out);
            proof {
                assert forall|id: ID|
                    keys@.take(n + 1).contains(id.peer) && spans@[id.peer].covers(
                        id.counter as int,
                    ) implies Self::covered(out@, id) by {
                    if id.peer != peer {
                        Self::lemma_covered_prefix(before, out@, id);
                    }
                }
            }
            n += 1;
        }
        proof {
            assert(keys@.take(keys.len() as int) =~= keys@);
        }
        let ghost pieces = out@;
        let sorted = sort_for_replay(out);
        proof {
            assert(pieces.no_duplicates()) by {
                assert forall|a: int, b: int|
                    0 <= a < pieces.len() && 0 <= b < pieces.len() && a != b implies pieces[a]
                    != pieces[b] by {
                    assert(Self::apart(pieces[a], pieces[b]));
                    assert(self.is_piece(spans@, &pieces[a]));
                }
            }
            lemma_same_items_pairwise(
                pieces,
                sorted@,
                |a: AppDagNode, b: AppDagNode| Self::apart(a, b),
            );
            lemma_same_items(sorted@, pieces);
            assert forall|k: int| 0 <= k < sorted@.len() implies self.is_piece(
                spans@,
                #[trigger] &sorted@[k],
            ) by {
                assert(sorted@.contains(sorted@[k]));
                let j = choose|j: int| 0 <= j < pieces.len() && pieces[j] == sorted@[k];
                assert(self.is_piece(spans@, &pieces[j]));
            }
            assert forall|id: ID|
                spans@.contains_key(id.peer) && spans@[id.peer].covers(
                    id.counter as int,
                ) implies Self::covered(sorted@, id) by {
                Self::lemma_covered_same_items(pieces, sorted@, id);
            }
        }
        sorted
    }

    /// The Lamport clock of an operation made on top of the frontiers: one
    /// more than the largest clock among them, and zero on top of none.
    /// Where each of them is the last operation of its node, that is the
    /// largest of the clocks at which their nodes end.
    pub fn frontiers_to_next_lamport(&self, frontiers: &Frontiers) -> (l: Lamport)
        requires
            self.nodes_wf(),
            self.has_all(frontiers@),
        ensures
            l == self.next_lamport_of(frontiers@),
            frontiers@.len() == 0 ==> l == 0,
    {
        let mut l: Lamport = 0;
        let mut i: usize = 0;
        assert(frontiers@.take(0) =~= Seq::<ID>::empty());
        while i < frontiers.len()
            invariant
                0 <= i <= frontiers@.len(),
                self.nodes_wf(),
                self.has_all(frontiers@),
                l == self.next_lamport_of(frontiers@.take(i as int)),
            decreases frontiers@.len() - i,
        {
            let id = frontiers.get(i);
            proof {
                self.lemma_node_of(id);
                assert(frontiers@.take(i + 1).drop_last() =~= frontiers@.take(i as int));
            }
            let this = self.get_lamport(id) + 1;
            if l < this {
                l = this;
            }
            i += 1;
        }
        assert(frontiers@.take(frontiers@.len() as int) =~= frontiers@);
        l
    }
}

} // verus!
