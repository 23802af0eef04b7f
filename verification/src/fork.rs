//! Copies of a causal graph and of a log.
use std::collections::HashMap;
use vstd::prelude::*;

use crate::arena::SharedArena;
use crate::change::Change;
use crate::dag::{
    chain_extends, chain_ok, in_reach, le_map, same_chain, same_head, same_node, same_nodes, AppDag,
    AppDagNode,
};
use crate::id::{Counter, PeerID, ID};
use crate::op::Op;
use crate::oplog::{changes_chain, OpLog};
use crate::pending::PendingChanges;
use crate::rle::{
    all_wf, atoms, atoms_before, index_at, lemma_atoms_full, lemma_index_exists,
    lemma_index_unique, lemma_prefix_lens, within, Rle, RleVec,
};
use crate::version::{end_of, lemma_take_push_contains, peers_of};

verus! {

broadcast use vstd::std_specs::hash::group_hash_axioms;

/// Whether two chains hold the same changes.
pub open spec fn same_changes(a: Seq<Change<Op>>, b: Seq<Change<Op>>) -> bool {
    &&& a.len() == b.len()
    &&& forall|i: int| 0 <= i < a.len() ==> (#[trigger] a[i]).same_as(&b[i])
}

impl AppDagNode {
    /// A copy of the node.
    pub fn clone_node(&self) -> (r: Self)
        ensures
            same_node(*self, r),
    {
        AppDagNode {
            peer: self.peer,
            cnt: self.cnt,
            lamport: self.lamport,
            deps: self.deps.clone_frontiers(),
            vv: self.vv.clone_im(),
            len: self.len,
        }
    }
}

/// A copy of a chain of nodes.
pub fn clone_nodes(nodes: &RleVec<AppDagNode>) -> (r: RleVec<AppDagNode>)
    ensures
        same_nodes(nodes@, r@),
        r.ends@ == nodes.ends@,
{
    let mut vec: Vec<AppDagNode> = Vec::new();
    let mut ends: Vec<usize> = Vec::new();
    let mut i: usize = 0;
    while i < nodes.vec.len()
        invariant
            0 <= i <= nodes.vec.len(),
            vec@.len() == i,
            forall|j: int| 0 <= j < i ==> same_node(#[trigger] nodes@[j], vec@[j]),
        decreases nodes.vec.len() - i,
    {
        vec.push(nodes.vec[i].clone_node());
        i += 1;
    }
    let mut k: usize = 0;
    while k < nodes.ends.len()
        invariant
            0 <= k <= nodes.ends.len(),
            ends@ == nodes.ends@.take(k as int),
        decreases nodes.ends.len() - k,
    {
        ends.push(nodes.ends[k]);
        k += 1;
        assert(ends@ =~= nodes.ends@.take(k as int));
    }
    assert(nodes.ends@.take(nodes.ends@.len() as int) =~= nodes.ends@);
    RleVec { vec, ends }
}

/// A copy of a chain of changes.
pub fn clone_changes(chain: &RleVec<Change<Op>>) -> (r: RleVec<Change<Op>>)
    requires
        chain.wf(),
    ensures
        same_changes(chain@, r@),
        r.ends@ == chain.ends@,
{
    let mut vec: Vec<Change<Op>> = Vec::new();
    let mut ends: Vec<usize> = Vec::new();
    let mut i: usize = 0;
    while i < chain.vec.len()
        invariant
            0 <= i <= chain.vec.len(),
            chain.wf(),
            vec@.len() == i,
            forall|j: int| 0 <= j < i ==> (#[trigger] chain@[j]).same_as(&vec@[j]),
        decreases chain.vec.len() - i,
    {
        assert(chain@[i as int].wf());
        vec.push(chain.vec[i].clone_change());
        i += 1;
    }
    let mut k: usize = 0;
    while k < chain.ends.len()
        invariant
            0 <= k <= chain.ends.len(),
            ends@ == chain.ends@.take(k as int),
        decreases chain.ends.len() - k,
    {
        ends.push(chain.ends[k]);
        k += 1;
        assert(ends@ =~= chain.ends@.take(k as int));
    }
    assert(chain.ends@.take(chain.ends@.len() as int) =~= chain.ends@);
    RleVec { vec, ends }
}

impl AppDag {
    /// Whether `other` holds the same nodes and covers the same version.
    pub open spec fn mirrors(&self, other: &AppDag) -> bool {
        &&& forall|p: PeerID| self.map@.contains_key(p) <==> other.map@.contains_key(p)
        &&& forall|p: PeerID| #[trigger]
            self.map@.contains_key(p) ==> same_nodes(self.map@[p]@, other.map@[p]@)
                && other.map@[p].ends@ == self.map@[p].ends@
        &&& other.vv@ == self.vv@
    }

    /// The graph that holds the same nodes as a graph holds the same nodes
    /// as that graph.
    pub proof fn lemma_mirror_back(&self, other: &AppDag)
        requires
            self.mirrors(other),
        ensures
            other.mirrors(self),
    {
        assert forall|p: PeerID| #[trigger] other.map@.contains_key(p) implies same_nodes(
            other.map@[p]@,
            self.map@[p]@,
        ) && self.map@[p].ends@ == other.map@[p].ends@ by {
            assert(self.map@.contains_key(p));
            let a = self.map@[p]@;
            let b = other.map@[p]@;
            assert(same_nodes(a, b));
            assert forall|i: int| 0 <= i < b.len() implies same_node(#[trigger] b[i], a[i]) by {
                assert(same_node(a[i], b[i]));
            }
        }
    }

    /// In a graph that holds the same nodes, operations have the same
    /// version and the same clock follows from them.
    pub proof fn lemma_mirror_version_of(&self, other: &AppDag, ids: Seq<ID>)
        requires
            self.nodes_wf(),
            self.mirrors(other),
            self.has_all(ids),
        ensures
            other.has_all(ids),
            other.version_of(ids) == self.version_of(ids),
            other.next_lamport_of(ids) == self.next_lamport_of(ids),
        decreases ids.len(),
    {
        assert forall|i: int| 0 <= i < ids.len() implies other.has(#[trigger] ids[i]) by {
            self.lemma_mirror_keeps(other, ids[i]);
        }
        if ids.len() > 0 {
            let head = ids.drop_last();
            assert forall|i: int| 0 <= i < head.len() implies self.has(#[trigger] head[i]) by {
                assert(head[i] == ids[i]);
            }
            self.lemma_mirror_version_of(other, head);
            assert(self.has(ids[ids.len() - 1]));
            self.lemma_mirror_keeps(other, ids.last());
        }
    }

    /// A graph that holds the same nodes admits the same runs.
    pub proof fn lemma_mirror_admits(
        &self,
        other: &AppDag,
        id: ID,
        lamport: crate::id::Lamport,
        deps: Seq<ID>,
        len: nat,
    )
        requires
            self.wf(),
            self.mirrors(other),
            self.admits(id, lamport, deps, len),
        ensures
            other.admits(id, lamport, deps, len),
    {
        self.lemma_mirror_version_of(other, deps);
        self.lemma_mirror_atoms(other, id.peer, self.nodes(id.peer).len() as int);
        lemma_atoms_full(self.nodes(id.peer));
        lemma_atoms_full(other.nodes(id.peer));
    }

    /// What a graph has grown to by a run, a graph that holds the same
    /// nodes has grown to by the run.
    pub proof fn lemma_mirror_appended(
        &self,
        other: &AppDag,
        id: ID,
        lamport: crate::id::Lamport,
        deps: Seq<ID>,
        len: nat,
        later: &AppDag,
    )
        requires
            self.wf(),
            self.mirrors(other),
            self.admits(id, lamport, deps, len),
            self.appended(id, lamport, deps, len, later),
        ensures
            other.appended(id, lamport, deps, len, later),
    {
        let peer = id.peer;
        self.lemma_mirror_version_of(other, deps);
        self.lemma_mirror_atoms(other, peer, 0);
        assert forall|q: PeerID| q != peer && other.map@.contains_key(q) implies same_chain(
            other.map@[q],
            #[trigger] later.map@[q],
        ) by {
            assert(self.map@.contains_key(q));
            let a = self.map@[q]@;
            let b = other.map@[q]@;
            let c = later.map@[q]@;
            assert(same_chain(self.map@[q], later.map@[q]));
            assert(same_nodes(a, b));
            assert forall|i: int| 0 <= i < b.len() implies same_node(#[trigger] b[i], c[i]) by {
                assert(same_node(a[i], b[i]));
                assert(same_node(a[i], c[i]));
            }
        }
        let a = self.nodes(peer);
        let b = other.nodes(peer);
        let c = later.nodes(peer);
        if self.map@.contains_key(peer) {
            assert(same_nodes(self.map@[peer]@, other.map@[peer]@));
        }
        assert forall|i: int| 0 <= i < b.len() implies same_head(#[trigger] b[i], c[i]) by {
            assert(same_node(a[i], b[i]));
            assert(same_head(a[i], c[i]));
        }
        assert forall|i: int| 0 <= i < b.len() - 1 implies (#[trigger] b[i]).len == c[i].len by {
            assert(same_node(a[i], b[i]));
            assert(a[i].len == c[i].len);
        }
        if b.len() > 0 {
            assert(same_node(a[a.len() - 1], b[a.len() - 1]));
        }
        assert(chain_extends(b, c));
    }

    /// What a graph has grown to by a run holds the same nodes whichever
    /// way it came about.
    pub proof fn lemma_appended_is_one(
        &self,
        id: ID,
        lamport: crate::id::Lamport,
        deps: Seq<ID>,
        len: nat,
        one: &AppDag,
        two: &AppDag,
    )
        requires
            self.wf(),
            self.admits(id, lamport, deps, len),
            self.appended(id, lamport, deps, len, one),
            self.appended(id, lamport, deps, len, two),
        ensures
            one.mirrors(two),
    {
        let peer = id.peer;
        assert forall|p: PeerID| #[trigger] one.map@.contains_key(p) implies two.map@.contains_key(
            p,
        ) && same_nodes(one.map@[p]@, two.map@[p]@) && two.map@[p].ends@ == one.map@[p].ends@ by {
            let b = one.map@[p]@;
            let c = two.map@[p]@;
            if p != peer {
                assert(self.map@.contains_key(p));
                let a = self.map@[p]@;
                assert(same_chain(self.map@[p], one.map@[p]));
                assert(same_chain(self.map@[p], two.map@[p]));
                assert forall|i: int| 0 <= i < b.len() implies same_node(#[trigger] b[i], c[i]) by {
                    assert(same_node(a[i], b[i]));
                    assert(same_node(a[i], c[i]));
                }
            } else {
                let a = self.nodes(peer);
                self.lemma_admits(id, lamport, deps, len);
                assert(chain_ok(b, peer) && chain_ok(c, peer));
                assert(one.map@[p].wf() && two.map@[p].wf());
                assert(b.len() == c.len());
                let n = b.len() - 1;
                assert forall|i: int| 0 <= i < b.len() implies same_node(#[trigger] b[i], c[i]) by {
                    if i < a.len() {
                        assert(same_head(a[i], b[i]));
                        assert(same_head(a[i], c[i]));
                        if i < a.len() - 1 {
                            assert(a[i].len == b[i].len);
                            assert(a[i].len == c[i].len);
                        } else if !Self::self_dep(id, deps) {
                            // the node that was the last ends where the new one starts
                            assert(b[i].cnt == atoms_before(b, i));
                            assert(c[i].cnt == atoms_before(c, i));
                            assert(b[i + 1].cnt == atoms_before(b, i + 1));
                            assert(c[i + 1].cnt == atoms_before(c, i + 1));
                            crate::rle::lemma_atoms_step(b, i);
                            crate::rle::lemma_atoms_step(c, i);
                        }
                    } else {
                        assert(b[i] == b.last() && c[i] == c.last());
                        assert(b[i].peer == peer && c[i].peer == peer);
                    }
                }
                assert forall|k: int| 0 <= k <= b.len() implies atoms_before(b, k) == atoms_before(
                    c,
                    k,
                ) by {
                    assert forall|i: int| 0 <= i < k implies (#[trigger] b[i]).rle_len()
                        == c[i].rle_len() by {
                        assert(same_node(b[i], c[i]));
                    }
                    lemma_prefix_lens(b, c, k);
                }
                assert(two.map@[p].ends@ =~= one.map@[p].ends@) by {
                    assert forall|i: int| 0 <= i < one.map@[p].ends@.len() implies one.map@[p].ends@[i]
                        == two.map@[p].ends@[i] by {
                        assert(one.map@[p].ends@[i] == atoms_before(b, i + 1));
                        assert(two.map@[p].ends@[i] == atoms_before(c, i + 1));
                    }
                }
            }
        }
        assert forall|p: PeerID| two.map@.contains_key(p) implies one.map@.contains_key(p) by {
            if p != peer {
                assert(self.map@.contains_key(p));
            }
        }
        assert(two.vv@ =~= one.vv@);
    }

    /// In a graph that holds the same nodes every operation lies at the
    /// same place, with the same clock and the same version.
    pub proof fn lemma_mirror_keeps(&self, other: &AppDag, id: ID)
        requires
            self.nodes_wf(),
            self.mirrors(other),
            self.has(id),
        ensures
            other.has(id),
            same_node(self.node_of(id), other.node_of(id)),
            other.lamport_of(id) == self.lamport_of(id),
            other.version_at(id) == self.version_at(id),
    {
        let a = self.nodes(id.peer);
        let b = other.nodes(id.peer);
        self.lemma_node_of(id);
        self.lemma_mirror_atoms(other, id.peer, a.len() as int);
        lemma_atoms_full(a);
        lemma_atoms_full(b);
        let i = index_at(a, id.counter as int);
        lemma_index_exists(a, id.counter as int);
        assert(within(a, i, id.counter as int));
        self.lemma_mirror_atoms(other, id.peer, i);
        self.lemma_mirror_atoms(other, id.peer, i + 1);
        assert(all_wf(b)) by {
            assert forall|k: int| 0 <= k < b.len() implies (#[trigger] b[k]).rle_wf() by {
                assert(same_node(a[k], b[k]));
                assert(a[k].rle_wf());
            }
        }
        lemma_index_unique(b, i, id.counter as int);
        assert(same_node(a[i], b[i]));
    }

    /// In a graph that holds the same nodes the chains are as long, item by
    /// item.
    pub proof fn lemma_mirror_atoms(&self, other: &AppDag, p: PeerID, k: int)
        requires
            self.mirrors(other),
            0 <= k <= self.nodes(p).len(),
        ensures
            self.nodes(p).len() == other.nodes(p).len(),
            atoms_before(other.nodes(p), k) == atoms_before(self.nodes(p), k),
    {
        let a = self.nodes(p);
        let b = other.nodes(p);
        if self.map@.contains_key(p) {
            assert(same_nodes(self.map@[p]@, other.map@[p]@));
            assert forall|i: int| 0 <= i < k implies (#[trigger] a[i]).rle_len() == b[i].rle_len() by {
                assert(same_node(a[i], b[i]));
            }
            lemma_prefix_lens(a, b, k);
        } else {
            assert(!other.map@.contains_key(p));
        }
    }

    /// A graph that holds the same nodes has the same heads.
    pub proof fn lemma_mirror_heads(&self, other: &AppDag, v: Map<PeerID, Counter>)
        requires
            self.nodes_wf(),
            self.mirrors(other),
            self.within_graph(v),
        ensures
            other.heads(v) == self.heads(v),
    {
        assert forall|q: PeerID| #[trigger] in_reach(v, q) && v[q] > 0 implies other.node_of(
            Self::top(q, v[q]),
        ).vv@ == self.node_of(Self::top(q, v[q])).vv@ by {
            self.lemma_mirror_keeps(other, Self::top(q, v[q]));
        }
        assert forall|p: PeerID| other.is_head(v, p) <==> self.is_head(v, p) by {
            if other.is_head(v, p) {
                assert forall|q: PeerID| #[trigger] in_reach(v, q) && q != p && v[q] > 0 implies end_of(
                    self.node_of(Self::top(q, v[q])).vv@,
                    p,
                ) < end_of(v, p) by {}
            }
            if self.is_head(v, p) {
                assert forall|q: PeerID| #[trigger] in_reach(v, q) && q != p && v[q] > 0 implies end_of(
                    other.node_of(Self::top(q, v[q])).vv@,
                    p,
                ) < end_of(v, p) by {}
            }
        }
        assert(other.heads(v) =~= self.heads(v));
    }

    /// A graph that holds the same nodes as a sound graph is sound.
    pub proof fn lemma_mirror_wf(&self, other: &AppDag)
        requires
            self.wf(),
            self.mirrors(other),
            other.frontiers.wf(),
        ensures
            other.wf(),
            forall|p: PeerID| other.end(p) == self.end(p),
    {
        assert forall|p: PeerID| other.end(p) == self.end(p) by {
            self.lemma_mirror_atoms(other, p, self.nodes(p).len() as int);
            lemma_atoms_full(self.nodes(p));
            lemma_atoms_full(other.nodes(p));
        }
        assert forall|p: PeerID| #[trigger] other.map@.contains_key(p) implies other.map@[p].wf()
            && chain_ok(other.map@[p]@, p) by {
            let a = self.map@[p]@;
            let b = other.map@[p]@;
            assert(self.map@.contains_key(p));
            assert(same_nodes(a, b));
            assert(chain_ok(a, p));
            assert forall|k: int| 0 <= k < b.len() implies (#[trigger] b[k]).rle_wf() by {
                assert(same_node(a[k], b[k]));
                assert(a[k].rle_wf());
            }
            assert forall|i: int| 0 <= i < b.len() implies (#[trigger] b[i]).peer == p && b[i].cnt
                == atoms_before(b, i) by {
                assert(same_node(a[i], b[i]));
                self.lemma_mirror_atoms(other, p, i);
            }
            assert forall|i: int, j: int| 0 <= i < j < b.len() implies (
            #[trigger] b[i]).spec_lamport_end() <= (#[trigger] b[j]).lamport by {
                assert(same_node(a[i], b[i]));
                assert(same_node(a[j], b[j]));
                assert(a[i].spec_lamport_end() <= a[j].lamport);
            }
            assert forall|i: int| 0 <= i < other.map@[p].ends@.len() implies #[trigger] other.map@[p].ends@[i]
                == atoms_before(b, i + 1) by {
                self.lemma_mirror_atoms(other, p, i + 1);
                assert(self.map@[p].ends@[i] == atoms_before(a, i + 1));
            }
        }
        assert forall|p: PeerID, i: int|
            other.map@.contains_key(p) && 0 <= i < other.map@[p]@.len() implies other.node_ok(
            #[trigger] other.map@[p]@[i],
        ) by {
            let n = self.map@[p]@[i];
            let m = other.map@[p]@[i];
            assert(self.map@.contains_key(p));
            assert(same_nodes(self.map@[p]@, other.map@[p]@));
            assert(same_node(n, m));
            assert(self.node_ok(n));
            assert forall|q: PeerID| #[trigger] in_reach(m.vv@, q) implies {
                &&& 0 < m.vv@[q] <= other.end(q)
                &&& other.lamport_of(Self::top(q, m.vv@[q])) < m.lamport
                &&& le_map(other.version_at(Self::top(q, m.vv@[q])), m.vv@)
            } by {
                assert(in_reach(n.vv@, q));
                self.lemma_mirror_keeps(other, Self::top(q, n.vv@[q]));
            }
            assert forall|k: int| 0 <= k < m.deps@.len() implies other.has(#[trigger] m.deps@[k])
                && m.vv.includes(m.deps@[k]) && other.lamport_of(m.deps@[k]) < m.lamport by {
                assert(self.has(n.deps@[k]));
                self.lemma_mirror_keeps(other, n.deps@[k]);
            }
        }
        assert forall|p: PeerID| #[trigger] other.vv.end(p) == other.end(p) by {
            assert(self.vv.end(p) == self.end(p));
        }
    }

    /// A copy of the graph.
    pub fn clone_dag(&self) -> (r: Self)
        ensures
            self.mirrors(&r),
            r.frontiers@ == self.frontiers@,
    {
        let mut map: HashMap<PeerID, RleVec<AppDagNode>> = HashMap::new();
        let keys = peers_of(&self.map);
        let mut n: usize = 0;
        while n < keys.len()
            invariant
                0 <= n <= keys.len(),
                keys@.no_duplicates(),
                forall|p: PeerID| keys@.contains(p) <==> self.map@.contains_key(p),
                forall|p: PeerID| map@.contains_key(p) <==> keys@.take(n as int).contains(p),
                forall|p: PeerID| #[trigger]
                    map@.contains_key(p) ==> same_nodes(self.map@[p]@, map@[p]@) && map@[p].ends@
                        == self.map@[p].ends@,
            decreases keys.len() - n,
        {
            let p = keys[n];
            assert(keys@.contains(p));
            proof {
                lemma_take_push_contains(keys@, n as int);
            }
            let nodes = clone_nodes(self.map.get(&p).unwrap());
            map.insert(p, nodes);
            n += 1;
        }
        proof {
            assert(keys@.take(keys.len() as int) =~= keys@);
            assert forall|p: PeerID| self.map@.contains_key(p) <==> map@.contains_key(p) by {
                assert(keys@.contains(p) <==> self.map@.contains_key(p));
            }
            assert forall|p: PeerID| #[trigger] self.map@.contains_key(p) implies same_nodes(
                self.map@[p]@,
                map@[p]@,
            ) && map@[p].ends@ == self.map@[p].ends@ by {
                assert(keys@.contains(p));
                assert(map@.contains_key(p));
            }
        }
        AppDag { map, frontiers: self.frontiers.clone_frontiers(), vv: self.vv.clone_vv() }
    }
}

impl OpLog {
    /// Whether `other` holds the same history: the same graph, the same
    /// changes and the same clocks.
    pub open spec fn same_history(&self, other: &OpLog) -> bool {
        &&& self.dag.mirrors(&other.dag)
        &&& other.dag.frontiers@ == self.dag.frontiers@
        &&& forall|p: PeerID| self.changes@.contains_key(p) <==> other.changes@.contains_key(p)
        &&& forall|p: PeerID| #[trigger]
            self.changes@.contains_key(p) ==> same_changes(self.changes@[p]@, other.changes@[p]@)
                && other.changes@[p].ends@ == self.changes@[p].ends@
        &&& other.next_lamport == self.next_lamport
        &&& other.latest_timestamp == self.latest_timestamp
    }

    /// A log that holds the same history as a sound log is sound.
    pub proof fn lemma_same_history_wf(&self, other: &OpLog)
        requires
            self.wf(),
            self.same_history(other),
            other.arena.wf(),
            other.pending_changes.wf(),
        ensures
            other.wf(),
    {
        self.dag.lemma_mirror_wf(&other.dag);
        assert forall|p: PeerID| #[trigger] other.changes@.contains_key(p) implies {
            &&& other.changes@[p].wf()
            &&& changes_chain(other.changes@[p]@, p)
            &&& atoms(other.changes@[p]@) == other.dag.end(p)
        } by {
            let a = self.changes@[p]@;
            let b = other.changes@[p]@;
            assert(self.changes@.contains_key(p));
            assert(same_changes(a, b));
            assert(changes_chain(a, p));
            assert forall|k: int| 0 <= k < b.len() implies (#[trigger] b[k]).rle_wf() by {
                assert(a[k].same_as(&b[k]));
                assert(a[k].rle_wf());
            }
            assert forall|k: int| 0 <= k <= b.len() implies atoms_before(b, k) == atoms_before(
                a,
                k,
            ) by {
                assert forall|i: int| 0 <= i < k implies (#[trigger] a[i]).rle_len()
                    == b[i].rle_len() by {
                    assert(a[i].same_as(&b[i]));
                }
                lemma_prefix_lens(a, b, k);
            }
            lemma_atoms_full(a);
            lemma_atoms_full(b);
            assert forall|i: int| 0 <= i < b.len() implies (#[trigger] b[i]).id.peer == p
                && b[i].id.counter == atoms_before(b, i) by {
                assert(a[i].same_as(&b[i]));
                assert(a[i].id.counter == atoms_before(a, i));
            }
            assert forall|i: int| 0 <= i < other.changes@[p].ends@.len() implies #[trigger] other.changes@[p].ends@[i]
                == atoms_before(b, i + 1) by {
                assert(self.changes@[p].ends@[i] == atoms_before(a, i + 1));
            }
        }
        assert forall|p: PeerID, i: int|
            other.changes@.contains_key(p) && 0 <= i < other.changes@[p]@.len() implies other.change_ok(
            #[trigger] other.changes@[p]@[i],
        ) by {
            let c = self.changes@[p]@[i];
            let d = other.changes@[p]@[i];
            assert(self.changes@.contains_key(p));
            assert(same_changes(self.changes@[p]@, other.changes@[p]@));
            assert(c.same_as(&d));
            assert(self.change_ok(c));
            self.dag.lemma_mirror_keeps(&other.dag, c.id);
        }
    }

    /// A copy of the log: the same graph, changes and clocks, over a new
    /// and empty arena, with no change waiting.
    pub fn clone(&self) -> (r: Self)
        requires
            self.wf(),
        ensures
            r.wf(),
            self.same_history(&r),
            r.arena.containers@.len() == 0 && r.arena.text@.len() == 0 && r.arena.values@.len()
                == 0,
            r.pending_changes.entries@.len() == 0,
            self.dag.frontiers_current() ==> r.dag.frontiers_current(),
    {
        let dag = self.dag.clone_dag();
        let mut changes: HashMap<PeerID, RleVec<Change<Op>>> = HashMap::new();
        let keys = peers_of(&self.changes);
        let mut n: usize = 0;
        while n < keys.len()
            invariant
                0 <= n <= keys.len(),
                self.wf(),
                keys@.no_duplicates(),
                forall|p: PeerID| keys@.contains(p) <==> self.changes@.contains_key(p),
                forall|p: PeerID| changes@.contains_key(p) <==> keys@.take(n as int).contains(p),
                forall|p: PeerID| #[trigger]
                    changes@.contains_key(p) ==> same_changes(self.changes@[p]@, changes@[p]@)
                        && changes@[p].ends@ == self.changes@[p].ends@,
            decreases keys.len() - n,
        {
            let p = keys[n];
            assert(keys@.contains(p));
            proof {
                lemma_take_push_contains(keys@, n as int);
            }
            let chain = clone_changes(self.changes.get(&p).unwrap());
            changes.insert(p, chain);
            n += 1;
        }
        proof {
            assert(keys@.take(keys.len() as int) =~= keys@);
            assert forall|p: PeerID| self.changes@.contains_key(p) <==> changes@.contains_key(p) by {
                assert(keys@.contains(p) <==> self.changes@.contains_key(p));
            }
            assert forall|p: PeerID| #[trigger] self.changes@.contains_key(p) implies same_changes(
                self.changes@[p]@,
                changes@[p]@,
            ) && changes@[p].ends@ == self.changes@[p].ends@ by {
                assert(keys@.contains(p));
                assert(changes@.contains_key(p));
            }
        }
        let r = OpLog {
            dag,
            arena: SharedArena::new(),
            changes,
            next_lamport: self.next_lamport,
            latest_timestamp: self.latest_timestamp,
            pending_changes: PendingChanges::new(),
        };
        proof {
            self.lemma_same_history_wf(&r);
            assert forall|q: PeerID| #[trigger] in_reach(self.dag.vv@, q) implies self.dag.vv@[q]
                <= self.dag.end(q) by {
                assert(self.dag.vv.end(q) == self.dag.end(q));
            }
            self.dag.lemma_mirror_heads(&r.dag, self.dag.vv@);
        }
        r
    }
}

impl Default for OpLog {
    fn default() -> (r: Self)
        ensures
            r.wf(),
            r.dag.map@ == Map::<PeerID, RleVec<AppDagNode>>::empty(),
            r.changes@ == Map::<PeerID, RleVec<Change<Op>>>::empty(),
            r.next_lamport == 0,
            r.dag.frontiers_current(),
            r.resolved(),
    {
        OpLog::new()
    }
}

} // verus!
