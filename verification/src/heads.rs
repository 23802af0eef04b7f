//! The heads of the version of a causal graph, and how they move when the
//! graph grows.
use vstd::prelude::*;

use crate::dag::{chain_ok, in_reach, le_map, AppDag, AppDagNode};
use crate::id::{Counter, Lamport, PeerID, ID};
use crate::rle::{
    atoms_before, index_at, lemma_atoms_empty, lemma_atoms_full, lemma_atoms_monotone,
    lemma_atoms_step, Rle,
};
use crate::version::{end_of, met};

verus! {

impl AppDag {
    /// Whether the frontiers of the graph are the heads of its version.
    pub open spec fn frontiers_current(&self) -> bool {
        self.frontiers.set() == self.heads(self.vv@)
    }

    /// The version of the graph holds a peer exactly where the graph has
    /// operations of it.
    pub proof fn lemma_version_positive(&self, q: PeerID)
        requires
            self.wf(),
        ensures
            self.vv@.contains_key(q) <==> self.end(q) > 0,
            self.vv@.contains_key(q) ==> self.vv@[q] == self.end(q),
            end_of(self.vv@, q) == self.end(q),
    {
        assert(self.vv.end(q) == self.end(q));
        if self.map@.contains_key(q) {
            let nodes = self.map@[q]@;
            assert(chain_ok(nodes, q));
            lemma_atoms_monotone(nodes, 0, nodes.len() as int);
            lemma_atoms_full(nodes);
            lemma_atoms_empty(nodes);
        } else {
            lemma_atoms_empty(Seq::<AppDagNode>::empty());
        }
    }

    /// Along the operations of one peer the versions of the nodes grow.
    pub proof fn lemma_versions_grow(&self, p: PeerID, i: int, j: int)
        requires
            self.nodes_wf(),
            self.map@.contains_key(p),
            0 <= i <= j < self.map@[p]@.len(),
        ensures
            le_map(self.map@[p]@[i].vv@, self.map@[p]@[j].vv@),
        decreases j - i,
    {
        let nodes = self.map@[p]@;
        if i < j {
            self.lemma_versions_grow(p, i, j - 1);
            let n = nodes[j];
            let m = nodes[j - 1];
            assert(self.node_ok(self.map@[p]@[j]));
            assert(chain_ok(nodes, p));
            assert(n.peer == p && m.peer == p);
            assert(n.cnt == atoms_before(nodes, j));
            assert(m.cnt == atoms_before(nodes, j - 1));
            assert(m.wf());
            lemma_atoms_step(nodes, j - 1);
            lemma_atoms_monotone(nodes, 0, j - 1);
            lemma_atoms_empty(nodes);
            // the node before `n` ends just before `n`, which `n` has seen
            assert(n.cnt > 0);
            assert(end_of(n.vv@, p) == n.cnt);
            assert(in_reach(n.vv@, p));
            let t = Self::top(p, n.vv@[p]);
            self.lemma_in_node(p, j - 1, t.counter as int);
            assert(self.node_of(t) == m);
            self.lemma_version_at(t);
            assert(le_map(self.version_at(t), n.vv@));
            assert forall|r: PeerID| #[trigger] end_of(nodes[i].vv@, r) <= end_of(n.vv@, r) by {
                assert(end_of(nodes[i].vv@, r) <= end_of(m.vv@, r));
                assert(end_of(m.vv@, r) <= end_of(self.version_at(t), r));
                assert(end_of(self.version_at(t), r) <= end_of(n.vv@, r));
            }
        }
    }

    /// The node of an earlier operation of a peer has seen no more than
    /// the node of a later one.
    pub proof fn lemma_seen_grows(&self, x: ID, y: ID)
        requires
            self.nodes_wf(),
            self.has(x),
            self.has(y),
            x.peer == y.peer,
            x.counter <= y.counter,
        ensures
            le_map(self.node_of(x).vv@, self.node_of(y).vv@),
    {
        self.lemma_node_of(x);
        self.lemma_node_of(y);
        let nodes = self.nodes(x.peer);
        let i = index_at(nodes, x.counter as int);
        let j = index_at(nodes, y.counter as int);
        if j < i {
            lemma_atoms_step(nodes, j);
            lemma_atoms_monotone(nodes, j + 1, i);
            assert(nodes[i].cnt == atoms_before(nodes, i));
            assert(nodes[j].cnt == atoms_before(nodes, j));
        }
        self.lemma_versions_grow(x.peer, i, j);
    }

    /// What the version of an operation holds of another peer, the node of
    /// the operation has seen.
    pub proof fn lemma_version_at_other(&self, d: ID, r: PeerID)
        requires
            self.nodes_wf(),
            self.has(d),
        ensures
            d.peer != r ==> end_of(self.version_at(d), r) == end_of(self.node_of(d).vv@, r),
            d.peer == r ==> end_of(self.version_at(d), r) == d.counter + 1,
    {
        self.lemma_node_of(d);
        self.lemma_version_at(d);
    }

    /// How the heads move when a run is added to the graph: the last
    /// operation of the run becomes a head; a head of another peer stays
    /// one unless the run depends on it; and there is no other head.
    pub proof fn lemma_heads_after_append(
        &self,
        later: &AppDag,
        id: ID,
        lamport: Lamport,
        deps: Seq<ID>,
        len: nat,
        x: ID,
    )
        requires
            self.wf(),
            self.admits(id, lamport, deps, len),
            self.appended(id, lamport, deps, len, later),
        ensures
            later.heads(later.vv@).contains(x) <==> (x == (ID {
                peer: id.peer,
                counter: (id.counter + len - 1) as Counter,
            }) || (self.heads(self.vv@).contains(x) && x.peer != id.peer && !deps.contains(x))),
    {
        let p = id.peer;
        let v = self.vv@;
        let w = later.vv@;
        let fin = (id.counter + len) as Counter;
        let last = ID { peer: p, counter: (fin - 1) as Counter };
        let r = x.peer;
        self.lemma_admits(id, lamport, deps, len);
        self.lemma_version_positive(p);
        self.lemma_version_positive(r);
        later.lemma_version_positive(p);
        later.lemma_version_positive(r);
        assert(end_of(w, p) == fin);
        // the node that holds the end of the run
        later.lemma_in_node_last(p, fin);
        let grown = later.node_of(Self::top(p, fin));
        assert(grown == later.nodes(p).last());
        // what the node of the last operation of another peer has seen has not changed
        assert forall|q: PeerID| q != p && #[trigger] in_reach(v, q) implies later.node_of(
            Self::top(q, v[q]),
        ).vv@ == self.node_of(Self::top(q, v[q])).vv@ && self.has(Self::top(q, v[q])) by {
            self.lemma_version_positive(q);
            self.lemma_grows_keeps(later, p, Self::top(q, v[q]));
        }
        assert forall|q: PeerID| q != p implies (#[trigger] in_reach(w, q) <==> in_reach(v, q)) && (
        in_reach(v, q) ==> w[q] == v[q]) by {}
        if r == p {
            if x == last {
                assert forall|q: PeerID| #[trigger] in_reach(w, q) && q != p && w[q] > 0 implies end_of(
                    later.node_of(Self::top(q, w[q])).vv@,
                    p,
                ) < end_of(w, p) by {
                    assert(in_reach(v, q));
                    let t = Self::top(q, v[q]);
                    self.lemma_node_of(t);
                    let n = self.node_of(t);
                    assert(self.node_ok(n));
                    if n.vv@.contains_key(p) {
                        assert(in_reach(n.vv@, p));
                    }
                }
                assert(later.is_head(w, p));
            }
        } else {
            let here = end_of(v, r);
            assert(end_of(w, r) == here);
            // what the node that grew has seen of `r`
            let seen = end_of(grown.vv@, r);
            // what the last node of the peer had seen of `r` before
            let before_seen = if id.counter > 0 {
                end_of(self.node_of(Self::top(p, id.counter)).vv@, r)
            } else {
                0
            };
            if id.counter > 0 {
                let prev = Self::top(p, id.counter);
                assert(self.has(prev));
                assert(in_reach(v, p));
                if Self::self_dep(id, deps) {
                    self.lemma_grows_keeps(later, p, prev);
                    self.lemma_in_node_last(p, id.counter);
                    assert(later.node_of(prev) == grown) by {
                        assert(index_at(later.nodes(p), prev.counter as int) == index_at(
                            self.nodes(p),
                            prev.counter as int,
                        ));
                    }
                    assert(seen == before_seen);
                    assert(deps[0].peer == p);
                    assert(!deps.contains(x)) by {
                        if deps.contains(x) {
                            let i = choose|i: int| 0 <= i < deps.len() && deps[i] == x;
                            assert(i == 0);
                        }
                    }
                } else {
                    // the run has seen what the operations of its peer had seen before
                    let d = self.version_of(deps);
                    assert(grown.vv@ == d);
                    assert(in_reach(d, p));
                    assert(le_map(self.version_at(Self::top(p, d[p])), d));
                    self.lemma_version_at(prev);
                    assert(end_of(self.node_of(prev).vv@, r) <= end_of(self.version_at(prev), r));
                    assert(end_of(self.version_at(prev), r) <= end_of(d, r));
                    assert(before_seen <= seen);
                }
            } else {
                assert(!in_reach(v, p));
                assert(!Self::self_dep(id, deps));
            }
            if !Self::self_dep(id, deps) {
                let d = self.version_of(deps);
                assert(grown.vv@ == d);
                if d.contains_key(r) {
                    assert(in_reach(d, r));
                }
                assert(seen <= here);
                if here > 0 {
                    let t = Self::top(r, v[r]);
                    if deps.contains(t) {
                        let i = choose|i: int| 0 <= i < deps.len() && deps[i] == t;
                        self.lemma_version_of(deps);
                        assert(le_map(self.version_at(deps[i]), d));
                        self.lemma_version_at_other(t, r);
                        assert(end_of(self.version_at(t), r) <= end_of(d, r));
                        assert(seen >= here);
                    }
                    if seen >= here && self.is_head(v, r) {
                        // some dependency has seen the last operation of `r`: it is that operation
                        assert(in_reach(d, r));
                        self.lemma_version_of_set(deps);
                        let dep = choose|dep: ID|
                            deps.to_set().contains(dep) && #[trigger] in_reach(
                                self.version_at(dep),
                                r,
                            ) && self.version_at(dep)[r] == d[r];
                        assert(deps.contains(dep));
                        let i = choose|i: int| 0 <= i < deps.len() && deps[i] == dep;
                        assert(self.has(deps[i]));
                        self.lemma_version_at_other(dep, r);
                        if dep.peer != r {
                            let s = dep.peer;
                            self.lemma_version_positive(s);
                            assert(in_reach(v, s));
                            let ts = Self::top(s, v[s]);
                            self.lemma_seen_grows(dep, ts);
                            assert(end_of(self.node_of(dep).vv@, r) <= end_of(
                                self.node_of(ts).vv@,
                                r,
                            ));
                            assert(false);
                        }
                        assert(dep == t);
                        assert(deps.contains(t));
                    }
                }
            }
            // the last operation of `r` is a head after the run exactly where it was one
            // before and the node that grew has not seen it
            if x.counter == here - 1 && here > 0 {
                if later.is_head(w, r) {
                    assert(in_reach(w, p));
                    assert(seen < here);
                    assert forall|q: PeerID|
                        #[trigger] in_reach(v, q) && q != r && v[q] > 0 implies end_of(
                        self.node_of(Self::top(q, v[q])).vv@,
                        r,
                    ) < end_of(v, r) by {
                        if q != p {
                            assert(in_reach(w, q));
                        }
                    }
                    assert(self.is_head(v, r));
                }
                if self.is_head(v, r) && seen < here {
                    assert forall|q: PeerID|
                        #[trigger] in_reach(w, q) && q != r && w[q] > 0 implies end_of(
                        later.node_of(Self::top(q, w[q])).vv@,
                        r,
                    ) < end_of(w, r) by {
                        if q != p {
                            assert(in_reach(v, q));
                        }
                    }
                    assert(later.is_head(w, r));
                }
                if self.is_head(v, r) && Self::self_dep(id, deps) {
                    assert(in_reach(v, p));
                    assert(before_seen < here);
                }
            }
        }
    }

    /// Whether `v` is a version of the graph: it reaches only operations
    /// that the graph holds, and holds all that comes before the operations
    /// that it holds.
    pub open spec fn is_version(&self, v: Map<PeerID, Counter>) -> bool {
        self.reach_ok(v, 0x1_0000_0000)
    }

    /// What a sound graph covers is a version: it holds all that its
    /// operations depend on.
    pub proof fn lemma_own_version(&self)
        requires
            self.wf(),
        ensures
            self.is_version(self.vv@),
            self.within_graph(self.vv@),
    {
        let v = self.vv@;
        assert forall|q: PeerID| #[trigger] in_reach(v, q) implies {
            &&& 0 < v[q] <= self.end(q)
            &&& self.lamport_of(Self::top(q, v[q])) < 0x1_0000_0000
            &&& le_map(self.version_at(Self::top(q, v[q])), v)
        } by {
            self.lemma_version_positive(q);
            let t = Self::top(q, v[q]);
            self.lemma_node_of(t);
            self.lemma_version_at(t);
            assert forall|r: PeerID| #[trigger]
                end_of(self.version_at(t), r) <= end_of(v, r) by {
                self.lemma_version_positive(r);
                if self.version_at(t).contains_key(r) {
                    assert(in_reach(self.version_at(t), r));
                }
            }
        }
        assert forall|q: PeerID| #[trigger] in_reach(v, q) implies v[q] <= self.end(q) by {
            self.lemma_version_positive(q);
        }
    }

    /// Along the operations of one peer the versions grow.
    pub proof fn lemma_version_at_grows(&self, x: ID, y: ID)
        requires
            self.nodes_wf(),
            self.has(x),
            self.has(y),
            x.peer == y.peer,
            x.counter <= y.counter,
        ensures
            le_map(self.version_at(x), self.version_at(y)),
            self.lamport_of(x) <= self.lamport_of(y),
    {
        self.lemma_seen_grows(x, y);
        self.lemma_node_of(x);
        self.lemma_node_of(y);
        let nx = self.node_of(x);
        let ny = self.node_of(y);
        assert(self.node_ok(nx) && self.node_ok(ny));
        assert forall|r: PeerID| #[trigger]
            end_of(self.version_at(x), r) <= end_of(self.version_at(y), r) by {
            assert(end_of(nx.vv@, r) <= end_of(ny.vv@, r));
        }
        let nodes = self.nodes(x.peer);
        let i = index_at(nodes, x.counter as int);
        let j = index_at(nodes, y.counter as int);
        assert(nodes[i].cnt == atoms_before(nodes, i));
        assert(nodes[j].cnt == atoms_before(nodes, j));
        lemma_atoms_step(nodes, i);
        lemma_atoms_step(nodes, j);
        if j < i {
            lemma_atoms_monotone(nodes, j + 1, i);
        }
        if i < j {
            assert(nodes[i].spec_lamport_end() <= nodes[j].lamport);
        }
    }

    /// What two versions of the graph share is a version of the graph.
    pub proof fn lemma_met_is_version(&self, a: Map<PeerID, Counter>, b: Map<PeerID, Counter>)
        requires
            self.nodes_wf(),
            self.is_version(a),
            self.is_version(b),
        ensures
            self.is_version(met(a, b)),
    {
        let m = met(a, b);
        assert forall|q: PeerID| #[trigger] in_reach(m, q) implies {
            &&& 0 < m[q] <= self.end(q)
            &&& self.lamport_of(Self::top(q, m[q])) < 0x1_0000_0000
            &&& le_map(self.version_at(Self::top(q, m[q])), m)
        } by {
            assert(in_reach(a, q) && in_reach(b, q));
            let t = Self::top(q, m[q]);
            let ta = Self::top(q, a[q]);
            let tb = Self::top(q, b[q]);
            self.lemma_version_at_grows(t, ta);
            self.lemma_version_at_grows(t, tb);
            self.lemma_version_at(t);
            assert forall|r: PeerID| #[trigger] end_of(self.version_at(t), r) <= end_of(m, r) by {
                assert(end_of(self.version_at(t), r) <= end_of(self.version_at(ta), r));
                assert(end_of(self.version_at(ta), r) <= end_of(a, r));
                assert(end_of(self.version_at(t), r) <= end_of(self.version_at(tb), r));
                assert(end_of(self.version_at(tb), r) <= end_of(b, r));
                if self.version_at(t).contains_key(r) {
                    assert(in_reach(self.version_at(t), r));
                    assert(a.contains_key(r) && b.contains_key(r));
                }
            }
        }
    }

    /// Every operation of a version comes before one of the heads of the
    /// version, or is one of them.
    pub proof fn lemma_heads_cover(&self, v: Map<PeerID, Counter>, q: PeerID) -> (h: ID)
        requires
            self.nodes_wf(),
            self.is_version(v),
            in_reach(v, q),
        ensures
            self.heads(v).contains(h),
            self.has(h),
            end_of(self.version_at(h), q) == v[q],
        decreases 0x1_0000_0000 - self.lamport_of(Self::top(q, v[q])),
    {
        let t = Self::top(q, v[q]);
        self.lemma_version_at(t);
        if self.is_head(v, q) {
            t
        } else {
            let q2 = choose|q2: PeerID|
                #[trigger] in_reach(v, q2) && q2 != q && v[q2] > 0 && !(end_of(
                    self.node_of(Self::top(q2, v[q2])).vv@,
                    q,
                ) < end_of(v, q));
            let t2 = Self::top(q2, v[q2]);
            let n2 = self.node_of(t2);
            self.lemma_node_of(t2);
            self.lemma_version_at(t2);
            assert(self.node_ok(n2));
            assert(le_map(self.version_at(t2), v));
            assert(end_of(n2.vv@, q) <= end_of(self.version_at(t2), q));
            assert(end_of(self.version_at(t2), q) <= end_of(v, q));
            assert(in_reach(n2.vv@, q));
            assert(n2.vv@[q] == v[q]);
            assert(self.lamport_of(t) < n2.lamport);
            let h = self.lemma_heads_cover(v, q2);
            self.lemma_version_at(h);
            assert(in_reach(self.version_at(h), q2));
            assert(le_map(self.version_at(Self::top(q2, self.version_at(h)[q2])), self.version_at(h)));
            assert(end_of(self.version_at(t2), q) <= end_of(self.version_at(h), q));
            assert(in_reach(v, h.peer));
            assert(le_map(self.version_at(Self::top(h.peer, v[h.peer])), v));
            assert(end_of(self.version_at(h), q) <= end_of(v, q));
            h
        }
    }

    /// A version of the graph is the version of its heads.
    pub proof fn lemma_version_of_its_heads(&self, v: Map<PeerID, Counter>)
        requires
            self.nodes_wf(),
            self.is_version(v),
        ensures
            self.is_version_of(v, self.heads(v)),
    {
        assert forall|id: ID| #[trigger] self.heads(v).contains(id) implies le_map(
            self.version_at(id),
            v,
        ) by {
            assert(in_reach(v, id.peer));
        }
        assert forall|q: PeerID| #[trigger] in_reach(v, q) implies exists|id: ID|
            self.heads(v).contains(id) && #[trigger] in_reach(self.version_at(id), q)
                && self.version_at(id)[q] == v[q] by {
            let h = self.lemma_heads_cover(v, q);
            assert(in_reach(self.version_at(h), q));
        }
    }

    /// Operations that the graph holds have one version.
    pub proof fn lemma_version_of_is_one(
        &self,
        a: Map<PeerID, Counter>,
        b: Map<PeerID, Counter>,
        ids: Set<ID>,
    )
        requires
            self.nodes_wf(),
            forall|id: ID| #[trigger] ids.contains(id) ==> self.has(id),
            self.is_version_of(a, ids),
            self.is_version_of(b, ids),
        ensures
            a == b,
    {
        assert forall|q: PeerID| a.contains_key(q) implies b.contains_key(q) && a[q] <= b[q] by {
            assert(in_reach(a, q));
            let id = choose|id: ID|
                ids.contains(id) && #[trigger] in_reach(self.version_at(id), q) && self.version_at(
                    id,
                )[q] == a[q];
            self.lemma_version_at(id);
            assert(le_map(self.version_at(id), b));
            assert(end_of(self.version_at(id), q) <= end_of(b, q));
        }
        assert forall|q: PeerID| b.contains_key(q) implies a.contains_key(q) && b[q] <= a[q] by {
            assert(in_reach(b, q));
            let id = choose|id: ID|
                ids.contains(id) && #[trigger] in_reach(self.version_at(id), q) && self.version_at(
                    id,
                )[q] == b[q];
            self.lemma_version_at(id);
            assert(le_map(self.version_at(id), a));
            assert(end_of(self.version_at(id), q) <= end_of(a, q));
        }
        assert(a =~= b);
    }

    /// The version made of operations that the graph holds is a version of
    /// the graph.
    pub proof fn lemma_version_of_is_version(&self, ids: Seq<ID>)
        requires
            self.nodes_wf(),
            self.has_all(ids),
        ensures
            self.is_version(self.version_of(ids)),
    {
        self.lemma_version_of(ids);
        let v = self.version_of(ids);
        assert forall|q: PeerID| #[trigger] in_reach(v, q) implies {
            &&& 0 < v[q] <= self.end(q)
            &&& self.lamport_of(Self::top(q, v[q])) < 0x1_0000_0000
            &&& le_map(self.version_at(Self::top(q, v[q])), v)
        } by {
            self.lemma_node_of(Self::top(q, v[q]));
        }
    }

    /// The last operation that the graph holds of a peer lies in the last
    /// node of the peer.
    pub proof fn lemma_in_node_last(&self, p: PeerID, end: Counter)
        requires
            self.nodes_wf(),
            end == self.end(p),
            end > 0,
        ensures
            self.map@.contains_key(p),
            self.has(Self::top(p, end)),
            self.node_of(Self::top(p, end)) == self.nodes(p).last(),
            index_at(self.nodes(p), end - 1) == self.nodes(p).len() - 1,
    {
        if !self.map@.contains_key(p) {
            lemma_atoms_empty(Seq::<AppDagNode>::empty());
        }
        let nodes = self.nodes(p);
        let k = nodes.len() - 1;
        assert(chain_ok(nodes, p));
        lemma_atoms_step(nodes, k);
        lemma_atoms_full(nodes);
        assert(nodes[k].wf());
        assert(nodes[k].cnt == atoms_before(nodes, k));
        self.lemma_in_node(p, k, end - 1);
    }
}

} // verus!
