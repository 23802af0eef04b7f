//! Walks over the changes of a log between versions.
use vstd::prelude::*;

use crate::change::Change;
use crate::dag::{in_reach, raise, AppDag};
use crate::id::{Counter, PeerID, ID};
use crate::op::Op;
use crate::oplog::OpLog;
use crate::order::{
    in_replay_order, lemma_same_items, lemma_same_items_distinct, sort_for_replay, ReplayKey,
    Replayed,
};
use crate::rle::{
    atoms_before, index_at, lemma_atoms_full, lemma_atoms_monotone, lemma_atoms_step,
    lemma_index_unique,
};
use crate::version::{
    end_of, lemma_take_push_contains, merged, met, missing_spans, peers_of, Frontiers,
    VersionVector,
};

verus! {

broadcast use vstd::std_specs::hash::group_hash_axioms;

/// A change met on a causal walk, with the version just before it.
#[derive(Debug)]
pub struct CausalStep<'a> {
    pub change: &'a Change<Op>,
    pub vv: VersionVector,
}

impl<'a> Replayed for CausalStep<'a> {
    open spec fn spec_key(&self) -> ReplayKey {
        self.change.spec_key()
    }

    fn key(&self) -> (k: ReplayKey) {
        self.change.key()
    }
}

/// Whether a change holds an operation of its peer with a counter in
/// `lo..hi`.
pub open spec fn overlaps(c: &Change<Op>, lo: int, hi: int) -> bool {
    lo < hi && c.id.counter < hi && lo < c.spec_ctr_end()
}

impl AppDag {
    /// The version just before an operation.
    pub open spec fn version_before(&self, id: ID) -> Map<PeerID, Counter> {
        raise(self.node_of(id).vv@, id.peer, id.counter)
    }
}

impl OpLog {
    /// Whether the log stores the change.
    pub open spec fn stores(&self, c: &Change<Op>) -> bool {
        exists|i: int|
            0 <= i < self.peer_changes(c.id.peer).len() && #[trigger] self.peer_changes(
                c.id.peer,
            )[i] == *c
    }

    /// Whether one of the changes is `c`.
    pub open spec fn listed(changes: Seq<&Change<Op>>, c: &Change<Op>) -> bool {
        exists|k: int| 0 <= k < changes.len() && *(#[trigger] changes[k]) == *c
    }

    /// Adds to `out` the changes of a peer that hold an operation with a
    /// counter in `lo..hi`, in the order of their counters.
    fn changes_in_span<'a>(
        &'a self,
        peer: PeerID,
        lo: Counter,
        hi: Counter,
        out: &mut Vec<&'a Change<Op>>,
    )
        requires
            self.wf(),
            0 <= lo < hi <= self.dag.end(peer),
            forall|k: int|
                0 <= k < old(out)@.len() ==> (#[trigger] old(out)@[k]).id.peer != peer && old(
                    out,
                )@[k].wf() && self.stores(old(out)@[k]),
        ensures
            old(out)@.len() <= final(out)@.len(),
            forall|k: int| 0 <= k < old(out)@.len() ==> final(out)@[k] == old(out)@[k],
            forall|k: int|
                old(out)@.len() <= k < final(out)@.len() ==> {
                    let c = #[trigger] final(out)@[k];
                    &&& c.id.peer == peer
                    &&& c.wf()
                    &&& self.stores(c)
                    &&& overlaps(c, lo as int, hi as int)
                },
            forall|i: int|
                0 <= i < self.peer_changes(peer).len() && overlaps(
                    #[trigger] &self.peer_changes(peer)[i],
                    lo as int,
                    hi as int,
                ) ==> Self::listed(final(out)@, &self.peer_changes(peer)[i]),
            forall|a: int, b: int|
                0 <= a < final(out)@.len() && 0 <= b < final(out)@.len() && a != b && (
                #[trigger] final(out)@[a]).id == (#[trigger] final(out)@[b]).id ==> a < old(out)@.len()
                    && b < old(out)@.len(),
            forall|x: int, y: int|
                old(out)@.len() <= x < y < final(out)@.len() ==> (#[trigger] final(out)@[x]).id.counter < (
                #[trigger] final(out)@[y]).id.counter,
    {
        let ghost chain = self.peer_changes(peer);
        proof {
            lemma_atoms_empty_nodes(self, peer);
            self.lemma_change_of(ID { peer, counter: lo });
        }
        let stored = self.changes.get(&peer).unwrap();
        let found = stored.get_by_atom_index(lo as usize).unwrap();
        let first = found.merged_index;
        proof {
            lemma_index_unique(chain, first as int, lo as int);
            lemma_atoms_step(chain, first as int);
        }
        let mut i: usize = first;
        let ghost start = old(out)@.len();
        while i < stored.merged_len() && stored.get_merged(i).id.counter < hi
            invariant
                self.wf(),
                self.changes@.contains_key(peer),
                *stored == self.changes@[peer],
                chain == self.peer_changes(peer),
                first <= i <= chain.len(),
                0 <= lo < hi,
                first < chain.len(),
                chain[first as int].id.counter <= lo < chain[first as int].spec_ctr_end(),
                start == old(out)@.len(),
                out@.len() == start + (i - first),
                forall|k: int| 0 <= k < start ==> out@[k] == old(out)@[k],
                forall|k: int|
                    0 <= k < start ==> (#[trigger] old(out)@[k]).id.peer != peer,
                forall|k: int| start <= k < out@.len() ==> *(#[trigger] out@[k]) == chain[first + (k - start)],
                forall|j: int| first <= j < i ==> (#[trigger] chain[j]).id.counter < hi,
            decreases chain.len() - i,
        {
            out.push(stored.get_merged(i));
            i += 1;
        }
        proof {
            let fin = out@;
            assert forall|k: int| start <= k < fin.len() implies {
                let c = #[trigger] fin[k];
                &&& c.id.peer == peer
                &&& c.wf()
                &&& self.stores(c)
                &&& overlaps(c, lo as int, hi as int)
            } by {
                let j = first + (k - start);
                assert(*fin[k] == chain[j]);
                assert(chain[j].wf());
                assert(chain[j].id.counter == atoms_before(chain, j));
                lemma_atoms_monotone(chain, first as int + 1, j + 1);
                lemma_atoms_step(chain, j);
                assert(self.peer_changes(fin[k].id.peer)[j] == *fin[k]);
            }
            assert forall|j: int|
                0 <= j < chain.len() && overlaps(#[trigger] &chain[j], lo as int, hi as int) implies Self::listed(
                fin,
                &chain[j],
            ) by {
                assert(chain[j].id.counter == atoms_before(chain, j));
                lemma_atoms_step(chain, j);
                if j < first {
                    lemma_atoms_monotone(chain, j + 1, first as int);
                    assert(chain[first as int].id.counter == atoms_before(chain, first as int));
                }
                if j >= i {
                    assert(i < chain.len());
                    assert(chain[i as int].id.counter == atoms_before(chain, i as int));
                    lemma_atoms_monotone(chain, i as int, j);
                }
                assert(*fin[start + (j - first)] == chain[j]);
            }
            assert forall|a: int, b: int|
                0 <= a < fin.len() && 0 <= b < fin.len() && a != b && (#[trigger] fin[a]).id == (
                #[trigger] fin[b]).id implies a < start && b < start by {
                if a >= start && b >= start {
                    let ja = first + (a - start);
                    let jb = first + (b - start);
                    assert(chain[ja].id.counter == atoms_before(chain, ja));
                    assert(chain[jb].id.counter == atoms_before(chain, jb));
                    assert(chain[ja].wf() && chain[jb].wf());
                    if ja < jb {
                        lemma_atoms_monotone(chain, ja, jb);
                    } else {
                        lemma_atoms_monotone(chain, jb, ja);
                    }
                } else if a >= start {
                    assert(fin[b] == old(out)@[b]);
                    assert(*fin[a] == chain[first + (a - start)]);
                } else if b >= start {
                    assert(fin[a] == old(out)@[a]);
                    assert(*fin[b] == chain[first + (b - start)]);
                }
            }
            assert forall|x: int, y: int| start <= x < y < fin.len() implies (#[trigger] fin[x]).id.counter < (
            #[trigger] fin[y]).id.counter by {
                let jx = first + (x - start);
                let jy = first + (y - start);
                assert(*fin[x] == chain[jx] && *fin[y] == chain[jy]);
                assert(chain[jx].id.counter == atoms_before(chain, jx));
                assert(chain[jy].id.counter == atoms_before(chain, jy));
                assert(chain[jx].wf());
                chain[jx].lemma_len_positive();
                lemma_atoms_step(chain, jx);
                lemma_atoms_monotone(chain, jx + 1, jy);
            }
        }
    }

    /// The smaller of the ends of a peer's counters in two versions.
    pub open spec fn lower(a: Map<PeerID, Counter>, b: Map<PeerID, Counter>, p: PeerID) -> int {
        if end_of(a, p) <= end_of(b, p) {
            end_of(a, p)
        } else {
            end_of(b, p)
        }
    }

    /// The larger of the ends of a peer's counters in two versions.
    pub open spec fn upper(a: Map<PeerID, Counter>, b: Map<PeerID, Counter>, p: PeerID) -> int {
        if end_of(a, p) <= end_of(b, p) {
            end_of(b, p)
        } else {
            end_of(a, p)
        }
    }

    /// The changes that hold an operation which one of the versions `a` and
    /// `b` covers and the other does not, each once; peer by peer, so that
    /// the changes of one peer stand together, with their counters rising.
    pub fn for_each_change_within<'a>(&'a self, a: &VersionVector, b: &VersionVector) -> (r: Vec<
        &'a Change<Op>,
    >)
        requires
            self.wf(),
        ensures
            forall|k: int|
                0 <= k < r@.len() ==> {
                    let c = #[trigger] r@[k];
                    &&& self.stores(c)
                    &&& overlaps(
                        c,
                        Self::lower(a@, b@, c.id.peer),
                        Self::upper(a@, b@, c.id.peer),
                    )
                },
            forall|p: PeerID, i: int|
                0 <= i < self.peer_changes(p).len() && overlaps(
                    #[trigger] &self.peer_changes(p)[i],
                    Self::lower(a@, b@, p),
                    Self::upper(a@, b@, p),
                ) ==> Self::listed(r@, &self.peer_changes(p)[i]),
            forall|x: int, y: int|
                0 <= x < r@.len() && 0 <= y < r@.len() && x != y ==> (#[trigger] r@[x]).id != (
                #[trigger] r@[y]).id,
            forall|x: int, y: int|
                0 <= x < y < r@.len() && (#[trigger] r@[x]).id.peer == (#[trigger] r@[y]).id.peer
                    ==> r@[x].id.counter < r@[y].id.counter,
            forall|x: int, y: int, z: int|
                0 <= x < y < z < r@.len() && (#[trigger] r@[x]).id.peer == (#[trigger] r@[z]).id.peer
                    ==> (#[trigger] r@[y]).id.peer == r@[x].id.peer,
    {
        let mut out: Vec<&'a Change<Op>> = Vec::new();
        let keys = peers_of(&self.changes);
        let mut n: usize = 0;
        while n < keys.len()
            invariant
                0 <= n <= keys.len(),
                self.wf(),
                keys@.no_duplicates(),
                forall|p: PeerID| keys@.contains(p) <==> self.changes@.contains_key(p),
                forall|k: int|
                    0 <= k < out@.len() ==> {
                        let c = #[trigger] out@[k];
                        &&& keys@.take(n as int).contains(c.id.peer)
                        &&& c.wf()
                        &&& self.stores(c)
                        &&& overlaps(
                            c,
                            Self::lower(a@, b@, c.id.peer),
                            Self::upper(a@, b@, c.id.peer),
                        )
                    },
                forall|p: PeerID, i: int|
                    keys@.take(n as int).contains(p) && 0 <= i < self.peer_changes(p).len()
                        && overlaps(
                        #[trigger] &self.peer_changes(p)[i],
                        Self::lower(a@, b@, p),
                        Self::upper(a@, b@, p),
                    ) ==> Self::listed(out@, &self.peer_changes(p)[i]),
                forall|x: int, y: int|
                    0 <= x < out@.len() && 0 <= y < out@.len() && x != y ==> (#[trigger] out@[x]).id
                        != (#[trigger] out@[y]).id,
                forall|x: int, y: int|
                    0 <= x < y < out@.len() && (#[trigger] out@[x]).id.peer == (#[trigger] out@[y]).id.peer
                        ==> out@[x].id.counter < out@[y].id.counter,
                forall|x: int, y: int, z: int|
                    0 <= x < y < z < out@.len() && (#[trigger] out@[x]).id.peer == (
                    #[trigger] out@[z]).id.peer ==> (#[trigger] out@[y]).id.peer == out@[x].id.peer,
            decreases keys.len() - n,
        {
            let peer = keys[n];
            assert(keys@.contains(peer));
            proof {
                lemma_take_push_contains(keys@, n as int);
            }
            let ea = a.get_end(peer);
            let eb = b.get_end(peer);
            let (lo, hi) = if ea <= eb {
                (ea, eb)
            } else {
                (eb, ea)
            };
            let total = self.dag.vv.get_end(peer);
            assert(self.dag.vv.end(peer) == self.dag.end(peer));
            let lo2 = if lo < 0 {
                0
            } else {
                lo
            };
            let hi2 = if hi < total {
                hi
            } else {
                total
            };
            let ghost before = out@;
            let ghost chain = self.peer_changes(peer);
            proof {
                lemma_atoms_full(chain);
            }
            if lo2 < hi2 {
                assert forall|k: int| 0 <= k < out@.len() implies (#[trigger] out@[k]).id.peer
                    != peer && out@[k].wf() && self.stores(out@[k]) by {}
                self.changes_in_span(peer, lo2, hi2, &mut out);
            }
            proof {
                let after = out@;
                assert forall|i: int| 0 <= i < chain.len() implies (overlaps(
                    #[trigger] &chain[i],
                    lo as int,
                    hi as int,
                ) <==> (lo2 < hi2 && overlaps(&chain[i], lo2 as int, hi2 as int))) by {
                    assert(chain[i].wf());
                    assert(chain[i].id.counter == atoms_before(chain, i));
                    lemma_atoms_step(chain, i);
                    lemma_atoms_monotone(chain, i + 1, chain.len() as int);
                    chain[i].lemma_len_positive();
                }
                assert forall|k: int| 0 <= k < after.len() implies {
                    let c = #[trigger] after[k];
                    &&& keys@.take(n + 1).contains(c.id.peer)
                    &&& c.wf()
                    &&& self.stores(c)
                    &&& overlaps(
                        c,
                        Self::lower(a@, b@, c.id.peer),
                        Self::upper(a@, b@, c.id.peer),
                    )
                } by {
                    if k < before.len() {
                        assert(after[k] == before[k]);
                    } else {
                        let c = after[k];
                        let i = choose|i: int|
                            0 <= i < self.peer_changes(c.id.peer).len() && #[trigger] self.peer_changes(
                                c.id.peer,
                            )[i] == *c;
                        assert(overlaps(&chain[i], lo as int, hi as int));
                    }
                }
                assert forall|p: PeerID, i: int|
                    keys@.take(n + 1).contains(p) && 0 <= i < self.peer_changes(p).len() && overlaps(
                        #[trigger] &self.peer_changes(p)[i],
                        Self::lower(a@, b@, p),
                        Self::upper(a@, b@, p),
                    ) implies Self::listed(after, &self.peer_changes(p)[i]) by {
                    if p != peer {
                        let c = self.peer_changes(p)[i];
                        let k = choose|k: int| 0 <= k < before.len() && *(#[trigger] before[k]) == c;
                        assert(*after[k] == c);
                    } else {
                        assert(overlaps(&chain[i], lo2 as int, hi2 as int));
                    }
                }
                assert forall|x: int, y: int, z: int|
                    0 <= x < y < z < after.len() && (#[trigger] after[x]).id.peer == (
                    #[trigger] after[z]).id.peer implies (#[trigger] after[y]).id.peer
                    == after[x].id.peer by {
                    if z < before.len() {
                        assert(after[x] == before[x] && after[y] == before[y] && after[z] == before[z]);
                    } else if x < before.len() {
                        assert(after[x] == before[x]);
                        assert(before[x].id.peer != peer);
                        assert(after[z].id.peer == peer);
                    } else {
                        assert(after[x].id.peer == peer);
                        assert(after[y].id.peer == peer);
                    }
                }
                assert forall|x: int, y: int|
                    0 <= x < y < after.len() && (#[trigger] after[x]).id.peer == (#[trigger] after[y]).id.peer implies after[x].id.counter
                    < after[y].id.counter by {
                    if y < before.len() {
                        assert(after[x] == before[x] && after[y] == before[y]);
                    } else if x < before.len() {
                        assert(after[x] == before[x]);
                        assert(before[x].id.peer != peer);
                        assert(after[y].id.peer == peer);
                    }
                }
            }
            n += 1;
        }
        proof {
            assert(keys@.take(keys.len() as int) =~= keys@);
            assert forall|p: PeerID, i: int|
                0 <= i < self.peer_changes(p).len() && overlaps(
                    #[trigger] &self.peer_changes(p)[i],
                    Self::lower(a@, b@, p),
                    Self::upper(a@, b@, p),
                ) implies Self::listed(out@, &self.peer_changes(p)[i]) by {
                assert(self.changes@.contains_key(p));
                assert(keys@.contains(p));
            }
        }
        out
    }

    /// Whether a change is met on the walk from the version `lo` to the
    /// version `hi`: it holds an operation that `hi` covers and `lo` does
    /// not.
    pub open spec fn on_walk(
        c: &Change<Op>,
        lo: Map<PeerID, Counter>,
        hi: Map<PeerID, Counter>,
    ) -> bool {
        overlaps(c, end_of(lo, c.id.peer), end_of(hi, c.id.peer))
    }

    /// The walk from the latest common ancestors of two versions to what
    /// the two versions cover together.
    ///
    /// The first result is the version of the common ancestors: of the
    /// heads of what the versions of the two frontiers share. Where no
    /// frontiers are given, they are the heads of the version given.
    ///
    /// The second result holds the changes with an operation that the two
    /// versions cover together and the common ancestors do not: each once,
    /// in replay order, and each with the version just before it, which
    /// ends where the change starts and includes what the change depends
    /// on.
    ///
    /// Where `from` and `to` hold all that their operations depend on, and
    /// the frontiers are their heads, the first result is what the two
    /// versions share, and every change on the walk comes after what it
    /// depends on: each of its dependencies is an operation of the common
    /// ancestors or of a change that comes earlier on the walk.
    pub fn iter_from_lca_causally<'a>(
        &'a self,
        from: &VersionVector,
        from_frontiers: Option<&Frontiers>,
        to: &VersionVector,
        to_frontiers: Option<&Frontiers>,
    ) -> (r: (VersionVector, Vec<CausalStep<'a>>))
        requires
            self.wf(),
            self.dag.within_graph(from@),
            self.dag.within_graph(to@),
            from_frontiers is Some ==> self.dag.has_all(from_frontiers->0@),
            to_frontiers is Some ==> self.dag.has_all(to_frontiers->0@),
        ensures
            ({
                let a = match from_frontiers {
                    Some(f) => f.set(),
                    None => self.dag.heads(from@),
                };
                let b = match to_frontiers {
                    Some(f) => f.set(),
                    None => self.dag.heads(to@),
                };
                exists|va: Map<PeerID, Counter>, vb: Map<PeerID, Counter>|
                    #![trigger met(va, vb)]
                    self.dag.is_version_of(va, a) && self.dag.is_version_of(vb, b) && r.0@ == met(
                        va,
                        vb,
                    )
            }),
            in_replay_order(r.1@),
            forall|k: int|
                0 <= k < r.1@.len() ==> {
                    let step = #[trigger] r.1@[k];
                    &&& self.stores(step.change)
                    &&& Self::on_walk(step.change, r.0@, merged(from@, to@))
                    &&& step.vv@ == self.dag.version_before(step.change.id)
                },
            forall|p: PeerID, i: int|
                0 <= i < self.peer_changes(p).len() && Self::on_walk(
                    #[trigger] &self.peer_changes(p)[i],
                    r.0@,
                    merged(from@, to@),
                ) ==> exists|k: int|
                    0 <= k < r.1@.len() && *(#[trigger] r.1@[k]).change == self.peer_changes(p)[i],
            forall|x: int, y: int|
                0 <= x < r.1@.len() && 0 <= y < r.1@.len() && x != y ==> r.1@[x].change.id
                    != r.1@[y].change.id,
            forall|k: int|
                0 <= k < r.1@.len() ==> (#[trigger] r.1@[k]).vv.end(r.1@[k].change.id.peer)
                    == r.1@[k].change.id.counter,
            forall|k: int, i: int|
                0 <= k < r.1@.len() && 0 <= i < r.1@[k].change.deps@.len() ==> r.1@[k].vv.includes(
                    #[trigger] r.1@[k].change.deps@[i],
                ),
            self.dag.is_version(from@) && self.dag.is_version(to@) ==> forall|k: int, i: int|
                0 <= k < r.1@.len() && 0 <= i < r.1@[k].change.deps@.len() ==> r.0.includes(
                    #[trigger] r.1@[k].change.deps@[i],
                ) || exists|j: int|
                    0 <= j < k && (#[trigger] r.1@[j]).change.covers(r.1@[k].change.deps@[i]),
            ({
                let a = match from_frontiers {
                    Some(f) => f.set(),
                    None => self.dag.heads(from@),
                };
                let b = match to_frontiers {
                    Some(f) => f.set(),
                    None => self.dag.heads(to@),
                };
                self.dag.is_version(from@) && a == self.dag.heads(from@) && self.dag.is_version(to@)
                    && b == self.dag.heads(to@) ==> r.0@ == met(from@, to@)
            }),
    {
        let mut merged_vv = from.clone_vv();
        merged_vv.merge(to);
        let ff = match from_frontiers {
            Some(f) => f.clone_frontiers(),
            None => self.dag.vv_to_frontiers(from),
        };
        let tf = match to_frontiers {
            Some(f) => f.clone_frontiers(),
            None => self.dag.vv_to_frontiers(to),
        };
        proof {
            if from_frontiers is None {
                self.dag.lemma_heads_held(from@, ff@);
            }
            if to_frontiers is None {
                self.dag.lemma_heads_held(to@, tf@);
            }
        }
        let common = self.dag.find_common_ancestor(&ff, &tf);
        let lca_vv = self.dag.frontiers_to_im_vv(&common).to_vv();
        proof {
            self.dag.lemma_version_of_set(ff@);
            self.dag.lemma_version_of_set(tf@);
            self.dag.lemma_version_of_set(common@);
            self.dag.lemma_version_of(common@);
            let va = self.dag.version_of(ff@);
            let vb = self.dag.version_of(tf@);
            let shared = met(va, vb);
            assert(self.dag.is_version_of(lca_vv@, self.dag.heads(shared)));
            // what the two versions share is the version of its heads
            self.dag.lemma_version_of_is_version(ff@);
            self.dag.lemma_version_of_is_version(tf@);
            self.dag.lemma_met_is_version(va, vb);
            self.dag.lemma_version_of_its_heads(shared);
            assert forall|id: ID| #[trigger] self.dag.heads(shared).contains(id) implies self.dag.has(
                id,
            ) by {
                assert(in_reach(shared, id.peer));
            }
            self.dag.lemma_version_of_is_one(lca_vv@, shared, self.dag.heads(shared));
            if self.dag.is_version(from@) && ff@.to_set() == self.dag.heads(from@) {
                self.dag.lemma_version_of_its_heads(from@);
                self.dag.lemma_heads_held(from@, ff@);
                assert forall|id: ID| #[trigger] ff@.to_set().contains(id) implies self.dag.has(id) by {
                    let x = choose|x: int| 0 <= x < ff@.len() && ff@[x] == id;
                    assert(self.dag.has(ff@[x]));
                }
                self.dag.lemma_version_of_is_one(va, from@, ff@.to_set());
            }
            if self.dag.is_version(to@) && tf@.to_set() == self.dag.heads(to@) {
                self.dag.lemma_version_of_its_heads(to@);
                self.dag.lemma_heads_held(to@, tf@);
                assert forall|id: ID| #[trigger] tf@.to_set().contains(id) implies self.dag.has(id) by {
                    let x = choose|x: int| 0 <= x < tf@.len() && tf@[x] == id;
                    assert(self.dag.has(tf@[x]));
                }
                self.dag.lemma_version_of_is_one(vb, to@, tf@.to_set());
            }
        }
        let ghost whole = self.dag.is_version(from@) && ff@.to_set() == self.dag.heads(from@)
            && self.dag.is_version(to@) && tf@.to_set() == self.dag.heads(to@);
        assert(whole ==> lca_vv@ == met(from@, to@));
        let diff = lca_vv.diff(&merged_vv).right;
        let ghost lo = lca_vv@;
        let ghost hi = merged_vv@;
        let mut found: Vec<&'a Change<Op>> = Vec::new();
        let keys = peers_of(&diff);
        let mut n: usize = 0;
        while n < keys.len()
            invariant
                0 <= n <= keys.len(),
                self.wf(),
                lo == lca_vv@,
                hi == merged(from@, to@),
                diff@ == missing_spans(lo, hi),
                self.dag.reach_ok(lo, self.dag.next_lamport_of(common@)),
                self.dag.within_graph(from@),
                self.dag.within_graph(to@),
                keys@.no_duplicates(),
                forall|p: PeerID| keys@.contains(p) <==> diff@.contains_key(p),
                forall|k: int|
                    0 <= k < found@.len() ==> {
                        let c = #[trigger] found@[k];
                        &&& keys@.take(n as int).contains(c.id.peer)
                        &&& c.wf()
                        &&& self.stores(c)
                        &&& Self::on_walk(c, lo, hi)
                    },
                forall|p: PeerID, i: int|
                    keys@.take(n as int).contains(p) && 0 <= i < self.peer_changes(p).len()
                        && Self::on_walk(#[trigger] &self.peer_changes(p)[i], lo, hi) ==> Self::listed(
                        found@,
                        &self.peer_changes(p)[i],
                    ),
                forall|x: int, y: int|
                    0 <= x < found@.len() && 0 <= y < found@.len() && x != y ==> (
                    #[trigger] found@[x]).id != (#[trigger] found@[y]).id,
            decreases keys.len() - n,
        {
            let peer = keys[n];
            assert(keys@.contains(peer));
            proof {
                lemma_take_push_contains(keys@, n as int);
            }
            let span = *diff.get(&peer).unwrap();
            let ghost before = found@;
            let ghost chain = self.peer_changes(peer);
            proof {
                assert(span.start == end_of(lo, peer) && span.end == end_of(hi, peer));
                if lo.contains_key(peer) {
                    assert(in_reach(lo, peer));
                }
                if from@.contains_key(peer) {
                    assert(in_reach(from@, peer));
                }
                if to@.contains_key(peer) {
                    assert(in_reach(to@, peer));
                }
                assert forall|k: int| 0 <= k < found@.len() implies (#[trigger] found@[k]).id.peer
                    != peer && found@[k].wf() && self.stores(found@[k]) by {}
            }
            self.changes_in_span(peer, span.start, span.end, &mut found);
            proof {
                let after = found@;
                assert forall|k: int| 0 <= k < after.len() implies {
                    let c = #[trigger] after[k];
                    &&& keys@.take(n + 1).contains(c.id.peer)
                    &&& c.wf()
                    &&& self.stores(c)
                    &&& Self::on_walk(c, lo, hi)
                } by {
                    if k < before.len() {
                        assert(after[k] == before[k]);
                    }
                }
                assert forall|p: PeerID, i: int|
                    keys@.take(n + 1).contains(p) && 0 <= i < self.peer_changes(p).len()
                        && Self::on_walk(#[trigger] &self.peer_changes(p)[i], lo, hi) implies Self::listed(
                    after,
                    &self.peer_changes(p)[i],
                ) by {
                    if p != peer {
                        let c = self.peer_changes(p)[i];
                        let k = choose|k: int| 0 <= k < before.len() && *(#[trigger] before[k]) == c;
                        assert(*after[k] == c);
                    }
                }
            }
            n += 1;
        }
        proof {
            assert(keys@.take(keys.len() as int) =~= keys@);
        }
        // each change with the version just before it
        let mut steps: Vec<CausalStep<'a>> = Vec::new();
        let mut m: usize = 0;
        while m < found.len()
            invariant
                0 <= m <= found@.len(),
                self.wf(),
                steps@.len() == m,
                forall|k: int| 0 <= k < found@.len() ==> self.stores(#[trigger] found@[k]),
                forall|k: int|
                    0 <= k < m ==> (#[trigger] steps@[k]).change == found@[k] && steps@[k].vv@
                        == self.dag.version_before(found@[k].id),
            decreases found@.len() - m,
        {
            let change = found[m];
            proof {
                self.lemma_stored(change);
            }
            let node = self.dag.get_node(change.id);
            let mut vv = node.vv.to_vv();
            vv.extend_to_include_end_id(change.id);
            steps.push(CausalStep { change, vv });
            m += 1;
        }
        let ghost unsorted = steps@;
        let sorted = sort_for_replay(steps);
        proof {
            lemma_same_items(sorted@, unsorted);
            lemma_same_items_distinct(unsorted, sorted@, |s: CausalStep<'a>| s.change.id);
            assert forall|k: int| 0 <= k < sorted@.len() implies {
                let step = #[trigger] sorted@[k];
                &&& self.stores(step.change)
                &&& Self::on_walk(step.change, lo, hi)
                &&& step.vv@ == self.dag.version_before(step.change.id)
            } by {
                assert(sorted@.contains(sorted@[k]));
                let j = choose|j: int| 0 <= j < unsorted.len() && unsorted[j] == sorted@[k];
                assert(unsorted[j].change == found@[j]);
            }
            assert forall|p: PeerID, i: int|
                0 <= i < self.peer_changes(p).len() && Self::on_walk(
                    #[trigger] &self.peer_changes(p)[i],
                    lo,
                    hi,
                ) implies exists|k: int|
                0 <= k < sorted@.len() && *(#[trigger] sorted@[k]).change == self.peer_changes(
                    p,
                )[i] by {
                let c = self.peer_changes(p)[i];
                assert(c.id.peer == p) by {
                    assert(self.changes@.contains_key(p));
                }
                assert(diff@.contains_key(p));
                assert(keys@.contains(p));
                let j = choose|j: int| 0 <= j < found@.len() && *(#[trigger] found@[j]) == c;
                assert(unsorted[j].change == found@[j]);
                assert(unsorted.contains(unsorted[j]));
                let k = choose|k: int| 0 <= k < sorted@.len() && sorted@[k] == unsorted[j];
                assert(*sorted@[k].change == c);
            }
            assert forall|k: int| 0 <= k < sorted@.len() implies (#[trigger] sorted@[k]).vv.end(
                sorted@[k].change.id.peer,
            ) == sorted@[k].change.id.counter by {
                let c = sorted@[k].change;
                self.lemma_stored(c);
                self.dag.lemma_node_of(c.id);
            }
            assert forall|k: int, i: int|
                0 <= k < sorted@.len() && 0 <= i < sorted@[k].change.deps@.len() implies sorted@[k].vv.includes(
                #[trigger] sorted@[k].change.deps@[i],
            ) by {
                self.lemma_change_after_its_deps(sorted@[k].change, i);
            }
            if self.dag.is_version(from@) && self.dag.is_version(to@) {
                assert forall|p: PeerID| 0 <= #[trigger] end_of(lo, p) by {
                    if lo.contains_key(p) {
                        assert(in_reach(lo, p));
                    }
                }
                assert forall|k: int, i: int|
                    0 <= k < sorted@.len() && 0 <= i < sorted@[k].change.deps@.len() implies lca_vv.includes(
                    #[trigger] sorted@[k].change.deps@[i],
                ) || exists|j: int|
                    0 <= j < k && (#[trigger] sorted@[j]).change.covers(
                        sorted@[k].change.deps@[i],
                    ) by {
                    self.lemma_change_after_its_deps(sorted@[k].change, i);
                    self.lemma_walk_deps_first(lo, from@, to@, sorted@, k, i);
                }
            }
        }
        (lca_vv, sorted)
    }

    /// The walk from a version `lo` to a version `hi` meets every operation
    /// that `hi` covers and `lo` does not: one of the changes on the walk
    /// holds it.
    pub proof fn lemma_walk_covers(
        &self,
        lo: Map<PeerID, Counter>,
        hi: Map<PeerID, Counter>,
        steps: Seq<CausalStep>,
        id: ID,
    )
        requires
            self.wf(),
            forall|p: PeerID, i: int|
                0 <= i < self.peer_changes(p).len() && Self::on_walk(
                    #[trigger] &self.peer_changes(p)[i],
                    lo,
                    hi,
                ) ==> exists|k: int|
                    0 <= k < steps.len() && *(#[trigger] steps[k]).change == self.peer_changes(p)[i],
            0 <= end_of(lo, id.peer) <= id.counter < end_of(hi, id.peer) <= self.dag.end(id.peer),
        ensures
            exists|k: int| 0 <= k < steps.len() && (#[trigger] steps[k]).change.covers(id),
    {
        self.lemma_change_of(id);
        let chain = self.peer_changes(id.peer);
        let i = index_at(chain, id.counter as int);
        let c = chain[i];
        assert(self.changes@.contains_key(id.peer));
        assert(c.id.peer == id.peer);
        assert(Self::on_walk(&self.peer_changes(id.peer)[i], lo, hi));
        let k = choose|k: int| 0 <= k < steps.len() && *(#[trigger] steps[k]).change == c;
        assert(steps[k].change.covers(id));
    }

    /// Every change that a sound log stores has all that it depends on in
    /// the version just before it, with smaller Lamport clocks than its
    /// own; and that version ends, for the peer of the change, where the
    /// change starts.
    pub proof fn lemma_change_after_its_deps(&self, c: &Change<Op>, k: int)
        requires
            self.wf(),
            self.stores(c),
            0 <= k < c.deps@.len(),
        ensures
            self.dag.has(c.deps@[k]),
            c.deps@[k].counter < end_of(self.dag.version_before(c.id), c.deps@[k].peer),
            self.dag.lamport_of(c.deps@[k]) < c.lamport,
            end_of(self.dag.version_before(c.id), c.id.peer) == c.id.counter,
    {
        let p = c.id.peer;
        let i = choose|i: int|
            0 <= i < self.peer_changes(p).len() && #[trigger] self.peer_changes(p)[i] == *c;
        assert(self.changes@.contains_key(p));
        assert(self.change_ok(self.changes@[p]@[i]));
        self.dag.lemma_node_of(c.id);
        let n = self.dag.node_of(c.id);
        let d = c.deps@[k];
        if c.id.counter == n.cnt {
            assert(n.deps@[k] == d);
        } else {
            let j = index_at(self.dag.nodes(p), c.id.counter as int);
            self.dag.lemma_in_node(p, j, c.id.counter - 1);
            assert(self.dag.node_of(d) == n);
        }
    }

    /// On the walk from a version `lo` to what two versions cover
    /// together, a change comes after what it depends on: each of its
    /// dependencies is an operation that `lo` covers, or one of a change
    /// that comes earlier on the walk.
    pub proof fn lemma_walk_deps_first(
        &self,
        lo: Map<PeerID, Counter>,
        from: Map<PeerID, Counter>,
        to: Map<PeerID, Counter>,
        steps: Seq<CausalStep>,
        k: int,
        i: int,
    )
        requires
            self.wf(),
            self.dag.is_version(from),
            self.dag.is_version(to),
            forall|p: PeerID| 0 <= #[trigger] end_of(lo, p),
            in_replay_order(steps),
            forall|j: int|
                0 <= j < steps.len() ==> self.stores((#[trigger] steps[j]).change) && Self::on_walk(
                    steps[j].change,
                    lo,
                    merged(from, to),
                ),
            forall|p: PeerID, j: int|
                0 <= j < self.peer_changes(p).len() && Self::on_walk(
                    #[trigger] &self.peer_changes(p)[j],
                    lo,
                    merged(from, to),
                ) ==> exists|m: int|
                    0 <= m < steps.len() && *(#[trigger] steps[m]).change == self.peer_changes(p)[j],
            0 <= k < steps.len(),
            0 <= i < steps[k].change.deps@.len(),
        ensures
            steps[k].change.deps@[i].counter < end_of(lo, steps[k].change.deps@[i].peer) || exists|
                j: int,
            |
                0 <= j < k && (#[trigger] steps[j]).change.covers(steps[k].change.deps@[i]),
    {
        let c = steps[k].change;
        let d = c.deps@[i];
        let hi = merged(from, to);
        let p = c.id.peer;
        self.lemma_stored(c);
        self.lemma_change_after_its_deps(c, i);
        if d.counter >= end_of(lo, d.peer) {
            // the version that reaches furthest on the peer of the change covers the
            // change, and with it what the change depends on
            let w = if end_of(from, p) == end_of(hi, p) {
                from
            } else {
                to
            };
            assert(end_of(w, p) == end_of(hi, p));
            assert(in_reach(w, p));
            let t = AppDag::top(p, w[p]);
            assert(self.dag.has(t));
            self.dag.lemma_version_at_grows(c.id, t);
            assert(end_of(self.dag.version_before(c.id), d.peer) <= end_of(
                self.dag.version_at(c.id),
                d.peer,
            ));
            assert(end_of(self.dag.version_at(c.id), d.peer) <= end_of(
                self.dag.version_at(t),
                d.peer,
            ));
            assert(end_of(self.dag.version_at(t), d.peer) <= end_of(w, d.peer));
            assert(end_of(w, d.peer) <= end_of(hi, d.peer));
            assert(end_of(hi, d.peer) <= self.dag.end(d.peer)) by {
                if from.contains_key(d.peer) {
                    assert(in_reach(from, d.peer));
                }
                if to.contains_key(d.peer) {
                    assert(in_reach(to, d.peer));
                }
            }
            self.lemma_walk_covers(lo, hi, steps, d);
            let j = choose|j: int| 0 <= j < steps.len() && (#[trigger] steps[j]).change.covers(d);
            let e = steps[j].change;
            // the change that holds the dependency has a smaller clock
            self.lemma_stored(e);
            let m = choose|m: int|
                0 <= m < self.peer_changes(e.id.peer).len() && #[trigger] self.peer_changes(
                    e.id.peer,
                )[m] == *e;
            assert(self.changes@.contains_key(e.id.peer));
            assert(self.change_ok(self.changes@[e.id.peer]@[m]));
            self.dag.lemma_version_at_grows(e.id, d);
            assert(e.lamport < c.lamport);
            if j > k {
                assert(steps[k].spec_key().le(steps[j].spec_key()));
            }
            assert(j < k);
        }
    }

    /// A change that the log stores is one that the graph holds.
    pub proof fn lemma_stored(&self, c: &Change<Op>)
        requires
            self.wf(),
            self.stores(c),
        ensures
            self.dag.has(c.id),
            c.wf(),
    {
        let p = c.id.peer;
        let i = choose|i: int|
            0 <= i < self.peer_changes(p).len() && #[trigger] self.peer_changes(p)[i] == *c;
        assert(self.changes@.contains_key(p));
        assert(self.change_ok(self.changes@[p]@[i]));
        assert(self.changes@[p]@[i].wf());
    }
}

impl AppDag {
    /// The heads of a version that the graph holds are operations that the
    /// graph holds.
    pub proof fn lemma_heads_held(&self, v: Map<PeerID, Counter>, ids: Seq<ID>)
        requires
            self.within_graph(v),
            ids.to_set() == self.heads(v),
        ensures
            self.has_all(ids),
    {
        assert forall|i: int| 0 <= i < ids.len() implies self.has(#[trigger] ids[i]) by {
            assert(ids.contains(ids[i]));
            assert(ids.to_set().contains(ids[i]));
            assert(in_reach(v, ids[i].peer));
        }
    }
}

/// A peer of which the graph holds an operation has nodes.
pub proof fn lemma_atoms_empty_nodes(log: &OpLog, peer: PeerID)
    requires
        log.wf(),
        log.dag.end(peer) > 0,
    ensures
        log.changes@.contains_key(peer),
        log.dag.map@.contains_key(peer),
{
    if !log.dag.map@.contains_key(peer) {
        crate::rle::lemma_atoms_empty(Seq::<crate::dag::AppDagNode>::empty());
    }
}

} // verus!
