//! Tests, at run time, of what the imports ask of their callers.
use vstd::prelude::*;

use crate::change::Change;
use crate::error::LoroError;
use crate::id::{Counter, PeerID, ID};
use crate::import::{batch_chain, batch_wf, cuts, is_new, known};
use crate::op::{Op, RemoteOp};
use crate::oplog::{missing_dep_text, OpLog, RemoteClientChanges};
use crate::rle::{atoms_before, lemma_atoms_empty, lemma_atoms_step, Rle};
use crate::version::{end_of, lemma_take_push_contains, peers_of, VersionVector};

verus! {

broadcast use vstd::std_specs::hash::group_hash_axioms;

/// The message of the error for a change that is not valid.
pub open spec fn not_valid_text() -> Seq<char> {
    "The change is not valid"@
}

/// The message of the error for a change that the log holds the
/// dependencies of, and that does not follow on what it holds.
pub open spec fn not_following_text() -> Seq<char> {
    "The change does not follow on what the log holds"@
}

/// Whether the positions of all operations of a valid change are in
/// range.
fn check_ranges(c: &Change<RemoteOp>) -> (b: bool)
    requires
        c.wf(),
    ensures
        b == c.can_cut(),
{
    let mut j: usize = 0;
    while j < c.ops.merged_len()
        invariant
            0 <= j <= c.ops@.len(),
            c.wf(),
            forall|m: int| 0 <= m < j ==> (#[trigger] c.ops@[m]).content@.in_range(),
        decreases c.ops@.len() - j,
    {
        assert(c.ops@[j as int].rle_wf());
        if !c.ops.get_merged(j).is_in_range() {
            return false;
        }
        j += 1;
    }
    true
}

/// Whether what a batch holds of one peer is a chain of valid changes of
/// the peer.
fn check_chain(chs: &Vec<Change<RemoteOp>>, peer: PeerID) -> (b: bool)
    ensures
        b == batch_chain(chs@, peer),
{
    let mut i: usize = 0;
    let mut before: i64 = 0;
    proof {
        lemma_atoms_empty(chs@);
    }
    while i < chs.len()
        invariant
            0 <= i <= chs@.len(),
            0 <= before <= i32::MAX,
            before == atoms_before(chs@, i as int),
            i > 0 ==> chs@[0].id.counter + before <= i32::MAX,
            forall|k: int| 0 <= k < i ==> (#[trigger] chs@[k]).rle_wf(),
            forall|k: int|
                0 <= k < i ==> (#[trigger] chs@[k]).id.peer == peer && chs@[k].id.counter
                    == chs@[0].id.counter + atoms_before(chs@, k),
        decreases chs@.len() - i,
    {
        let c = &chs[i];
        if !c.is_valid() {
            assert(!chs@[i as int].rle_wf());
            return false;
        }
        proof {
            lemma_atoms_step(chs@, i as int);
            c.lemma_len_positive();
        }
        if c.id.peer != peer || c.id.counter as i64 != chs[0].id.counter as i64 + before {
            return false;
        }
        let len = c.content_len();
        before = before + len as i64;
        i += 1;
    }
    true
}

/// Whether a batch is well formed.
pub fn check_batch(batch: &RemoteClientChanges) -> (b: bool)
    ensures
        b == batch_wf(batch@),
{
    let keys = peers_of(batch);
    let mut n: usize = 0;
    while n < keys.len()
        invariant
            0 <= n <= keys.len(),
            forall|p: PeerID| keys@.contains(p) <==> batch@.contains_key(p),
            forall|k: int| 0 <= k < n ==> batch_chain(batch@[#[trigger] keys@[k]]@, keys@[k]),
        decreases keys.len() - n,
    {
        let peer = keys[n];
        assert(keys@.contains(peer));
        let chs = batch.get(&peer).unwrap();
        if !check_chain(chs, peer) {
            assert(batch@.contains_key(peer));
            return false;
        }
        n += 1;
    }
    proof {
        assert forall|p: PeerID| #[trigger] batch@.contains_key(p) implies batch_chain(
            batch@[p]@,
            p,
        ) by {
            assert(keys@.contains(p));
            let k = choose|k: int| 0 <= k < keys@.len() && keys@[k] == p;
            assert(batch_chain(batch@[keys@[k]]@, keys@[k]));
        }
    }
    true
}

/// Whether the changes of a batch that a log that covers `vv` holds in
/// part can be cut where the log ends.
pub fn check_cuts(vv: &VersionVector, batch: &RemoteClientChanges) -> (b: bool)
    requires
        batch_wf(batch@),
    ensures
        b == cuts(vv@, batch@),
{
    let keys = peers_of(batch);
    let mut n: usize = 0;
    while n < keys.len()
        invariant
            0 <= n <= keys.len(),
            batch_wf(batch@),
            forall|p: PeerID| keys@.contains(p) <==> batch@.contains_key(p),
            forall|p: PeerID, i: int|
                keys@.take(n as int).contains(p) && 0 <= i < batch@[p]@.len() && is_new(
                    vv@,
                    #[trigger] &batch@[p]@[i],
                ) && known(vv@, &batch@[p]@[i]) > 0 ==> batch@[p]@[i].can_cut(),
        decreases keys.len() - n,
    {
        let peer = keys[n];
        assert(keys@.contains(peer));
        proof {
            lemma_take_push_contains(keys@, n as int);
        }
        let chs = batch.get(&peer).unwrap();
        let end = vv.get_end(peer);
        assert(batch_chain(chs@, peer));
        let mut i: usize = 0;
        while i < chs.len()
            invariant
                0 <= i <= chs@.len(),
                batch@.contains_key(peer),
                *chs == batch@[peer],
                batch_chain(chs@, peer),
                end == end_of(vv@, peer),
                forall|m: int|
                    0 <= m < i && is_new(vv@, #[trigger] &chs@[m]) && known(vv@, &chs@[m]) > 0
                        ==> chs@[m].can_cut(),
            decreases chs@.len() - i,
        {
            let c = &chs[i];
            assert(chs@[i as int].rle_wf());
            assert(chs@[i as int].id.peer == peer);
            if c.id.counter < end && c.ctr_end() > end && !check_ranges(c) {
                assert(is_new(vv@, &batch@[peer]@[i as int]));
                return false;
            }
            i += 1;
        }
        n += 1;
    }
    proof {
        assert(keys@.take(keys.len() as int) =~= keys@);
    }
    true
}

impl OpLog {
    /// Whether a valid change follows on what the log holds.
    pub fn check_admits(&self, change: &Change<Op>) -> (b: bool)
        requires
            self.wf(),
            change.wf(),
        ensures
            b == self.admits(change),
    {
        let peer = change.id.peer;
        assert(self.dag.vv.end(peer) == self.dag.end(peer));
        if change.id.counter != self.dag.vv.get_end(peer) {
            return false;
        }
        let mut i: usize = 0;
        while i < change.deps.len()
            invariant
                0 <= i <= change.deps@.len(),
                self.wf(),
                forall|k: int| 0 <= k < i ==> self.dag.has(#[trigger] change.deps@[k]),
            decreases change.deps@.len() - i,
        {
            if !self.dag.contains(change.deps.get(i)) {
                return false;
            }
            i += 1;
        }
        proof {
            change.lemma_len_positive();
        }
        if self.dag.frontiers_to_next_lamport(&change.deps) != change.lamport {
            return false;
        }
        if change.id.counter > 0 {
            let seen = self.dag.frontiers_to_im_vv(&change.deps);
            if seen.get_end(peer) != change.id.counter {
                return false;
            }
        }
        true
    }

    /// Takes in a change that this replica made, after testing all that
    /// `import_local_change` asks of its caller. A change that is not valid,
    /// or that the log would take in although it does not follow on what
    /// the log holds, is refused with a decode error, and the log stays as
    /// it is.
    pub fn try_import_local_change(&mut self, change: Change<Op>) -> (r: Result<(), LoroError>)
        requires
            old(self).wf(),
        ensures
            final(self).wf(),
            !change.wf() ==> {
                &&& r is Err
                &&& r->Err_0 is DecodeError
                &&& r->Err_0.message() == not_valid_text()
                &&& *final(self) == *old(self)
            },
            change.wf() && old(self).accepts(&change) && !old(self).admits(&change) ==> {
                &&& r is Err
                &&& r->Err_0 is DecodeError
                &&& r->Err_0.message() == not_following_text()
                &&& *final(self) == *old(self)
            },
            change.wf() && old(self).dag.vv.end(change.id.peer) > change.id.counter ==> {
                &&& r == Err::<(), LoroError>(LoroError::UsedOpID { id: change.id })
                &&& *final(self) == *old(self)
            },
            change.wf() && old(self).dag.vv.end(change.id.peer) <= change.id.counter && old(
                self,
            ).first_missing(change.deps@) is Some ==> {
                let missing = old(self).first_missing(change.deps@)->0;
                &&& r is Err
                &&& r->Err_0 is DecodeError
                &&& r->Err_0.message() == missing_dep_text(missing)
                &&& final(self).pending_changes.waits_for(missing)
                &&& final(self).pending_changes.waiting(missing) == old(
                    self,
                ).pending_changes.waiting(missing).push(change)
                &&& forall|other: ID|
                    other != missing ==> #[trigger] final(self).pending_changes.waits_for(other)
                        == old(self).pending_changes.waits_for(other)
                &&& forall|other: ID|
                    other != missing ==> final(self).pending_changes.waiting(other) == old(
                        self,
                    ).pending_changes.waiting(other)
                &&& final(self).dag == old(self).dag
                &&& final(self).changes == old(self).changes
                &&& final(self).arena == old(self).arena
                &&& final(self).next_lamport == old(self).next_lamport
                &&& final(self).latest_timestamp == old(self).latest_timestamp
            },
            change.wf() && old(self).accepts(&change) && old(self).admits(&change) ==> {
                &&& r is Ok
                &&& old(self).applied(&change, final(self))
                &&& final(self).dag.frontiers@ == old(self).dag.frontiers@.filter(
                    |id: ID| !change.deps@.contains(id),
                ).filter(|id: ID| id.peer != change.id.peer).push(
                    ID { peer: change.id.peer, counter: (change.spec_ctr_end() - 1) as Counter },
                )
            },
            old(self).dag.frontiers_current() ==> final(self).dag.frontiers_current(),
    {
        if !change.is_valid() {
            proof {
                reveal_strlit("The change is not valid");
            }
            return Err(LoroError::DecodeError(String::from_str("The change is not valid")));
        }
        let taken = self.dag.vv.get_end(change.id.peer) <= change.id.counter && self.has_all_deps(
            &change.deps,
        );
        if taken && !self.check_admits(&change) {
            proof {
                reveal_strlit("The change does not follow on what the log holds");
            }
            return Err(
                LoroError::DecodeError(
                    String::from_str("The change does not follow on what the log holds"),
                ),
            );
        }
        self.import_local_change(change)
    }

    /// Takes out the changes that were set aside for want of the operation
    /// `id`, so that they can be imported once the log holds it.
    pub fn take_pending(&mut self, id: ID) -> (r: Vec<Change<Op>>)
        requires
            old(self).wf(),
        ensures
            final(self).wf(),
            r@ == old(self).pending_changes.waiting(id),
            forall|k: int| 0 <= k < r@.len() ==> (#[trigger] r@[k]).wf(),
            !final(self).pending_changes.waits_for(id),
            forall|other: ID|
                other != id ==> #[trigger] final(self).pending_changes.waits_for(other) == old(
                    self,
                ).pending_changes.waits_for(other),
            forall|other: ID|
                other != id ==> final(self).pending_changes.waiting(other) == old(
                    self,
                ).pending_changes.waiting(other),
            final(self).dag == old(self).dag,
            final(self).changes == old(self).changes,
            final(self).arena == old(self).arena,
            final(self).next_lamport == old(self).next_lamport,
            final(self).latest_timestamp == old(self).latest_timestamp,
    {
        self.pending_changes.take(id)
    }

    /// Whether the log holds every one of the dependencies.
    pub fn has_all_deps(&self, deps: &crate::version::Frontiers) -> (b: bool)
        ensures
            b == (self.first_missing(deps@) is None),
    {
        let mut i: usize = 0;
        while i < deps.len()
            invariant
                0 <= i <= deps@.len(),
                forall|k: int| 0 <= k < i ==> self.dag.vv.includes(#[trigger] deps@[k]),
            decreases deps@.len() - i,
        {
            if !self.dag.vv.includes_id(deps.get(i)) {
                proof {
                    self.lemma_first_missing(deps@);
                }
                return false;
            }
            i += 1;
        }
        proof {
            self.lemma_first_missing(deps@);
        }
        true
    }
}

} // verus!
