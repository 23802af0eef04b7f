//! Import of changes from other replicas with every test made at run
//! time.
use vstd::prelude::*;

use crate::change::Change;
use crate::dag::AppDag;
use crate::error::LoroError;
use crate::id::{Counter, Lamport, PeerID, ID};
use crate::import::{
    batch_chain, batch_wf, cuts, in_batch, is_new, is_replay_of, not_appliable_text, preflight, refuses,
    run_at, run_of, Batch, RunHead,
};
use crate::op::RemoteOp;
use crate::oplog::{OpLog, RemoteClientChanges};
use crate::order::{
    lemma_same_items, lemma_same_items_distinct, sort_for_replay, ReplayKey, Replayed,
};
use crate::rle::{atoms_before, lemma_atoms_monotone, lemma_atoms_step, Rle};
use crate::validate::{check_batch, check_cuts};
use crate::version::{end_of, lemma_take_push_contains, peers_of, Frontiers, VersionVector};

verus! {

broadcast use vstd::std_specs::hash::group_hash_axioms;

/// What the causal graph takes from a change of a batch, for sorting and
/// for trying it on the graph.
pub struct Run {
    pub id: ID,
    pub lamport: Lamport,
    pub deps: Frontiers,
    pub len: usize,
}

impl Run {
    /// The run as a plain value.
    pub open spec fn head(&self) -> RunHead {
        RunHead { id: self.id, lamport: self.lamport, deps: self.deps@, len: self.len as nat }
    }

    /// What the graph takes from a change of which the log holds the
    /// operations of the peer up to `end`.
    pub fn of(end: Counter, change: &Change<RemoteOp>) -> (r: Run)
        requires
            change.wf(),
            change.spec_ctr_end() > end,
        ensures
            r.head() == run_at(end as int, change),
    {
        let len = change.content_len();
        if change.id.counter >= end {
            Run { id: change.id, lamport: change.lamport, deps: change.deps.clone_frontiers(), len }
        } else {
            let k = (end as i64 - change.id.counter as i64) as usize;
            Run {
                id: ID { peer: change.id.peer, counter: end },
                lamport: (change.lamport as u64 + k as u64) as u32,
                deps: Frontiers::from_id(ID { peer: change.id.peer, counter: end - 1 }),
                len: len - k,
            }
        }
    }
}

impl Replayed for Run {
    open spec fn spec_key(&self) -> ReplayKey {
        self.head().key()
    }

    fn key(&self) -> (k: ReplayKey) {
        ReplayKey { lamport: self.lamport, peer: self.id.peer, counter: self.id.counter }
    }
}

/// Two runs of a batch with the same place in the replay order are one
/// run.
pub proof fn lemma_run_by_key(ends: Map<PeerID, Counter>, batch: Batch, a: RunHead, b: RunHead)
    requires
        batch_wf(batch),
        in_batch(ends, batch, a),
        in_batch(ends, batch, b),
        a.key().le(b.key()),
        b.key().le(a.key()),
    ensures
        a == b,
{
    let (p, i) = choose|p: PeerID, i: int|
        batch.contains_key(p) && 0 <= i < batch[p]@.len() && is_new(ends, &batch[p]@[i]) && run_of(ends, #[trigger] &batch[p]@[i]) == a;
    let (q, j) = choose|q: PeerID, j: int|
        batch.contains_key(q) && 0 <= j < batch[q]@.len() && is_new(ends, &batch[q]@[j]) && run_of(ends, #[trigger] &batch[q]@[j]) == b;
    assert(batch_chain(batch[p]@, p));
    assert(batch_chain(batch[q]@, q));
    let chs = batch[p]@;
    assert(chs[i].id.peer == p);
    assert(batch[q]@[j].id.peer == q);
    assert(p == q);
    assert(chs[i].id.counter == chs[0].id.counter + atoms_before(chs, i));
    assert(chs[j].id.counter == chs[0].id.counter + atoms_before(chs, j));
    if i < j {
        lemma_atoms_step(chs, i);
        assert(chs[i].rle_wf());
        chs[i].lemma_len_positive();
        lemma_atoms_monotone(chs, i + 1, j);
    } else if j < i {
        lemma_atoms_step(chs, j);
        assert(chs[j].rle_wf());
        chs[j].lemma_len_positive();
        lemma_atoms_monotone(chs, j + 1, i);
    }
}

/// A batch has one replay.
pub proof fn lemma_replay_is_one(
    ends: Map<PeerID, Counter>,
    batch: Batch,
    a: Seq<RunHead>,
    b: Seq<RunHead>,
)
    requires
        batch_wf(batch),
        is_replay_of(ends, a, batch),
        is_replay_of(ends, b, batch),
    ensures
        a == b,
{
    lemma_replay_prefix(ends, batch, a, b, a.len() as int);
    lemma_replay_prefix(ends, batch, b, a, b.len() as int);
    assert(a =~= b);
}

/// Every run of one replay of a batch is a run of every other.
pub proof fn lemma_replay_holds(
    ends: Map<PeerID, Counter>,
    batch: Batch,
    a: Seq<RunHead>,
    b: Seq<RunHead>,
    k: int,
) -> (m: int)
    requires
        is_replay_of(ends, a, batch),
        is_replay_of(ends, b, batch),
        0 <= k < a.len(),
    ensures
        0 <= m < b.len(),
        b[m] == a[k],
{
    assert(in_batch(ends, batch, a[k]));
    let (p, i) = choose|p: PeerID, i: int|
        batch.contains_key(p) && 0 <= i < batch[p]@.len() && is_new(ends, &batch[p]@[i]) && run_of(ends, #[trigger] &batch[p]@[i]) == a[k];
    assert(b.contains(run_of(ends, &batch[p]@[i])));
    choose|m: int| 0 <= m < b.len() && b[m] == a[k]
}

/// Two replays of a batch agree in their first `n` runs, as far as the
/// first of them reaches.
pub proof fn lemma_replay_prefix(
    ends: Map<PeerID, Counter>,
    batch: Batch,
    a: Seq<RunHead>,
    b: Seq<RunHead>,
    n: int,
)
    requires
        batch_wf(batch),
        is_replay_of(ends, a, batch),
        is_replay_of(ends, b, batch),
        0 <= n <= a.len(),
    ensures
        n <= b.len(),
        forall|k: int| 0 <= k < n ==> a[k] == b[k],
    decreases n,
{
    if n > 0 {
        lemma_replay_prefix(ends, batch, a, b, n - 1);
        let k = n - 1;
        let m = lemma_replay_holds(ends, batch, a, b, k);
        // `a[k]` is none of the first `k` runs of `b`, which are those of `a`
        if m < k {
            assert(a[m] == b[m]);
            assert(a[m] == a[k]);
        }
        assert(k < b.len());
        let m2 = lemma_replay_holds(ends, batch, b, a, k);
        if m2 < k {
            assert(a[m2] == b[m2]);
            assert(b[m2] == b[k]);
        }
        if m > k {
            assert(b[k].key().le(b[m].key()));
        }
        if m2 > k {
            assert(a[k].key().le(a[m2].key()));
        }
        assert(in_batch(ends, batch, a[k]));
        assert(in_batch(ends, batch, b[k]));
        lemma_run_by_key(ends, batch, a[k], b[k]);
    }
}

impl AppDag {
    /// A graph that holds the same nodes as one to which runs can be added
    /// one after the other takes them too.
    pub proof fn lemma_mirror_admits_all(&self, other: &AppDag, runs: Seq<RunHead>)
        requires
            self.wf(),
            self.mirrors(other),
            other.frontiers.wf(),
            self.admits_all(runs),
        ensures
            other.admits_all(runs),
    {
        if runs.len() > 0 {
            let r = runs[0];
            self.lemma_mirror_admits(other, r.id, r.lamport, r.deps, r.len);
            self.lemma_mirror_wf(other);
            self.lemma_mirror_back(other);
            assert forall|later: AppDag| #[trigger]
                other.appended(r.id, r.lamport, r.deps, r.len, &later) implies later.admits_all(
                runs.drop_first(),
            ) by {
                other.lemma_mirror_appended(self, r.id, r.lamport, r.deps, r.len, &later);
            }
        }
    }

    /// Runs that were added to a graph one after the other, each admitted
    /// by the graph that the runs before it had made, can be added to the
    /// graph one after the other.
    pub proof fn lemma_steps_admit_all(states: Seq<AppDag>, runs: Seq<RunHead>, k: int)
        requires
            states.len() == runs.len() + 1,
            0 <= k <= runs.len(),
            forall|i: int|
                0 <= i < runs.len() ==> (#[trigger] states[i]).wf() && states[i].admits(
                    runs[i].id,
                    runs[i].lamport,
                    runs[i].deps,
                    runs[i].len,
                ) && states[i].appended(
                    runs[i].id,
                    runs[i].lamport,
                    runs[i].deps,
                    runs[i].len,
                    &states[i + 1],
                ),
        ensures
            states[k].admits_all(runs.skip(k)),
        decreases runs.len() - k,
    {
        let rest = runs.skip(k);
        if k < runs.len() {
            Self::lemma_steps_admit_all(states, runs, k + 1);
            let r = runs[k];
            assert(rest[0] == r);
            assert(rest.drop_first() =~= runs.skip(k + 1));
            assert(states[k].wf());
            assert forall|later: AppDag| #[trigger]
                states[k].appended(r.id, r.lamport, r.deps, r.len, &later) implies later.admits_all(
                rest.drop_first(),
            ) by {
                states[k].lemma_appended_is_one(
                    r.id,
                    r.lamport,
                    r.deps,
                    r.len,
                    &states[k + 1],
                    &later,
                );
                states[k + 1].lemma_mirror_admits_all(&later, rest.drop_first());
            }
        }
    }

    /// Whether a run can follow what the graph holds.
    pub fn check_admits(&self, id: ID, lamport: Lamport, deps: &Frontiers, len: usize) -> (b: bool)
        requires
            self.wf(),
        ensures
            b == self.admits(id, lamport, deps@, len as nat),
    {
        assert(self.vv.end(id.peer) == self.end(id.peer));
        if len < 1 || id.counter != self.vv.get_end(id.peer) || len > (i32::MAX - id.counter) as usize
            || len > (u32::MAX - lamport) as usize || !deps.has_no_duplicates() {
            return false;
        }
        let mut i: usize = 0;
        while i < deps.len()
            invariant
                0 <= i <= deps@.len(),
                self.wf(),
                forall|k: int| 0 <= k < i ==> self.has(#[trigger] deps@[k]),
            decreases deps@.len() - i,
        {
            if !self.contains(deps.get(i)) {
                return false;
            }
            i += 1;
        }
        if self.frontiers_to_next_lamport(deps) != lamport {
            return false;
        }
        if id.counter > 0 {
            let seen = self.frontiers_to_im_vv(deps);
            if seen.get_end(id.peer) != id.counter {
                return false;
            }
        }
        true
    }
}

/// The message of the error for a batch that is not well formed.
pub open spec fn not_well_formed_text() -> Seq<char> {
    "The batch is not well formed"@
}

/// The message of the error for a batch with a change that cannot be cut
/// where the log ends.
pub open spec fn out_of_range_text() -> Seq<char> {
    "A position is out of range"@
}

/// The message of the error for a batch that cannot be applied run by run.
pub open spec fn not_replayable_text() -> Seq<char> {
    "The changes do not follow on what the log holds"@
}

impl OpLog {
    /// Whether the log can take in a batch: the batch is well formed, the
    /// changes of no peer start after what the log holds of the peer, a
    /// change that the log holds in part can be cut where the log ends,
    /// and what the batch holds beyond the log can be applied run by run
    /// in replay order.
    pub open spec fn takes(&self, batch: Batch) -> bool {
        &&& batch_wf(batch)
        &&& !refuses(self.dag.vv@, batch)
        &&& cuts(self.dag.vv@, batch)
        &&& self.dag.replayable(batch)
    }

    /// Takes in a batch of changes that come from other replicas, after
    /// testing all that `import_remote_changes` asks of its caller. A batch
    /// that the log cannot take in is refused with a decode error that
    /// names the first of the tests that it fails, and the log stays as it
    /// is.
    pub fn try_import_remote_changes(&mut self, changes: RemoteClientChanges) -> (r: Result<
        (),
        LoroError,
    >)
        requires
            old(self).wf(),
        ensures
            final(self).wf(),
            r is Ok <==> old(self).takes(changes@),
            r is Ok ==> old(self).imported(changes@, final(self)),
            r is Err ==> r->Err_0 is DecodeError && *final(self) == *old(self),
            r is Err ==> r->Err_0.message() == if refuses(old(self).dag.vv@, changes@) {
                not_appliable_text()
            } else if !batch_wf(changes@) {
                not_well_formed_text()
            } else if !cuts(old(self).dag.vv@, changes@) {
                out_of_range_text()
            } else {
                not_replayable_text()
            },
            old(self).resolved() && crate::import::batch_fits(changes@) ==> final(self).resolved(),
    {
        proof {
            reveal_strlit("Changes are not appliable yet");
            reveal_strlit("The batch is not well formed");
            reveal_strlit("A position is out of range");
            reveal_strlit("The changes do not follow on what the log holds");
        }
        if !preflight(&self.dag.vv, &changes) {
            return Err(LoroError::DecodeError(String::from_str("Changes are not appliable yet")));
        }
        if !check_batch(&changes) {
            return Err(LoroError::DecodeError(String::from_str("The batch is not well formed")));
        }
        if !check_cuts(&self.dag.vv, &changes) {
            return Err(LoroError::DecodeError(String::from_str("A position is out of range")));
        }
        let ghost batch = changes@;
        let ghost ends = self.dag.vv@;
        let order = replay_of(&self.dag.vv, &changes);
        let ghost runs = order@.map_values(|x: Run| x.head());
        // the changes are tried on a copy of the graph
        let mut scratch = self.dag.clone_dag();
        let ghost first = scratch;
        let ghost mut states: Seq<AppDag> = seq![scratch];
        proof {
            self.dag.lemma_mirror_wf(&scratch);
            assert(runs.skip(0) =~= runs);
            if self.dag.replayable(batch) {
                assert(self.dag.admits_all(runs));
                self.dag.lemma_mirror_admits_all(&scratch, runs);
            }
        }
        let mut i: usize = 0;
        while i < order.len()
            invariant
                0 <= i <= order@.len(),
                runs == order@.map_values(|x: Run| x.head()),
                scratch.wf(),
                states.len() == i + 1,
                states[i as int] == scratch,
                states[0] == first,
                forall|k: int|
                    0 <= k < i ==> (#[trigger] states[k]).wf() && states[k].admits(
                        runs[k].id,
                        runs[k].lamport,
                        runs[k].deps,
                        runs[k].len,
                    ) && states[k].appended(
                        runs[k].id,
                        runs[k].lamport,
                        runs[k].deps,
                        runs[k].len,
                        &states[k + 1],
                    ),
                first.admits_all(runs) ==> scratch.admits_all(runs.skip(i as int)),
                *self == *old(self),
                self.wf(),
                batch == changes@,
                !refuses(old(self).dag.vv@, changes@),
                batch_wf(changes@),
                cuts(old(self).dag.vv@, changes@),
                old(self).dag.replayable(batch) ==> first.admits_all(runs),
            decreases order@.len() - i,
        {
            let c = &order[i];
            let len = c.len;
            let deps = c.deps.clone_frontiers();
            let ghost run = runs[i as int];
            assert(run == c.head());
            assert(runs.skip(i as int)[0] == run);
            if !scratch.check_admits(c.id, c.lamport, &deps, len) {
                proof {
                    if old(self).dag.replayable(batch) {
                        assert(scratch.admits_all(runs.skip(i as int)));
                        assert(false);
                    }
                    reveal_strlit("The changes do not follow on what the log holds");
                }
                return Err(
                    LoroError::DecodeError(
                        String::from_str("The changes do not follow on what the log holds"),
                    ),
                );
            }
            let ghost before = scratch;
            scratch.append(c.id, c.lamport, deps, len);
            proof {
                states = states.push(scratch);
                assert(runs.skip(i as int).drop_first() =~= runs.skip(i + 1));
                assert forall|k: int| 0 <= k < i + 1 implies (#[trigger] states[k]).wf()
                    && states[k].admits(runs[k].id, runs[k].lamport, runs[k].deps, runs[k].len)
                    && states[k].appended(
                    runs[k].id,
                    runs[k].lamport,
                    runs[k].deps,
                    runs[k].len,
                    &states[k + 1],
                ) by {
                    if k == i {
                        assert(states[k] == before);
                    }
                }
            }
            i += 1;
        }
        proof {
            AppDag::lemma_steps_admit_all(states, runs, 0);
            assert(runs.skip(0) =~= runs);
            // what the copy takes, the graph takes
            old(self).dag.lemma_mirror_back(&first);
            first.lemma_mirror_admits_all(&old(self).dag, runs);
            assert forall|other: Seq<RunHead>| #[trigger]
                is_replay_of(ends, other, batch) implies old(self).dag.admits_all(other) by {
                lemma_replay_is_one(ends, batch, other, runs);
            }
        }
        self.import_remote_changes(changes)
    }
}

/// What the changes of a batch hold beyond a log that covers `vv`, run by
/// run, in replay order.
pub fn replay_of(vv: &VersionVector, batch: &RemoteClientChanges) -> (r: Vec<Run>)
    requires
        batch_wf(batch@),
    ensures
        is_replay_of(vv@, r@.map_values(|x: Run| x.head()), batch@),
{
    let mut work: Vec<Run> = Vec::new();
    let keys = peers_of(batch);
    let mut n: usize = 0;
    while n < keys.len()
        invariant
            0 <= n <= keys.len(),
            batch_wf(batch@),
            keys@.no_duplicates(),
            forall|p: PeerID| keys@.contains(p) <==> batch@.contains_key(p),
            forall|k: int|
                0 <= k < work@.len() ==> in_batch(vv@, batch@, (#[trigger] work@[k]).head()),
            forall|p: PeerID, i: int|
                keys@.take(n as int).contains(p) && 0 <= i < batch@[p]@.len() && is_new(
                    vv@,
                    #[trigger] &batch@[p]@[i],
                ) ==> exists|k: int|
                    0 <= k < work@.len() && (#[trigger] work@[k]).head() == run_of(vv@, &batch@[p]@[i]),
            forall|a: int, b: int|
                0 <= a < work@.len() && 0 <= b < work@.len() && a != b ==> (
                #[trigger] work@[a]).id != (#[trigger] work@[b]).id,
            forall|k: int|
                0 <= k < work@.len() ==> keys@.take(n as int).contains(
                    (#[trigger] work@[k]).id.peer,
                ),
        decreases keys.len() - n,
    {
        let peer = keys[n];
        assert(keys@.contains(peer));
        proof {
            lemma_take_push_contains(keys@, n as int);
        }
        let chs = batch.get(&peer).unwrap();
        let cur_end = vv.get_end(peer);
        let ghost seen = keys@.take(n as int);
        let ghost chain = chs@;
        assert(batch_chain(chain, peer));
        let mut j: usize = 0;
        while j < chs.len()
            invariant
                0 <= j <= chs@.len(),
                seen == keys@.take(n as int),
                !seen.contains(peer),
                batch@.contains_key(peer),
                *chs == batch@[peer],
                chain == chs@,
                batch_chain(chain, peer),
                cur_end == end_of(vv@, peer),
                forall|k: int|
                    0 <= k < work@.len() ==> in_batch(
                        vv@,
                        batch@,
                        (#[trigger] work@[k]).head(),
                    ),
                forall|p: PeerID, i: int|
                    seen.contains(p) && 0 <= i < batch@[p]@.len() && is_new(
                        vv@,
                        #[trigger] &batch@[p]@[i],
                    ) ==> exists|k: int|
                        0 <= k < work@.len() && (#[trigger] work@[k]).head() == run_of(vv@, &batch@[p]@[i]),
                forall|i: int|
                    0 <= i < j && is_new(vv@, #[trigger] &chain[i]) ==> exists|k: int|
                        0 <= k < work@.len() && (#[trigger] work@[k]).head() == run_of(vv@, &chain[i]),
                forall|a: int, b: int|
                    0 <= a < work@.len() && 0 <= b < work@.len() && a != b ==> (
                    #[trigger] work@[a]).id != (#[trigger] work@[b]).id,
                forall|k: int|
                    0 <= k < work@.len() ==> seen.contains((#[trigger] work@[k]).id.peer)
                        || (work@[k].id.peer == peer && chain.len() > 0
                        && work@[k].id.counter < chain[0].id.counter + atoms_before(
                        chain,
                        j as int,
                    )),
            decreases chs@.len() - j,
        {
            let change = &chs[j];
            proof {
                assert(chain[j as int].wf());
                assert(chain[j as int].id.peer == peer);
                assert(chain[j as int].id.counter == chain[0].id.counter + atoms_before(
                    chain,
                    j as int,
                ));
                lemma_atoms_step(chain, j as int);
                chain[j as int].lemma_len_positive();
            }
            if change.ctr_end() > cur_end {
                let ghost before = work@;
                let run = Run::of(cur_end, change);
                proof {
                    assert(run.head() == run_of(vv@, &batch@[peer]@[j as int]));
                    assert(in_batch(vv@, batch@, run.head())) by {
                        assert(is_new(vv@, &batch@[peer]@[j as int]));
                    }
                }
                work.push(run);
                proof {
                    let after = work@;
                    let last = before.len() as int;
                    assert forall|k: int| 0 <= k < before.len() implies after[k] == before[k] by {}
                    assert forall|p: PeerID, i: int|
                        seen.contains(p) && 0 <= i < batch@[p]@.len() && is_new(
                            vv@,
                            #[trigger] &batch@[p]@[i],
                        ) implies exists|k: int|
                        0 <= k < after.len() && (#[trigger] after[k]).head() == run_of(vv@, &batch@[p]@[i]) by {
                        let k = choose|k: int|
                            0 <= k < before.len() && (#[trigger] before[k]).head()
                                == run_of(vv@, &batch@[p]@[i]);
                        assert(after[k].head() == run_of(vv@, &batch@[p]@[i]));
                    }
                    assert forall|i: int|
                        0 <= i < j + 1 && is_new(vv@, #[trigger] &chain[i]) implies exists|k: int|
                        0 <= k < after.len() && (#[trigger] after[k]).head() == run_of(vv@, &chain[i]) by {
                        if i < j {
                            let k = choose|k: int|
                                0 <= k < before.len() && (#[trigger] before[k]).head()
                                    == run_of(vv@, &chain[i]);
                            assert(after[k].head() == run_of(vv@, &chain[i]));
                        } else {
                            assert(after[last].head() == run_of(vv@, &chain[i]));
                        }
                    }
                    assert forall|a: int, b: int|
                        0 <= a < after.len() && 0 <= b < after.len() && a != b implies (
                    #[trigger] after[a]).id != (#[trigger] after[b]).id by {
                        if a == last {
                            assert(after[b] == before[b]);
                        } else if b == last {
                            assert(after[a] == before[a]);
                        } else {
                            assert(after[a] == before[a] && after[b] == before[b]);
                        }
                    }
                }
            }
            j += 1;
        }
        proof {
            assert forall|p: PeerID, i: int|
                keys@.take(n + 1).contains(p) && 0 <= i < batch@[p]@.len() && is_new(
                    vv@,
                    #[trigger] &batch@[p]@[i],
                ) implies exists|k: int|
                0 <= k < work@.len() && (#[trigger] work@[k]).head() == run_of(vv@, &batch@[p]@[i]) by {
                if p == peer {
                    assert(is_new(vv@, &chain[i]));
                }
            }
        }
        n += 1;
    }
    let ghost collected = work@;
    let sorted = sort_for_replay(work);
    proof {
        assert(keys@.take(keys.len() as int) =~= keys@);
        let order = sorted@;
        let runs = order.map_values(|x: Run| x.head());
        lemma_same_items(order, collected);
        lemma_same_items_distinct(collected, order, |x: Run| x.id);
        assert forall|a: int, b: int| 0 <= a < b < runs.len() implies (#[trigger] runs[a]).key().le(
            (#[trigger] runs[b]).key(),
        ) by {
            assert(order[a].spec_key().le(order[b].spec_key()));
        }
        assert forall|k: int| 0 <= k < runs.len() implies in_batch(vv@, batch@, #[trigger] runs[k]) by {
            assert(order.contains(order[k]));
            let kw = choose|kw: int| 0 <= kw < collected.len() && collected[kw] == order[k];
            assert(in_batch(vv@, batch@, collected[kw].head()));
        }
        assert forall|p: PeerID, i: int|
            batch@.contains_key(p) && 0 <= i < batch@[p]@.len() && is_new(
                vv@,
                #[trigger] &batch@[p]@[i],
            ) implies runs.contains(run_of(vv@, &batch@[p]@[i])) by {
            assert(keys@.contains(p));
            let k = choose|k: int|
                0 <= k < collected.len() && (#[trigger] collected[k]).head() == run_of(vv@, &batch@[p]@[i]);
            assert(collected.contains(collected[k]));
            let m = choose|m: int| 0 <= m < order.len() && order[m] == collected[k];
            assert(runs[m] == run_of(vv@, &batch@[p]@[i]));
        }
        assert(runs.no_duplicates()) by {
            assert forall|a: int, b: int|
                0 <= a < runs.len() && 0 <= b < runs.len() && a != b implies runs[a] != runs[b] by {
                assert(order[a].id != order[b].id);
            }
        }
    }
    sorted
}

} // verus!
