//! Import of changes that come from other replicas.
use vstd::prelude::*;

use crate::arena::SharedArena;
use crate::change::Change;
use crate::dag::{in_reach, AppDag};
use crate::error::LoroError;
use crate::id::{Counter, Lamport, PeerID, ID};
use crate::op::{Op, OpItem, RemoteOp};
use crate::oplog::{OpLog, RemoteClientChanges};
use crate::order::{in_replay_order, lemma_same_items, sort_for_replay, ReplayKey, Replayed};
use crate::rle::{
    all_wf, atoms_before, index_at, lemma_atoms_empty, lemma_atoms_full, lemma_atoms_monotone,
    lemma_atoms_step, Rle,
};
use crate::version::{end_of, lemma_take_push_contains, peers_of, VersionVector};

verus! {

broadcast use vstd::std_specs::hash::group_hash_axioms;

/// What the causal graph takes from a change: its id, its Lamport clock,
/// its dependencies and its length.
pub struct RunHead {
    pub id: ID,
    pub lamport: Lamport,
    pub deps: Seq<ID>,
    pub len: nat,
}

impl RunHead {
    /// The place of the run in the replay order.
    pub open spec fn key(self) -> ReplayKey {
        ReplayKey { lamport: self.lamport, peer: self.id.peer, counter: self.id.counter }
    }
}

/// What the causal graph takes from a change.
pub open spec fn head_of<O: OpItem>(c: &Change<O>) -> RunHead {
    RunHead { id: c.id, lamport: c.lamport, deps: c.deps@, len: c.spec_len() }
}

/// Whether the runs stand in replay order.
pub open spec fn runs_in_order(s: Seq<RunHead>) -> bool {
    forall|a: int, b: int|
        0 <= a < b < s.len() ==> (#[trigger] s[a]).key().le((#[trigger] s[b]).key())
}

/// A batch of exchanged changes as a plain value.
pub type Batch = Map<PeerID, Vec<Change<RemoteOp>>>;

/// The changes that a batch holds of one peer: they are valid changes of
/// that peer, and their counters follow one another.
pub open spec fn batch_chain(chs: Seq<Change<RemoteOp>>, peer: PeerID) -> bool {
    &&& all_wf(chs)
    &&& forall|i: int|
        0 <= i < chs.len() ==> (#[trigger] chs[i]).id.peer == peer && chs[i].id.counter
            == chs[0].id.counter + atoms_before(chs, i)
}

/// Whether a batch is well formed: under each peer a chain of changes of
/// that peer.
pub open spec fn batch_wf(batch: Batch) -> bool {
    forall|p: PeerID| #[trigger] batch.contains_key(p) ==> batch_chain(batch[p]@, p)
}

/// Whether a batch cannot be applied to a log that covers `ends`: the
/// changes of some peer start after the operations that the log holds of
/// it.
pub open spec fn refuses(ends: Map<PeerID, Counter>, batch: Batch) -> bool {
    exists|p: PeerID|
        #[trigger] batch.contains_key(p) && batch[p]@.len() > 0 && batch[p]@[0].id.counter > end_of(
            ends,
            p,
        )
}

/// How many of the first operations of a change a log holds that holds
/// the operations of the peer up to `end`.
pub open spec fn known_at(end: int, c: &Change<RemoteOp>) -> int {
    if end > c.id.counter {
        end - c.id.counter
    } else {
        0
    }
}

/// How many of the first operations of a change a log that covers `ends`
/// holds already.
pub open spec fn known(ends: Map<PeerID, Counter>, c: &Change<RemoteOp>) -> int {
    known_at(end_of(ends, c.id.peer), c)
}

/// Whether a change holds an operation that a log that covers `ends` does
/// not hold yet; a change that holds none is left out.
pub open spec fn is_new(ends: Map<PeerID, Counter>, c: &Change<RemoteOp>) -> bool {
    c.spec_ctr_end() > end_of(ends, c.id.peer)
}

/// Whether the changes of a batch that a log that covers `ends` holds in
/// part can be cut where the log ends: the positions of their operations
/// stay in range when they are moved up.
pub open spec fn cuts(ends: Map<PeerID, Counter>, batch: Batch) -> bool {
    forall|p: PeerID, i: int|
        batch.contains_key(p) && 0 <= i < batch[p]@.len() && is_new(ends, #[trigger] &batch[p]@[i])
            && known(ends, &batch[p]@[i]) > 0 ==> batch[p]@[i].can_cut()
}

/// What the causal graph takes from a change of which a log holds the
/// operations of the peer up to `end`: the change itself where the log
/// holds none of its operations, else the operations from `end` on, which
/// depend on the operation just before them.
pub open spec fn run_at(end: int, c: &Change<RemoteOp>) -> RunHead {
    let k = known_at(end, c);
    if k == 0 {
        head_of(c)
    } else {
        RunHead {
            id: ID { peer: c.id.peer, counter: (c.id.counter + k) as Counter },
            lamport: (c.lamport + k) as Lamport,
            deps: seq![ID { peer: c.id.peer, counter: (c.id.counter + k - 1) as Counter }],
            len: (c.spec_len() - k) as nat,
        }
    }
}

/// What the causal graph takes from a change of a batch that is imported
/// into a log that covers `ends`.
pub open spec fn run_of(ends: Map<PeerID, Counter>, c: &Change<RemoteOp>) -> RunHead {
    run_at(end_of(ends, c.id.peer), c)
}

/// Whether the stored change `local` holds in the arena what `c` carries
/// after its first `k` atomic operations.
pub open spec fn stored(arena: &SharedArena, local: &Change<Op>, k: int, c: &Change<RemoteOp>) -> bool {
    if k == 0 {
        arena.carries(local, c)
    } else {
        exists|t: Change<RemoteOp>| #[trigger] c.is_tail(k, &t) && arena.carries(local, &t)
    }
}

/// What an arena holds of a change, a grown arena holds.
pub proof fn lemma_grows_stored(
    arena: &SharedArena,
    later: &SharedArena,
    local: &Change<Op>,
    k: int,
    c: &Change<RemoteOp>,
)
    requires
        arena.grows_to(later),
        stored(arena, local, k, c),
    ensures
        stored(later, local, k, c),
{
    if k == 0 {
        arena.lemma_grows_carries(later, local, c);
    } else {
        let t = choose|t: Change<RemoteOp>| #[trigger] c.is_tail(k, &t) && arena.carries(local, &t);
        arena.lemma_grows_carries(later, local, &t);
    }
}

/// Stores in the arena what a change carries beyond the operations that
/// the log holds of its peer, and gives that part of the change in the
/// form that the log keeps.
pub fn import_new_part(arena: &mut SharedArena, end: Counter, change: &Change<RemoteOp>) -> (local:
    Change<Op>)
    requires
        old(arena).wf(),
        change.wf(),
        change.spec_ctr_end() > end,
        known_at(end as int, change) > 0 ==> change.can_cut(),
    ensures
        final(arena).wf(),
        old(arena).grows_to(final(arena)),
        local.wf(),
        head_of(&local) == run_at(end as int, change),
        local.timestamp == change.timestamp,
        change.fits() ==> stored(final(arena), &local, known_at(end as int, change), change)
            && forall|j: int|
            0 <= j < local.ops@.len() ==> final(arena).settles(#[trigger] &local.ops@[j]),
{
    if change.id.counter >= end {
        arena.import_change(change)
    } else {
        let k = (end as i64 - change.id.counter as i64) as usize;
        let t = change.tail(k);
        proof {
            if change.fits() {
                change.lemma_tail_fits(k as int, &t);
            }
        }
        let local = arena.import_change(&t);
        proof {
            if change.fits() {
                assert(change.is_tail(k as int, &t) && arena.carries(&local, &t));
            }
        }
        local
    }
}

/// Whether every operation of the batch carries what belongs in its
/// container: text for a text container, values for a list.
pub open spec fn batch_fits(batch: Batch) -> bool {
    forall|p: PeerID, i: int, j: int|
        batch.contains_key(p) && 0 <= i < batch[p]@.len() && 0 <= j < batch[p]@[i].ops@.len()
            ==> SharedArena::fits(
            (#[trigger] batch[p]@[i].ops@[j]).content@,
            batch[p]@[i].ops@[j].container.spec_container_type(),
        )
}

/// Whether the stored change `local` is what a change of the batch holds
/// beyond what the log held, in the form that the log keeps: it starts
/// where the change starts, or where the log ended if that is later, has
/// the clock, dependencies and length that go with that start, the
/// timestamp of the change, and, where the operations of the batch fit
/// their containers, the content of that part of the change in the arena.
pub open spec fn imports(
    ends: Map<PeerID, Counter>,
    batch: Batch,
    arena: &SharedArena,
    local: &Change<Op>,
) -> bool {
    exists|p: PeerID, i: int|
        {
            &&& batch.contains_key(p)
            &&& 0 <= i < batch[p]@.len()
            &&& is_new(ends, &batch[p]@[i])
            &&& run_of(ends, #[trigger] &batch[p]@[i]) == head_of(local)
            &&& batch[p]@[i].timestamp == local.timestamp
            &&& batch_fits(batch) ==> stored(
                arena,
                local,
                known(ends, &batch[p]@[i]),
                &batch[p]@[i],
            )
        }
}

/// What an arena holds of a batch, a grown arena holds.
pub proof fn lemma_grows_imports(
    ends: Map<PeerID, Counter>,
    batch: Batch,
    arena: &SharedArena,
    later: &SharedArena,
    local: &Change<Op>,
)
    requires
        arena.grows_to(later),
        imports(ends, batch, arena, local),
    ensures
        imports(ends, batch, later, local),
{
    let (p, i) = choose|p: PeerID, i: int|
        {
            &&& batch.contains_key(p)
            &&& 0 <= i < batch[p]@.len()
            &&& is_new(ends, &batch[p]@[i])
            &&& run_of(ends, #[trigger] &batch[p]@[i]) == head_of(local)
            &&& batch[p]@[i].timestamp == local.timestamp
            &&& batch_fits(batch) ==> stored(
                arena,
                local,
                known(ends, &batch[p]@[i]),
                &batch[p]@[i],
            )
        };
    if batch_fits(batch) {
        lemma_grows_stored(arena, later, local, known(ends, &batch[p]@[i]), &batch[p]@[i]);
    }
    assert(run_of(ends, &batch[p]@[i]) == head_of(local));
}

/// Whether the arena holds what the operations of the changes point at.
pub open spec fn all_settled(arena: &SharedArena, work: Seq<Change<Op>>) -> bool {
    forall|k: int, j: int|
        0 <= k < work.len() && 0 <= j < work[k].ops@.len() ==> arena.settles(
            #[trigger] &work[k].ops@[j],
        )
}

/// What an arena settles, a grown arena settles.
pub proof fn lemma_grows_all_settled(arena: &SharedArena, later: &SharedArena, work: Seq<Change<Op>>)
    requires
        arena.grows_to(later),
        all_settled(arena, work),
    ensures
        all_settled(later, work),
{
    assert forall|k: int, j: int|
        0 <= k < work.len() && 0 <= j < work[k].ops@.len() implies later.settles(
        #[trigger] &work[k].ops@[j],
    ) by {
        arena.lemma_grows_settles(later, &work[k].ops@[j]);
    }
}

/// Whether a run is what a change of the batch holds beyond the log.
pub open spec fn in_batch(ends: Map<PeerID, Counter>, batch: Batch, h: RunHead) -> bool {
    exists|p: PeerID, i: int|
        batch.contains_key(p) && 0 <= i < batch[p]@.len() && is_new(ends, &batch[p]@[i]) && run_of(
            ends,
            #[trigger] &batch[p]@[i],
        ) == h
}

/// Whether `runs` are what the changes of the batch hold beyond the log,
/// change by change, each once, in replay order.
pub open spec fn is_replay_of(ends: Map<PeerID, Counter>, runs: Seq<RunHead>, batch: Batch) -> bool {
    &&& runs_in_order(runs)
    &&& runs.no_duplicates()
    &&& forall|k: int| 0 <= k < runs.len() ==> in_batch(ends, batch, #[trigger] runs[k])
    &&& forall|p: PeerID, i: int|
        batch.contains_key(p) && 0 <= i < batch[p]@.len() && is_new(ends, #[trigger] &batch[p]@[i])
            ==> runs.contains(run_of(ends, &batch[p]@[i]))
}

impl AppDag {
    /// Whether the runs can be added to the graph one after the other.
    pub open spec fn admits_all(&self, runs: Seq<RunHead>) -> bool
        decreases runs.len(),
    {
        runs.len() == 0 || {
            &&& self.admits(runs[0].id, runs[0].lamport, runs[0].deps, runs[0].len)
            &&& forall|later: AppDag| #[trigger]
                self.appended(runs[0].id, runs[0].lamport, runs[0].deps, runs[0].len, &later)
                    ==> later.admits_all(runs.drop_first())
        }
    }

    /// Whether `later` is this graph after the runs were added to it one
    /// after the other.
    pub open spec fn replayed(&self, runs: Seq<RunHead>, later: &AppDag) -> bool
        decreases runs.len(),
    {
        if runs.len() == 0 {
            later.map == self.map && later.vv == self.vv
        } else {
            exists|mid: AppDag|
                self.replayed(runs.drop_last(), &mid) && #[trigger] mid.appended(
                    runs.last().id,
                    runs.last().lamport,
                    runs.last().deps,
                    runs.last().len,
                    later,
                )
        }
    }

    /// Whether what the changes of a batch hold beyond the log can be added
    /// to the graph run by run, in replay order.
    pub open spec fn replayable(&self, batch: Batch) -> bool {
        forall|runs: Seq<RunHead>| #[trigger]
            is_replay_of(self.vv@, runs, batch) ==> self.admits_all(runs)
    }
}

/// Whether the changes of every peer in the batch start no later than
/// where the operations that the version holds of the peer end.
pub fn preflight(vv: &VersionVector, batch: &RemoteClientChanges) -> (ok: bool)
    ensures
        ok == !refuses(vv@, batch@),
{
    let keys = peers_of(batch);
    let mut n: usize = 0;
    while n < keys.len()
        invariant
            0 <= n <= keys.len(),
            forall|p: PeerID| keys@.contains(p) <==> batch@.contains_key(p),
            forall|k: int|
                0 <= k < n ==> !(batch@[#[trigger] keys@[k]]@.len() > 0 && batch@[keys@[k]]@[0].id.counter
                    > end_of(vv@, keys@[k])),
        decreases keys.len() - n,
    {
        let peer = keys[n];
        assert(keys@.contains(peer));
        let chs = batch.get(&peer).unwrap();
        if chs.len() > 0 && chs[0].id.counter > vv.get_end(peer) {
            assert(batch@.contains_key(peer));
            return false;
        }
        n += 1;
    }
    proof {
        if refuses(vv@, batch@) {
            let p = choose|p: PeerID|
                #[trigger] batch@.contains_key(p) && batch@[p]@.len() > 0 && batch@[p]@[0].id.counter
                    > end_of(vv@, p);
            assert(keys@.contains(p));
            let k = choose|k: int| 0 <= k < keys@.len() && keys@[k] == p;
            assert(keys@[k] == p);
        }
    }
    true
}

/// What the changes of a batch hold beyond the log, change by change, in
/// the form that the log keeps, the content stored in the arena.
fn collect(arena: &mut SharedArena, vv: &VersionVector, batch: &RemoteClientChanges) -> (work:
    Vec<Change<Op>>)
    requires
        old(arena).wf(),
        batch_wf(batch@),
        cuts(vv@, batch@),
    ensures
        final(arena).wf(),
        old(arena).grows_to(final(arena)),
        forall|k: int| 0 <= k < work@.len() ==> (#[trigger] work@[k]).wf(),
        forall|k: int| 0 <= k < work@.len() ==> in_batch(vv@, batch@, head_of(#[trigger] &work@[k])),
        forall|p: PeerID, i: int|
            batch@.contains_key(p) && 0 <= i < batch@[p]@.len() && is_new(
                vv@,
                #[trigger] &batch@[p]@[i],
            ) ==> exists|k: int|
                0 <= k < work@.len() && head_of(#[trigger] &work@[k]) == run_of(vv@, &batch@[p]@[i]),
        forall|a: int, b: int|
            0 <= a < work@.len() && 0 <= b < work@.len() && a != b ==> (#[trigger] work@[a]).id != (
            #[trigger] work@[b]).id,
        (forall|p: PeerID, i: int|
            batch@.contains_key(p) && 0 <= i < batch@[p]@.len() ==> !is_new(
                vv@,
                #[trigger] &batch@[p]@[i],
            )) ==> *final(arena) == *old(arena) && work@.len() == 0,
        batch_fits(batch@) ==> all_settled(final(arena), work@),
        forall|k: int|
            0 <= k < work@.len() ==> imports(vv@, batch@, final(arena), #[trigger] &work@[k]),
{
    let mut work: Vec<Change<Op>> = Vec::new();
    let keys = peers_of(batch);
    let mut n: usize = 0;
    proof {
        old(arena).lemma_grows_self();
    }
    while n < keys.len()
        invariant
            0 <= n <= keys.len(),
            batch_wf(batch@),
            cuts(vv@, batch@),
            keys@.no_duplicates(),
            forall|p: PeerID| keys@.contains(p) <==> batch@.contains_key(p),
            arena.wf(),
            old(arena).grows_to(arena),
            forall|k: int| 0 <= k < work@.len() ==> (#[trigger] work@[k]).wf(),
            forall|k: int|
                0 <= k < work@.len() ==> in_batch(vv@, batch@, head_of(#[trigger] &work@[k])),
            forall|p: PeerID, i: int|
                keys@.take(n as int).contains(p) && 0 <= i < batch@[p]@.len() && is_new(
                    vv@,
                    #[trigger] &batch@[p]@[i],
                ) ==> exists|k: int|
                    0 <= k < work@.len() && head_of(#[trigger] &work@[k]) == run_of(vv@, &batch@[p]@[i]),
            forall|a: int, b: int|
                0 <= a < work@.len() && 0 <= b < work@.len() && a != b ==> (#[trigger] work@[a]).id
                    != (#[trigger] work@[b]).id,
            forall|k: int|
                0 <= k < work@.len() ==> keys@.take(n as int).contains((#[trigger] work@[k]).id.peer),
            (forall|p: PeerID, i: int|
                keys@.take(n as int).contains(p) && 0 <= i < batch@[p]@.len() ==> !is_new(
                    vv@,
                    #[trigger] &batch@[p]@[i],
                )) ==> *arena == *old(arena) && work@.len() == 0,
            batch_fits(batch@) ==> all_settled(arena, work@),
            forall|k: int| 0 <= k < work@.len() ==> imports(vv@, batch@, arena, #[trigger] &work@[k]),
        decreases keys.len() - n,
    {
        let peer = keys[n];
        assert(keys@.contains(peer));
        proof {
            lemma_take_push_contains(keys@, n as int);
        }
        let chs = batch.get(&peer).unwrap();
        let cur_end = vv.get_end(peer);
        let ghost seen = keys@.take(n as int);
        let ghost chain = chs@;
        assert(batch_chain(chain, peer));
        let mut j: usize = 0;
        proof {
            lemma_atoms_empty(chain);
        }
        while j < chs.len()
            invariant
                0 <= j <= chs@.len(),
                0 <= n < keys.len(),
                peer == keys@[n as int],
                seen == keys@.take(n as int),
                !seen.contains(peer),
                batch@.contains_key(peer),
                *chs == batch@[peer],
                chain == chs@,
                batch_chain(chain, peer),
                cuts(vv@, batch@),
                cur_end == end_of(vv@, peer),
                arena.wf(),
                old(arena).grows_to(arena),
                forall|k: int| 0 <= k < work@.len() ==> (#[trigger] work@[k]).wf(),
                forall|k: int|
                    0 <= k < work@.len() ==> in_batch(vv@, batch@, head_of(#[trigger] &work@[k])),
                forall|p: PeerID, i: int|
                    seen.contains(p) && 0 <= i < batch@[p]@.len() && is_new(
                        vv@,
                        #[trigger] &batch@[p]@[i],
                    ) ==> exists|k: int|
                        0 <= k < work@.len() && head_of(#[trigger] &work@[k]) == run_of(vv@, &batch@[p]@[i]),
                forall|i: int|
                    0 <= i < j && is_new(vv@, #[trigger] &chain[i]) ==> exists|k: int|
                        0 <= k < work@.len() && head_of(#[trigger] &work@[k]) == run_of(vv@, &chain[i]),
                forall|a: int, b: int|
                    0 <= a < work@.len() && 0 <= b < work@.len() && a != b ==> (
                    #[trigger] work@[a]).id != (#[trigger] work@[b]).id,
                forall|k: int|
                    0 <= k < work@.len() ==> seen.contains((#[trigger] work@[k]).id.peer) || (
                    work@[k].id.peer == peer && chain.len() > 0 && work@[k].id.counter
                        < chain[0].id.counter + atoms_before(chain, j as int)),
                ((forall|p: PeerID, i: int|
                    seen.contains(p) && 0 <= i < batch@[p]@.len() ==> !is_new(
                        vv@,
                        #[trigger] &batch@[p]@[i],
                    )) && (forall|i: int| 0 <= i < j ==> !is_new(vv@, #[trigger] &chain[i])))
                    ==> *arena == *old(arena) && work@.len() == 0,
                batch_fits(batch@) ==> all_settled(arena, work@),
                forall|k: int|
                    0 <= k < work@.len() ==> imports(vv@, batch@, arena, #[trigger] &work@[k]),
            decreases chs@.len() - j,
        {
            let change = &chs[j];
            proof {
                assert(chain[j as int].wf());
                assert(chain[j as int].id.peer == peer);
                assert(chain[j as int].id.counter == chain[0].id.counter + atoms_before(
                    chain,
                    j as int,
                ));
                lemma_atoms_step(chain, j as int);
                chain[j as int].lemma_len_positive();
            }
            if change.ctr_end() > cur_end {
                let ghost mid = *arena;
                let ghost before = work@;
                proof {
                    assert(is_new(vv@, &batch@[peer]@[j as int]));
                    assert(known(vv@, &chain[j as int]) > 0 ==> chain[j as int].can_cut());
                    if batch_fits(batch@) {
                        assert forall|j2: int| 0 <= j2 < chain[j as int].ops@.len() implies SharedArena::fits(
                            (#[trigger] chain[j as int].ops@[j2]).content@,
                            chain[j as int].ops@[j2].container.spec_container_type(),
                        ) by {
                            assert(batch@[peer]@[j as int].ops@[j2] == chain[j as int].ops@[j2]);
                        }
                        assert(chain[j as int].fits());
                    }
                }
                let local = import_new_part(arena, cur_end, change);
                proof {
                    if batch_fits(batch@) {
                        lemma_grows_all_settled(&mid, arena, before);
                    }
                    old(arena).lemma_grows_twice(&mid, arena);
                    assert(head_of(&local) == run_of(vv@, &chain[j as int]));
                    assert forall|k: int| 0 <= k < before.len() implies imports(
                        vv@,
                        batch@,
                        arena,
                        #[trigger] &before[k],
                    ) by {
                        lemma_grows_imports(vv@, batch@, &mid, arena, &before[k]);
                    }
                    assert(imports(vv@, batch@, arena, &local)) by {
                        assert(is_new(vv@, &batch@[peer]@[j as int]));
                        assert(run_of(vv@, &batch@[peer]@[j as int]) == head_of(&local));
                        if batch_fits(batch@) {
                            assert(stored(
                                arena,
                                &local,
                                known(vv@, &batch@[peer]@[j as int]),
                                &batch@[peer]@[j as int],
                            ));
                        }
                    }
                    assert(in_batch(vv@, batch@, head_of(&local))) by {
                        assert(is_new(vv@, &batch@[peer]@[j as int]));
                    }
                }
                work.push(local);
                proof {
                    let after = work@;
                    let last = before.len() as int;
                    assert(after[last] == local);
                    assert forall|k: int| 0 <= k < before.len() implies after[k] == before[k] by {}
                    assert forall|p: PeerID, i: int|
                        seen.contains(p) && 0 <= i < batch@[p]@.len() && is_new(
                            vv@,
                            #[trigger] &batch@[p]@[i],
                        ) implies exists|k: int|
                        0 <= k < after.len() && head_of(#[trigger] &after[k]) == run_of(vv@, &batch@[p]@[i]) by {
                        let k = choose|k: int|
                            0 <= k < before.len() && head_of(#[trigger] &before[k]) == run_of(vv@, &batch@[p]@[i]);
                        assert(head_of(&after[k]) == run_of(vv@, &batch@[p]@[i]));
                    }
                    assert forall|i: int|
                        0 <= i < j + 1 && is_new(vv@, #[trigger] &chain[i]) implies exists|k: int|
                        0 <= k < after.len() && head_of(#[trigger] &after[k]) == run_of(vv@, &chain[i]) by {
                        if i < j {
                            let k = choose|k: int|
                                0 <= k < before.len() && head_of(#[trigger] &before[k]) == run_of(vv@, &chain[i]);
                            assert(head_of(&after[k]) == run_of(vv@, &chain[i]));
                        } else {
                            assert(head_of(&after[last]) == run_of(vv@, &chain[i]));
                        }
                    }
                    assert forall|a: int, b: int|
                        0 <= a < after.len() && 0 <= b < after.len() && a != b implies (
                    #[trigger] after[a]).id != (#[trigger] after[b]).id by {
                        if a == last {
                            assert(after[b] == before[b]);
                        } else if b == last {
                            assert(after[a] == before[a]);
                        } else {
                            assert(after[a] == before[a] && after[b] == before[b]);
                        }
                    }
                    assert(is_new(vv@, &chain[j as int]));
                    assert forall|k: int| 0 <= k < after.len() implies imports(
                        vv@,
                        batch@,
                        arena,
                        #[trigger] &after[k],
                    ) by {
                        if k < before.len() {
                            assert(after[k] == before[k]);
                        }
                    }
                    if batch_fits(batch@) {
                        assert forall|k: int, j2: int|
                            0 <= k < after.len() && 0 <= j2 < after[k].ops@.len() implies arena.settles(
                            #[trigger] &after[k].ops@[j2],
                        ) by {
                            if k < before.len() {
                                assert(arena.settles(&before[k].ops@[j2]));
                            }
                        }
                    }
                }
            }
            j += 1;
        }
        proof {
            lemma_atoms_full(chain);
            assert forall|p: PeerID, i: int|
                keys@.take(n + 1).contains(p) && 0 <= i < batch@[p]@.len() && is_new(
                    vv@,
                    #[trigger] &batch@[p]@[i],
                ) implies exists|k: int|
                0 <= k < work@.len() && head_of(#[trigger] &work@[k]) == run_of(vv@, &batch@[p]@[i]) by {
                if p == peer {
                    assert(is_new(vv@, &chain[i]));
                }
            }
        }
        n += 1;
    }
    proof {
        assert(keys@.take(keys.len() as int) =~= keys@);
    }
    work
}

/// The runs of changes.
pub open spec fn heads_of(changes: Seq<Change<Op>>) -> Seq<RunHead> {
    changes.map_values(|c: Change<Op>| head_of(&c))
}

/// The changes that were collected from a batch, put in replay order, are
/// a replay of the batch.
pub proof fn lemma_sorted_is_replay(
    ends: Map<PeerID, Counter>,
    batch: Batch,
    work: Seq<Change<Op>>,
    sorted: Seq<Change<Op>>,
)
    requires
        in_replay_order(sorted),
        sorted.to_multiset() == work.to_multiset(),
        forall|k: int| 0 <= k < work.len() ==> in_batch(ends, batch, head_of(#[trigger] &work[k])),
        forall|p: PeerID, i: int|
            batch.contains_key(p) && 0 <= i < batch[p]@.len() && is_new(
                ends,
                #[trigger] &batch[p]@[i],
            ) ==> exists|k: int|
                0 <= k < work.len() && head_of(#[trigger] &work[k]) == run_of(ends, &batch[p]@[i]),
        forall|a: int, b: int|
            0 <= a < work.len() && 0 <= b < work.len() && a != b ==> (#[trigger] work[a]).id != (
            #[trigger] work[b]).id,
    ensures
        is_replay_of(ends, heads_of(sorted), batch),
        sorted.len() == work.len(),
        forall|x: Change<Op>| sorted.contains(x) <==> work.contains(x),
{
    let runs = heads_of(sorted);
    lemma_same_items(sorted, work);
    assert(work.no_duplicates());
    work.lemma_multiset_has_no_duplicates();
    sorted.lemma_multiset_has_no_duplicates_conv();
    assert forall|a: int, b: int| 0 <= a < b < runs.len() implies (#[trigger] runs[a]).key().le(
        (#[trigger] runs[b]).key(),
    ) by {
        assert(sorted[a].spec_key().le(sorted[b].spec_key()));
    }
    assert forall|a: int, b: int| 0 <= a < runs.len() && 0 <= b < runs.len() && a != b implies runs[a]
        != runs[b] by {
        assert(sorted.contains(sorted[a]));
        assert(sorted.contains(sorted[b]));
        let ka = choose|k: int| 0 <= k < work.len() && work[k] == sorted[a];
        let kb = choose|k: int| 0 <= k < work.len() && work[k] == sorted[b];
        assert(sorted[a] != sorted[b]);
        assert(work[ka].id != work[kb].id);
    }
    assert forall|k: int| 0 <= k < runs.len() implies in_batch(ends, batch, #[trigger] runs[k]) by {
        assert(sorted.contains(sorted[k]));
        let kw = choose|kw: int| 0 <= kw < work.len() && work[kw] == sorted[k];
        assert(in_batch(ends, batch, head_of(&work[kw])));
    }
    assert forall|p: PeerID, i: int|
        batch.contains_key(p) && 0 <= i < batch[p]@.len() && is_new(
            ends,
            #[trigger] &batch[p]@[i],
        ) implies runs.contains(run_of(ends, &batch[p]@[i])) by {
        let k = choose|k: int|
            0 <= k < work.len() && head_of(#[trigger] &work[k]) == run_of(ends, &batch[p]@[i]);
        assert(work.contains(work[k]));
        let m = choose|m: int| 0 <= m < sorted.len() && sorted[m] == work[k];
        assert(runs[m] == run_of(ends, &batch[p]@[i]));
    }
}

/// Where the changes that a batch holds of a peer end; zero where it
/// holds none.
pub open spec fn batch_end(batch: Batch, p: PeerID) -> int {
    if batch.contains_key(p) && batch[p]@.len() > 0 {
        batch[p]@.last().spec_ctr_end()
    } else {
        0
    }
}

impl AppDag {
    /// Where a graph to which runs were added ends: for every peer no
    /// earlier than before and no earlier than any run of the peer, and
    /// either where it ended before or where one of the runs ends.
    pub proof fn lemma_replayed_ends(&self, runs: Seq<RunHead>, later: &AppDag)
        requires
            self.nodes_wf(),
            self.replayed(runs, later),
        ensures
            later.nodes_wf(),
            forall|p: PeerID| self.end(p) <= later.end(p),
            forall|k: int|
                0 <= k < runs.len() ==> later.end((#[trigger] runs[k]).id.peer) >= runs[k].id.counter
                    + runs[k].len,
            forall|p: PeerID|
                later.end(p) == self.end(p) || exists|k: int|
                    0 <= k < runs.len() && (#[trigger] runs[k]).id.peer == p && later.end(p)
                        == runs[k].id.counter + runs[k].len,
        decreases runs.len(),
    {
        if runs.len() == 0 {
            self.lemma_same_nodes(later);
        } else {
            let head = runs.drop_last();
            let last = runs.last();
            let mid = choose|mid: AppDag|
                self.replayed(head, &mid) && #[trigger] mid.appended(
                    last.id,
                    last.lamport,
                    last.deps,
                    last.len,
                    later,
                );
            self.lemma_replayed_ends(head, &mid);
            assert forall|p: PeerID| self.end(p) <= later.end(p) by {
                mid.lemma_grows_end(later, last.id.peer, p);
            }
            assert forall|k: int| 0 <= k < runs.len() implies later.end(
                (#[trigger] runs[k]).id.peer,
            ) >= runs[k].id.counter + runs[k].len by {
                if k < head.len() {
                    assert(head[k] == runs[k]);
                    mid.lemma_grows_end(later, last.id.peer, runs[k].id.peer);
                }
            }
            assert forall|p: PeerID|
                later.end(p) == self.end(p) || exists|k: int|
                    0 <= k < runs.len() && (#[trigger] runs[k]).id.peer == p && later.end(p)
                        == runs[k].id.counter + runs[k].len by {
                if p == last.id.peer {
                    assert(runs[runs.len() - 1] == last);
                } else {
                    mid.lemma_grows_others(later, last.id.peer, p);
                    assert(later.end(p) == mid.end(p));
                    if mid.end(p) != self.end(p) {
                        let k = choose|k: int|
                            0 <= k < head.len() && (#[trigger] head[k]).id.peer == p && mid.end(p)
                                == head[k].id.counter + head[k].len;
                        assert(runs[k] == head[k]);
                    }
                }
            }
        }
    }
}

/// After the import of a batch the log holds of every peer what it held
/// before, or what the batch holds of the peer, whichever reaches further.
pub proof fn lemma_import_version(
    before: &AppDag,
    batch: Batch,
    runs: Seq<RunHead>,
    after: &AppDag,
    p: PeerID,
)
    requires
        before.wf(),
        batch_wf(batch),
        is_replay_of(before.vv@, runs, batch),
        before.replayed(runs, after),
    ensures
        after.end(p) == if before.end(p) < batch_end(batch, p) {
            batch_end(batch, p)
        } else {
            before.end(p) as int
        },
{
    before.lemma_replayed_ends(runs, after);
    before.lemma_version_positive(p);
    let old_end = before.end(p) as int;
    // a run of the peer is a change that the batch holds of the peer, and ends no later
    // than the changes of the peer in the batch
    assert forall|k: int| 0 <= k < runs.len() && (#[trigger] runs[k]).id.peer == p implies runs[k].id.counter
        + runs[k].len <= batch_end(batch, p) && runs[k].id.counter + runs[k].len > old_end by {
        assert(in_batch(before.vv@, batch, runs[k]));
        let (q, i) = choose|q: PeerID, i: int|
            batch.contains_key(q) && 0 <= i < batch[q]@.len() && is_new(before.vv@, &batch[q]@[i])
                && run_of(before.vv@, #[trigger] &batch[q]@[i]) == runs[k];
        let chs = batch[q]@;
        assert(batch_chain(chs, q));
        assert(chs[i].id.peer == q);
        assert(chs[i].wf());
        chs[i].lemma_len_positive();
        lemma_chain_ends(chs, i);
    }
    if old_end < batch_end(batch, p) {
        let chs = batch[p]@;
        let last = chs.len() - 1;
        assert(batch_chain(chs, p));
        assert(chs[last].id.peer == p);
        assert(is_new(before.vv@, &batch[p]@[last]));
        assert(runs.contains(run_of(before.vv@, &batch[p]@[last])));
        let k = choose|k: int|
            0 <= k < runs.len() && runs[k] == run_of(before.vv@, &batch[p]@[last]);
        assert(after.end(runs[k].id.peer) >= runs[k].id.counter + runs[k].len);
    }
}

/// A change of a chain ends no later than the last change of the chain.
pub proof fn lemma_chain_ends(chs: Seq<Change<RemoteOp>>, i: int)
    requires
        batch_chain(chs, chs[0].id.peer),
        0 <= i < chs.len(),
    ensures
        chs[i].spec_ctr_end() <= chs.last().spec_ctr_end(),
{
    let last = chs.len() - 1;
    assert(chs[i].id.counter == chs[0].id.counter + atoms_before(chs, i));
    assert(chs[last].id.counter == chs[0].id.counter + atoms_before(chs, last));
    lemma_atoms_step(chs, i);
    lemma_atoms_step(chs, last);
    lemma_atoms_monotone(chs, i + 1, chs.len() as int);
}

/// What a log exports beyond its own version is nothing.
pub proof fn lemma_export_of_own_version(log: &OpLog, from: Map<PeerID, Counter>, batch: Batch)
    requires
        log.is_export(from, batch),
        forall|p: PeerID| #[trigger] end_of(from, p) == log.dag.vv.end(p),
    ensures
        forall|p: PeerID| !batch.contains_key(p),
{
}

/// A log that covers the version `from`, after it has imported what
/// another log holds beyond `from`, covers what that log covers.
pub proof fn lemma_export_then_import_version(
    source: &OpLog,
    from: Map<PeerID, Counter>,
    batch: Batch,
    before: &AppDag,
    runs: Seq<RunHead>,
    after: &AppDag,
    p: PeerID,
)
    requires
        source.wf(),
        source.is_export(from, batch),
        forall|q: PeerID| 0 <= #[trigger] end_of(from, q) <= source.dag.vv.end(q),
        before.wf(),
        forall|q: PeerID| before.vv.end(q) == #[trigger] end_of(from, q),
        batch_wf(batch),
        is_replay_of(before.vv@, runs, batch),
        before.replayed(runs, after),
    ensures
        after.end(p) == source.dag.vv.end(p),
{
    lemma_import_version(before, batch, runs, after, p);
    before.lemma_version_positive(p);
    assert(before.vv.end(p) == end_of(from, p));
    if batch.contains_key(p) {
        let chain = source.peer_changes(p);
        let i = index_at(chain, end_of(from, p));
        let n = batch[p]@.len() - 1;
        assert(source.exported(&chain[i + n], &batch[p]@[n]));
        assert(source.dag.vv.end(p) == source.dag.end(p));
        assert(source.changes@.contains_key(p)) by {
            if !source.changes@.contains_key(p) {
                assert(chain.len() == 0);
            }
        }
        source.lemma_changes_without_gap(p, chain.len() - 1);
    }
}

/// The text of the error for a batch that cannot be applied.
pub open spec fn not_appliable_text() -> Seq<char> {
    "Changes are not appliable yet"@
}

impl OpLog {
    /// Whether `later` is this log after it took in the changes one after
    /// the other, whatever became of the frontiers.
    pub open spec fn replayed(&self, work: Seq<Change<Op>>, later: &OpLog) -> bool
        decreases work.len(),
    {
        if work.len() == 0 {
            &&& later.dag.map == self.dag.map
            &&& later.dag.vv == self.dag.vv
            &&& later.changes == self.changes
            &&& later.arena == self.arena
            &&& later.pending_changes == self.pending_changes
            &&& later.next_lamport == self.next_lamport
            &&& later.latest_timestamp == self.latest_timestamp
        } else {
            exists|mid: OpLog|
                self.replayed(work.drop_last(), &mid) && #[trigger] mid.applied(&work.last(), later)
        }
    }

    /// A log stays what it is to a log that it was replayed from when its
    /// frontiers change.
    pub proof fn lemma_replayed_frontiers(&self, work: Seq<Change<Op>>, mid: &OpLog, later: &OpLog)
        requires
            self.replayed(work, mid),
            later.dag.map == mid.dag.map,
            later.dag.vv == mid.dag.vv,
            later.dag.frontiers.wf(),
            later.arena == mid.arena,
            later.changes == mid.changes,
            later.next_lamport == mid.next_lamport,
            later.latest_timestamp == mid.latest_timestamp,
            later.pending_changes == mid.pending_changes,
        ensures
            self.replayed(work, later),
    {
        if work.len() > 0 {
            let m = choose|m: OpLog|
                self.replayed(work.drop_last(), &m) && #[trigger] m.applied(&work.last(), mid);
            let c = work.last();
            m.dag.lemma_appended_frontiers(
                c.id,
                c.lamport,
                c.deps@,
                c.spec_len(),
                &mid.dag,
                &later.dag,
            );
            assert(later.peer_changes(c.id.peer) == mid.peer_changes(c.id.peer));
            assert(m.applied(&c, later));
        }
    }

    /// Whether `later` is this log after it imported the batch: its
    /// frontiers are the heads of its version, which covers of every peer
    /// what this log covered or what the batch holds, whichever reaches
    /// further; its graph and its changes are what they were with what the
    /// changes of the batch hold beyond this log applied in replay order;
    /// the arena has grown by that content; no clock has gone back. Where
    /// no change of the batch holds an operation beyond this log, only the
    /// frontiers can have changed, and they hold what they held where they
    /// were the heads of the version.
    pub open spec fn imported(&self, batch: Batch, later: &OpLog) -> bool {
        &&& later.dag.frontiers.set() == later.dag.heads(later.dag.vv@)
        &&& later.dag.frontiers.one_per_peer()
        &&& forall|p: PeerID|
            #[trigger] later.dag.vv.end(p) == if self.dag.vv.end(p) < batch_end(batch, p) {
                batch_end(batch, p)
            } else {
                self.dag.vv.end(p)
            }
        &&& later.pending_changes == self.pending_changes
        &&& self.arena.grows_to(&later.arena)
        &&& self.next_lamport <= later.next_lamport
        &&& self.latest_timestamp <= later.latest_timestamp
        &&& exists|runs: Seq<RunHead>|
            is_replay_of(self.dag.vv@, runs, batch) && #[trigger] self.dag.replayed(
                runs,
                &later.dag,
            )
        &&& exists|start: OpLog, work: Seq<Change<Op>>|
            {
                &&& start.dag == self.dag
                &&& start.changes == self.changes
                &&& start.next_lamport == self.next_lamport
                &&& start.latest_timestamp == self.latest_timestamp
                &&& start.pending_changes == self.pending_changes
                &&& start.arena == later.arena
                &&& is_replay_of(self.dag.vv@, heads_of(work), batch)
                &&& forall|k: int|
                    0 <= k < work.len() ==> imports(
                        self.dag.vv@,
                        batch,
                        &later.arena,
                        #[trigger] &work[k],
                    )
                &&& #[trigger] start.replayed(work, later)
            }
        &&& (forall|p: PeerID, i: int|
            batch.contains_key(p) && 0 <= i < batch[p]@.len() ==> !is_new(
                self.dag.vv@,
                #[trigger] &batch[p]@[i],
            )) ==> {
            &&& later.dag.map == self.dag.map
            &&& later.dag.vv == self.dag.vv
            &&& later.changes == self.changes
            &&& later.arena == self.arena
            &&& later.next_lamport == self.next_lamport
            &&& later.latest_timestamp == self.latest_timestamp
            &&& self.dag.frontiers_current() ==> later.dag.frontiers.set()
                == self.dag.frontiers.set()
        }
    }

    /// A log whose arena has grown still holds what its operations point
    /// at, and holds what the changes point at that were collected into
    /// the arena, in whichever order.
    pub proof fn lemma_resolved_after_collect(
        &self,
        start: &OpLog,
        collected: Seq<Change<Op>>,
        order: Seq<Change<Op>>,
    )
        requires
            self.resolved(),
            start.changes == self.changes,
            self.arena.grows_to(&start.arena),
            all_settled(&start.arena, collected),
            forall|x: Change<Op>| order.contains(x) <==> collected.contains(x),
        ensures
            start.resolved(),
            forall|k: int| 0 <= k < order.len() ==> start.resolves(#[trigger] &order[k]),
    {
        assert forall|p: PeerID, i: int|
            start.changes@.contains_key(p) && 0 <= i < start.changes@[p]@.len() implies start.resolves(
            #[trigger] &start.changes@[p]@[i],
        ) by {
            let c = start.changes@[p]@[i];
            assert(self.resolves(&self.changes@[p]@[i]));
            assert forall|j: int| 0 <= j < c.ops@.len() implies start.arena.settles(
                #[trigger] &c.ops@[j],
            ) by {
                self.arena.lemma_grows_settles(&start.arena, &c.ops@[j]);
            }
        }
        assert forall|k: int| 0 <= k < order.len() implies start.resolves(#[trigger] &order[k]) by {
            assert(order.contains(order[k]));
            let kw = choose|kw: int| 0 <= kw < collected.len() && collected[kw] == order[k];
            assert forall|j: int| 0 <= j < order[k].ops@.len() implies start.arena.settles(
                #[trigger] &order[k].ops@[j],
            ) by {
                assert(start.arena.settles(&collected[kw].ops@[j]));
            }
        }
    }

    /// A log that took in, in replay order, what the changes of a batch hold
    /// beyond it, and whose frontiers were then set to the heads of its
    /// version, has imported the batch.
    pub proof fn lemma_imported(
        &self,
        batch: Batch,
        start: &OpLog,
        work: Seq<Change<Op>>,
        mid: &OpLog,
        later: &OpLog,
    )
        requires
            self.dag.wf(),
            batch_wf(batch),
            later.dag.wf(),
            start.dag == self.dag,
            start.changes == self.changes,
            start.next_lamport == self.next_lamport,
            start.latest_timestamp == self.latest_timestamp,
            start.pending_changes == self.pending_changes,
            self.arena.grows_to(&start.arena),
            work.len() == 0 ==> start.arena == self.arena,
            (forall|p: PeerID, i: int|
                batch.contains_key(p) && 0 <= i < batch[p]@.len() ==> !is_new(
                    self.dag.vv@,
                    #[trigger] &batch[p]@[i],
                )) ==> work.len() == 0,
            is_replay_of(self.dag.vv@, heads_of(work), batch),
            forall|k: int|
                0 <= k < work.len() ==> imports(
                    self.dag.vv@,
                    batch,
                    &start.arena,
                    #[trigger] &work[k],
                ),
            start.replayed(work, mid),
            start.dag.replayed(heads_of(work), &mid.dag),
            mid.arena == start.arena,
            mid.pending_changes == start.pending_changes,
            start.next_lamport <= mid.next_lamport,
            start.latest_timestamp <= mid.latest_timestamp,
            later.dag.map == mid.dag.map,
            later.dag.vv == mid.dag.vv,
            later.arena == mid.arena,
            later.changes == mid.changes,
            later.next_lamport == mid.next_lamport,
            later.latest_timestamp == mid.latest_timestamp,
            later.pending_changes == mid.pending_changes,
            later.dag.frontiers.wf(),
            later.dag.frontiers.one_per_peer(),
            later.dag.frontiers.set() == later.dag.heads(later.dag.vv@),
        ensures
            self.imported(batch, later),
    {
        let runs = heads_of(work);
        start.dag.lemma_replayed_frontiers(runs, &mid.dag, &later.dag);
        start.lemma_replayed_frontiers(work, mid, later);
        assert(self.dag.replayed(runs, &later.dag));
        assert(start.replayed(work, later));
        assert forall|p: PeerID|
            #[trigger] later.dag.vv.end(p) == if self.dag.vv.end(p) < batch_end(batch, p) {
                batch_end(batch, p)
            } else {
                self.dag.vv.end(p)
            } by {
            lemma_import_version(&self.dag, batch, runs, &later.dag, p);
            assert(self.dag.vv.end(p) == self.dag.end(p));
            assert(later.dag.vv.end(p) == later.dag.end(p));
        }
        if work.len() == 0 {
            self.dag.lemma_same_heads(&later.dag, later.dag.vv@);
        }
    }

    /// Takes in a batch of changes that come from other replicas.
    ///
    /// The batch is refused, and the log left as it is, where the changes
    /// of some peer start after the operations that the log holds of that
    /// peer. Else the operations that the log holds already are left out:
    /// a change that holds none beyond them is left out whole, and of a
    /// change that reaches over the end of what the log holds of its peer
    /// the part from that end on is taken. The content of what is taken is
    /// stored in the arena, and the runs are applied in replay order; the
    /// frontiers become the heads of the version that the log then covers,
    /// which covers of every peer what the log covered and what the batch
    /// holds.
    pub fn import_remote_changes(&mut self, changes: RemoteClientChanges) -> (r: Result<
        (),
        LoroError,
    >)
        requires
            old(self).wf(),
            batch_wf(changes@),
            cuts(old(self).dag.vv@, changes@),
            !refuses(old(self).dag.vv@, changes@) ==> old(self).dag.replayable(changes@),
        ensures
            final(self).wf(),
            refuses(old(self).dag.vv@, changes@) ==> {
                &&& r is Err
                &&& r->Err_0 is DecodeError
                &&& r->Err_0.message() == not_appliable_text()
                &&& *final(self) == *old(self)
            },
            !refuses(old(self).dag.vv@, changes@) ==> r is Ok && old(self).imported(
                changes@,
                final(self),
            ),
            old(self).resolved() && batch_fits(changes@) ==> final(self).resolved(),
    {
        if !preflight(&self.dag.vv, &changes) {
            return Err(LoroError::DecodeError(String::from_str("Changes are not appliable yet")));
        }
        let ghost ends = self.dag.vv@;
        let ghost batch = changes@;
        let work = collect(&mut self.arena, &self.dag.vv, &changes);
        let ghost collected = work@;
        let ghost start = *self;
        let mut sorted = sort_for_replay(work);
        let ghost order = sorted@;
        let ghost runs = heads_of(order);
        proof {
            lemma_sorted_is_replay(ends, batch, collected, order);
            if old(self).resolved() && batch_fits(batch) {
                old(self).lemma_resolved_after_collect(&start, collected, order);
            }
            assert(self.dag.admits_all(runs));
            assert forall|k: int| 0 <= k < order.len() implies (#[trigger] order[k]).wf() by {
                assert(order.contains(order[k]));
                let kw = choose|kw: int| 0 <= kw < collected.len() && collected[kw] == order[k];
                assert(collected[kw].wf());
            }
        }
        // the changes with the first to apply at the end
        let mut rev: Vec<Change<Op>> = Vec::new();
        while sorted.len() > 0
            invariant
                sorted@.len() + rev@.len() == order.len(),
                forall|k: int| 0 <= k < sorted@.len() ==> sorted@[k] == order[k],
                forall|k: int| 0 <= k < rev@.len() ==> rev@[k] == order[order.len() - 1 - k],
            decreases sorted@.len(),
        {
            let c = sorted.pop().unwrap();
            rev.push(c);
        }
        let ghost mut done: int = 0;
        proof {
            assert(runs.skip(0) =~= runs);
            assert(runs.take(0) =~= Seq::<RunHead>::empty());
            assert(order.take(0) =~= Seq::<Change<Op>>::empty());
        }
        while rev.len() > 0
            invariant
                self.wf(),
                start.wf(),
                runs == heads_of(order),
                0 <= done <= order.len(),
                rev@.len() == order.len() - done,
                forall|k: int| 0 <= k < rev@.len() ==> rev@[k] == order[order.len() - 1 - k],
                forall|k: int| 0 <= k < order.len() ==> (#[trigger] order[k]).wf(),
                self.arena == start.arena,
                self.pending_changes == start.pending_changes,
                self.dag.frontiers == start.dag.frontiers,
                start.next_lamport <= self.next_lamport,
                start.latest_timestamp <= self.latest_timestamp,
                self.dag.admits_all(runs.skip(done)),
                start.dag.replayed(runs.take(done), &self.dag),
                start.replayed(order.take(done), self),
                done == 0 ==> self.changes == start.changes && self.next_lamport
                    == start.next_lamport && self.latest_timestamp == start.latest_timestamp,
                old(self).resolved() && batch_fits(batch) ==> self.resolved() && forall|k: int|
                    0 <= k < order.len() ==> self.resolves(#[trigger] &order[k]),
            decreases rev@.len(),
        {
            let ghost before = *self;
            let c = rev.pop().unwrap();
            proof {
                assert(c == order[done]);
                assert(runs.skip(done)[0] == runs[done]);
                assert(runs[done] == head_of(&c));
            }
            self.apply(c);
            proof {
                assert(before.dag.appended(c.id, c.lamport, c.deps@, c.spec_len(), &self.dag));
                assert(runs.skip(done).drop_first() =~= runs.skip(done + 1));
                assert(runs.take(done + 1).drop_last() =~= runs.take(done));
                assert(runs.take(done + 1).last() == runs[done]);
                assert(order.take(done + 1).drop_last() =~= order.take(done));
                assert(order.take(done + 1).last() == c);
                assert(before.applied(&c, self));
                done = done + 1;
            }
        }
        proof {
            assert(runs.take(done) =~= runs);
            assert(order.take(done) =~= order);
        }
        let ghost mid = *self;
        proof {
            assert forall|q: PeerID| #[trigger] in_reach(self.dag.vv@, q) implies self.dag.vv@[q]
                <= self.dag.end(q) by {
                assert(self.dag.vv.end(q) == self.dag.end(q));
            }
        }
        let heads = self.dag.vv_to_frontiers(&self.dag.vv);
        self.dag.frontiers = heads;
        proof {
            mid.lemma_wf_frontiers(self);
            mid.dag.lemma_same_heads(&self.dag, self.dag.vv@);
            if order.len() == 0 {
                assert(runs =~= Seq::<RunHead>::empty());
            }
            assert forall|k: int| 0 <= k < order.len() implies imports(
                ends,
                batch,
                &self.arena,
                #[trigger] &order[k],
            ) by {
                assert(order.contains(order[k]));
                let kw = choose|kw: int| 0 <= kw < collected.len() && collected[kw] == order[k];
                assert(imports(ends, batch, &start.arena, &collected[kw]));
            }
            old(self).lemma_imported(batch, &start, order, &mid, self);
        }
        Ok(())
    }
}

impl AppDag {
    /// A graph stays what it is to a graph that it was replayed from when
    /// its frontiers change.
    pub proof fn lemma_replayed_frontiers(&self, runs: Seq<RunHead>, mid: &AppDag, later: &AppDag)
        requires
            self.replayed(runs, mid),
            later.map == mid.map,
            later.vv == mid.vv,
            later.frontiers.wf(),
        ensures
            self.replayed(runs, later),
    {
        if runs.len() > 0 {
            let m = choose|m: AppDag|
                self.replayed(runs.drop_last(), &m) && #[trigger] m.appended(
                    runs.last().id,
                    runs.last().lamport,
                    runs.last().deps,
                    runs.last().len,
                    mid,
                );
            m.lemma_appended_frontiers(
                runs.last().id,
                runs.last().lamport,
                runs.last().deps,
                runs.last().len,
                mid,
                later,
            );
        }
    }
}

} // verus!
