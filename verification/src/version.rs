//! Versions of a document: version vectors and frontiers.
use std::collections::HashMap;
use vstd::prelude::*;
use vstd::std_specs::hash::spec_keys_iter;
use vstd::std_specs::iter::IteratorSpec;

use crate::id::{Counter, CounterSpan, PeerID, ID};

verus! {

broadcast use vstd::std_specs::hash::group_hash_axioms;

/// The keys of a map keyed by peer, each once, in no particular order.
pub fn peers_of<V>(m: &HashMap<PeerID, V>) -> (v: Vec<PeerID>)
    ensures
        v@.no_duplicates(),
        forall|p: PeerID| v@.contains(p) <==> m@.contains_key(p),
{
    let mut v: Vec<PeerID> = Vec::new();
    let ghost full = spec_keys_iter(m).remaining();
    for k in it: m.keys()
        invariant
            v@ == it.seq().take(it.index() as int).unref(),
            it.seq() == full,
    {
        v.push(*k);
    }
    proof {
        assert(full.take(full.len() as int) =~= full);
        assert forall|i: int, j: int|
            0 <= i < v@.len() && 0 <= j < v@.len() && i != j implies v@[i] != v@[j] by {
            assert(full[i] != full[j]);
        }
        assert(v@.to_set() == m@.dom());
        assert forall|p: PeerID| v@.contains(p) <==> m@.contains_key(p) by {
            assert(v@.to_set().contains(p) <==> v@.contains(p));
        }
    }
    v
}

/// The exclusive end of a peer's counters in a map from peer to end: zero
/// for a peer that the map does not hold.
pub open spec fn end_of(m: Map<PeerID, Counter>, peer: PeerID) -> int {
    if m.contains_key(peer) {
        m[peer] as int
    } else {
        0
    }
}

/// The pointwise maximum of two maps from peer to end.
pub open spec fn merged(a: Map<PeerID, Counter>, b: Map<PeerID, Counter>) -> Map<PeerID, Counter> {
    Map::new(
        |p: PeerID| a.contains_key(p) || b.contains_key(p),
        |p: PeerID|
            if a.contains_key(p) && (!b.contains_key(p) || b[p] <= a[p]) {
                a[p]
            } else {
                b[p]
            },
    )
}

/// The pointwise minimum of two maps from peer to end: what both cover.
pub open spec fn met(a: Map<PeerID, Counter>, b: Map<PeerID, Counter>) -> Map<PeerID, Counter> {
    Map::new(
        |p: PeerID| a.contains_key(p) && b.contains_key(p),
        |p: PeerID|
            if a[p] <= b[p] {
                a[p]
            } else {
                b[p]
            },
    )
}

/// The spans that `b` covers and `a` does not.
pub open spec fn missing_spans(a: Map<PeerID, Counter>, b: Map<PeerID, Counter>) -> Map<
    PeerID,
    CounterSpan,
> {
    Map::new(
        |p: PeerID| end_of(a, p) < end_of(b, p),
        |p: PeerID| CounterSpan { start: end_of(a, p) as Counter, end: end_of(b, p) as Counter },
    )
}

/// The sum of a number over the peers of a sequence.
pub open spec fn sum_over(keys: Seq<PeerID>, f: spec_fn(PeerID) -> nat) -> nat
    decreases keys.len(),
{
    if keys.len() == 0 {
        0
    } else {
        sum_over(keys.drop_last(), f) + f(keys.last())
    }
}

/// Some sequence that holds each peer of a set once.
pub open spec fn peers_in_order(peers: Set<PeerID>) -> Seq<PeerID> {
    choose|s: Seq<PeerID>| s.no_duplicates() && forall|p: PeerID| s.contains(p) <==> peers.contains(p)
}

/// The sum of a number over the peers of a set.
pub open spec fn sum_over_peers(peers: Set<PeerID>, f: spec_fn(PeerID) -> nat) -> nat {
    sum_over(peers_in_order(peers), f)
}

/// Taking a peer out of a sequence takes its number out of the sum.
pub proof fn lemma_sum_remove(keys: Seq<PeerID>, f: spec_fn(PeerID) -> nat, j: int)
    requires
        0 <= j < keys.len(),
    ensures
        sum_over(keys, f) == sum_over(keys.remove(j), f) + f(keys[j]),
    decreases keys.len(),
{
    if j == keys.len() - 1 {
        assert(keys.remove(j) =~= keys.drop_last());
    } else {
        lemma_sum_remove(keys.drop_last(), f, j);
        assert(keys.remove(j).drop_last() =~= keys.drop_last().remove(j));
        assert(keys.remove(j).last() == keys.last());
    }
}

/// A sum over peers grows with the number that is summed, and a sum over
/// the first peers of a sequence is no larger than the sum over all.
pub proof fn lemma_sum_le(
    keys: Seq<PeerID>,
    f: spec_fn(PeerID) -> nat,
    g: spec_fn(PeerID) -> nat,
    k: int,
)
    requires
        0 <= k <= keys.len(),
        forall|p: PeerID| keys.contains(p) ==> #[trigger] f(p) <= g(p),
    ensures
        sum_over(keys.take(k), f) <= sum_over(keys, g),
    decreases keys.len(),
{
    if keys.len() == 0 {
        assert(keys.take(k) =~= keys);
    } else {
        let head = keys.drop_last();
        assert(keys.contains(keys.last())) by {
            assert(keys[keys.len() - 1] == keys.last());
        }
        assert forall|p: PeerID| head.contains(p) implies #[trigger] f(p) <= g(p) by {
            let i = choose|i: int| 0 <= i < head.len() && head[i] == p;
            assert(keys[i] == p);
        }
        if k == keys.len() {
            assert(keys.take(k) =~= keys);
            lemma_sum_le(head, f, g, k - 1);
            assert(head.take(k - 1) =~= head);
        } else {
            lemma_sum_le(head, f, g, k);
            assert(head.take(k) =~= keys.take(k));
        }
    }
}

/// The sum over peers does not depend on their order.
pub proof fn lemma_sum_any_order(a: Seq<PeerID>, b: Seq<PeerID>, f: spec_fn(PeerID) -> nat)
    requires
        a.no_duplicates(),
        b.no_duplicates(),
        forall|p: PeerID| a.contains(p) <==> b.contains(p),
    ensures
        sum_over(a, f) == sum_over(b, f),
    decreases a.len(),
{
    if a.len() == 0 {
        if b.len() > 0 {
            assert(b.contains(b[0]));
        }
    } else {
        let x = a.last();
        assert(a.contains(x));
        let j = choose|j: int| 0 <= j < b.len() && b[j] == x;
        let a2 = a.drop_last();
        let b2 = b.remove(j);
        assert forall|p: PeerID| a2.contains(p) <==> b2.contains(p) by {
            if a2.contains(p) {
                let i = choose|i: int| 0 <= i < a2.len() && a2[i] == p;
                assert(a[i] == p);
                assert(p != x);
                assert(b.contains(p));
                let k = choose|k: int| 0 <= k < b.len() && b[k] == p;
                if k < j {
                    assert(b2[k] == p);
                } else {
                    assert(b2[k - 1] == p);
                }
            }
            if b2.contains(p) {
                let k = choose|k: int| 0 <= k < b2.len() && b2[k] == p;
                let k0 = if k < j {
                    k
                } else {
                    k + 1
                };
                assert(b[k0] == p);
                assert(p != x);
                assert(b.contains(p));
                assert(a.contains(p));
                let i = choose|i: int| 0 <= i < a.len() && a[i] == p;
                assert(a2[i] == p);
            }
        }
        assert(b2.no_duplicates()) by {
            assert forall|u: int, v: int| 0 <= u < b2.len() && 0 <= v < b2.len() && u != v implies b2[u]
                != b2[v] by {
                let u0 = if u < j {
                    u
                } else {
                    u + 1
                };
                let v0 = if v < j {
                    v
                } else {
                    v + 1
                };
                assert(b[u0] != b[v0]);
            }
        }
        lemma_sum_any_order(a2, b2, f);
        lemma_sum_remove(b, f, j);
    }
}

/// The sum over the peers of a sequence that holds each peer of a set
/// once is the sum over the peers of the set.
pub proof fn lemma_sum_over_peers(keys: Seq<PeerID>, peers: Set<PeerID>, f: spec_fn(PeerID) -> nat)
    requires
        keys.no_duplicates(),
        forall|p: PeerID| keys.contains(p) <==> peers.contains(p),
    ensures
        sum_over(keys, f) == sum_over_peers(peers, f),
{
    let s = peers_in_order(peers);
    lemma_sum_any_order(keys, s, f);
}

/// A map from peer to span of counters.
pub type IdSpanVector = HashMap<PeerID, CounterSpan>;

/// What each of two version vectors covers and the other does not.
#[derive(Debug)]
pub struct VersionVectorDiff {
    /// What the left one covers and the right one does not.
    pub left: IdSpanVector,
    /// What the right one covers and the left one does not.
    pub right: IdSpanVector,
}

/// For each peer the number of its operations that a version has seen,
/// which is also the counter of the next one.
#[derive(Debug)]
pub struct VersionVector {
    pub ends: HashMap<PeerID, Counter>,
}

impl View for VersionVector {
    type V = Map<PeerID, Counter>;

    open spec fn view(&self) -> Map<PeerID, Counter> {
        self.ends@
    }
}

impl VersionVector {
    /// The exclusive end of `peer`'s counters; zero for an unknown peer.
    pub open spec fn end(&self, peer: PeerID) -> int {
        end_of(self@, peer)
    }

    /// Whether the version has seen the operation.
    pub open spec fn includes(&self, id: ID) -> bool {
        self@.contains_key(id.peer) && id.counter < self@[id.peer]
    }

    /// Whether two version vectors cover the same operations.
    pub open spec fn same_as(&self, other: &VersionVector) -> bool {
        forall|p: PeerID| self.end(p) == other.end(p)
    }

    /// Whether `self` covers no more than `other`.
    pub open spec fn le(&self, other: &VersionVector) -> bool {
        forall|p: PeerID| self.end(p) <= other.end(p)
    }

    pub fn new() -> (r: Self)
        ensures
            r@ == Map::<PeerID, Counter>::empty(),
    {
        VersionVector { ends: HashMap::new() }
    }

    pub fn len(&self) -> (n: usize)
        ensures
            n == self@.len(),
    {
        self.ends.len()
    }

    pub fn is_empty(&self) -> (b: bool)
        ensures
            b == (self@.len() == 0),
    {
        self.ends.len() == 0
    }

    pub fn get(&self, peer: &PeerID) -> (r: Option<&Counter>)
        ensures
            match r {
                Some(c) => self@.contains_key(*peer) && *c == self@[*peer],
                None => !self@.contains_key(*peer),
            },
    {
        self.ends.get(peer)
    }

    /// The exclusive end of `peer`'s counters; zero for an unknown peer.
    pub fn get_end(&self, peer: PeerID) -> (c: Counter)
        ensures
            c == self.end(peer),
    {
        match self.ends.get(&peer) {
            Some(c) => *c,
            None => 0,
        }
    }

    pub fn includes_id(&self, id: ID) -> (b: bool)
        ensures
            b == self.includes(id),
    {
        match self.ends.get(&id.peer) {
            Some(c) => id.counter < *c,
            None => false,
        }
    }

    /// Sets the end of `peer`'s counters.
    pub fn set_end(&mut self, peer: PeerID, end: Counter)
        ensures
            final(self)@ == old(self)@.insert(peer, end),
    {
        self.ends.insert(peer, end);
    }

    /// Raises the entry of `id.peer` so that `id` is included.
    pub fn extend_to_include_last_id(&mut self, id: ID)
        requires
            id.counter < i32::MAX,
        ensures
            final(self)@ == if old(self).includes(id) {
                old(self)@
            } else {
                old(self)@.insert(id.peer, (id.counter + 1) as Counter)
            },
    {
        if !self.includes_id(id) {
            self.ends.insert(id.peer, id.counter + 1);
        }
    }

    /// Raises the entry of `id.peer` so that every operation before `id` is
    /// included.
    pub fn extend_to_include_end_id(&mut self, id: ID)
        ensures
            final(self)@ == if old(self)@.contains_key(id.peer) && id.counter <= old(self)@[id.peer] {
                old(self)@
            } else {
                old(self)@.insert(id.peer, id.counter)
            },
    {
        let covered = match self.ends.get(&id.peer) {
            Some(c) => id.counter <= *c,
            None => false,
        };
        if !covered {
            self.ends.insert(id.peer, id.counter);
        }
    }

    /// A copy of the version vector.
    pub fn clone_vv(&self) -> (r: Self)
        ensures
            r@ == self@,
    {
        VersionVector { ends: self.ends.clone() }
    }

    /// Raises every entry to the one in `other`, where that is larger.
    pub fn merge(&mut self, other: &VersionVector)
        ensures
            final(self)@ == merged(old(self)@, other@),
    {
        let keys = peers_of(&other.ends);
        let mut i: usize = 0;
        while i < keys.len()
            invariant
                0 <= i <= keys.len(),
                keys@.no_duplicates(),
                forall|p: PeerID| keys@.contains(p) <==> other@.contains_key(p),
                forall|p: PeerID|
                    self@.contains_key(p) <==> (old(self)@.contains_key(p) || keys@.take(
                        i as int,
                    ).contains(p)),
                forall|p: PeerID|
                    #![trigger self@[p]]
                    self@.contains_key(p) ==> self@[p] == if keys@.take(i as int).contains(p) {
                        merged(old(self)@, other@)[p]
                    } else if old(self)@.contains_key(p) {
                        old(self)@[p]
                    } else {
                        0
                    },
            decreases keys.len() - i,
        {
            let p = keys[i];
            assert(keys@.contains(p));
            let theirs = other.get_end(p);
            proof {
                lemma_take_push_contains(keys@, i as int);
            }
            let known = self.ends.get(&p).is_some();
            let mine = self.get_end(p);
            if !known || mine < theirs {
                self.ends.insert(p, theirs);
            }
            i += 1;
        }
        assert(keys@.take(keys.len() as int) =~= keys@);
        assert(self@ =~= merged(old(self)@, other@));
    }

    /// What both versions cover.
    pub fn meet(&self, other: &VersionVector) -> (r: VersionVector)
        ensures
            r@ == met(self@, other@),
    {
        let mut r = VersionVector::new();
        let keys = peers_of(&self.ends);
        let mut i: usize = 0;
        while i < keys.len()
            invariant
                0 <= i <= keys.len(),
                keys@.no_duplicates(),
                forall|p: PeerID| keys@.contains(p) <==> self@.contains_key(p),
                forall|p: PeerID|
                    r@.contains_key(p) <==> (keys@.take(i as int).contains(p) && other@.contains_key(
                        p,
                    )),
                forall|p: PeerID|
                    #![trigger r@[p]]
                    r@.contains_key(p) ==> r@[p] == met(self@, other@)[p],
            decreases keys.len() - i,
        {
            let p = keys[i];
            assert(keys@.contains(p));
            proof {
                lemma_take_push_contains(keys@, i as int);
            }
            let mine = self.get_end(p);
            let known = other.ends.get(&p).is_some();
            let theirs = other.get_end(p);
            if known {
                if mine <= theirs {
                    r.ends.insert(p, mine);
                } else {
                    r.ends.insert(p, theirs);
                }
            }
            i += 1;
        }
        assert(keys@.take(keys.len() as int) =~= keys@);
        assert(r@ =~= met(self@, other@));
        r
    }

    /// What each of the two covers and the other does not, peer by peer.
    pub fn diff(&self, rhs: &VersionVector) -> (d: VersionVectorDiff)
        ensures
            d.left@ == missing_spans(rhs@, self@),
            d.right@ == missing_spans(self@, rhs@),
    {
        let mut left: IdSpanVector = HashMap::new();
        let mut right: IdSpanVector = HashMap::new();
        let keys = peers_of(&self.ends);
        let mut i: usize = 0;
        while i < keys.len()
            invariant
                0 <= i <= keys.len(),
                keys@.no_duplicates(),
                forall|p: PeerID| keys@.contains(p) <==> self@.contains_key(p),
                forall|p: PeerID|
                    left@.contains_key(p) <==> (keys@.take(i as int).contains(p)
                        && missing_spans(rhs@, self@).contains_key(p)),
                forall|p: PeerID|
                    right@.contains_key(p) <==> (keys@.take(i as int).contains(p)
                        && missing_spans(self@, rhs@).contains_key(p)),
                forall|p: PeerID|
                    #![trigger left@[p]]
                    left@.contains_key(p) ==> left@[p] == missing_spans(rhs@, self@)[p],
                forall|p: PeerID|
                    #![trigger right@[p]]
                    right@.contains_key(p) ==> right@[p] == missing_spans(self@, rhs@)[p],
            decreases keys.len() - i,
        {
            let p = keys[i];
            assert(keys@.contains(p));
            let ghost seen = keys@.take(i as int);
            let ghost seen2 = keys@.take(i + 1);
            proof {
                lemma_take_push_contains(keys@, i as int);
            }
            let mine = self.get_end(p);
            let theirs = rhs.get_end(p);
            if mine < theirs {
                right.insert(p, CounterSpan { start: mine, end: theirs });
            } else if theirs < mine {
                left.insert(p, CounterSpan { start: theirs, end: mine });
            }
            i += 1;
        }
        assert(keys@.take(keys.len() as int) =~= keys@);
        let keys2 = peers_of(&rhs.ends);
        let mut j: usize = 0;
        while j < keys2.len()
            invariant
                0 <= j <= keys2.len(),
                keys2@.no_duplicates(),
                forall|p: PeerID| keys2@.contains(p) <==> rhs@.contains_key(p),
                forall|p: PeerID|
                    left@.contains_key(p) <==> ((self@.contains_key(p) || keys2@.take(
                        j as int,
                    ).contains(p)) && missing_spans(rhs@, self@).contains_key(p)),
                forall|p: PeerID|
                    #![trigger left@[p]]
                    left@.contains_key(p) ==> left@[p] == missing_spans(rhs@, self@)[p],
                forall|p: PeerID|
                    right@.contains_key(p) <==> ((self@.contains_key(p) || keys2@.take(
                        j as int,
                    ).contains(p)) && missing_spans(self@, rhs@).contains_key(p)),
                forall|p: PeerID|
                    #![trigger right@[p]]
                    right@.contains_key(p) ==> right@[p] == missing_spans(self@, rhs@)[p],
            decreases keys2.len() - j,
        {
            let p = keys2[j];
            assert(keys2@.contains(p));
            proof {
                lemma_take_push_contains(keys2@, j as int);
            }
            if self.ends.get(&p).is_none() {
                let theirs = rhs.get_end(p);
                if 0 < theirs {
                    right.insert(p, CounterSpan { start: 0, end: theirs });
                } else if theirs < 0 {
                    left.insert(p, CounterSpan { start: theirs, end: 0 });
                }
            }
            j += 1;
        }
        assert(keys2@.take(keys2.len() as int) =~= keys2@);
        assert(left@ =~= missing_spans(rhs@, self@));
        assert(right@ =~= missing_spans(self@, rhs@));
        VersionVectorDiff { left, right }
    }

    /// Whether two version vectors cover the same operations.
    pub fn eq_vv(&self, other: &VersionVector) -> (b: bool)
        ensures
            b == self.same_as(other),
    {
        let d = self.diff(other);
        let b = d.left.is_empty() && d.right.is_empty();
        proof {
            let l = missing_spans(other@, self@);
            let r = missing_spans(self@, other@);
            if b {
                assert forall|p: PeerID| self.end(p) == other.end(p) by {
                    if self.end(p) < other.end(p) {
                        assert(r.contains_key(p));
                        assert(d.right@.dom().contains(p));
                    }
                    if other.end(p) < self.end(p) {
                        assert(l.contains_key(p));
                        assert(d.left@.dom().contains(p));
                    }
                }
            } else {
                if !d.left@.is_empty() {
                    assert(exists|p: PeerID| d.left@.dom().contains(p)) by {
                        if forall|p: PeerID| !d.left@.dom().contains(p) {
                            assert(d.left@.dom() =~= Set::<PeerID>::empty());
                        }
                    }
                    let p = choose|p: PeerID| d.left@.dom().contains(p);
                    assert(l.contains_key(p));
                    assert(self.end(p) != other.end(p));
                } else {
                    assert(exists|p: PeerID| d.right@.dom().contains(p)) by {
                        if forall|p: PeerID| !d.right@.dom().contains(p) {
                            assert(d.right@.dom() =~= Set::<PeerID>::empty());
                        }
                    }
                    let p = choose|p: PeerID| d.right@.dom().contains(p);
                    assert(r.contains_key(p));
                    assert(self.end(p) != other.end(p));
                }
            }
        }
        b
    }
}

/// A small set of operation ids that stands for a version: the latest
/// operations that no other operation of the version depends on.
#[derive(Debug)]
pub struct Frontiers {
    pub ids: Vec<ID>,
}

impl View for Frontiers {
    type V = Seq<ID>;

    open spec fn view(&self) -> Seq<ID> {
        self.ids@
    }
}

impl Frontiers {
    /// No id occurs twice.
    pub open spec fn wf(&self) -> bool {
        self@.no_duplicates()
    }

    /// The ids as a set.
    pub open spec fn set(&self) -> Set<ID> {
        self@.to_set()
    }

    /// At most one id of each peer.
    pub open spec fn one_per_peer(&self) -> bool {
        forall|i: int, j: int|
            0 <= i < self@.len() && 0 <= j < self@.len() && i != j ==> self@[i].peer
                != self@[j].peer
    }

    pub fn new() -> (r: Self)
        ensures
            r@ == Seq::<ID>::empty(),
            r.wf(),
    {
        Frontiers { ids: Vec::new() }
    }

    /// The frontiers that hold one id.
    pub fn from_id(id: ID) -> (r: Self)
        ensures
            r@ == seq![id],
            r.wf(),
    {
        let mut ids: Vec<ID> = Vec::new();
        ids.push(id);
        Frontiers { ids }
    }

    pub fn len(&self) -> (n: usize)
        ensures
            n == self@.len(),
    {
        self.ids.len()
    }

    pub fn is_empty(&self) -> (b: bool)
        ensures
            b == (self@.len() == 0),
    {
        self.ids.len() == 0
    }

    pub fn get(&self, i: usize) -> (id: ID)
        requires
            i < self@.len(),
        ensures
            id == self@[i as int],
    {
        self.ids[i]
    }

    pub fn contains(&self, id: ID) -> (b: bool)
        ensures
            b == self@.contains(id),
    {
        let mut i: usize = 0;
        while i < self.ids.len()
            invariant
                0 <= i <= self.ids.len(),
                forall|j: int| 0 <= j < i ==> self@[j] != id,
            decreases self.ids.len() - i,
        {
            if self.ids[i] == id {
                return true;
            }
            i += 1;
        }
        false
    }

    /// Whether no id occurs twice.
    pub fn has_no_duplicates(&self) -> (b: bool)
        ensures
            b == self.wf(),
    {
        let mut i: usize = 0;
        while i < self.ids.len()
            invariant
                0 <= i <= self.ids.len(),
                forall|a: int, c: int| 0 <= a < i && a < c < self@.len() ==> self@[a] != self@[c],
            decreases self.ids.len() - i,
        {
            let mut j: usize = i + 1;
            while j < self.ids.len()
                invariant
                    i < j <= self.ids.len(),
                    forall|c: int| i < c < j ==> self@[i as int] != self@[c],
                decreases self.ids.len() - j,
            {
                if self.ids[i] == self.ids[j] {
                    return false;
                }
                j += 1;
            }
            i += 1;
        }
        assert forall|a: int, c: int|
            0 <= a < self@.len() && 0 <= c < self@.len() && a != c implies self@[a] != self@[c] by {
            if a < c {
                assert(self@[a] != self@[c]);
            } else {
                assert(self@[c] != self@[a]);
            }
        }
        true
    }

    /// Adds an id, unless it is there already.
    pub fn push(&mut self, id: ID)
        ensures
            final(self)@ == if old(self)@.contains(id) {
                old(self)@
            } else {
                old(self)@.push(id)
            },
            old(self).wf() ==> final(self).wf(),
            final(self).set() == old(self).set().insert(id),
    {
        if !self.contains(id) {
            self.ids.push(id);
            proof {
                assert forall|x: ID| final(self).set().contains(x) <==> old(self).set().insert(
                    id,
                ).contains(x) by {
                    if old(self)@.contains(x) {
                        let j = choose|j: int| 0 <= j < old(self)@.len() && old(self)@[j] == x;
                        assert(final(self)@[j] == x);
                    }
                    if x == id {
                        assert(final(self)@[old(self)@.len() as int] == id);
                    }
                }
                assert(final(self).set() =~= old(self).set().insert(id));
            }
        } else {
            assert(final(self).set() =~= old(self).set().insert(id));
        }
    }

    /// Removes every id that `other` holds.
    pub fn retain_non_included(&mut self, other: &Frontiers)
        ensures
            final(self)@ == old(self)@.filter(|id: ID| !other@.contains(id)),
            old(self).wf() ==> final(self).wf(),
    {
        let ghost pred = |id: ID| !other@.contains(id);
        let mut out: Vec<ID> = Vec::new();
        let mut i: usize = 0;
        while i < self.ids.len()
            invariant
                0 <= i <= self.ids.len(),
                self@ == old(self)@,
                pred == (|id: ID| !other@.contains(id)),
                out@ == self@.take(i as int).filter(pred),
            decreases self.ids.len() - i,
        {
            let id = self.ids[i];
            proof {
                reveal(Seq::filter);
                assert(self@.take(i + 1).drop_last() =~= self@.take(i as int));
            }
            if !other.contains(id) {
                out.push(id);
            }
            i += 1;
        }
        proof {
            assert(self@.take(self@.len() as int) =~= self@);
            if old(self).wf() {
                lemma_filter_no_duplicates(old(self)@, pred);
            }
        }
        self.ids = out;
    }

    /// Removes every id of `peer`.
    pub fn filter_peer(&mut self, peer: PeerID)
        ensures
            final(self)@ == old(self)@.filter(|id: ID| id.peer != peer),
            old(self).wf() ==> final(self).wf(),
    {
        let ghost pred = |id: ID| id.peer != peer;
        let mut out: Vec<ID> = Vec::new();
        let mut i: usize = 0;
        while i < self.ids.len()
            invariant
                0 <= i <= self.ids.len(),
                self@ == old(self)@,
                pred == (|id: ID| id.peer != peer),
                out@ == self@.take(i as int).filter(pred),
            decreases self.ids.len() - i,
        {
            let id = self.ids[i];
            proof {
                reveal(Seq::filter);
                assert(self@.take(i + 1).drop_last() =~= self@.take(i as int));
            }
            if id.peer != peer {
                out.push(id);
            }
            i += 1;
        }
        proof {
            assert(self@.take(self@.len() as int) =~= self@);
            if old(self).wf() {
                lemma_filter_no_duplicates(old(self)@, pred);
            }
        }
        self.ids = out;
    }

    /// A copy of the frontiers.
    pub fn clone_frontiers(&self) -> (r: Self)
        ensures
            r@ == self@,
    {
        let mut ids: Vec<ID> = Vec::new();
        let mut i: usize = 0;
        while i < self.ids.len()
            invariant
                0 <= i <= self.ids.len(),
                ids@ == self@.take(i as int),
            decreases self.ids.len() - i,
        {
            ids.push(self.ids[i]);
            i += 1;
            assert(ids@ =~= self@.take(i as int));
        }
        assert(self@.take(self@.len() as int) =~= self@);
        Frontiers { ids }
    }

    /// Whether every id of `self` is one of `other`.
    pub fn subset_of(&self, other: &Frontiers) -> (b: bool)
        ensures
            b == (forall|id: ID| self@.contains(id) ==> other@.contains(id)),
    {
        let mut i: usize = 0;
        while i < self.ids.len()
            invariant
                0 <= i <= self.ids.len(),
                forall|j: int| 0 <= j < i ==> other@.contains(self@[j]),
            decreases self.ids.len() - i,
        {
            if !other.contains(self.ids[i]) {
                assert(self@.contains(self@[i as int]));
                return false;
            }
            i += 1;
        }
        true
    }

    /// Whether two frontiers hold the same ids.
    pub fn eq_set(&self, other: &Frontiers) -> (b: bool)
        ensures
            b == (self.set() == other.set()),
    {
        let b = self.subset_of(other) && other.subset_of(self);
        proof {
            if b {
                assert(self.set() =~= other.set());
            } else {
                if self.set() == other.set() {
                    assert forall|id: ID| self@.contains(id) <==> other@.contains(id) by {
                        assert(self.set().contains(id) <==> other.set().contains(id));
                    }
                }
            }
        }
        b
    }
}

/// What is left of a sequence after keeping the elements that meet a
/// condition: exactly the elements of the sequence that meet it.
pub proof fn lemma_filter_contains<T>(s: Seq<T>, pred: spec_fn(T) -> bool, x: T)
    ensures
        s.filter(pred).contains(x) <==> (s.contains(x) && pred(x)),
    decreases s.len(),
{
    reveal(Seq::filter);
    if s.len() > 0 {
        let head = s.drop_last();
        let f = head.filter(pred);
        let g = s.filter(pred);
        lemma_filter_contains(head, pred, x);
        if s.contains(x) && pred(x) {
            let j = choose|j: int| 0 <= j < s.len() && s[j] == x;
            if j < s.len() - 1 {
                assert(head[j] == x);
                assert(head.contains(x));
                let k = choose|k: int| 0 <= k < f.len() && f[k] == x;
                assert(g[k] == x);
            } else {
                assert(g[f.len() as int] == x);
            }
            assert(g.contains(x));
        }
        if g.contains(x) {
            let k = choose|k: int| 0 <= k < g.len() && g[k] == x;
            if k < f.len() {
                assert(f[k] == x);
                assert(f.contains(x));
                let j = choose|j: int| 0 <= j < head.len() && head[j] == x;
                assert(s[j] == x);
            } else {
                assert(s[s.len() - 1] == x);
            }
            assert(s.contains(x) && pred(x));
        }
    }
}

/// Keeping some elements of a sequence without repeats leaves no repeats.
pub proof fn lemma_filter_no_duplicates<T>(s: Seq<T>, pred: spec_fn(T) -> bool)
    requires
        s.no_duplicates(),
    ensures
        s.filter(pred).no_duplicates(),
    decreases s.len(),
{
    reveal(Seq::filter);
    if s.len() > 0 {
        let head = s.drop_last();
        let f = head.filter(pred);
        lemma_filter_no_duplicates(head, pred);
        if pred(s.last()) {
            lemma_filter_contains(head, pred, s.last());
            if head.contains(s.last()) {
                let j = choose|j: int| 0 <= j < head.len() && head[j] == s.last();
                assert(s[j] == s[s.len() - 1]);
            }
            assert(!f.contains(s.last()));
            let g = f.push(s.last());
            assert forall|i: int, j: int| 0 <= i < g.len() && 0 <= j < g.len() && i != j implies g[i]
                != g[j] by {
                if i == f.len() {
                    assert(f.contains(f[j]));
                } else if j == f.len() {
                    assert(f.contains(f[i]));
                }
            }
        }
    }
}

/// The elements of a prefix one longer are those of the prefix and the
/// element that follows it.
pub proof fn lemma_take_push_contains<T>(s: Seq<T>, i: int)
    requires
        0 <= i < s.len(),
    ensures
        forall|x: T| s.take(i + 1).contains(x) <==> (s.take(i).contains(x) || x == s[i]),
        s.no_duplicates() ==> !s.take(i).contains(s[i]),
{
    let a = s.take(i);
    let b = s.take(i + 1);
    assert forall|x: T| b.contains(x) <==> (a.contains(x) || x == s[i]) by {
        if a.contains(x) {
            let j = choose|j: int| 0 <= j < a.len() && a[j] == x;
            assert(b[j] == x);
        }
        if x == s[i] {
            assert(b[i] == x);
        }
        if b.contains(x) {
            let j = choose|j: int| 0 <= j < b.len() && b[j] == x;
            if j < i {
                assert(a[j] == x);
            }
        }
    }
    if s.no_duplicates() && a.contains(s[i]) {
        let j = choose|j: int| 0 <= j < a.len() && a[j] == s[i];
        assert(s[j] == s[i]);
    }
}

} // verus!
