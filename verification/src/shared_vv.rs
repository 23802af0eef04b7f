//! The version vector that the nodes of the causal graph keep: a map that
//! shares its storage with its copies.
use vstd::prelude::*;

use crate::id::{Counter, PeerID, ID};
use crate::version::{end_of, lemma_take_push_contains, merged, VersionVector};

verus! {

/// `im::HashMap`, a hash map whose copies share their storage.
#[verifier::external_type_specification]
#[verifier::external_body]
#[verifier::reject_recursive_types(K)]
#[verifier::reject_recursive_types(V)]
#[verifier::reject_recursive_types(S)]
pub struct ExSharedMap<K, V, S>(im::HashMap<K, V, S>);

/// A shared map from peer to counter.
pub type SharedEnds = im::HashMap<PeerID, Counter>;

/// The entries that a shared map from peer to counter holds.
pub uninterp spec fn shared_entries(m: SharedEnds) -> Map<PeerID, Counter>;

/// `im::HashMap::new`: a map without entries.
#[verifier::external_body]
fn shared_new() -> (r: SharedEnds)
    ensures
        (shared_entries(r) == Map::<PeerID, Counter>::empty()),
{
    im::HashMap::new()
}

/// `im::HashMap::get`: the value under a key, if the map holds the key.
#[verifier::external_body]
fn shared_get(m: &SharedEnds, key: PeerID) -> (r: Option<Counter>)
    ensures
        r is Some <==> shared_entries(*m).contains_key(key),
        r is Some ==> r->0 == shared_entries(*m)[key],
{
    m.get(&key).copied()
}

/// `im::HashMap::insert`: afterwards the map holds the value under the
/// key, and every other entry as before. What it shares with its copies
/// is copied before it is changed, so that no copy changes.
#[verifier::external_body]
fn shared_insert(m: &mut SharedEnds, key: PeerID, value: Counter)
    ensures
        shared_entries(*final(m)) == shared_entries(*old(m)).insert(key, value),
{
    m.insert(key, value);
}

/// `Clone` of an `im::HashMap`: a map with the same entries, which shares
/// the storage of this one.
#[verifier::external_body]
fn shared_clone(m: &SharedEnds) -> (r: SharedEnds)
    ensures
        shared_entries(r) == shared_entries(*m),
{
    m.clone()
}

/// `im::HashMap::keys`: the keys of the map, each once; nothing is said
/// of their order.
#[verifier::external_body]
fn shared_keys(m: &SharedEnds) -> (r: Vec<PeerID>)
    ensures
        r@.no_duplicates(),
        forall|k: PeerID| r@.contains(k) <==> shared_entries(*m).contains_key(k),
{
    m.keys().copied().collect()
}

/// The version vector kept in a node of the causal graph. A copy shares
/// the storage of what it was copied from, and a change of one of them
/// copies only what it changes.
#[derive(Debug)]
pub struct ImVersionVector {
    ends: SharedEnds,
}

impl View for ImVersionVector {
    type V = Map<PeerID, Counter>;

    closed spec fn view(&self) -> Map<PeerID, Counter> {
        shared_entries(self.ends)
    }
}

impl ImVersionVector {
    /// The exclusive end of `peer`'s counters; zero for an unknown peer.
    pub open spec fn end(&self, peer: PeerID) -> int {
        end_of(self@, peer)
    }

    /// Whether the version has seen the operation.
    pub open spec fn includes(&self, id: ID) -> bool {
        self@.contains_key(id.peer) && id.counter < self@[id.peer]
    }

    pub fn new() -> (r: Self)
        ensures
            r@ == Map::<PeerID, Counter>::empty(),
    {
        ImVersionVector { ends: shared_new() }
    }

    pub fn get(&self, peer: PeerID) -> (r: Option<Counter>)
        ensures
            match r {
                Some(c) => self@.contains_key(peer) && c == self@[peer],
                None => !self@.contains_key(peer),
            },
    {
        shared_get(&self.ends, peer)
    }

    /// The exclusive end of `peer`'s counters; zero for an unknown peer.
    pub fn get_end(&self, peer: PeerID) -> (c: Counter)
        ensures
            c == self.end(peer),
    {
        match shared_get(&self.ends, peer) {
            Some(c) => c,
            None => 0,
        }
    }

    pub fn includes_id(&self, id: ID) -> (b: bool)
        ensures
            b == self.includes(id),
    {
        match shared_get(&self.ends, id.peer) {
            Some(c) => id.counter < c,
            None => false,
        }
    }

    /// Sets the end of `peer`'s counters.
    pub fn set_end(&mut self, peer: PeerID, end: Counter)
        ensures
            final(self)@ == old(self)@.insert(peer, end),
    {
        shared_insert(&mut self.ends, peer, end);
    }

    /// Raises the entry of `id.peer` so that `id` is included.
    pub fn extend_to_include_last_id(&mut self, id: ID)
        requires
            id.counter < i32::MAX,
        ensures
            final(self)@ == if old(self).includes(id) {
                old(self)@
            } else {
                old(self)@.insert(id.peer, (id.counter + 1) as Counter)
            },
    {
        if !self.includes_id(id) {
            shared_insert(&mut self.ends, id.peer, id.counter + 1);
        }
    }

    /// A copy of the version vector.
    pub fn clone_im(&self) -> (r: Self)
        ensures
            r@ == self@,
    {
        ImVersionVector { ends: shared_clone(&self.ends) }
    }

    /// The peers that the version vector holds, each once, in no
    /// particular order.
    pub fn peers(&self) -> (v: Vec<PeerID>)
        ensures
            v@.no_duplicates(),
            forall|p: PeerID| v@.contains(p) <==> self@.contains_key(p),
    {
        shared_keys(&self.ends)
    }

    /// Raises every entry to the one in `other`, where that is larger.
    pub fn merge(&mut self, other: &ImVersionVector)
        ensures
            final(self)@ == merged(old(self)@, other@),
    {
        let keys = other.peers();
        let mut i: usize = 0;
        while i < keys.len()
            invariant
                0 <= i <= keys.len(),
                keys@.no_duplicates(),
                forall|p: PeerID| keys@.contains(p) <==> other@.contains_key(p),
                forall|p: PeerID|
                    self@.contains_key(p) <==> (old(self)@.contains_key(p) || keys@.take(
                        i as int,
                    ).contains(p)),
                forall|p: PeerID|
                    #![trigger self@[p]]
                    self@.contains_key(p) ==> self@[p] == if keys@.take(i as int).contains(p) {
                        merged(old(self)@, other@)[p]
                    } else if old(self)@.contains_key(p) {
                        old(self)@[p]
                    } else {
                        0
                    },
            decreases keys.len() - i,
        {
            let p = keys[i];
            assert(keys@.contains(p));
            let theirs = other.get_end(p);
            proof {
                lemma_take_push_contains(keys@, i as int);
            }
            let known = self.get(p).is_some();
            let mine = self.get_end(p);
            if !known || mine < theirs {
                self.set_end(p, theirs);
            }
            i += 1;
        }
        assert(keys@.take(keys.len() as int) =~= keys@);
        assert(self@ =~= merged(old(self)@, other@));
    }

    /// The version as a version vector of its own.
    pub fn to_vv(&self) -> (r: VersionVector)
        ensures
            r@ == self@,
    {
        let mut r = VersionVector::new();
        let keys = self.peers();
        let mut i: usize = 0;
        while i < keys.len()
            invariant
                0 <= i <= keys.len(),
                forall|p: PeerID| keys@.contains(p) <==> self@.contains_key(p),
                forall|p: PeerID| r@.contains_key(p) <==> keys@.take(i as int).contains(p),
                forall|p: PeerID| #![trigger r@[p]] r@.contains_key(p) ==> r@[p] == self@[p],
            decreases keys.len() - i,
        {
            let p = keys[i];
            assert(keys@.contains(p));
            proof {
                lemma_take_push_contains(keys@, i as int);
            }
            let ghost before = r@;
            r.set_end(p, self.get_end(p));
            assert forall|q: PeerID| r@.contains_key(q) <==> keys@.take(i + 1).contains(q) by {
                assert(before.contains_key(q) <==> keys@.take(i as int).contains(q));
            }
            i += 1;
        }
        assert(keys@.take(keys.len() as int) =~= keys@);
        assert(r@ =~= self@);
        r
    }

    /// The shared form of a version vector.
    pub fn from_vv(vv: &VersionVector) -> (r: Self)
        ensures
            r@ == vv@,
    {
        let mut r = ImVersionVector::new();
        let keys = crate::version::peers_of(&vv.ends);
        let mut i: usize = 0;
        while i < keys.len()
            invariant
                0 <= i <= keys.len(),
                forall|p: PeerID| keys@.contains(p) <==> vv@.contains_key(p),
                forall|p: PeerID| r@.contains_key(p) <==> keys@.take(i as int).contains(p),
                forall|p: PeerID| #![trigger r@[p]] r@.contains_key(p) ==> r@[p] == vv@[p],
            decreases keys.len() - i,
        {
            let p = keys[i];
            assert(keys@.contains(p));
            proof {
                lemma_take_push_contains(keys@, i as int);
            }
            let ghost before = r@;
            r.set_end(p, vv.get_end(p));
            assert forall|q: PeerID| r@.contains_key(q) <==> keys@.take(i + 1).contains(q) by {
                assert(before.contains_key(q) <==> keys@.take(i as int).contains(q));
            }
            i += 1;
        }
        assert(keys@.take(keys.len() as int) =~= keys@);
        assert(r@ =~= vv@);
        r
    }
}

} // verus!
