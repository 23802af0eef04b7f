//! The order in which items of a causal history are replayed: by Lamport
//! clock, then by peer, then by counter.
use vstd::multiset::Multiset;
use vstd::prelude::*;

use crate::id::{Counter, Lamport, PeerID};

verus! {

/// The place of an item in the replay order.
#[derive(Debug, Clone, Copy, PartialEq, Eq, Structural)]
pub struct ReplayKey {
    pub lamport: Lamport,
    pub peer: PeerID,
    pub counter: Counter,
}

impl ReplayKey {
    /// Whether `self` comes before `other`, or is the same key.
    pub open spec fn le(self, other: ReplayKey) -> bool {
        self.lamport < other.lamport || (self.lamport == other.lamport && (self.peer < other.peer
            || (self.peer == other.peer && self.counter <= other.counter)))
    }

    /// Whether `self` comes before `other`, or is the same key.
    pub fn is_le(&self, other: &ReplayKey) -> (b: bool)
        ensures
            b == self.le(*other),
    {
        self.lamport < other.lamport || (self.lamport == other.lamport && (self.peer < other.peer
            || (self.peer == other.peer && self.counter <= other.counter)))
    }
}

/// An item that has a place in the replay order.
pub trait Replayed {
    spec fn spec_key(&self) -> ReplayKey;

    fn key(&self) -> (k: ReplayKey)
        ensures
            k == self.spec_key(),
    ;
}

/// Whether the items stand in replay order.
pub open spec fn in_replay_order<T: Replayed>(s: Seq<T>) -> bool {
    forall|i: int, j: int|
        0 <= i < j < s.len() ==> (#[trigger] s[i]).spec_key().le((#[trigger] s[j]).spec_key())
}

/// Putting an item into a sequence adds it to what the sequence holds.
pub proof fn lemma_insert_multiset<T>(s: Seq<T>, i: int, x: T)
    requires
        0 <= i <= s.len(),
    ensures
        s.insert(i, x).to_multiset() == s.to_multiset().insert(x),
{
    broadcast use vstd::seq_lib::group_to_multiset_ensures;

    let t = s.insert(i, x);
    assert(t.remove(i) =~= s);
    assert(t[i] == x);
    assert(t.to_multiset().count(x) > 0) by {
        assert(t.contains(x));
    }
    assert(t.remove(i).to_multiset() =~= t.to_multiset().remove(x));
    assert(t.to_multiset() =~= s.to_multiset().insert(x));
}

/// Sequences that hold the same items hold the same elements.
pub proof fn lemma_same_items<T>(a: Seq<T>, b: Seq<T>)
    requires
        a.to_multiset() == b.to_multiset(),
    ensures
        a.len() == b.len(),
        forall|x: T| a.contains(x) <==> b.contains(x),
{
    broadcast use vstd::seq_lib::group_to_multiset_ensures;

    a.to_multiset_ensures();
    b.to_multiset_ensures();
    assert forall|x: T| a.contains(x) <==> b.contains(x) by {
        assert(a.contains(x) <==> a.to_multiset().count(x) > 0);
        assert(b.contains(x) <==> b.to_multiset().count(x) > 0);
    }
}

/// Items that differ pairwise in some respect still do so in another
/// order.
pub proof fn lemma_same_items_distinct<T, K>(a: Seq<T>, b: Seq<T>, f: spec_fn(T) -> K)
    requires
        a.to_multiset() == b.to_multiset(),
        forall|i: int, j: int| 0 <= i < a.len() && 0 <= j < a.len() && i != j ==> f(a[i]) != f(a[j]),
    ensures
        forall|i: int, j: int| 0 <= i < b.len() && 0 <= j < b.len() && i != j ==> f(b[i]) != f(b[j]),
{
    lemma_same_items(a, b);
    assert(a.no_duplicates());
    a.lemma_multiset_has_no_duplicates();
    b.lemma_multiset_has_no_duplicates_conv();
    assert forall|i: int, j: int| 0 <= i < b.len() && 0 <= j < b.len() && i != j implies f(b[i])
        != f(b[j]) by {
        assert(b.contains(b[i]));
        assert(b.contains(b[j]));
        let ka = choose|k: int| 0 <= k < a.len() && a[k] == b[i];
        let kb = choose|k: int| 0 <= k < a.len() && a[k] == b[j];
        assert(b[i] != b[j]);
        assert(f(a[ka]) != f(a[kb]));
    }
}

/// What holds between every two of some items, none of which occurs
/// twice, holds between every two of them in another order.
pub proof fn lemma_same_items_pairwise<T>(a: Seq<T>, b: Seq<T>, rel: spec_fn(T, T) -> bool)
    requires
        a.to_multiset() == b.to_multiset(),
        a.no_duplicates(),
        forall|i: int, j: int| 0 <= i < a.len() && 0 <= j < a.len() && i != j ==> rel(a[i], a[j]),
    ensures
        forall|i: int, j: int| 0 <= i < b.len() && 0 <= j < b.len() && i != j ==> rel(b[i], b[j]),
{
    lemma_same_items(a, b);
    a.lemma_multiset_has_no_duplicates();
    b.lemma_multiset_has_no_duplicates_conv();
    assert forall|i: int, j: int| 0 <= i < b.len() && 0 <= j < b.len() && i != j implies rel(
        b[i],
        b[j],
    ) by {
        assert(b.contains(b[i]));
        assert(b.contains(b[j]));
        let ka = choose|k: int| 0 <= k < a.len() && a[k] == b[i];
        let kb = choose|k: int| 0 <= k < a.len() && a[k] == b[j];
        assert(b[i] != b[j]);
        assert(rel(a[ka], a[kb]));
    }
}

/// The items in replay order.
pub fn sort_for_replay<T: Replayed>(items: Vec<T>) -> (r: Vec<T>)
    ensures
        in_replay_order(r@),
        r@.to_multiset() == items@.to_multiset(),
{
    broadcast use vstd::seq_lib::group_to_multiset_ensures;

    let mut input = items;
    let mut out: Vec<T> = Vec::new();
    assert(out@.to_multiset().add(input@.to_multiset()) =~= items@.to_multiset());
    while input.len() > 0
        invariant
            in_replay_order(out@),
            out@.to_multiset().add(input@.to_multiset()) == items@.to_multiset(),
        decreases input@.len(),
    {
        let ghost before_in = input@;
        let ghost before_out = out@;
        let x = input.pop().unwrap();
        let k = x.key();
        // the first place whose item does not come before `x`
        let mut j: usize = 0;
        while j < out.len() && out[j].key().is_le(&k)
            invariant
                0 <= j <= out@.len(),
                k == x.spec_key(),
                forall|i: int| 0 <= i < j ==> (#[trigger] out@[i]).spec_key().le(k),
            decreases out@.len() - j,
        {
            j += 1;
        }
        out.insert(j, x);
        proof {
            assert(before_in =~= input@.push(x));
            vstd::seq_lib::to_multiset_build(input@, x);
            lemma_insert_multiset(before_out, j as int, x);
            let ma = before_out.to_multiset();
            let mb = input@.to_multiset();
            assert(before_in.to_multiset() =~= mb.insert(x));
            assert(out@.to_multiset() =~= ma.insert(x));
            assert(ma.insert(x).add(mb) =~= ma.add(mb.insert(x)));
            assert forall|a: int, b: int| 0 <= a < b < out@.len() implies (#[trigger] out@[a]).spec_key().le(
                (#[trigger] out@[b]).spec_key(),
            ) by {
                if b < j {
                    assert(out@[a] == before_out[a] && out@[b] == before_out[b]);
                } else if b == j {
                    assert(out@[a] == before_out[a]);
                } else if a == j {
                    // `before_out[j]` does not come before `x`, and what follows it comes
                    // after it
                    assert(out@[b] == before_out[b - 1]);
                    assert(!before_out[j as int].spec_key().le(k));
                    if b - 1 > j {
                        assert(before_out[j as int].spec_key().le(before_out[b - 1].spec_key()));
                    }
                } else if a < j {
                    assert(out@[a] == before_out[a] && out@[b] == before_out[b - 1]);
                } else {
                    assert(out@[a] == before_out[a - 1] && out@[b] == before_out[b - 1]);
                }
            }
        }
    }
    assert(input@.to_multiset() =~= Multiset::<T>::empty()) by {
        assert(input@ =~= Seq::<T>::empty());
    }
    assert(out@.to_multiset() =~= items@.to_multiset());
    out
}

} // verus!
