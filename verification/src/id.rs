//! Identity primitives: peers, counters, Lamport clocks and operation ids.
use vstd::prelude::*;

use crate::text::{dec_int, dec_nat, push_dec_i32, push_dec_u64};

verus! {

/// Identifier of a replica.
pub type PeerID = u64;

/// Per-peer sequence number of an operation.
pub type Counter = i32;

/// Logical clock value.
pub type Lamport = u32;

/// Wall-clock timestamp attached to a change.
pub type Timestamp = i64;

/// The id of one atomic operation: the peer that made it and its sequence
/// number at that peer.
#[derive(PartialEq, Eq, Hash, Clone, Copy, Debug, Structural)]
pub struct ID {
    pub peer: PeerID,
    pub counter: Counter,
}

impl ID {
    pub fn new(peer: PeerID, counter: Counter) -> (r: ID)
        ensures
            r.peer == peer,
            r.counter == counter,
    {
        ID { peer, counter }
    }

    /// The text form of an id: the counter, an at-sign, the peer.
    pub open spec fn text(self) -> Seq<char> {
        dec_int(self.counter as int) + seq!['@'] + dec_nat(self.peer as nat)
    }

    pub fn to_string(&self) -> (s: String)
        ensures
            s@ == self.text(),
    {
        proof {
            reveal_strlit("");
            reveal_strlit("@");
        }
        let mut s = String::from_str("");
        push_dec_i32(&mut s, self.counter);
        s.append("@");
        push_dec_u64(&mut s, self.peer);
        assert(s@ =~= self.text());
        s
    }

    /// The id `delta` operations further along the same peer.
    pub fn inc(&self, delta: Counter) -> (r: ID)
        requires
            i32::MIN <= self.counter + delta <= i32::MAX,
        ensures
            r.peer == self.peer,
            r.counter == self.counter + delta,
    {
        ID { peer: self.peer, counter: self.counter + delta }
    }
}

/// A half-open range `[start, end)` of counters.
#[derive(PartialEq, Eq, Clone, Copy, Debug, Structural)]
pub struct CounterSpan {
    pub start: Counter,
    pub end: Counter,
}

impl CounterSpan {
    pub fn new(start: Counter, end: Counter) -> (r: CounterSpan)
        ensures
            r.start == start,
            r.end == end,
    {
        CounterSpan { start, end }
    }

    /// The counters the span covers.
    pub open spec fn covers(&self, c: int) -> bool {
        self.start <= c < self.end
    }

    /// Number of counters in the span; zero when `end <= start`.
    pub open spec fn spec_len(&self) -> nat {
        if self.end > self.start {
            (self.end - self.start) as nat
        } else {
            0
        }
    }

    pub fn content_len(&self) -> (n: usize)
        ensures
            n == self.spec_len(),
    {
        if self.end > self.start {
            (self.end as i64 - self.start as i64) as usize
        } else {
            0
        }
    }

    pub fn contains(&self, c: Counter) -> (b: bool)
        ensures
            b == self.covers(c as int),
    {
        self.start <= c && c < self.end
    }
}

/// A range of counters of one peer.
#[derive(PartialEq, Eq, Clone, Copy, Debug, Structural)]
pub struct IdSpan {
    pub peer: PeerID,
    pub counter: CounterSpan,
}

impl IdSpan {
    pub fn new(peer: PeerID, start: Counter, end: Counter) -> (r: IdSpan)
        ensures
            r.peer == peer,
            r.counter.start == start,
            r.counter.end == end,
    {
        IdSpan { peer, counter: CounterSpan { start, end } }
    }

    pub open spec fn covers(&self, id: ID) -> bool {
        id.peer == self.peer && self.counter.covers(id.counter as int)
    }

    pub fn contains_id(&self, id: ID) -> (b: bool)
        ensures
            b == self.covers(id),
    {
        id.peer == self.peer && self.counter.contains(id.counter)
    }
}

} // verus!
