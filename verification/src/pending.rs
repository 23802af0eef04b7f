//! Changes that wait for an operation that the log does not hold yet.
use vstd::prelude::*;

use crate::change::Change;
use crate::id::ID;
use crate::op::Op;

verus! {

/// The changes that wait for one operation.
#[derive(Debug)]
pub struct PendingEntry {
    /// The operation that is missing.
    pub missing: ID,
    pub changes: Vec<Change<Op>>,
}

/// Changes that could not be imported, each under the dependency that the
/// log did not hold.
#[derive(Debug)]
pub struct PendingChanges {
    pub entries: Vec<PendingEntry>,
}

impl PendingChanges {
    /// No operation has two entries, and every change that waits is valid.
    pub open spec fn wf(&self) -> bool {
        &&& forall|i: int, j: int|
            0 <= i < self.entries@.len() && 0 <= j < self.entries@.len() && i != j
                ==> self.entries@[i].missing != self.entries@[j].missing
        &&& forall|i: int, k: int|
            0 <= i < self.entries@.len() && 0 <= k < self.entries@[i].changes@.len() ==> (
            #[trigger] self.entries@[i].changes@[k]).wf()
    }

    /// Whether changes wait for the operation.
    pub open spec fn waits_for(&self, id: ID) -> bool {
        exists|i: int| 0 <= i < self.entries@.len() && (#[trigger] self.entries@[i]).missing == id
    }

    /// The changes that wait for the operation, in the order in which they
    /// came.
    pub open spec fn waiting(&self, id: ID) -> Seq<Change<Op>> {
        if self.waits_for(id) {
            let i = choose|i: int|
                0 <= i < self.entries@.len() && (#[trigger] self.entries@[i]).missing == id;
            self.entries@[i].changes@
        } else {
            Seq::empty()
        }
    }

    pub fn new() -> (r: Self)
        ensures
            r.wf(),
            forall|id: ID| r.waiting(id) == Seq::<Change<Op>>::empty(),
            r.entries@.len() == 0,
    {
        PendingChanges { entries: Vec::new() }
    }

    pub fn is_empty(&self) -> (b: bool)
        ensures
            b == (self.entries@.len() == 0),
    {
        self.entries.len() == 0
    }

    /// The place of the entry of an operation.
    fn find(&self, id: ID) -> (r: Option<usize>)
        requires
            self.wf(),
        ensures
            match r {
                Some(i) => i < self.entries@.len() && self.entries@[i as int].missing == id
                    && self.waiting(id) == self.entries@[i as int].changes@,
                None => !self.waits_for(id),
            },
    {
        let mut i: usize = 0;
        while i < self.entries.len()
            invariant
                0 <= i <= self.entries@.len(),
                self.wf(),
                forall|j: int| 0 <= j < i ==> (#[trigger] self.entries@[j]).missing != id,
            decreases self.entries@.len() - i,
        {
            if self.entries[i].missing == id {
                proof {
                    assert(self.entries@[i as int].missing == id);
                    assert(self.waits_for(id));
                    let j = choose|j: int|
                        0 <= j < self.entries@.len() && (#[trigger] self.entries@[j]).missing == id;
                    assert(j == i);
                }
                return Some(i);
            }
            i += 1;
        }
        None
    }

    /// The number of changes that wait for the operation.
    pub fn count(&self, id: ID) -> (n: usize)
        requires
            self.wf(),
        ensures
            n == self.waiting(id).len(),
    {
        match self.find(id) {
            Some(i) => self.entries[i].changes.len(),
            None => 0,
        }
    }

    /// The changes that wait for the operation.
    pub fn get(&self, id: ID) -> (r: Option<&Vec<Change<Op>>>)
        requires
            self.wf(),
        ensures
            match r {
                Some(v) => self.waits_for(id) && v@ == self.waiting(id),
                None => !self.waits_for(id),
            },
    {
        match self.find(id) {
            Some(i) => Some(&self.entries[i].changes),
            None => None,
        }
    }

    /// Takes out the changes that wait for an operation, so that they can
    /// be imported once the log holds the operation.
    pub fn take(&mut self, id: ID) -> (r: Vec<Change<Op>>)
        requires
            old(self).wf(),
        ensures
            final(self).wf(),
            r@ == old(self).waiting(id),
            forall|k: int| 0 <= k < r@.len() ==> (#[trigger] r@[k]).wf(),
            !final(self).waits_for(id),
            forall|other: ID|
                other != id ==> #[trigger] final(self).waits_for(other) == old(self).waits_for(other),
            forall|other: ID| other != id ==> final(self).waiting(other) == old(self).waiting(other),
    {
        let found = self.find(id);
        let ghost before = self.entries@;
        match found {
            Some(i) => {
                let entry = self.entries.remove(i);
                proof {
                    let after = self.entries@;
                    assert forall|j: int| 0 <= j < after.len() implies after[j] == before[if j < i {
                        j
                    } else {
                        j + 1
                    }] by {}
                    assert forall|k: int| 0 <= k < entry.changes@.len() implies (
                    #[trigger] entry.changes@[k]).wf() by {
                        assert(before[i as int].changes@[k].wf());
                    }
                    assert forall|a: int, k: int|
                        0 <= a < after.len() && 0 <= k < after[a].changes@.len() implies (
                    #[trigger] after[a].changes@[k]).wf() by {
                        let a0 = if a < i {
                            a
                        } else {
                            a + 1
                        };
                        assert(before[a0].changes@[k].wf());
                    }
                    assert(!final(self).waits_for(id)) by {
                        if final(self).waits_for(id) {
                            let j = choose|j: int|
                                0 <= j < after.len() && (#[trigger] after[j]).missing == id;
                            let j0 = if j < i {
                                j
                            } else {
                                j + 1
                            };
                            assert(before[j0].missing == id);
                        }
                    }
                    assert forall|other: ID| other != id implies #[trigger] final(self).waits_for(other)
                        == old(self).waits_for(other) by {
                        if old(self).waits_for(other) {
                            let j = choose|j: int|
                                0 <= j < before.len() && (#[trigger] before[j]).missing == other;
                            let j1 = if j < i {
                                j
                            } else {
                                j - 1
                            };
                            assert(after[j1].missing == other);
                        } else if final(self).waits_for(other) {
                            let j2 = choose|j2: int|
                                0 <= j2 < after.len() && (#[trigger] after[j2]).missing == other;
                            let j3 = if j2 < i {
                                j2
                            } else {
                                j2 + 1
                            };
                            assert(before[j3].missing == other);
                        }
                    }
                    assert forall|other: ID| other != id implies final(self).waiting(other)
                        == old(self).waiting(other) by {
                        if old(self).waits_for(other) {
                            let j = choose|j: int|
                                0 <= j < before.len() && (#[trigger] before[j]).missing == other;
                            let j1 = if j < i {
                                j
                            } else {
                                j - 1
                            };
                            assert(after[j1] == before[j]);
                            assert(after[j1].missing == other);
                            let j2 = choose|j2: int|
                                0 <= j2 < after.len() && (#[trigger] after[j2]).missing == other;
                            let j3 = if j2 < i {
                                j2
                            } else {
                                j2 + 1
                            };
                            assert(before[j3].missing == other);
                            assert(j3 == j);
                        } else if final(self).waits_for(other) {
                            let j2 = choose|j2: int|
                                0 <= j2 < after.len() && (#[trigger] after[j2]).missing == other;
                            let j3 = if j2 < i {
                                j2
                            } else {
                                j2 + 1
                            };
                            assert(before[j3].missing == other);
                        }
                    }
                }
                entry.changes
            },
            None => Vec::new(),
        }
    }

    /// Lets a change wait for an operation: the operation has an entry
    /// afterwards, with the change at its end, and nothing else changes.
    pub fn add(&mut self, id: ID, change: Change<Op>)
        requires
            old(self).wf(),
            change.wf(),
        ensures
            final(self).wf(),
            final(self).waits_for(id),
            forall|other: ID|
                other != id ==> #[trigger] final(self).waits_for(other) == old(self).waits_for(other),
            final(self).waiting(id) == old(self).waiting(id).push(change),
            forall|other: ID| other != id ==> final(self).waiting(other) == old(self).waiting(other),
    {
        let found = self.find(id);
        let ghost before = self.entries@;
        match found {
            Some(i) => {
                let mut entry = self.entries.remove(i);
                entry.changes.push(change);
                self.entries.insert(i, entry);
                proof {
                    let after = self.entries@;
                    assert(after.len() == before.len());
                    assert forall|j: int| 0 <= j < after.len() implies (#[trigger] after[j]).missing
                        == before[j].missing && (j != i ==> after[j] == before[j]) by {}
                    assert(after[i as int].changes@ == before[i as int].changes@.push(change));
                    assert forall|a: int, k: int|
                        0 <= a < after.len() && 0 <= k < after[a].changes@.len() implies (
                    #[trigger] after[a].changes@[k]).wf() by {
                        if a != i {
                            assert(before[a].changes@[k].wf());
                        } else if k < before[a].changes@.len() {
                            assert(before[a].changes@[k].wf());
                        }
                    }
                    assert forall|other: ID| #[trigger]
                        final(self).waits_for(other) <==> old(self).waits_for(other) by {
                        if old(self).waits_for(other) {
                            let j = choose|j: int|
                                0 <= j < before.len() && (#[trigger] before[j]).missing == other;
                            assert(after[j].missing == other);
                        }
                        if final(self).waits_for(other) {
                            let j = choose|j: int|
                                0 <= j < after.len() && (#[trigger] after[j]).missing == other;
                            assert(before[j].missing == other);
                        }
                    }
                    assert forall|other: ID| other != id implies final(self).waiting(other)
                        == old(self).waiting(other) by {
                        if old(self).waits_for(other) {
                            let j = choose|j: int|
                                0 <= j < before.len() && (#[trigger] before[j]).missing == other;
                            let j2 = choose|j2: int|
                                0 <= j2 < after.len() && (#[trigger] after[j2]).missing == other;
                            assert(after[j].missing == other);
                            assert(j2 == j);
                        }
                    }
                    assert(final(self).waits_for(id)) by {
                        assert(after[i as int].missing == id);
                    }
                    let j2 = choose|j2: int|
                        0 <= j2 < after.len() && (#[trigger] after[j2]).missing == id;
                    assert(j2 == i);
                }
            },
            None => {
                let mut changes: Vec<Change<Op>> = Vec::new();
                changes.push(change);
                self.entries.push(PendingEntry { missing: id, changes });
                proof {
                    let after = self.entries@;
                    let n = before.len() as int;
                    assert(after[n].missing == id);
                    assert(after[n].changes@ =~= Seq::<Change<Op>>::empty().push(change));
                    assert forall|a: int, k: int|
                        0 <= a < after.len() && 0 <= k < after[a].changes@.len() implies (
                    #[trigger] after[a].changes@[k]).wf() by {
                        if a < n {
                            assert(after[a] == before[a]);
                            assert(before[a].changes@[k].wf());
                        }
                    }
                    assert forall|i: int, j: int|
                        0 <= i < after.len() && 0 <= j < after.len() && i != j implies after[i].missing
                        != after[j].missing by {
                        if i < n {
                            assert(after[i] == before[i]);
                        }
                        if j < n {
                            assert(after[j] == before[j]);
                        }
                    }
                    assert(final(self).waits_for(id));
                    let j2 = choose|j2: int|
                        0 <= j2 < after.len() && (#[trigger] after[j2]).missing == id;
                    if j2 < n {
                        assert(before[j2].missing == id);
                    }
                    assert forall|other: ID| other != id implies #[trigger] final(self).waits_for(other)
                        == old(self).waits_for(other) by {
                        if old(self).waits_for(other) {
                            let j = choose|j: int|
                                0 <= j < before.len() && (#[trigger] before[j]).missing == other;
                            assert(after[j] == before[j]);
                        } else if final(self).waits_for(other) {
                            let j3 = choose|j3: int|
                                0 <= j3 < after.len() && (#[trigger] after[j3]).missing == other;
                            assert(after[j3] == before[j3]);
                        }
                    }
                    assert forall|other: ID| other != id implies final(self).waiting(other)
                        == old(self).waiting(other) by {
                        if old(self).waits_for(other) {
                            let j = choose|j: int|
                                0 <= j < before.len() && (#[trigger] before[j]).missing == other;
                            assert(after[j] == before[j]);
                            let j3 = choose|j3: int|
                                0 <= j3 < after.len() && (#[trigger] after[j3]).missing == other;
                            assert(j3 == j);
                        } else if final(self).waits_for(other) {
                            let j3 = choose|j3: int|
                                0 <= j3 < after.len() && (#[trigger] after[j3]).missing == other;
                            assert(after[j3] == before[j3]);
                        }
                    }
                }
            },
        }
    }
}

} // verus!
