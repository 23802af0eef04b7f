//! Run-length-encoded storage: a sequence whose neighbouring items merge
//! when they can, addressed by stored item or by atom.
use vstd::prelude::*;

verus! {

/// What an item needs in order to be stored run-length encoded: a length
/// in atoms, a test whether the next item continues it, and the merge
/// itself.
pub trait Rle: Sized {
    /// Whether the item is valid.
    spec fn rle_wf(&self) -> bool;

    /// The number of atoms that the item stands for.
    spec fn rle_len(&self) -> nat;

    /// Whether `next` continues `self`, so that the two can be stored as one.
    spec fn can_merge(&self, next: &Self) -> bool;

    /// Whether `merged` is `self` with `next` merged into it.
    spec fn is_merge_of(&self, next: &Self, merged: &Self) -> bool;

    /// A valid item stands for at least one atom.
    proof fn lemma_len_positive(&self)
        requires
            self.rle_wf(),
        ensures
            self.rle_len() >= 1,
    ;

    /// A merged item is valid and as long as its two parts together.
    proof fn lemma_merge(&self, next: &Self, merged: &Self)
        requires
            self.rle_wf(),
            next.rle_wf(),
            self.can_merge(next),
            self.is_merge_of(next, merged),
        ensures
            merged.rle_wf(),
            merged.rle_len() == self.rle_len() + next.rle_len(),
    ;

    /// Whether the item is valid.
    fn is_valid(&self) -> (b: bool)
        ensures
            b == self.rle_wf(),
    ;

    fn atom_len(&self) -> (n: usize)
        requires
            self.rle_wf(),
        ensures
            n == self.rle_len(),
    ;

    fn is_mergable(&self, next: &Self) -> (b: bool)
        requires
            self.rle_wf(),
            next.rle_wf(),
        ensures
            b == self.can_merge(next),
    ;

    fn merge(&mut self, next: &Self)
        requires
            old(self).rle_wf(),
            next.rle_wf(),
            old(self).can_merge(next),
        ensures
            old(self).is_merge_of(next, final(self)),
    ;
}

/// An item out of which a run of atoms can be cut.
pub trait Sliceable: Rle {
    /// Whether the atoms `from..to` can be cut out of `self` without a
    /// position leaving its range.
    spec fn can_slice(&self, from: int, to: int) -> bool;

    /// Whether `piece` is the atoms `from..to` of `self`.
    spec fn is_slice_of(&self, from: int, to: int, piece: &Self) -> bool;

    fn slice(&self, from: usize, to: usize) -> (piece: Self)
        requires
            self.rle_wf(),
            from < to <= self.rle_len(),
            self.can_slice(from as int, to as int),
        ensures
            self.is_slice_of(from as int, to as int, &piece),
            piece.rle_wf(),
            piece.rle_len() == to - from,
    ;
}

/// The number of atoms in a sequence of items.
#[verifier::opaque]
pub open spec fn atoms<T: Rle>(s: Seq<T>) -> nat
    decreases s.len(),
{
    if s.len() == 0 {
        0
    } else {
        atoms(s.drop_last()) + s.last().rle_len()
    }
}

/// The number of atoms before item `i`.
pub open spec fn atoms_before<T: Rle>(s: Seq<T>, i: int) -> nat {
    atoms(s.take(i))
}

/// Whether every item of a sequence is valid.
pub open spec fn all_wf<T: Rle>(s: Seq<T>) -> bool {
    forall|i: int| 0 <= i < s.len() ==> (#[trigger] s[i]).rle_wf()
}

/// An empty sequence holds no atom, and no atom comes before the first
/// item.
pub proof fn lemma_atoms_empty<T: Rle>(s: Seq<T>)
    ensures
        atoms(Seq::<T>::empty()) == 0,
        atoms_before(s, 0) == 0,
        s.len() == 0 ==> atoms(s) == 0,
{
    reveal(atoms);
    assert(s.take(0) =~= Seq::<T>::empty());
    if s.len() == 0 {
        assert(s =~= Seq::<T>::empty());
    }
}

/// The atoms before an item and the atoms of the item come before the
/// next item.
pub proof fn lemma_atoms_step<T: Rle>(s: Seq<T>, i: int)
    requires
        0 <= i < s.len(),
    ensures
        atoms_before(s, i + 1) == atoms_before(s, i) + s[i].rle_len(),
{
    reveal(atoms);
    assert(s.take(i + 1).drop_last() =~= s.take(i));
}

/// An item added at the end adds its atoms, and leaves the atoms before
/// the items that were there as they were.
pub proof fn lemma_atoms_push<T: Rle>(s: Seq<T>, x: T)
    ensures
        atoms(s.push(x)) == atoms(s) + x.rle_len(),
        forall|i: int| 0 <= i <= s.len() ==> atoms_before(s.push(x), i) == atoms_before(s, i),
{
    reveal(atoms);
    assert(s.push(x).drop_last() =~= s);
    assert forall|i: int| 0 <= i <= s.len() implies atoms_before(s.push(x), i) == atoms_before(
        s,
        i,
    ) by {
        assert(s.push(x).take(i) =~= s.take(i));
    }
}

/// The atoms before an item grow with the item's index; strictly so where
/// the items are valid.
pub proof fn lemma_atoms_monotone<T: Rle>(s: Seq<T>, i: int, j: int)
    requires
        0 <= i <= j <= s.len(),
        all_wf(s),
    ensures
        atoms_before(s, i) + (j - i) <= atoms_before(s, j),
    decreases j - i,
{
    if i < j {
        lemma_atoms_monotone(s, i, j - 1);
        lemma_atoms_step(s, j - 1);
        s[j - 1].lemma_len_positive();
    }
}

/// The atoms before the end of a sequence are all its atoms.
pub proof fn lemma_atoms_full<T: Rle>(s: Seq<T>)
    ensures
        atoms_before(s, s.len() as int) == atoms(s),
{
    assert(s.take(s.len() as int) =~= s);
}

/// Two sequences that agree up to `i` have the same atoms before `i`.
pub proof fn lemma_atoms_agree<T: Rle>(s: Seq<T>, t: Seq<T>, i: int)
    requires
        0 <= i <= s.len(),
        i <= t.len(),
        forall|k: int| 0 <= k < i ==> s[k] == t[k],
    ensures
        atoms_before(s, i) == atoms_before(t, i),
{
    assert(s.take(i) =~= t.take(i));
}

/// Two sequences whose first `k` items have pairwise the same length hold
/// the same number of atoms before item `k`.
pub proof fn lemma_prefix_lens<T: Rle>(a: Seq<T>, b: Seq<T>, k: int)
    requires
        0 <= k <= a.len(),
        k <= b.len(),
        forall|i: int| 0 <= i < k ==> (#[trigger] a[i]).rle_len() == b[i].rle_len(),
    ensures
        atoms_before(a, k) == atoms_before(b, k),
    decreases k,
{
    if k > 0 {
        lemma_prefix_lens(a, b, k - 1);
        lemma_atoms_step(a, k - 1);
        lemma_atoms_step(b, k - 1);
    } else {
        lemma_atoms_empty(a);
        lemma_atoms_empty(b);
    }
}

/// Whether item `i` holds atom `n`.
pub open spec fn within<T: Rle>(s: Seq<T>, i: int, n: int) -> bool {
    0 <= i < s.len() && atoms_before(s, i) <= n < atoms_before(s, i + 1)
}

/// Two sequences, of items of two kinds, whose items have pairwise the same
/// length hold the same number of atoms before item `k`.
pub proof fn lemma_same_lens_across<A: Rle, B: Rle>(a: Seq<A>, b: Seq<B>, k: int)
    requires
        0 <= k <= a.len(),
        k <= b.len(),
        forall|i: int| 0 <= i < k ==> (#[trigger] a[i]).rle_len() == b[i].rle_len(),
    ensures
        atoms_before(a, k) == atoms_before(b, k),
    decreases k,
{
    if k > 0 {
        lemma_same_lens_across(a, b, k - 1);
        lemma_atoms_step(a, k - 1);
        lemma_atoms_step(b, k - 1);
    } else {
        lemma_atoms_empty(a);
        lemma_atoms_empty(b);
    }
}

/// The index of the item that holds atom `n`.
pub open spec fn index_at<T: Rle>(s: Seq<T>, n: int) -> int {
    choose|i: int| #[trigger] within(s, i, n)
}

/// Every atom lies in some item.
pub proof fn lemma_index_exists<T: Rle>(s: Seq<T>, n: int)
    requires
        0 <= n < atoms(s),
    ensures
        0 <= index_at(s, n) < s.len(),
        atoms_before(s, index_at(s, n)) <= n < atoms_before(s, index_at(s, n) + 1),
    decreases s.len(),
{
    lemma_atoms_full(s);
    lemma_atoms_empty(s);
    if s.len() > 0 {
        let k = s.len() - 1;
        lemma_atoms_step(s, k);
        if n < atoms_before(s, k) {
            let head = s.drop_last();
            assert(s.take(k) =~= head);
            lemma_index_exists(head, n);
            let i = index_at(head, n);
            assert(within(head, i, n));
            lemma_atoms_agree(s, head, i);
            lemma_atoms_agree(s, head, i + 1);
            assert(within(s, i, n));
        } else {
            assert(within(s, k, n));
        }
    }
}

/// An atom lies in one item only.
pub proof fn lemma_index_unique<T: Rle>(s: Seq<T>, i: int, n: int)
    requires
        all_wf(s),
        0 <= i < s.len(),
        atoms_before(s, i) <= n < atoms_before(s, i + 1),
    ensures
        index_at(s, n) == i,
{
    assert(within(s, i, n));
    let j = index_at(s, n);
    assert(within(s, j, n));
    if j < i {
        lemma_atoms_monotone(s, j + 1, i);
    } else if i < j {
        lemma_atoms_monotone(s, i + 1, j);
    }
}

/// Where an atom was found: the stored item that holds it, the atoms of
/// that item that come before it, and the item itself.
#[derive(Debug)]
pub struct SearchResult<'a, T> {
    pub merged_index: usize,
    pub offset: usize,
    pub element: &'a T,
}

/// A sequence of items in which an item pushed at the end is merged into
/// the last one where it continues it.
#[derive(Debug)]
pub struct RleVec<T> {
    pub vec: Vec<T>,
    /// For each stored item the number of atoms up to its end.
    pub ends: Vec<usize>,
}

impl<T> View for RleVec<T> {
    type V = Seq<T>;

    open spec fn view(&self) -> Seq<T> {
        self.vec@
    }
}

impl<T: Rle> RleVec<T> {
    /// Every stored item is valid, and the running totals are those of the
    /// items.
    pub open spec fn wf(&self) -> bool {
        &&& self.ends@.len() == self.vec@.len()
        &&& all_wf(self@)
        &&& forall|i: int|
            0 <= i < self.ends@.len() ==> #[trigger] self.ends@[i] == atoms_before(self@, i + 1)
    }

    /// The number of atoms stored.
    pub open spec fn total(&self) -> nat {
        atoms(self@)
    }

    /// The index of the stored item that holds atom `n`; the last item for
    /// the position one past the end.
    pub open spec fn holds(&self, i: int, n: int) -> bool {
        &&& 0 <= i < self@.len()
        &&& atoms_before(self@, i) <= n
        &&& (n < atoms_before(self@, i + 1) || (i == self@.len() - 1 && n == self.total()))
    }

    pub fn new() -> (r: Self)
        ensures
            r@ == Seq::<T>::empty(),
            r.wf(),
    {
        RleVec { vec: Vec::new(), ends: Vec::new() }
    }

    /// Whether every stored item is valid, and the running totals are
    /// those of the items.
    pub fn is_valid(&self) -> (b: bool)
        ensures
            b == self.wf(),
    {
        if self.ends.len() != self.vec.len() {
            return false;
        }
        let mut total: usize = 0;
        let mut i: usize = 0;
        proof {
            lemma_atoms_empty(self@);
        }
        while i < self.vec.len()
            invariant
                0 <= i <= self.vec@.len(),
                self.ends@.len() == self.vec@.len(),
                total == atoms_before(self@, i as int),
                forall|k: int| 0 <= k < i ==> (#[trigger] self@[k]).rle_wf(),
                forall|k: int|
                    0 <= k < i ==> #[trigger] self.ends@[k] == atoms_before(self@, k + 1),
            decreases self.vec@.len() - i,
        {
            if !self.vec[i].is_valid() {
                assert(!self@[i as int].rle_wf());
                return false;
            }
            proof {
                lemma_atoms_step(self@, i as int);
            }
            let len = self.vec[i].atom_len();
            match total.checked_add(len) {
                Some(t) => {
                    if self.ends[i] != t {
                        assert(self.ends@[i as int] != atoms_before(self@, i + 1));
                        return false;
                    }
                    total = t;
                },
                None => {
                    assert(self.ends@[i as int] != atoms_before(self@, i + 1));
                    return false;
                },
            }
            i += 1;
        }
        true
    }

    /// The number of atoms stored.
    pub fn atom_len(&self) -> (n: usize)
        requires
            self.wf(),
        ensures
            n == self.total(),
    {
        proof {
            lemma_atoms_full(self@);
            lemma_atoms_empty(self@);
        }
        if self.ends.len() == 0 {
            0
        } else {
            self.ends[self.ends.len() - 1]
        }
    }

    /// The number of atoms stored.
    pub fn len(&self) -> (n: usize)
        requires
            self.wf(),
        ensures
            n == self.total(),
    {
        self.atom_len()
    }

    /// The number of stored items.
    pub fn merged_len(&self) -> (n: usize)
        ensures
            n == self@.len(),
    {
        self.vec.len()
    }

    pub fn is_empty(&self) -> (b: bool)
        ensures
            b == (self@.len() == 0),
    {
        self.vec.len() == 0
    }

    /// The stored items.
    pub fn vec(&self) -> (v: &Vec<T>)
        ensures
            v@ == self@,
    {
        &self.vec
    }

    /// The stored item at a merged index.
    pub fn get_merged(&self, i: usize) -> (r: &T)
        requires
            i < self@.len(),
        ensures
            *r == self@[i as int],
    {
        &self.vec[i]
    }

    /// The last stored item.
    pub fn last(&self) -> (r: Option<&T>)
        ensures
            match r {
                Some(x) => self@.len() > 0 && *x == self@.last(),
                None => self@.len() == 0,
            },
    {
        if self.vec.len() == 0 {
            None
        } else {
            Some(&self.vec[self.vec.len() - 1])
        }
    }

    /// Adds an item at the end: merged into the last stored item where it
    /// continues it, else stored as a new item.
    pub fn push(&mut self, item: T)
        requires
            old(self).wf(),
            item.rle_wf(),
            old(self).total() + item.rle_len() <= usize::MAX,
        ensures
            final(self).wf(),
            final(self).total() == old(self).total() + item.rle_len(),
            old(self)@.len() > 0 && old(self)@.last().can_merge(&item) ==> {
                &&& final(self)@.len() == old(self)@.len()
                &&& final(self)@.drop_last() == old(self)@.drop_last()
                &&& old(self)@.last().is_merge_of(&item, &final(self)@.last())
            },
            !(old(self)@.len() > 0 && old(self)@.last().can_merge(&item)) ==> final(self)@ == old(
                self,
            )@.push(item),
    {
        let n = self.vec.len();
        let total = self.atom_len();
        let add = item.atom_len();
        let ghost before = self@;
        if n > 0 && self.vec[n - 1].is_mergable(&item) {
            let mut last = self.vec.pop().unwrap();
            let ghost head = self.vec@;
            let ghost old_last = last;
            last.merge(&item);
            proof {
                old_last.lemma_merge(&item, &last);
                assert(head =~= before.drop_last());
            }
            self.vec.push(last);
            self.ends.pop();
            self.ends.push(total + add);
            proof {
                let after = self@;
                assert(after =~= head.push(last));
                assert(before =~= head.push(old_last));
                lemma_atoms_push(head, last);
                lemma_atoms_push(head, old_last);
                lemma_atoms_full(after);
                lemma_atoms_full(before);
                assert(after.drop_last() =~= before.drop_last());
                assert forall|i: int| 0 <= i < self.ends@.len() implies #[trigger] self.ends@[i]
                    == atoms_before(after, i + 1) by {
                    if i < n - 1 {
                        assert(self.ends@[i] == old(self).ends@[i]);
                        lemma_atoms_agree(after, before, i + 1);
                    }
                }
            }
        } else {
            self.vec.push(item);
            self.ends.push(total + add);
            proof {
                let after = self@;
                lemma_atoms_push(before, item);
                lemma_atoms_full(after);
                assert forall|i: int| 0 <= i < self.ends@.len() implies #[trigger] self.ends@[i]
                    == atoms_before(after, i + 1) by {
                    if i < n {
                        assert(self.ends@[i] == old(self).ends@[i]);
                    }
                }
            }
        }
    }

    /// Adds an item at the end without merging it into the last one.
    pub fn push_unmerged(&mut self, item: T)
        requires
            old(self).wf(),
            item.rle_wf(),
            old(self).total() + item.rle_len() <= usize::MAX,
        ensures
            final(self).wf(),
            final(self)@ == old(self)@.push(item),
            final(self).total() == old(self).total() + item.rle_len(),
    {
        let n = self.vec.len();
        let total = self.atom_len();
        let add = item.atom_len();
        let ghost before = self@;
        self.vec.push(item);
        self.ends.push(total + add);
        proof {
            let after = self@;
            lemma_atoms_push(before, item);
            lemma_atoms_full(after);
            assert forall|i: int| 0 <= i < self.ends@.len() implies #[trigger] self.ends@[i]
                == atoms_before(after, i + 1) by {
                if i < n {
                    assert(self.ends@[i] == old(self).ends@[i]);
                }
            }
        }
    }

    /// Puts `item` in the place of the last stored item, without merging.
    pub fn replace_last(&mut self, item: T) -> (r: T)
        requires
            old(self).wf(),
            old(self)@.len() > 0,
            item.rle_wf(),
            atoms(old(self)@.drop_last()) + item.rle_len() <= usize::MAX,
        ensures
            final(self).wf(),
            final(self)@ == old(self)@.drop_last().push(item),
            r == old(self)@.last(),
    {
        let n = self.vec.len();
        let ghost before = self@;
        let ghost head = before.drop_last();
        let r = self.vec.pop().unwrap();
        self.ends.pop();
        let base = if n >= 2 {
            self.ends[n - 2]
        } else {
            0
        };
        proof {
            assert(before.take(n - 1) =~= head);
            assert(self.vec@ =~= head);
            lemma_atoms_empty(head);
            lemma_atoms_full(head);
            lemma_atoms_agree(head, before, n - 1);
        }
        let add = item.atom_len();
        self.vec.push(item);
        self.ends.push(base + add);
        proof {
            let after = self@;
            lemma_atoms_push(head, item);
            lemma_atoms_full(after);
            assert forall|i: int| 0 <= i < self.ends@.len() implies #[trigger] self.ends@[i]
                == atoms_before(after, i + 1) by {
                if i < n - 1 {
                    assert(self.ends@[i] == old(self).ends@[i]);
                    lemma_atoms_agree(after, before, i + 1);
                }
            }
        }
        r
    }

    /// The index of the stored item that holds atom `n`.
    pub fn search_atom_index(&self, n: usize) -> (i: usize)
        requires
            self.wf(),
            self@.len() > 0,
            n <= self.total(),
        ensures
            self.holds(i as int, n as int),
    {
        let len = self.ends.len();
        proof {
            lemma_atoms_full(self@);
            lemma_atoms_empty(self@);
        }
        if n >= self.ends[len - 1] {
            proof {
                lemma_atoms_monotone(self@, len - 1, len as int);
            }
            return len - 1;
        }
        // the smallest index whose running total exceeds `n`
        let mut lo: usize = 0;
        let mut hi: usize = len - 1;
        while lo < hi
            invariant
                0 <= lo <= hi < len,
                len == self.ends@.len(),
                self.wf(),
                n < self.ends@[hi as int],
                atoms_before(self@, lo as int) <= n,
            decreases hi - lo,
        {
            let mid = lo + (hi - lo) / 2;
            if self.ends[mid] > n {
                hi = mid;
            } else {
                lo = mid + 1;
            }
        }
        lo
    }

    /// Looks an atom up. The position one past the last atom is found too,
    /// in the last stored item; an empty sequence holds no position.
    pub fn get_by_atom_index(&self, n: usize) -> (r: Option<SearchResult<'_, T>>)
        requires
            self.wf(),
        ensures
            r is Some <==> (self@.len() > 0 && n <= self.total()),
            r is Some ==> {
                let found = r->0;
                &&& self.holds(found.merged_index as int, n as int)
                &&& found.offset == n - atoms_before(self@, found.merged_index as int)
                &&& *found.element == self@[found.merged_index as int]
            },
    {
        if self.vec.len() == 0 || n > self.atom_len() {
            return None;
        }
        let i = self.search_atom_index(n);
        let start = if i == 0 {
            0
        } else {
            self.ends[i - 1]
        };
        proof {
            lemma_atoms_empty(self@);
        }
        Some(SearchResult { merged_index: i, offset: n - start, element: &self.vec[i] })
    }
}

} // verus!
