//! The arena: the store of container ids, text and values that stored
//! operations point into.
use vstd::prelude::*;

use crate::container::{atom_clone, atom_text, ContainerID, ContainerType};
use crate::change::{
    all_ops, is_push, is_pushes, kept_by_merging, ops_contiguous, push_op, Change,
};
use crate::id::Counter;
use crate::op::{
    ContainerIdx, InnerContent, InnerListOp, InnerMapSet, ListOp, ListSlice, MapSet, Op, OpItem,
    RawContentView, RawOpContent, RemoteOp, RemoteOpView, SliceRange,
};
use crate::rle::{
    atoms, atoms_before, lemma_atoms_empty, lemma_atoms_full, lemma_atoms_monotone,
    lemma_atoms_step, Rle, RleVec,
};
use crate::value::LoroValue;

verus! {

/// The store that the operations of a log share: each container id once,
/// all inserted text in one string, all inserted and assigned values in
/// one list.
#[derive(Debug)]
pub struct SharedArena {
    pub containers: Vec<ContainerID>,
    pub text: String,
    /// The length of `text` in characters.
    pub text_len: usize,
    pub values: Vec<LoroValue>,
}

impl SharedArena {
    /// No container is registered twice, and the recorded length of the
    /// text is its length.
    pub open spec fn wf(&self) -> bool {
        &&& self.text_len == self.text@.len()
        &&& forall|i: int, j: int|
            0 <= i < self.containers@.len() && 0 <= j < self.containers@.len() && i != j
                ==> self.containers@[i]@ != self.containers@[j]@
    }

    /// Whether the arena holds what the operation points at: its container,
    /// and for an insertion the inserted range, in the text for a text
    /// container and in the values for a list.
    pub open spec fn holds(&self, op: &Op) -> bool {
        &&& op.container < self.containers@.len()
        &&& match op.content {
            InnerContent::List(InnerListOp::Insert { slice, pos }) => {
                match self.containers@[op.container as int].spec_container_type() {
                    ContainerType::Text => slice.start <= slice.end <= self.text@.len(),
                    ContainerType::List => slice.start <= slice.end <= self.values@.len(),
                    ContainerType::Mapping => false,
                }
            },
            _ => true,
        }
    }

    /// Whether the arena holds what the operation points at for good: also
    /// the value of a map entry.
    pub open spec fn settles(&self, op: &Op) -> bool {
        &&& self.holds(op)
        &&& op.content is Mapping ==> op.content->Mapping_0.value < self.values@.len()
    }

    /// What the arena settles, it settles merged.
    pub proof fn lemma_merging_keeps_settled(&self)
        ensures
            kept_by_merging(|op: Op| self.settles(&op)),
    {
        let pred = |op: Op| self.settles(&op);
        assert forall|x: Op, y: Op, m: Op|
            x.rle_wf() && y.rle_wf() && x.can_merge(&y) && #[trigger] x.is_merge_of(&y, &m) && pred(
                x,
            ) && pred(y) implies pred(m) by {}
        assert forall|x: Op, y: Op| #[trigger] x.same_op(&y) && pred(x) implies pred(y) by {}
    }

    /// What an arena settles, a grown arena settles.
    pub proof fn lemma_grows_settles(&self, later: &SharedArena, op: &Op)
        requires
            self.grows_to(later),
            self.settles(op),
        ensures
            later.settles(op),
            later.resolve(op) == self.resolve(op),
    {
        self.lemma_grows_keeps(later, op);
    }

    /// The content of a stored operation, taken out of the arena. A map
    /// entry whose value the arena does not hold has the null value.
    pub open spec fn resolve_content(&self, op: &Op) -> RawContentView {
        match op.content {
            InnerContent::List(InnerListOp::Insert { slice, pos }) => {
                if self.containers@[op.container as int].spec_container_type()
                    == ContainerType::Text {
                    RawContentView::InsertText {
                        text: self.text@.subrange(slice.start as int, slice.end as int),
                        pos,
                    }
                } else {
                    RawContentView::InsertValues {
                        values: self.values@.subrange(slice.start as int, slice.end as int),
                        pos,
                    }
                }
            },
            InnerContent::List(InnerListOp::Delete(span)) => RawContentView::Delete(span),
            InnerContent::Mapping(m) => RawContentView::Mapping {
                key: atom_text(m.key),
                value: if m.value < self.values@.len() {
                    self.values@[m.value as int]
                } else {
                    LoroValue::Null
                },
            },
        }
    }

    /// A stored operation in the form in which replicas exchange it.
    pub open spec fn resolve(&self, op: &Op) -> RemoteOpView {
        RemoteOpView {
            container: self.containers@[op.container as int]@,
            counter: op.counter,
            content: self.resolve_content(op),
        }
    }

    /// Whether `later` holds all that `self` holds, at the same places.
    pub open spec fn grows_to(&self, later: &SharedArena) -> bool {
        &&& self.containers@.len() <= later.containers@.len()
        &&& forall|i: int|
            0 <= i < self.containers@.len() ==> #[trigger] later.containers@[i] == self.containers@[i]
        &&& self.text@.len() <= later.text@.len()
        &&& later.text@.subrange(0, self.text@.len() as int) == self.text@
        &&& self.values@.len() <= later.values@.len()
        &&& later.values@.subrange(0, self.values@.len() as int) == self.values@
    }

    /// An arena grown from a grown arena is a grown arena.
    pub proof fn lemma_grows_twice(&self, mid: &SharedArena, later: &SharedArena)
        requires
            self.grows_to(mid),
            mid.grows_to(later),
        ensures
            self.grows_to(later),
    {
        assert forall|i: int| 0 <= i < self.containers@.len() implies #[trigger] later.containers@[i]
            == self.containers@[i] by {
            assert(mid.containers@[i] == self.containers@[i]);
        }
        assert(later.text@.subrange(0, self.text@.len() as int) =~= later.text@.subrange(
            0,
            mid.text@.len() as int,
        ).subrange(0, self.text@.len() as int));
        assert(later.values@.subrange(0, self.values@.len() as int) =~= later.values@.subrange(
            0,
            mid.values@.len() as int,
        ).subrange(0, self.values@.len() as int));
    }

    /// An arena has grown to itself.
    pub proof fn lemma_grows_self(&self)
        ensures
            self.grows_to(self),
    {
        assert(self.text@.subrange(0, self.text@.len() as int) =~= self.text@);
        assert(self.values@.subrange(0, self.values@.len() as int) =~= self.values@);
    }

    /// What an arena holds, a larger arena gives back unchanged, but for a
    /// map entry whose value was missing.
    pub proof fn lemma_grows_keeps(&self, later: &SharedArena, op: &Op)
        requires
            self.grows_to(later),
            self.holds(op),
            op.content is Mapping ==> op.content->Mapping_0.value < self.values@.len(),
        ensures
            later.holds(op),
            later.resolve(op) == self.resolve(op),
    {
        assert(later.containers@[op.container as int] == self.containers@[op.container as int]);
        match op.content {
            InnerContent::List(InnerListOp::Insert { slice, pos }) => {
                let a = slice.start as int;
                let b = slice.end as int;
                if self.containers@[op.container as int].spec_container_type()
                    == ContainerType::Text {
                    assert(later.text@.subrange(a, b) =~= later.text@.subrange(
                        0,
                        self.text@.len() as int,
                    ).subrange(a, b));
                } else {
                    assert(later.values@.subrange(a, b) =~= later.values@.subrange(
                        0,
                        self.values@.len() as int,
                    ).subrange(a, b));
                }
            },
            InnerContent::List(InnerListOp::Delete(span)) => {},
            InnerContent::Mapping(m) => {
                assert(later.values@.subrange(0, self.values@.len() as int)[m.value as int]
                    == later.values@[m.value as int]);
            },
        }
    }

    pub fn new() -> (r: Self)
        ensures
            r.wf(),
            r.containers@.len() == 0,
            r.text@.len() == 0,
            r.values@.len() == 0,
    {
        SharedArena { containers: Vec::new(), text: String::new(), text_len: 0, values: Vec::new() }
    }

    /// Whether nothing was stored yet.
    pub fn is_empty(&self) -> (b: bool)
        requires
            self.wf(),
        ensures
            b == (self.containers@.len() == 0 && self.text@.len() == 0 && self.values@.len() == 0),
    {
        self.containers.len() == 0 && self.text_len == 0 && self.values.len() == 0
    }

    /// The index of a container id, if it is registered.
    pub fn id_to_idx(&self, id: &ContainerID) -> (r: Option<ContainerIdx>)
        ensures
            match r {
                Some(i) => i < self.containers@.len() && self.containers@[i as int]@ == id@,
                None => forall|i: int|
                    0 <= i < self.containers@.len() ==> (#[trigger] self.containers@[i])@ != id@,
            },
    {
        let mut i: usize = 0;
        while i < self.containers.len()
            invariant
                0 <= i <= self.containers.len(),
                forall|j: int| 0 <= j < i ==> (#[trigger] self.containers@[j])@ != id@,
            decreases self.containers.len() - i,
        {
            if self.containers[i].same(id) {
                return Some(i);
            }
            i += 1;
        }
        None
    }

    /// The index of a container id; the id is stored at its first
    /// registration, and every later one gives the same index.
    pub fn register_container(&mut self, id: &ContainerID) -> (idx: ContainerIdx)
        requires
            old(self).wf(),
        ensures
            final(self).wf(),
            old(self).grows_to(final(self)),
            final(self).text == old(self).text,
            final(self).values == old(self).values,
            idx < final(self).containers@.len(),
            final(self).containers@[idx as int]@ == id@,
            (exists|i: int|
                0 <= i < old(self).containers@.len() && (#[trigger] old(self).containers@[i])@
                    == id@) ==> final(self).containers@ == old(self).containers@,
            !(exists|i: int|
                0 <= i < old(self).containers@.len() && (#[trigger] old(self).containers@[i])@
                    == id@) ==> final(self).containers@ == old(self).containers@.push(*id) && idx
                == old(self).containers@.len(),
    {
        proof {
            assert(self.text@.subrange(0, self.text@.len() as int) =~= self.text@);
            assert(self.values@.subrange(0, self.values@.len() as int) =~= self.values@);
        }
        match self.id_to_idx(id) {
            Some(i) => i,
            None => {
                self.containers.push(id.clone_id());
                self.containers.len() - 1
            },
        }
    }

    /// The container id at an index, if one is registered there.
    pub fn get_container_id(&self, idx: ContainerIdx) -> (r: Option<ContainerID>)
        ensures
            match r {
                Some(id) => idx < self.containers@.len() && id == self.containers@[idx as int],
                None => idx >= self.containers@.len(),
            },
    {
        if idx < self.containers.len() {
            Some(self.containers[idx].clone_id())
        } else {
            None
        }
    }

    /// Appends text, and says where it went.
    pub fn alloc_str(&mut self, s: &str) -> (r: SliceRange)
        requires
            old(self).wf(),
        ensures
            final(self).wf(),
            old(self).grows_to(final(self)),
            final(self).containers == old(self).containers,
            final(self).values == old(self).values,
            final(self).text@ == old(self).text@ + s@,
            r.start == old(self).text@.len(),
            r.end == final(self).text@.len(),
    {
        let start = self.text_len;
        let n = s.unicode_len();
        self.text.append(s);
        let end = match start.checked_add(n) {
            Some(e) => e,
            None => self.text.as_str().unicode_len(),
        };
        self.text_len = end;
        proof {
            assert(self.text@.subrange(0, old(self).text@.len() as int) =~= old(self).text@);
            assert(self.values@.subrange(0, self.values@.len() as int) =~= self.values@);
        }
        SliceRange { start, end }
    }

    /// Appends values, and says where they went.
    pub fn alloc_values(&mut self, values: &Vec<LoroValue>) -> (r: SliceRange)
        requires
            old(self).wf(),
        ensures
            final(self).wf(),
            old(self).grows_to(final(self)),
            final(self).containers == old(self).containers,
            final(self).text == old(self).text,
            final(self).values@ == old(self).values@ + values@,
            r.start == old(self).values@.len(),
            r.end == final(self).values@.len(),
    {
        let start = self.values.len();
        let mut i: usize = 0;
        while i < values.len()
            invariant
                0 <= i <= values.len(),
                self.containers == old(self).containers,
                self.text == old(self).text,
                self.text_len == old(self).text_len,
                self.values@ == old(self).values@ + values@.take(i as int),
            decreases values.len() - i,
        {
            self.values.push(values[i].clone_value());
            i += 1;
            assert(self.values@ =~= old(self).values@ + values@.take(i as int));
        }
        proof {
            assert(values@.take(values@.len() as int) =~= values@);
            assert(self.text@.subrange(0, self.text@.len() as int) =~= self.text@);
            assert(self.values@.subrange(0, old(self).values@.len() as int) =~= old(self).values@);
        }
        SliceRange { start, end: self.values.len() }
    }

    /// Appends one value, and says where it went.
    pub fn alloc_value(&mut self, value: LoroValue) -> (idx: usize)
        requires
            old(self).wf(),
        ensures
            final(self).wf(),
            old(self).grows_to(final(self)),
            final(self).containers == old(self).containers,
            final(self).text == old(self).text,
            final(self).values@ == old(self).values@.push(value),
            idx == old(self).values@.len(),
    {
        self.values.push(value);
        proof {
            assert(self.text@.subrange(0, self.text@.len() as int) =~= self.text@);
            assert(self.values@.subrange(0, old(self).values@.len() as int) =~= old(self).values@);
        }
        self.values.len() - 1
    }

    /// The text in a range of character positions.
    pub fn slice_str(&self, start: usize, end: usize) -> (r: String)
        requires
            start <= end <= self.text@.len(),
        ensures
            r@ == self.text@.subrange(start as int, end as int),
    {
        String::from_str(self.text.as_str().substring_char(start, end))
    }

    /// The values in a range of positions.
    pub fn get_values(&self, start: usize, end: usize) -> (r: Vec<LoroValue>)
        requires
            start <= end <= self.values@.len(),
        ensures
            r@ == self.values@.subrange(start as int, end as int),
    {
        let mut r: Vec<LoroValue> = Vec::new();
        let mut i: usize = start;
        while i < end
            invariant
                start <= i <= end <= self.values@.len(),
                r@ == self.values@.subrange(start as int, i as int),
            decreases end - i,
        {
            r.push(self.values[i].clone_value());
            i += 1;
            assert(r@ =~= self.values@.subrange(start as int, i as int));
        }
        r
    }

    /// The value at a position, if the arena holds one there.
    pub fn get_value(&self, idx: usize) -> (r: Option<LoroValue>)
        ensures
            match r {
                Some(v) => idx < self.values@.len() && v == self.values@[idx as int],
                None => idx >= self.values@.len(),
            },
    {
        if idx < self.values.len() {
            Some(self.values[idx].clone_value())
        } else {
            None
        }
    }

    /// Whether content of this shape belongs in a container of this kind:
    /// text in a text container, values in a list; a deletion fits a text
    /// or a list, an assignment any container.
    pub open spec fn fits(content: RawContentView, t: ContainerType) -> bool {
        match content {
            RawContentView::InsertText { .. } => t == ContainerType::Text,
            RawContentView::InsertValues { .. } => t == ContainerType::List,
            _ => true,
        }
    }

    /// Stores what an exchanged operation carries, and gives the operation
    /// in the form that the log keeps. The arena gives the content back as
    /// it was, where the content fits the container.
    pub fn convert_single_op(
        &mut self,
        container: &ContainerID,
        counter: Counter,
        content: RawOpContent,
    ) -> (op: Op)
        requires
            old(self).wf(),
            content.wf(),
            0 <= counter,
            counter + content@.spec_len() <= i32::MAX,
        ensures
            final(self).wf(),
            old(self).grows_to(final(self)),
            op.rle_wf(),
            op.counter == counter,
            op.rle_len() == content@.spec_len(),
            op.container < final(self).containers@.len(),
            final(self).containers@[op.container as int]@ == container@,
            op.content is Mapping ==> op.content->Mapping_0.value < final(self).values@.len(),
            SharedArena::fits(content@, container.spec_container_type()) ==> final(self).holds(&op)
                && final(self).resolve(&op) == (RemoteOpView {
                container: container@,
                counter,
                content: content@,
            }),
    {
        let idx = self.register_container(container);
        let ghost mid = *self;
        let inner = match content {
            RawOpContent::Mapping(MapSet { key, value }) => {
                let v = self.alloc_value(value);
                InnerContent::Mapping(InnerMapSet { key, value: v })
            },
            RawOpContent::List(ListOp::Insert { slice: ListSlice::RawData(values), pos }) => {
                let range = self.alloc_values(&values);
                proof {
                    assert(self.values@.subrange(range.start as int, range.end as int)
                        =~= values@);
                }
                InnerContent::List(InnerListOp::Insert { slice: range, pos })
            },
            RawOpContent::List(
                ListOp::Insert { slice: ListSlice::RawStr { str, unicode_len }, pos },
            ) => {
                let range = self.alloc_str(str.as_str());
                proof {
                    assert(self.text@.subrange(range.start as int, range.end as int) =~= str@);
                }
                InnerContent::List(InnerListOp::Insert { slice: range, pos })
            },
            RawOpContent::List(ListOp::Delete(span)) => InnerContent::List(
                InnerListOp::Delete(span),
            ),
        };
        proof {
            assert(self.containers@[idx as int] == mid.containers@[idx as int]);
            assert(old(self).grows_to(self)) by {
                assert(self.text@.subrange(0, old(self).text@.len() as int) =~= mid.text@.subrange(
                    0,
                    old(self).text@.len() as int,
                ));
                assert(self.values@.subrange(0, old(self).values@.len() as int)
                    =~= mid.values@.subrange(0, old(self).values@.len() as int));
            }
        }
        Op { container: idx, counter, content: inner }
    }

    /// Whether the operations `ops`, one for each operation of `remote`,
    /// hold in the arena what those carry.
    pub open spec fn converts(&self, remote: Seq<RemoteOp>, ops: Seq<Op>) -> bool {
        &&& ops.len() == remote.len()
        &&& forall|j: int|
            0 <= j < ops.len() ==> self.settles(#[trigger] &ops[j]) && self.resolve(&ops[j])
                == remote[j]@
    }

    /// Whether the stored change `local` carries what the exchanged change
    /// `remote` carries: its operations are operations that hold in the
    /// arena what those of `remote` carry, stored one after the other.
    pub open spec fn carries(&self, local: &Change<Op>, remote: &Change<RemoteOp>) -> bool {
        exists|ops: Seq<Op>|
            #![trigger is_pushes(Seq::<Op>::empty(), ops, local.ops@)]
            self.converts(remote.ops@, ops) && is_pushes(Seq::<Op>::empty(), ops, local.ops@)
    }

    /// What an arena holds of exchanged operations, a grown arena holds.
    pub proof fn lemma_grows_converts(&self, later: &SharedArena, remote: Seq<RemoteOp>, ops: Seq<Op>)
        requires
            self.grows_to(later),
            self.converts(remote, ops),
        ensures
            later.converts(remote, ops),
    {
        assert forall|j: int| 0 <= j < ops.len() implies later.settles(#[trigger] &ops[j])
            && later.resolve(&ops[j]) == remote[j]@ by {
            self.lemma_grows_settles(later, &ops[j]);
        }
    }

    /// What a change carries in an arena, it carries in a grown arena.
    pub proof fn lemma_grows_carries(
        &self,
        later: &SharedArena,
        local: &Change<Op>,
        remote: &Change<RemoteOp>,
    )
        requires
            self.grows_to(later),
            self.carries(local, remote),
        ensures
            later.carries(local, remote),
    {
        let ops = choose|ops: Seq<Op>|
            #![trigger is_pushes(Seq::<Op>::empty(), ops, local.ops@)]
            self.converts(remote.ops@, ops) && is_pushes(Seq::<Op>::empty(), ops, local.ops@);
        self.lemma_grows_converts(later, remote.ops@, ops);
    }

    /// Stores what the operations of an exchanged change carry, and gives
    /// the change in the form that the log keeps: the same ids, clocks and
    /// dependencies, and as many atomic operations.
    pub fn import_change(&mut self, remote: &Change<RemoteOp>) -> (local: Change<Op>)
        requires
            old(self).wf(),
            remote.wf(),
        ensures
            final(self).wf(),
            old(self).grows_to(final(self)),
            local.wf(),
            local.id == remote.id,
            local.lamport == remote.lamport,
            local.deps@ == remote.deps@,
            local.timestamp == remote.timestamp,
            local.spec_len() == remote.spec_len(),
            (forall|j: int|
                0 <= j < remote.ops@.len() ==> SharedArena::fits(
                    (#[trigger] remote.ops@[j]).content@,
                    remote.ops@[j].container.spec_container_type(),
                )) ==> final(self).carries(&local, remote) && forall|j: int|
                0 <= j < local.ops@.len() ==> final(self).settles(#[trigger] &local.ops@[j]),
    {
        let ghost all_fit = forall|j: int|
            0 <= j < remote.ops@.len() ==> SharedArena::fits(
                (#[trigger] remote.ops@[j]).content@,
                remote.ops@[j].container.spec_container_type(),
            );
        let mut ops: RleVec<Op> = RleVec::new();
        let mut j: usize = 0;
        let ghost mut made: Seq<Op> = Seq::empty();
        proof {
            assert(remote.ops@.take(0) =~= Seq::<RemoteOp>::empty());
            old(self).lemma_grows_self();
            lemma_atoms_empty(remote.ops@);
            lemma_atoms_empty(ops@);
            lemma_atoms_full(remote.ops@);
        }
        while j < remote.ops.vec.len()
            invariant
                0 <= j <= remote.ops@.len(),
                remote.wf(),
                self.wf(),
                old(self).grows_to(self),
                ops.wf(),
                j > 0 ==> ops@.len() > 0 && ops@[0].op_counter() == remote.id.counter,
                j == 0 ==> ops@.len() == 0,
                ops@.len() > 0 ==> ops_contiguous(ops@, ops@[0].op_counter()),
                atoms(ops@) == atoms_before(remote.ops@, j as int),
                all_fit == (forall|j: int|
                    0 <= j < remote.ops@.len() ==> SharedArena::fits(
                        (#[trigger] remote.ops@[j]).content@,
                        remote.ops@[j].container.spec_container_type(),
                    )),
                all_fit ==> forall|k: int| 0 <= k < ops@.len() ==> self.settles(#[trigger] &ops@[k]),
                made.len() == j,
                is_pushes(Seq::<Op>::empty(), made, ops@),
                all_fit ==> self.converts(remote.ops@.take(j as int), made),
            decreases remote.ops@.len() - j,
        {
            let op_r = &remote.ops.vec[j];
            let ghost mid = *self;
            proof {
                assert(remote.ops@[j as int].rle_wf());
                assert(remote.ops@[j as int].op_counter() == remote.id.counter + atoms_before(
                    remote.ops@,
                    j as int,
                ));
                lemma_atoms_step(remote.ops@, j as int);
                lemma_atoms_monotone(remote.ops@, j as int + 1, remote.ops@.len() as int);
                lemma_atoms_full(remote.ops@);
                lemma_atoms_empty(remote.ops@);
            }
            let op = self.convert_single_op(
                &op_r.container,
                op_r.counter,
                op_r.content.clone_content(),
            );
            let ghost held = ops@;
            proof {
                old(self).lemma_grows_twice(&mid, self);
                if all_fit {
                    assert(SharedArena::fits(
                        remote.ops@[j as int].content@,
                        remote.ops@[j as int].container.spec_container_type(),
                    ));
                    assert forall|k: int| 0 <= k < held.len() implies self.settles(
                        #[trigger] &held[k],
                    ) by {
                        mid.lemma_grows_settles(self, &held[k]);
                    }
                }
            }
            push_op(&mut ops, op);
            proof {
                let made_before = made;
                made = made.push(op);
                assert(made.drop_last() =~= made_before);
                assert(made.last() == op);
                assert(is_push(held, op, ops@));
                if all_fit {
                    mid.lemma_grows_converts(self, remote.ops@.take(j as int), made_before);
                    assert(remote.ops@.take(j + 1).len() == made.len());
                    assert forall|k: int| 0 <= k < made.len() implies self.settles(
                        #[trigger] &made[k],
                    ) && self.resolve(&made[k]) == remote.ops@.take(j + 1)[k]@ by {
                        if k < j {
                            assert(made[k] == made_before[k]);
                            assert(remote.ops@.take(j + 1)[k] == remote.ops@.take(j as int)[k]);
                        }
                    }
                }
                if all_fit {
                    let pred = |op: Op| self.settles(&op);
                    self.lemma_merging_keeps_settled();
                    assert(all_ops(held, pred)) by {
                        assert forall|k: int| 0 <= k < held.len() implies pred(#[trigger] held[k]) by {
                            assert(self.settles(&held[k]));
                        }
                    }
                    assert(pred(op));
                    assert(all_ops(ops@, pred));
                    assert forall|k: int| 0 <= k < ops@.len() implies self.settles(
                        #[trigger] &ops@[k],
                    ) by {
                        assert(pred(ops@[k]));
                    }
                }
            }
            j += 1;
        }
        let local = Change {
            ops,
            id: remote.id,
            deps: remote.deps.clone_frontiers(),
            lamport: remote.lamport,
            timestamp: remote.timestamp,
        };
        proof {
            lemma_atoms_full(remote.ops@);
            assert(remote.ops@.take(remote.ops@.len() as int) =~= remote.ops@);
        }
        local
    }

    /// A stored operation in the form in which replicas exchange it.
    pub fn local_op_to_remote(&self, op: &Op) -> (r: RemoteOp)
        requires
            self.holds(op),
        ensures
            r@ == self.resolve(op),
            op.rle_wf() ==> r.rle_wf() && r.rle_len() == op.rle_len(),
    {
        let container = self.containers[op.container].clone_id();
        let content = match &op.content {
            InnerContent::List(InnerListOp::Insert { slice, pos }) => {
                match container.container_type() {
                    ContainerType::Text => {
                        let str = self.slice_str(slice.start, slice.end);
                        let unicode_len = slice.end - slice.start;
                        RawOpContent::List(
                            ListOp::Insert { slice: ListSlice::RawStr { str, unicode_len }, pos: *pos },
                        )
                    },
                    ContainerType::List => {
                        let values = self.get_values(slice.start, slice.end);
                        RawOpContent::List(
                            ListOp::Insert { slice: ListSlice::RawData(values), pos: *pos },
                        )
                    },
                    ContainerType::Mapping => vstd::pervasive::unreached(),
                }
            },
            InnerContent::List(InnerListOp::Delete(span)) => RawOpContent::List(
                ListOp::Delete(*span),
            ),
            InnerContent::Mapping(m) => {
                let value = match self.get_value(m.value) {
                    Some(v) => v,
                    None => LoroValue::Null,
                };
                RawOpContent::Mapping(MapSet { key: atom_clone(&m.key), value })
            },
        };
        RemoteOp { container, counter: op.counter, content }
    }
}

} // verus!
