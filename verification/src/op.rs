//! Operations, in the form stored in the log and in the form exchanged
//! between replicas.
use vstd::prelude::*;

use crate::container::{atom_clone, atom_text, ContainerID, ContainerIDView, InternalString};
use crate::id::Counter;
use crate::rle::{Rle, Sliceable};
use crate::value::LoroValue;

verus! {

/// Index of a container id in the arena.
pub type ContainerIdx = usize;

/// A range of positions in the arena's text or in its list values.
#[derive(Clone, Copy, Debug, PartialEq, Eq, Structural)]
pub struct SliceRange {
    pub start: usize,
    pub end: usize,
}

impl SliceRange {
    pub open spec fn spec_len(&self) -> nat {
        if self.end > self.start {
            (self.end - self.start) as nat
        } else {
            0
        }
    }

    pub fn atom_len(&self) -> (n: usize)
        ensures
            n == self.spec_len(),
    {
        if self.end > self.start {
            self.end - self.start
        } else {
            0
        }
    }
}

/// A deletion of `|len|` elements at `pos`; the sign of `len` gives the
/// direction.
#[derive(Clone, Copy, Debug, PartialEq, Eq, Structural)]
pub struct DeleteSpan {
    pub pos: isize,
    pub len: isize,
}

impl DeleteSpan {
    pub open spec fn wf(&self) -> bool {
        self.len != 0 && self.len > isize::MIN
    }

    pub open spec fn spec_len(&self) -> nat {
        if self.len < 0 {
            (-self.len) as nat
        } else {
            self.len as nat
        }
    }

    pub fn atom_len(&self) -> (n: usize)
        requires
            self.wf(),
        ensures
            n == self.spec_len(),
            n >= 1,
    {
        if self.len < 0 {
            (-self.len) as usize
        } else {
            self.len as usize
        }
    }
}

/// A list operation whose inserted content lies in the arena.
#[derive(Clone, Copy, Debug, PartialEq, Eq, Structural)]
pub enum InnerListOp {
    Insert { slice: SliceRange, pos: usize },
    Delete(DeleteSpan),
}

/// A map operation whose key is interned and whose value lies in the arena.
#[derive(Debug, PartialEq, Eq)]
pub struct InnerMapSet {
    pub key: InternalString,
    pub value: usize,
}

/// The content of a stored operation.
#[derive(Debug, PartialEq, Eq)]
pub enum InnerContent {
    List(InnerListOp),
    Mapping(InnerMapSet),
}

impl InnerContent {
    pub open spec fn wf(&self) -> bool {
        match self {
            InnerContent::List(InnerListOp::Insert { slice, pos }) => slice.start < slice.end,
            InnerContent::List(InnerListOp::Delete(span)) => span.wf(),
            InnerContent::Mapping(_) => true,
        }
    }

    pub open spec fn spec_len(&self) -> nat {
        match self {
            InnerContent::List(InnerListOp::Insert { slice, pos }) => slice.spec_len(),
            InnerContent::List(InnerListOp::Delete(span)) => span.spec_len(),
            InnerContent::Mapping(_) => 1,
        }
    }

    pub fn atom_len(&self) -> (n: usize)
        requires
            self.wf(),
        ensures
            n == self.spec_len(),
            n >= 1,
    {
        match self {
            InnerContent::List(InnerListOp::Insert { slice, pos }) => slice.atom_len(),
            InnerContent::List(InnerListOp::Delete(span)) => span.atom_len(),
            InnerContent::Mapping(_) => 1,
        }
    }

    pub fn clone_content(&self) -> (r: Self)
        ensures
            r == *self,
    {
        match self {
            InnerContent::List(op) => InnerContent::List(*op),
            InnerContent::Mapping(m) => InnerContent::Mapping(
                InnerMapSet { key: atom_clone(&m.key), value: m.value },
            ),
        }
    }
}

/// An operation as the log stores it: the container by its index in the
/// arena, the content by reference into the arena.
#[derive(Debug, PartialEq, Eq)]
pub struct Op {
    pub container: ContainerIdx,
    pub counter: Counter,
    pub content: InnerContent,
}

/// An item that is an operation: it has a counter and can be copied.
pub trait OpItem: Rle {
    /// The counter of the first atom of the operation.
    spec fn op_counter(&self) -> int;

    /// Whether two operations are the same value.
    spec fn same_op(&self, other: &Self) -> bool;

    /// Merging keeps the counter of the first part.
    proof fn lemma_merge_counter(&self, next: &Self, merged: &Self)
        requires
            self.rle_wf(),
            next.rle_wf(),
            self.can_merge(next),
            self.is_merge_of(next, merged),
        ensures
            merged.op_counter() == self.op_counter(),
    ;

    fn counter(&self) -> (c: Counter)
        ensures
            c == self.op_counter(),
    ;

    fn clone_op(&self) -> (r: Self)
        ensures
            self.same_op(&r),
            r.rle_wf() == self.rle_wf(),
            r.rle_len() == self.rle_len(),
            r.op_counter() == self.op_counter(),
    ;
}

impl Rle for Op {
    open spec fn rle_wf(&self) -> bool {
        &&& self.content.wf()
        &&& 0 <= self.counter
        &&& self.counter + self.content.spec_len() <= i32::MAX
    }

    open spec fn rle_len(&self) -> nat {
        self.content.spec_len()
    }

    /// Two insertions continue one another when they are in the same
    /// container, their counters, positions and arena ranges are adjacent.
    open spec fn can_merge(&self, next: &Self) -> bool {
        &&& self.container == next.container
        &&& self.counter + self.content.spec_len() == next.counter
        &&& match (self.content, next.content) {
            (
                InnerContent::List(InnerListOp::Insert { slice: s1, pos: p1 }),
                InnerContent::List(InnerListOp::Insert { slice: s2, pos: p2 }),
            ) => s1.end == s2.start && p1 + s1.spec_len() == p2,
            _ => false,
        }
    }

    open spec fn is_merge_of(&self, next: &Self, merged: &Self) -> bool {
        match (self.content, next.content) {
            (
                InnerContent::List(InnerListOp::Insert { slice: s1, pos: p1 }),
                InnerContent::List(InnerListOp::Insert { slice: s2, pos: p2 }),
            ) => {
                &&& merged.container == self.container
                &&& merged.counter == self.counter
                &&& merged.content == InnerContent::List(
                    InnerListOp::Insert {
                        slice: SliceRange { start: s1.start, end: s2.end },
                        pos: p1,
                    },
                )
            },
            _ => false,
        }
    }

    proof fn lemma_len_positive(&self) {
    }

    proof fn lemma_merge(&self, next: &Self, merged: &Self) {
    }

    fn is_valid(&self) -> (b: bool) {
        let content_ok = match &self.content {
            InnerContent::List(InnerListOp::Insert { slice, pos }) => slice.start < slice.end,
            InnerContent::List(InnerListOp::Delete(span)) => span.len != 0 && span.len > isize::MIN,
            InnerContent::Mapping(_) => true,
        };
        if !content_ok || self.counter < 0 {
            return false;
        }
        let len = self.content.atom_len();
        len <= (i32::MAX - self.counter) as usize
    }

    fn atom_len(&self) -> (n: usize) {
        self.content.atom_len()
    }

    fn is_mergable(&self, next: &Self) -> (b: bool) {
        if self.container != next.container {
            return false;
        }
        let len = self.content.atom_len();
        if self.counter as i64 + len as i64 != next.counter as i64 {
            return false;
        }
        match (&self.content, &next.content) {
            (
                InnerContent::List(InnerListOp::Insert { slice: s1, pos: p1 }),
                InnerContent::List(InnerListOp::Insert { slice: s2, pos: p2 }),
            ) => s1.end == s2.start && *p2 >= len && *p2 - len == *p1,
            _ => false,
        }
    }

    fn merge(&mut self, next: &Self) {
        let (start, pos) = match &self.content {
            InnerContent::List(InnerListOp::Insert { slice, pos }) => (slice.start, *pos),
            _ => vstd::pervasive::unreached(),
        };
        let end = match &next.content {
            InnerContent::List(InnerListOp::Insert { slice, pos }) => slice.end,
            _ => vstd::pervasive::unreached(),
        };
        self.content = InnerContent::List(
            InnerListOp::Insert { slice: SliceRange { start, end }, pos },
        );
    }
}

impl InnerContent {
    /// The atoms `from..to` of the content: of an insertion the part of the
    /// inserted range, moved up by `from` positions; of a deletion that
    /// runs forward as many elements at the same position, of one that runs
    /// backward as many elements `from` positions further back.
    pub open spec fn piece(self, from: int, to: int) -> InnerContent {
        match self {
            InnerContent::List(InnerListOp::Insert { slice, pos }) => InnerContent::List(
                InnerListOp::Insert {
                    slice: SliceRange {
                        start: (slice.start + from) as usize,
                        end: (slice.start + to) as usize,
                    },
                    pos: (pos + from) as usize,
                },
            ),
            InnerContent::List(InnerListOp::Delete(span)) => InnerContent::List(
                InnerListOp::Delete(
                    if span.len > 0 {
                        DeleteSpan { pos: span.pos, len: (to - from) as isize }
                    } else {
                        DeleteSpan { pos: (span.pos - from) as isize, len: (from - to) as isize }
                    },
                ),
            ),
            InnerContent::Mapping(m) => InnerContent::Mapping(m),
        }
    }
}

impl Sliceable for Op {
    open spec fn can_slice(&self, from: int, to: int) -> bool {
        match self.content {
            InnerContent::List(InnerListOp::Insert { slice, pos }) => pos + from <= usize::MAX,
            InnerContent::List(InnerListOp::Delete(span)) => span.len > 0 || span.pos - from
                >= isize::MIN,
            InnerContent::Mapping(_) => true,
        }
    }

    open spec fn is_slice_of(&self, from: int, to: int, piece: &Self) -> bool {
        &&& piece.container == self.container
        &&& piece.counter == self.counter + from
        &&& piece.content == self.content.piece(from, to)
    }

    fn slice(&self, from: usize, to: usize) -> (piece: Self) {
        let content = match &self.content {
            InnerContent::List(InnerListOp::Insert { slice, pos }) => InnerContent::List(
                InnerListOp::Insert {
                    slice: SliceRange { start: slice.start + from, end: slice.start + to },
                    pos: *pos + from,
                },
            ),
            InnerContent::List(InnerListOp::Delete(span)) => InnerContent::List(
                InnerListOp::Delete(
                    if span.len > 0 {
                        DeleteSpan { pos: span.pos, len: (to - from) as isize }
                    } else {
                        DeleteSpan {
                            pos: span.pos - from as isize,
                            len: -((to - from) as isize),
                        }
                    },
                ),
            ),
            InnerContent::Mapping(m) => InnerContent::Mapping(
                InnerMapSet { key: atom_clone(&m.key), value: m.value },
            ),
        };
        Op { container: self.container, counter: (self.counter as i64 + from as i64) as i32, content }
    }
}

impl OpItem for Op {
    open spec fn op_counter(&self) -> int {
        self.counter as int
    }

    open spec fn same_op(&self, other: &Self) -> bool {
        *self == *other
    }

    proof fn lemma_merge_counter(&self, next: &Self, merged: &Self) {
    }

    fn counter(&self) -> (c: Counter) {
        self.counter
    }

    fn clone_op(&self) -> (r: Self) {
        Op { container: self.container, counter: self.counter, content: self.content.clone_content() }
    }
}

/// What a list insertion carries between replicas: the values themselves,
/// or the text with its length in characters.
#[derive(Debug, PartialEq)]
pub enum ListSlice {
    RawData(Vec<LoroValue>),
    RawStr { str: String, unicode_len: usize },
}

/// A list operation with its content inline.
#[derive(Debug, PartialEq)]
pub enum ListOp {
    Insert { slice: ListSlice, pos: usize },
    Delete(DeleteSpan),
}

/// A map operation with its value inline.
#[derive(Debug, PartialEq)]
pub struct MapSet {
    pub key: InternalString,
    pub value: LoroValue,
}

/// The content of an operation as replicas exchange it.
#[derive(Debug, PartialEq)]
pub enum RawOpContent {
    Mapping(MapSet),
    List(ListOp),
}

/// The content of an exchanged operation as a plain value.
pub enum RawContentView {
    Mapping { key: Seq<char>, value: LoroValue },
    InsertValues { values: Seq<LoroValue>, pos: usize },
    InsertText { text: Seq<char>, pos: usize },
    Delete(DeleteSpan),
}

impl RawContentView {
    pub open spec fn spec_len(self) -> nat {
        match self {
            RawContentView::Mapping { .. } => 1,
            RawContentView::InsertValues { values, .. } => values.len(),
            RawContentView::InsertText { text, .. } => text.len(),
            RawContentView::Delete(span) => span.spec_len(),
        }
    }

    /// The atoms `from..to` of the content: of an insertion the part of
    /// what is inserted, moved up by `from` positions; of a deletion that
    /// runs forward as many elements at the same position, of one that runs
    /// backward as many elements `from` positions further back.
    pub open spec fn piece(self, from: int, to: int) -> RawContentView {
        match self {
            RawContentView::Mapping { key, value } => RawContentView::Mapping { key, value },
            RawContentView::InsertValues { values, pos } => RawContentView::InsertValues {
                values: values.subrange(from, to),
                pos: (pos + from) as usize,
            },
            RawContentView::InsertText { text, pos } => RawContentView::InsertText {
                text: text.subrange(from, to),
                pos: (pos + from) as usize,
            },
            RawContentView::Delete(span) => RawContentView::Delete(
                if span.len > 0 {
                    DeleteSpan { pos: span.pos, len: (to - from) as isize }
                } else {
                    DeleteSpan { pos: (span.pos - from) as isize, len: (from - to) as isize }
                },
            ),
        }
    }

    /// Whether every piece of the content has its position in range.
    pub open spec fn in_range(self) -> bool {
        match self {
            RawContentView::Mapping { .. } => true,
            RawContentView::InsertValues { values, pos } => pos + values.len() <= usize::MAX,
            RawContentView::InsertText { text, pos } => pos + text.len() <= usize::MAX,
            RawContentView::Delete(span) => span.len > 0 || span.pos + span.len >= isize::MIN,
        }
    }
}

impl View for RawOpContent {
    type V = RawContentView;

    open spec fn view(&self) -> RawContentView {
        match self {
            RawOpContent::Mapping(m) => RawContentView::Mapping {
                key: atom_text(m.key),
                value: m.value,
            },
            RawOpContent::List(ListOp::Insert { slice: ListSlice::RawData(values), pos }) => {
                RawContentView::InsertValues { values: values@, pos: *pos }
            },
            RawOpContent::List(
                ListOp::Insert { slice: ListSlice::RawStr { str, unicode_len }, pos },
            ) => RawContentView::InsertText { text: str@, pos: *pos },
            RawOpContent::List(ListOp::Delete(span)) => RawContentView::Delete(*span),
        }
    }
}

impl RawOpContent {
    /// An insertion is not empty, a text carries its own length, and a
    /// deletion is valid.
    pub open spec fn wf(&self) -> bool {
        match self {
            RawOpContent::Mapping(_) => true,
            RawOpContent::List(ListOp::Insert { slice: ListSlice::RawData(values), pos }) => {
                values@.len() > 0
            },
            RawOpContent::List(
                ListOp::Insert { slice: ListSlice::RawStr { str, unicode_len }, pos },
            ) => str@.len() > 0 && *unicode_len == str@.len(),
            RawOpContent::List(ListOp::Delete(span)) => span.wf(),
        }
    }

    pub fn atom_len(&self) -> (n: usize)
        requires
            self.wf(),
        ensures
            n == self@.spec_len(),
            n >= 1,
    {
        match self {
            RawOpContent::Mapping(_) => 1,
            RawOpContent::List(ListOp::Insert { slice: ListSlice::RawData(values), pos }) => {
                values.len()
            },
            RawOpContent::List(
                ListOp::Insert { slice: ListSlice::RawStr { str, unicode_len }, pos },
            ) => *unicode_len,
            RawOpContent::List(ListOp::Delete(span)) => span.atom_len(),
        }
    }

    pub fn clone_content(&self) -> (r: Self)
        ensures
            r@ == self@,
            r.wf() == self.wf(),
    {
        match self {
            RawOpContent::Mapping(m) => RawOpContent::Mapping(
                MapSet { key: atom_clone(&m.key), value: m.value.clone_value() },
            ),
            RawOpContent::List(ListOp::Insert { slice: ListSlice::RawData(values), pos }) => {
                RawOpContent::List(
                    ListOp::Insert { slice: ListSlice::RawData(clone_values(values)), pos: *pos },
                )
            },
            RawOpContent::List(
                ListOp::Insert { slice: ListSlice::RawStr { str, unicode_len }, pos },
            ) => RawOpContent::List(
                ListOp::Insert {
                    slice: ListSlice::RawStr { str: str.clone(), unicode_len: *unicode_len },
                    pos: *pos,
                },
            ),
            RawOpContent::List(ListOp::Delete(span)) => RawOpContent::List(ListOp::Delete(*span)),
        }
    }
}

/// A copy of a list of values.
pub fn clone_values(values: &Vec<LoroValue>) -> (r: Vec<LoroValue>)
    ensures
        r@ == values@,
{
    let mut r: Vec<LoroValue> = Vec::new();
    let mut i: usize = 0;
    while i < values.len()
        invariant
            0 <= i <= values.len(),
            r@ == values@.take(i as int),
        decreases values.len() - i,
    {
        r.push(values[i].clone_value());
        i += 1;
        assert(r@ =~= values@.take(i as int));
    }
    assert(values@.take(values@.len() as int) =~= values@);
    r
}

/// An operation as replicas exchange it: the container by its id, the
/// content inline.
#[derive(Debug, PartialEq)]
pub struct RemoteOp {
    pub container: ContainerID,
    pub counter: Counter,
    pub content: RawOpContent,
}

/// An exchanged operation as a plain value.
pub struct RemoteOpView {
    pub container: ContainerIDView,
    pub counter: Counter,
    pub content: RawContentView,
}

impl View for RemoteOp {
    type V = RemoteOpView;

    open spec fn view(&self) -> RemoteOpView {
        RemoteOpView {
            container: self.container@,
            counter: self.counter,
            content: self.content@,
        }
    }
}

impl Rle for RemoteOp {
    open spec fn rle_wf(&self) -> bool {
        &&& self.content.wf()
        &&& 0 <= self.counter
        &&& self.counter + self.content@.spec_len() <= i32::MAX
    }

    open spec fn rle_len(&self) -> nat {
        self.content@.spec_len()
    }

    /// Two insertions of text continue one another when they are in the
    /// same container and their counters and positions are adjacent.
    open spec fn can_merge(&self, next: &Self) -> bool {
        &&& self.container@ == next.container@
        &&& self.counter + self.content@.spec_len() == next.counter
        &&& match (self.content@, next.content@) {
            (
                RawContentView::InsertText { text: t1, pos: p1 },
                RawContentView::InsertText { text: t2, pos: p2 },
            ) => p1 + t1.len() == p2,
            _ => false,
        }
    }

    open spec fn is_merge_of(&self, next: &Self, merged: &Self) -> bool {
        match (self.content@, next.content@) {
            (
                RawContentView::InsertText { text: t1, pos: p1 },
                RawContentView::InsertText { text: t2, pos: p2 },
            ) => {
                &&& merged.container == self.container
                &&& merged.counter == self.counter
                &&& merged.content@ == RawContentView::InsertText { text: t1 + t2, pos: p1 }
                &&& merged.content.wf()
            },
            _ => false,
        }
    }

    proof fn lemma_len_positive(&self) {
    }

    proof fn lemma_merge(&self, next: &Self, merged: &Self) {
    }

    fn is_valid(&self) -> (b: bool) {
        let content_ok = match &self.content {
            RawOpContent::Mapping(_) => true,
            RawOpContent::List(ListOp::Insert { slice: ListSlice::RawData(values), pos }) => {
                values.len() > 0
            },
            RawOpContent::List(
                ListOp::Insert { slice: ListSlice::RawStr { str, unicode_len }, pos },
            ) => *unicode_len > 0 && str.as_str().unicode_len() == *unicode_len,
            RawOpContent::List(ListOp::Delete(span)) => span.len != 0 && span.len > isize::MIN,
        };
        if !content_ok || self.counter < 0 {
            return false;
        }
        let len = self.content.atom_len();
        len <= (i32::MAX - self.counter) as usize
    }

    fn atom_len(&self) -> (n: usize) {
        self.content.atom_len()
    }

    fn is_mergable(&self, next: &Self) -> (b: bool) {
        if !self.container.same(&next.container) {
            return false;
        }
        let len = self.content.atom_len();
        if self.counter as i64 + len as i64 != next.counter as i64 {
            return false;
        }
        match (&self.content, &next.content) {
            (
                RawOpContent::List(ListOp::Insert { slice: ListSlice::RawStr { .. }, pos: p1 }),
                RawOpContent::List(ListOp::Insert { slice: ListSlice::RawStr { .. }, pos: p2 }),
            ) => *p2 >= len && *p2 - len == *p1,
            _ => false,
        }
    }

    fn merge(&mut self, next: &Self) {
        let ghost before = *self;
        match (&mut self.content, &next.content) {
            (
                RawOpContent::List(
                    ListOp::Insert { slice: ListSlice::RawStr { str, unicode_len }, pos },
                ),
                RawOpContent::List(
                    ListOp::Insert {
                        slice: ListSlice::RawStr { str: s2, unicode_len: n2 },
                        pos: p2,
                    },
                ),
            ) => {
                str.append(s2.as_str());
                *unicode_len = *unicode_len + *n2;
            },
            _ => {
                assert(false);
            },
        }
    }
}

impl RemoteOp {
    /// Whether every piece of the operation has its position in range.
    pub fn is_in_range(&self) -> (b: bool)
        requires
            self.rle_wf(),
        ensures
            b == self.content@.in_range(),
    {
        match &self.content {
            RawOpContent::Mapping(_) => true,
            RawOpContent::List(ListOp::Insert { slice: ListSlice::RawData(values), pos }) => {
                values.len() <= usize::MAX - *pos
            },
            RawOpContent::List(
                ListOp::Insert { slice: ListSlice::RawStr { str, unicode_len }, pos },
            ) => *unicode_len <= usize::MAX - *pos,
            RawOpContent::List(ListOp::Delete(span)) => span.len > 0 || span.pos >= isize::MIN
                - span.len,
        }
    }
}

impl Sliceable for RemoteOp {
    open spec fn can_slice(&self, from: int, to: int) -> bool {
        self.content@.in_range()
    }

    open spec fn is_slice_of(&self, from: int, to: int, piece: &Self) -> bool {
        &&& piece.container == self.container
        &&& piece.counter == self.counter + from
        &&& piece.content@ == self.content@.piece(from, to)
    }

    fn slice(&self, from: usize, to: usize) -> (piece: Self) {
        let content = match &self.content {
            RawOpContent::Mapping(m) => RawOpContent::Mapping(
                MapSet { key: atom_clone(&m.key), value: m.value.clone_value() },
            ),
            RawOpContent::List(ListOp::Insert { slice: ListSlice::RawData(values), pos }) => {
                let mut part: Vec<LoroValue> = Vec::new();
                let mut i: usize = from;
                while i < to
                    invariant
                        from <= i <= to <= values@.len(),
                        part@ == values@.subrange(from as int, i as int),
                    decreases to - i,
                {
                    part.push(values[i].clone_value());
                    i += 1;
                    assert(part@ =~= values@.subrange(from as int, i as int));
                }
                RawOpContent::List(
                    ListOp::Insert { slice: ListSlice::RawData(part), pos: *pos + from },
                )
            },
            RawOpContent::List(
                ListOp::Insert { slice: ListSlice::RawStr { str, unicode_len }, pos },
            ) => RawOpContent::List(
                ListOp::Insert {
                    slice: ListSlice::RawStr {
                        str: String::from_str(str.as_str().substring_char(from, to)),
                        unicode_len: to - from,
                    },
                    pos: *pos + from,
                },
            ),
            RawOpContent::List(ListOp::Delete(span)) => RawOpContent::List(
                ListOp::Delete(
                    if span.len > 0 {
                        DeleteSpan { pos: span.pos, len: (to - from) as isize }
                    } else {
                        DeleteSpan {
                            pos: span.pos - from as isize,
                            len: -((to - from) as isize),
                        }
                    },
                ),
            ),
        };
        RemoteOp {
            container: self.container.clone_id(),
            counter: (self.counter as i64 + from as i64) as i32,
            content,
        }
    }
}

impl OpItem for RemoteOp {
    open spec fn op_counter(&self) -> int {
        self.counter as int
    }

    open spec fn same_op(&self, other: &Self) -> bool {
        self@ == other@
    }

    proof fn lemma_merge_counter(&self, next: &Self, merged: &Self) {
    }

    fn counter(&self) -> (c: Counter) {
        self.counter
    }

    fn clone_op(&self) -> (r: Self) {
        RemoteOp {
            container: self.container.clone_id(),
            counter: self.counter,
            content: self.content.clone_content(),
        }
    }
}

} // verus!
