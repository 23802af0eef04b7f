use loro_internal::dag::AppDagNode;
use loro_internal::id::ID;
use loro_internal::op::{DeleteSpan, InnerContent, InnerListOp, Op, SliceRange};
use loro_internal::rle::{Rle, RleVec, Sliceable};
use loro_internal::shared_vv::ImVersionVector;
use loro_internal::version::Frontiers;

fn insert(counter: i32, start: usize, end: usize, pos: usize) -> Op {
    Op {
        container: 0,
        counter,
        content: InnerContent::List(InnerListOp::Insert { slice: SliceRange { start, end }, pos }),
    }
}

fn delete(counter: i32, pos: isize, len: isize) -> Op {
    Op { container: 0, counter, content: InnerContent::List(InnerListOp::Delete(DeleteSpan { pos, len })) }
}

#[test]
fn push_merges_what_continues_the_last_item() {
    let mut v: RleVec<Op> = RleVec::new();
    assert!(v.is_empty());
    assert_eq!(v.atom_len(), 0);
    v.push(insert(0, 0, 3, 0));
    v.push(insert(3, 3, 5, 3));
    assert_eq!(v.merged_len(), 1);
    assert_eq!(v.atom_len(), 5);
    assert_eq!(v.len(), 5);
    match &v.vec()[0].content {
        InnerContent::List(InnerListOp::Insert { slice, pos }) => {
            assert_eq!((slice.start, slice.end, *pos), (0, 5, 0));
        }
        other => panic!("unexpected content {:?}", other),
    }
    // a gap in the arena range, in the position or in the counter keeps items apart
    v.push(insert(5, 7, 8, 5));
    v.push(insert(6, 8, 9, 9));
    v.push(insert(8, 9, 10, 10));
    v.push(delete(9, 0, -2));
    assert_eq!(v.merged_len(), 5);
    assert_eq!(v.atom_len(), 10);
    assert_eq!(v.last().unwrap().atom_len(), 2);
}

#[test]
fn atom_index_finds_item_and_offset() {
    let mut v: RleVec<Op> = RleVec::new();
    assert!(v.get_by_atom_index(0).is_none());
    v.push(insert(0, 0, 3, 0));
    v.push(delete(3, 1, 2));
    v.push(insert(5, 10, 14, 0));
    assert_eq!(v.merged_len(), 3);
    let cases = [(0, 0, 0), (2, 0, 2), (3, 1, 0), (4, 1, 1), (5, 2, 0), (8, 2, 3), (9, 2, 4)];
    for (atom, index, offset) in cases {
        let found = v.get_by_atom_index(atom).unwrap();
        assert_eq!((found.merged_index, found.offset), (index, offset));
        assert_eq!(found.element.counter, v.vec()[index].counter);
        assert_eq!(v.search_atom_index(atom), index);
    }
    assert!(v.get_by_atom_index(10).is_none());
    assert_eq!(v.get_merged(1).counter, 3);
}

#[test]
fn replace_last_keeps_the_running_totals() {
    let mut v: RleVec<Op> = RleVec::new();
    v.push(insert(0, 0, 3, 0));
    v.push(delete(3, 1, 2));
    let old = v.replace_last(delete(3, 1, 6));
    assert_eq!(old.atom_len(), 2);
    assert_eq!(v.atom_len(), 9);
    assert_eq!(v.get_by_atom_index(8).unwrap().merged_index, 1);
}

fn node(cnt: i32, lamport: u32, len: usize, deps: Vec<ID>) -> AppDagNode {
    AppDagNode { peer: 1, cnt, lamport, deps: Frontiers { ids: deps }, vv: ImVersionVector::new(), len }
}

#[test]
fn graph_nodes_merge_along_a_self_chain() {
    let mut v: RleVec<AppDagNode> = RleVec::new();
    v.push(node(0, 0, 2, vec![]));
    v.push(node(2, 2, 3, vec![ID::new(1, 1)]));
    assert_eq!(v.merged_len(), 1);
    assert_eq!(v.vec()[0].len, 5);
    // another dependency, or a jump of the Lamport clock, starts a new node
    v.push(node(5, 5, 1, vec![ID::new(2, 0)]));
    v.push(node(6, 9, 1, vec![ID::new(1, 5)]));
    assert_eq!(v.merged_len(), 3);
    assert_eq!(v.atom_len(), 7);
    assert_eq!(v.vec()[1].id_last(), ID::new(1, 5));
    assert_eq!(v.vec()[0].ctr_end(), 5);
    assert_eq!(v.vec()[0].lamport_end(), 5);
}

#[test]
fn slice_of_a_node_depends_on_the_operation_before_it() {
    let mut vv = ImVersionVector::new();
    vv.set_end(2, 4);
    let n = AppDagNode {
        peer: 1,
        cnt: 10,
        lamport: 20,
        deps: Frontiers { ids: vec![ID::new(2, 3)] },
        vv,
        len: 6,
    };
    let whole = n.slice(0, 6);
    assert_eq!((whole.cnt, whole.lamport, whole.len), (10, 20, 6));
    assert_eq!(whole.deps.ids, vec![ID::new(2, 3)]);
    assert_eq!(whole.vv.get_end(1), 0);
    let part = n.slice(2, 5);
    assert_eq!((part.cnt, part.lamport, part.len), (12, 22, 3));
    assert_eq!(part.deps.ids, vec![ID::new(1, 11)]);
    assert_eq!(part.vv.get_end(1), 12);
    assert_eq!(part.vv.get_end(2), 4);
    // the version of the node itself has not changed with that of the slice
    assert_eq!(n.vv.get_end(1), 0);
    assert_eq!(n.vv.get_end(2), 4);
}

#[test]
fn slice_of_an_operation_holds_its_atoms() {
    let piece = insert(10, 4, 9, 20).slice(1, 3);
    assert_eq!(piece.counter, 11);
    assert_eq!(piece.atom_len(), 2);
    match &piece.content {
        InnerContent::List(InnerListOp::Insert { slice, pos }) => {
            assert_eq!((slice.start, slice.end, *pos), (5, 7, 21));
        }
        other => panic!("unexpected content {:?}", other),
    }
    let forward = delete(0, 5, 4).slice(1, 3);
    assert_eq!(forward.counter, 1);
    assert_eq!(forward.content, InnerContent::List(InnerListOp::Delete(DeleteSpan { pos: 5, len: 2 })));
    let backward = delete(0, 5, -4).slice(1, 3);
    assert_eq!(
        backward.content,
        InnerContent::List(InnerListOp::Delete(DeleteSpan { pos: 4, len: -2 }))
    );
}
