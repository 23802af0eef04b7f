use loro_internal::arena::SharedArena;
use loro_internal::container::{ContainerID, ContainerType};
use loro_internal::fixed_size_vec::FixedSizedVec;
use loro_internal::id::ID;
use loro_internal::op::{
    DeleteSpan, InnerContent, InnerListOp, ListOp, ListSlice, MapSet, RawOpContent, RemoteOp,
};
use loro_internal::rle::Rle;
use loro_internal::value::LoroValue;

#[test]
fn registering_a_container_twice_gives_one_index() {
    let mut arena = SharedArena::new();
    assert!(arena.is_empty());
    let text = ContainerID::new_root("doc", ContainerType::Text);
    let list = ContainerID::new_normal(ID::new(3, 4), ContainerType::List);
    let a = arena.register_container(&text);
    let b = arena.register_container(&list);
    assert_eq!((a, b), (0, 1));
    assert_eq!(arena.register_container(&ContainerID::new_root("doc", ContainerType::Text)), 0);
    assert_eq!(arena.register_container(&ContainerID::new_root("doc", ContainerType::Mapping)), 2);
    assert_eq!(arena.id_to_idx(&list), Some(1));
    assert!(arena.get_container_id(1).unwrap().same(&list));
    assert!(arena.get_container_id(3).is_none());
    assert_eq!(arena.get_container_id(0).unwrap().name().as_ref(), "doc");
    assert_eq!(arena.get_container_id(1).unwrap().container_type(), ContainerType::List);
    assert!(!arena.is_empty());
}

#[test]
fn text_and_values_are_stored_behind_one_another() {
    let mut arena = SharedArena::new();
    let a = arena.alloc_str("héllo");
    let b = arena.alloc_str(" wörld");
    assert_eq!((a.start, a.end, b.start, b.end), (0, 5, 5, 11));
    assert_eq!(arena.slice_str(1, 7), "éllo w");
    let v = arena.alloc_values(&vec![LoroValue::I32(1), LoroValue::Bool(true)]);
    let i = arena.alloc_value(LoroValue::Null);
    assert_eq!((v.start, v.end, i), (0, 2, 2));
    assert!(matches!(arena.get_value(1), Some(LoroValue::Bool(true))));
    assert!(arena.get_value(3).is_none());
    assert_eq!(arena.get_values(1, 3).len(), 2);
}

#[test]
fn converted_operations_resolve_to_what_they_carried() {
    let mut arena = SharedArena::new();
    let text = ContainerID::new_root("t", ContainerType::Text);
    let list = ContainerID::new_root("l", ContainerType::List);
    let map = ContainerID::new_root("m", ContainerType::Mapping);

    arena.alloc_str("xy");
    let op = arena.convert_single_op(
        &text,
        4,
        RawOpContent::List(ListOp::Insert {
            slice: ListSlice::RawStr { str: String::from("añb"), unicode_len: 3 },
            pos: 9,
        }),
    );
    assert_eq!(op.counter, 4);
    assert_eq!(op.atom_len(), 3);
    match &op.content {
        InnerContent::List(InnerListOp::Insert { slice, pos }) => {
            assert_eq!((slice.start, slice.end, *pos), (2, 5, 9));
        }
        other => panic!("unexpected content {:?}", other),
    }
    let back: RemoteOp = arena.local_op_to_remote(&op);
    assert!(back.container.same(&text));
    assert_eq!(back.counter, 4);
    match &back.content {
        RawOpContent::List(ListOp::Insert { slice: ListSlice::RawStr { str, unicode_len }, pos }) => {
            assert_eq!((str.as_str(), *unicode_len, *pos), ("añb", 3, 9));
        }
        other => panic!("unexpected content {:?}", other),
    }

    let op = arena.convert_single_op(
        &list,
        0,
        RawOpContent::List(ListOp::Insert {
            slice: ListSlice::RawData(vec![LoroValue::I32(7), LoroValue::Double(1)]),
            pos: 0,
        }),
    );
    assert_eq!(op.atom_len(), 2);
    match &arena.local_op_to_remote(&op).content {
        RawOpContent::List(ListOp::Insert { slice: ListSlice::RawData(values), pos }) => {
            assert_eq!(values.len(), 2);
            assert!(matches!(values[0], LoroValue::I32(7)));
            assert!(matches!(values[1], LoroValue::Double(1)));
            assert_eq!(*pos, 0);
        }
        other => panic!("unexpected content {:?}", other),
    }

    let op = arena.convert_single_op(
        &map,
        2,
        RawOpContent::Mapping(MapSet {
            key: ContainerID::new_root("key", ContainerType::Text).name().clone(),
            value: LoroValue::Bool(false),
        }),
    );
    assert_eq!(op.atom_len(), 1);
    match &arena.local_op_to_remote(&op).content {
        RawOpContent::Mapping(set) => {
            assert_eq!(set.key.as_ref(), "key");
            assert!(matches!(set.value, LoroValue::Bool(false)));
        }
        other => panic!("unexpected content {:?}", other),
    }

    let op = arena.convert_single_op(
        &text,
        7,
        RawOpContent::List(ListOp::Delete(DeleteSpan { pos: 3, len: -2 })),
    );
    assert_eq!(op.atom_len(), 2);
    assert!(matches!(
        arena.local_op_to_remote(&op).content,
        RawOpContent::List(ListOp::Delete(DeleteSpan { pos: 3, len: -2 }))
    ));
}

#[test]
fn remote_text_insertions_merge() {
    let text = ContainerID::new_root("t", ContainerType::Text);
    let insert = |counter: i32, s: &str, pos: usize| RemoteOp {
        container: text.clone_id(),
        counter,
        content: RawOpContent::List(ListOp::Insert {
            slice: ListSlice::RawStr { str: String::from(s), unicode_len: s.chars().count() },
            pos,
        }),
    };
    let mut a = insert(0, "ab", 0);
    assert!(a.is_mergable(&insert(2, "cd", 2)));
    assert!(!a.is_mergable(&insert(3, "cd", 2)));
    assert!(!a.is_mergable(&insert(2, "cd", 3)));
    a.merge(&insert(2, "cd", 2));
    assert_eq!(a.atom_len(), 4);
    let copy = loro_internal::op::OpItem::clone_op(&a);
    match &copy.content {
        RawOpContent::List(ListOp::Insert { slice: ListSlice::RawStr { str, unicode_len }, pos }) => {
            assert_eq!((str.as_str(), *unicode_len, *pos), ("abcd", 4, 0));
        }
        other => panic!("unexpected content {:?}", other),
    }
}

#[test]
fn default_values_are_empty() {
    match ContainerType::Mapping.default_value() {
        LoroValue::Mapping(m) => assert!(m.is_empty()),
        other => panic!("unexpected value {:?}", other),
    }
    match ContainerType::List.default_value() {
        LoroValue::List(l) => assert!(l.is_empty()),
        other => panic!("unexpected value {:?}", other),
    }
    match ContainerType::Text.default_value() {
        LoroValue::String(s) => assert!(s.is_empty()),
        other => panic!("unexpected value {:?}", other),
    }
    match LoroValue::from(ContainerType::List) {
        LoroValue::Container(id) => assert_eq!(id.to_string(), "0@0:List"),
        other => panic!("unexpected value {:?}", other),
    }
}

#[test]
fn cloned_values_share_their_content() {
    let list = LoroValue::List(std::sync::Arc::new(vec![LoroValue::I32(1), LoroValue::Null]));
    match (&list, &list.clone_value()) {
        (LoroValue::List(a), LoroValue::List(b)) => {
            assert!(std::sync::Arc::ptr_eq(a, b));
            assert_eq!(b.len(), 2);
        }
        _ => panic!("unexpected value"),
    }
    let name = LoroValue::Container(ContainerID::new_root("n", ContainerType::Text));
    match name.clone_value() {
        LoroValue::Container(id) => assert_eq!(id.to_string(), "/n:Text"),
        other => panic!("unexpected value {:?}", other),
    }
}

#[test]
fn container_type_names() {
    assert_eq!(ContainerType::try_from("Map").unwrap(), ContainerType::Mapping);
    assert_eq!(ContainerType::try_from("List").unwrap(), ContainerType::List);
    assert_eq!(ContainerType::try_from("Text").unwrap(), ContainerType::Text);
    match ContainerType::try_from("map") {
        Err(loro_internal::error::LoroError::DecodeError(msg)) => {
            assert_eq!(msg, "Unknown container typemap")
        }
        other => panic!("unexpected result {:?}", other),
    }
    assert_eq!(ContainerType::Mapping.to_string(), "Map");
    assert_eq!(ContainerType::Text.as_str(), "Text");
}

#[test]
fn container_id_text_forms() {
    let parsed = ContainerID::try_from("-7@+42:List:rest").unwrap();
    assert!(parsed.same(&ContainerID::new_normal(ID::new(42, -7), ContainerType::List)));
    let parsed = ContainerID::try_from("7@42@9:Map").unwrap();
    assert!(parsed.same(&ContainerID::new_normal(ID::new(42, 7), ContainerType::Mapping)));
    let parsed = ContainerID::try_from("/a@b/c:Text").unwrap();
    assert_eq!(parsed.name().as_ref(), "a@b/c");
    let parsed = ContainerID::try_from("/:Text").unwrap();
    assert_eq!(parsed.name().as_ref(), "");
    let max = ContainerID::new_normal(ID::new(u64::MAX, i32::MAX), ContainerType::Text);
    assert_eq!(max.to_string(), "2147483647@18446744073709551615:Text");
    assert!(ContainerID::try_from(max.to_string().as_str()).unwrap().same(&max));
    let min = ContainerID::new_normal(ID::new(0, i32::MIN), ContainerType::Text);
    assert!(ContainerID::try_from(min.to_string().as_str()).unwrap().same(&min));
    assert!(ContainerID::try_from("1@18446744073709551616:Text").is_err());
    assert!(!max.same(&min));
    assert!(!ContainerID::new_root("a", ContainerType::Text)
        .same(&ContainerID::new_root("b", ContainerType::Text)));
    assert!(ContainerID::new_root("a", ContainerType::Text).clone_id().same(
        &ContainerID::new_root("a", ContainerType::Text)
    ));
}

#[test]
fn fixed_sized_vec_keeps_within_its_capacity() {
    let mut v: FixedSizedVec<u32> = FixedSizedVec::with_capacity(3);
    assert_eq!(v.capacity(), 3);
    assert!(v.is_empty());
    assert_eq!(v.pop(), None);
    v.push(1);
    v.push(3);
    v.insert(1, 2);
    assert!(v.is_full());
    assert_eq!(v.as_slice(), &[1, 2, 3]);
    assert_eq!(*v.get(1), 2);
    assert_eq!(v.pop(), Some(3));
    v.insert(0, 0);
    assert_eq!(v.as_slice(), &[0, 1, 2]);
    assert_eq!(v.len(), 3);
    v.as_mut_slice()[1] = 7;
    assert_eq!(v.as_slice(), &[0, 7, 2]);
    assert_eq!(v.capacity(), 3);
}
