use loro_internal::container::{ContainerID, ContainerType};
use loro_internal::id::ID;

#[test]
fn container_id_round_trip() {
    let root = ContainerID::new_root("root", ContainerType::Text);
    assert_eq!(root.to_string(), "/root:Text");
    let back = ContainerID::try_from(root.to_string().as_str()).unwrap();
    assert!(back.same(&root));

    let normal = ContainerID::new_normal(ID::new(42, 7), ContainerType::Mapping);
    assert_eq!(normal.to_string(), "7@42:Map");
    let back = ContainerID::try_from(normal.to_string().as_str()).unwrap();
    assert!(back.same(&normal));
}

#[test]
fn container_id_rejects_malformed_text() {
    assert!(ContainerID::try_from("/root").is_err());
    assert!(ContainerID::try_from("7@42").is_err());
    assert!(ContainerID::try_from("/root:Tree").is_err());
    assert!(ContainerID::try_from("/root:text").is_err());
    assert!(ContainerID::try_from("x@42:Map").is_err());
    assert!(ContainerID::try_from("7@y:Map").is_err());
    assert!(ContainerID::try_from("7:Map").is_err());
    assert!(ContainerID::try_from("").is_err());
    assert!(ContainerID::try_from("@:Map").is_err());
    assert!(ContainerID::try_from("7@-1:Map").is_err());
    assert!(ContainerID::try_from("2147483648@1:List").is_err());
}

#[test]
fn container_type_bytes_are_fixed() {
    assert_eq!(ContainerType::Mapping.to_u8(), 1);
    assert_eq!(ContainerType::List.to_u8(), 2);
    assert_eq!(ContainerType::Text.to_u8(), 3);
    assert_eq!(ContainerType::from_u8(1), ContainerType::Mapping);
    assert_eq!(ContainerType::from_u8(2), ContainerType::List);
    assert_eq!(ContainerType::from_u8(3), ContainerType::Text);
    assert_eq!(ContainerType::try_from_u8(0), None);
    assert_eq!(ContainerType::try_from_u8(4), None);
}
