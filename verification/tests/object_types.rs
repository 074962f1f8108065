use reactdb::common::RawSized;
use reactdb::non_volatile::object::object_type::ObjectType;
use reactdb::object_type::ObjectType as FirstObjectType;

#[test]
fn object_type_tags_round_trip() {
    for n in 0u8..4 {
        assert_eq!(ObjectType::from_u8(n).to_u8(), n);
    }
    assert_eq!(ObjectType::from_u8(2), ObjectType::LeafNode);
    assert_eq!(ObjectType::Uberblock.to_u8(), 0);
    assert_eq!(ObjectType::BufferNode.to_u8(), 3);
}

#[test]
fn first_layout_object_type_tags() {
    assert_eq!(FirstObjectType::from_u8(0), FirstObjectType::InternalNode);
    assert_eq!(FirstObjectType::from_u8(1), FirstObjectType::LeafNode);
    assert_eq!(FirstObjectType::LeafNode.to_u8(), 1);
}

#[test]
fn raw_sizes() {
    assert_eq!(<ObjectType as RawSized>::raw_size(), 1);
    assert_eq!(<FirstObjectType as RawSized>::raw_size(), 1);
    assert_eq!(<reactdb::non_volatile::object::object_pointer::ObjectPointer as RawSized>::raw_size(), 17);
    assert_eq!(<reactdb::object_pointer::ObjectPointer as RawSized>::raw_size(), 16);
    assert_eq!(<reactdb::uberblock::Uberblock as RawSized>::raw_size(), 40);
    assert_eq!(<reactdb::non_volatile::object::uberblock::Uberblock as RawSized>::raw_size(), 41);
}
