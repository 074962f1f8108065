use reactdb::non_volatile::serialize::{zero_copy_window, ZeroCopyError};
use reactdb::non_volatile::object::any_rc_object::Object;
use reactdb::non_volatile::object::object_pointer::ObjectPointer;
use reactdb::non_volatile::object::object_type::ObjectType;
use reactdb::non_volatile::object::tree::{
    BufferNode, Insert, InternalNode, InternalType, LeafNode, LeafType, Message, Node, NodeEntry,
};
use reactdb::tree::LeafNode as FirstLeafNode;
use reactdb::non_volatile::object::uberblock::{Uberblock, UberblockError};
use reactdb::object_pointer::ObjectPointer as FirstObjectPointer;
use reactdb::uberblock::{magic_number, RawError, Uberblock as FirstUberblock};

fn le(x: u64) -> Vec<u8> {
    x.to_le_bytes().to_vec()
}

#[test]
fn magic_number_spells_reactdb0() {
    assert_eq!(&magic_number(), b"ReactDB0");
}

#[test]
fn first_layout_pointer_bytes() {
    let op = FirstObjectPointer::new(0x0102, 7);
    let mem = op.to_mem();
    let mut expected = le(0x0102);
    expected.extend(le(7));
    assert_eq!(mem, expected);
    assert_eq!(mem.len(), FirstObjectPointer::RAW_SIZE);
    let back = FirstObjectPointer::from_bytes(&mem).unwrap();
    assert_eq!(back, op);
}

#[test]
fn first_layout_pointer_appends() {
    let op = FirstObjectPointer::new(1, 2);
    let mut buf = vec![9u8];
    op.to_bytes(&mut buf);
    assert_eq!(buf.len(), 17);
    assert_eq!(buf[0], 9);
    assert_eq!(&buf[1..9], &le(1)[..]);
}

#[test]
fn first_layout_uberblock_bytes() {
    let ub = FirstUberblock::new(3, FirstObjectPointer::new(40, 16), 56);
    let mut bytes = Vec::new();
    ub.to_bytes(&mut bytes);
    let mut expected = b"ReactDB0".to_vec();
    expected.extend(le(3));
    expected.extend(le(56));
    expected.extend(le(40));
    expected.extend(le(16));
    assert_eq!(bytes, expected);
    assert_eq!(bytes.len(), FirstUberblock::RAW_SIZE);
    let back = FirstUberblock::from_bytes(&bytes).unwrap();
    assert_eq!(back, ub);
}

#[test]
fn first_layout_uberblock_to_mem_round_trip() {
    let ub = FirstUberblock::new(1, FirstObjectPointer::new(5, 6), 7);
    let mem = ub.to_mem();
    assert_eq!(mem.len(), FirstUberblock::RAW_SIZE);
    assert_eq!(&mem[0..8], b"ReactDB0");
    assert_eq!(FirstUberblock::from_bytes(&mem).unwrap(), ub);
}

#[test]
fn first_layout_uberblock_wrong_magic() {
    let mut bytes = vec![0u8; 40];
    bytes[0] = b'X';
    match FirstUberblock::from_bytes(&bytes) {
        Err(RawError::IncorrectMagicNumber { found }) => {
            assert_eq!(found, vec![b'X', 0, 0, 0, 0, 0, 0, 0]);
        }
        other => panic!("unexpected result {:?}", other),
    }
}

#[test]
fn uberblock_serialized_bytes() {
    let op = ObjectPointer::new(123, 8, ObjectType::LeafNode);
    let ub = Uberblock::new(1, op, 131);
    let raw = ub.serialize();
    let mut expected = b"ReactDB0".to_vec();
    expected.extend(le(1));
    expected.extend(le(131));
    expected.extend(le(123));
    expected.extend(le(8));
    expected.push(2);
    assert_eq!(raw, expected);
    assert_eq!(raw.len(), Uberblock::RAW_SIZE);
}

#[test]
fn uberblock_round_trip() {
    let op = ObjectPointer::new(500, 58, ObjectType::InternalNode);
    let ub = Uberblock::new(7, op, 900);
    let back = Uberblock::deserialize(&ub.serialize()).unwrap();
    assert_eq!(back, ub);
    assert_eq!(back.op.object_type, ObjectType::InternalNode);
}

#[test]
fn uberblock_truncated() {
    let op = ObjectPointer::new(1, 2, ObjectType::LeafNode);
    let raw = Uberblock::new(1, op, 3).serialize();
    assert!(matches!(Uberblock::deserialize(&raw[..40]), Err(UberblockError::Truncated)));
    assert!(matches!(Uberblock::deserialize(&[]), Err(UberblockError::Truncated)));
}

#[test]
fn uberblock_invalid_magic() {
    let op = ObjectPointer::new(1, 2, ObjectType::LeafNode);
    let mut raw = Uberblock::new(1, op, 3).serialize();
    raw[7] = b'1';
    match Uberblock::deserialize(&raw) {
        Err(UberblockError::InvalidMagicNumber { found }) => assert_eq!(found, b"ReactDB1".to_vec()),
        other => panic!("unexpected result {:?}", other),
    }
}

#[test]
fn uberblock_ignores_trailing_bytes() {
    let op = ObjectPointer::new(10, 20, ObjectType::BufferNode);
    let ub = Uberblock::new(2, op, 30);
    let mut raw = ub.serialize();
    raw.extend(vec![0xffu8; 5]);
    assert_eq!(Uberblock::deserialize(&raw).unwrap(), ub);
}

#[test]
fn leaf_serialized_bytes() {
    let leaf = LeafNode::from(vec![NodeEntry::new(1u64, 2u64), NodeEntry::new(3, 4)]);
    let raw = leaf.obj_to_raw();
    let mut expected = le(2);
    for x in [1u64, 2, 3, 4] {
        expected.extend(le(x));
    }
    assert_eq!(raw, expected);
    let back = LeafNode::<u64, u64>::from_raw(&raw).unwrap();
    assert_eq!(back.entries.len(), 2);
    assert_eq!((back.entries[1].key, back.entries[1].value), (3, 4));
}

#[test]
fn empty_leaf_is_its_length() {
    let raw = LeafNode::<u64, u64>::new().obj_to_raw();
    assert_eq!(raw, le(0));
    assert_eq!(LeafNode::<u64, u64>::from_raw(&raw).unwrap().entries.len(), 0);
}

#[test]
fn leaf_from_short_bytes_fails() {
    let leaf = LeafNode::from(vec![NodeEntry::new(1u64, 2u64)]);
    let raw = leaf.obj_to_raw();
    assert!(LeafNode::<u64, u64>::from_raw(&raw[..raw.len() - 1]).is_none());
    assert!(LeafNode::<u64, u64>::from_raw(&[1, 2, 3]).is_none());
}

#[test]
fn internal_serialized_bytes() {
    let child = ObjectPointer::new(10, 20, ObjectType::LeafNode);
    let node = InternalNode::from(vec![NodeEntry::new(5u64, child)]);
    let raw = node.obj_to_raw();
    let mut expected = le(1);
    expected.extend(le(5));
    expected.extend(le(10));
    expected.extend(le(20));
    expected.push(2);
    assert_eq!(raw, expected);
    assert_eq!(raw.len(), 33);
    let back = InternalNode::<u64>::from_raw(&raw).unwrap();
    assert_eq!(back.entries[0].key, 5);
    assert_eq!(back.entries[0].value, child);
}

#[test]
fn internal_from_short_bytes_fails() {
    let child = ObjectPointer::new(10, 20, ObjectType::LeafNode);
    let raw = InternalNode::from(vec![NodeEntry::new(5u64, child)]).obj_to_raw();
    assert!(InternalNode::<u64>::from_raw(&raw[..32]).is_none());
    assert!(InternalNode::<u64>::from_raw(&raw[..7]).is_none());
}

#[test]
fn first_layout_uberblock_serialize_matches_to_bytes() {
    let ub = FirstUberblock::new(9, FirstObjectPointer::new(300, 24), 400);
    let mut bytes = Vec::new();
    ub.to_bytes(&mut bytes);
    assert_eq!(ub.serialize(), bytes);
    assert_eq!(FirstUberblock::deserialize(&bytes).unwrap(), ub);
}

#[test]
fn first_layout_uberblock_deserialize_errors() {
    let ub = FirstUberblock::new(9, FirstObjectPointer::new(300, 24), 400);
    let raw = ub.serialize();
    assert!(matches!(FirstUberblock::deserialize(&raw[..39]), Err(RawError::Truncated)));
    let mut bad = raw.clone();
    bad[0] = b'r';
    match FirstUberblock::deserialize(&bad) {
        Err(RawError::IncorrectMagicNumber { found }) => assert_eq!(found, b"reactDB0".to_vec()),
        other => panic!("unexpected result {:?}", other),
    }
    let mut longer = raw;
    longer.push(1);
    assert_eq!(FirstUberblock::deserialize(&longer).unwrap(), ub);
}

#[test]
fn buffer_serialized_bytes() {
    let node = BufferNode::from(vec![NodeEntry::new(3u64, Message::Insert(Insert { value: 30u64 }))]);
    let raw = node.obj_to_raw();
    let mut expected = le(1);
    expected.extend(le(3));
    expected.extend(vec![0u8, 0, 0, 0]);
    expected.extend(le(30));
    assert_eq!(raw, expected);
    assert_eq!(raw.len(), 28);
    let back = BufferNode::<u64, u64>::from_raw(&raw).unwrap();
    assert_eq!(back.entries[0].key, 3);
    assert_eq!(back.entries[0].value, Message::Insert(Insert { value: 30 }));
}

#[test]
fn buffer_with_unknown_message_fails() {
    let node = BufferNode::from(vec![NodeEntry::new(3u64, Message::Insert(Insert { value: 30u64 }))]);
    let mut raw = node.obj_to_raw();
    raw[16] = 1;
    assert!(BufferNode::<u64, u64>::from_raw(&raw).is_none());
    assert!(BufferNode::<u64, u64>::from_raw(&raw[..27]).is_none());
}

#[test]
fn generic_nodes_serialize_as_leaves_and_inner_nodes() {
    let leaf: Node<u64, u64, LeafType> = Node::from(vec![NodeEntry::new(1, 2)]);
    let raw = leaf.serialize();
    assert_eq!(raw, LeafNode::from(vec![NodeEntry::new(1u64, 2u64)]).obj_to_raw());
    let back = Node::<u64, u64, LeafType>::deserialize(&raw).unwrap();
    assert_eq!((back.entries[0].key, back.entries[0].value), (1, 2));
    let child = ObjectPointer::new(1, 2, ObjectType::BufferNode);
    let inner: Node<u64, ObjectPointer, InternalType> = Node::from(vec![NodeEntry::new(4, child)]);
    let raw = inner.serialize();
    assert_eq!(raw.len(), 33);
    assert_eq!(raw[32], 3);
    let back = Node::<u64, ObjectPointer, InternalType>::deserialize(&raw).unwrap();
    assert_eq!(back.entries[0].value, child);
    assert!(Node::<u64, u64, LeafType>::deserialize(&raw[..4]).is_none());
}

#[test]
fn first_layout_leaf_serialize() {
    let mut leaf = FirstLeafNode::<u64, u64>::new();
    leaf.insert_local(NodeEntry::new(2, 20));
    leaf.insert_local(NodeEntry::new(1, 10));
    let raw = leaf.serialize();
    let mut expected = le(2);
    for x in [1u64, 10, 2, 20] {
        expected.extend(le(x));
    }
    assert_eq!(raw, expected);
    let back = FirstLeafNode::<u64, u64>::deserialize(&raw).unwrap();
    assert_eq!(back.serialize(), raw);
    assert!(FirstLeafNode::<u64, u64>::deserialize(&raw[..20]).is_none());
}

#[test]
fn short_bytes_with_a_wrong_magic_number() {
    match Uberblock::deserialize(b"XeactDB0xx") {
        Err(UberblockError::InvalidMagicNumber { found }) => assert_eq!(found, b"XeactDB0".to_vec()),
        other => panic!("unexpected result {:?}", other),
    }
    match FirstUberblock::deserialize(b"ReactDBX") {
        Err(RawError::IncorrectMagicNumber { found }) => assert_eq!(found, b"ReactDBX".to_vec()),
        other => panic!("unexpected result {:?}", other),
    }
    assert!(matches!(Uberblock::deserialize(b"React"), Err(UberblockError::Truncated)));
    assert!(matches!(FirstUberblock::deserialize(b"ReactDB0"), Err(RawError::Truncated)));
}

#[test]
fn zero_copy_window_moves_on_and_checks_room() {
    assert_eq!(zero_copy_window(2, 3, 10), (5, Ok((2, 5))));
    assert_eq!(zero_copy_window(8, 2, 10), (10, Ok((8, 10))));
    assert_eq!(zero_copy_window(8, 3, 10), (11, Err(ZeroCopyError::WriteZero)));
    assert_eq!(zero_copy_window(20, 0, 10), (20, Err(ZeroCopyError::WriteZero)));
}
