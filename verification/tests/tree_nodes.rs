use reactdb::non_volatile::object::object_pointer::ObjectPointer;
use reactdb::non_volatile::object::object_type::ObjectType;
use reactdb::non_volatile::object::tree::{
    insert_sorted, is_sorted, search_key, BufferNode, Insert, InternalNode, InternalType, LeafNode,
    LeafType, Message, Node, NodeEntry,
};
use reactdb::tree::{AnyNode, LeafNode as FirstLeafNode};

fn keys<V>(es: &[NodeEntry<u64, V>]) -> Vec<u64> {
    es.iter().map(|e| e.key).collect()
}

#[test]
fn is_sorted_empty_and_single() {
    assert!(is_sorted(&[]));
    assert!(is_sorted(&[7]));
}

#[test]
fn is_sorted_increasing() {
    assert!(is_sorted(&[1, 2, 3, 10]));
}

#[test]
fn is_sorted_rejects_repeat_of_first() {
    assert!(!is_sorted(&[3, 3]));
    assert!(!is_sorted(&[5, 6, 4]));
}

#[test]
fn is_sorted_compares_neighbours() {
    assert!(!is_sorted(&[1, 3, 2]));
    assert!(!is_sorted(&[1, 5, 3]));
    assert!(!is_sorted(&[1, 2, 2]));
}

#[test]
fn search_key_finds_and_places() {
    let es: Vec<NodeEntry<u64, u64>> =
        vec![NodeEntry::new(2, 20), NodeEntry::new(4, 40), NodeEntry::new(8, 80)];
    assert_eq!(search_key(&es, 4), Ok(1));
    assert_eq!(search_key(&es, 1), Err(0));
    assert_eq!(search_key(&es, 5), Err(2));
    assert_eq!(search_key(&es, 9), Err(3));
    assert_eq!(search_key::<u64>(&[], 9), Err(0));
}

#[test]
fn insert_sorted_adds_and_replaces() {
    let mut es: Vec<NodeEntry<u64, u64>> = Vec::new();
    assert_eq!(insert_sorted(&mut es, NodeEntry::new(5, 50)), None);
    assert_eq!(insert_sorted(&mut es, NodeEntry::new(1, 10)), None);
    assert_eq!(insert_sorted(&mut es, NodeEntry::new(9, 90)), None);
    assert_eq!(keys(&es), vec![1, 5, 9]);
    assert_eq!(insert_sorted(&mut es, NodeEntry::new(5, 55)), Some(50));
    assert_eq!(keys(&es), vec![1, 5, 9]);
    assert_eq!(es[1].value, 55);
}

#[test]
fn leaf_insert_local() {
    let mut leaf = LeafNode::<u64, u64>::new();
    assert_eq!(leaf.insert_local(NodeEntry::new(3, 30)), None);
    assert_eq!(leaf.insert_local(NodeEntry::new(2, 20)), None);
    assert_eq!(leaf.insert_local(NodeEntry::new(3, 33)), Some(30));
    assert_eq!(keys(&leaf.entries), vec![2, 3]);
    assert_eq!(leaf.entries[1].value, 33);
}

#[test]
fn internal_insert_local() {
    let a = ObjectPointer::new(100, 10, ObjectType::LeafNode);
    let b = ObjectPointer::new(200, 10, ObjectType::LeafNode);
    let mut node = InternalNode::<u64>::new();
    assert_eq!(node.insert_local(NodeEntry::new(10, a)), None);
    assert_eq!(node.insert_local(NodeEntry::new(10, b)), Some(a));
    assert_eq!(node.entries.len(), 1);
    assert_eq!(node.entries[0].value, b);
}

#[test]
fn generic_node_insert_local() {
    let mut leaf: Node<u64, u64, LeafType> = Node::new();
    assert_eq!(leaf.insert_local(NodeEntry::new(4, 1)), None);
    assert_eq!(leaf.insert_local(NodeEntry::new(1, 2)), None);
    assert_eq!(leaf.insert_local(NodeEntry::new(4, 3)), Some(1));
    assert_eq!(keys(&leaf.entries), vec![1, 4]);
    let inner: Node<u64, ObjectPointer, InternalType> =
        Node::from(vec![NodeEntry::new(1, ObjectPointer::new(0, 0, ObjectType::LeafNode))]);
    assert_eq!(inner.entries.len(), 1);
}

#[test]
fn first_layout_leaf_insert_local() {
    let mut leaf = FirstLeafNode::<u64, u64>::new();
    assert_eq!(leaf.insert_local(NodeEntry::new(1, 10)), None);
    assert_eq!(leaf.insert_local(NodeEntry::new(1, 11)), Some(10));
    let any = AnyNode::LeafNode(leaf);
    assert!(matches!(any, AnyNode::LeafNode(_)));
}

#[test]
fn buffer_node_holds_messages() {
    let empty = BufferNode::<u64, u64>::new();
    assert!(empty.entries.is_empty());
    assert!(BufferNode::<u64, u64>::default().entries.is_empty());
    let msg = Message::Insert(Insert { value: 7u64 });
    let node = BufferNode::from(vec![NodeEntry::new(1u64, msg)]);
    assert_eq!(node.entries[0].value, Message::Insert(Insert { value: 7 }));
}

#[test]
fn leaf_from_keeps_entries() {
    let leaf = LeafNode::from(vec![NodeEntry::new(9u64, 1u64)]);
    assert_eq!(keys(&leaf.entries), vec![9]);
    let node = InternalNode::<u64>::from(Vec::new());
    assert!(node.entries.is_empty());
}

#[test]
fn any_node_reads_a_tagged_leaf() {
    let mut leaf = FirstLeafNode::<u64, u64>::new();
    leaf.insert_local(NodeEntry::new(4, 40));
    let mut raw = vec![1u8];
    raw.extend(leaf.serialize());
    match AnyNode::<u64, u64>::deserialize(&raw) {
        Some(AnyNode::LeafNode(l)) => assert_eq!(l.serialize(), raw[1..].to_vec()),
        other => panic!("unexpected result {:?}", other),
    }
    assert!(AnyNode::<u64, u64>::deserialize(&[]).is_none());
    assert!(AnyNode::<u64, u64>::deserialize(&raw[..5]).is_none());
}
