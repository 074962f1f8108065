use std::rc::Rc;

use reactdb::any_object::{AnyObject, ConversionError};
use reactdb::non_volatile::object::any_rc_object::{AnyRcObject, Object};
use reactdb::non_volatile::object::object_pointer::ObjectPointer;
use reactdb::non_volatile::object::object_type::ObjectType;
use reactdb::non_volatile::object::tree::{BufferNode, InternalNode, LeafNode as NodeLeaf, NodeEntry};
use reactdb::non_volatile::object::uberblock::Uberblock as NodeUberblock;
use reactdb::object_pointer::ObjectPointer as FirstObjectPointer;
use reactdb::tree::LeafNode;
use reactdb::uberblock::Uberblock;

#[test]
fn any_object_conversions() {
    let ub = Uberblock::new(1, FirstObjectPointer::new(2, 3), 4);
    let a = AnyObject::from_uberblock(ub);
    assert_eq!(*a.try_into_uberblock().unwrap(), ub);

    let leaf = AnyObject::from_leaf_node(LeafNode::new());
    assert!(matches!(leaf.try_into_uberblock(), Err(ConversionError::NotAnUberblock)));
    let leaf = AnyObject::from_rc_leaf_node(Rc::new(LeafNode::new()));
    assert!(leaf.try_into_leaf_node().is_ok());

    let inner = AnyObject::from_internal_node(InternalNode::new());
    assert!(matches!(inner.try_into_leaf_node(), Err(ConversionError::NotALeafNode)));
    let inner = AnyObject::from_rc_internal_node(Rc::new(InternalNode::new()));
    assert!(inner.try_into_internal_node().is_ok());

    let rc_ub = AnyObject::from_rc_uberblock(Rc::new(ub));
    assert!(matches!(rc_ub.try_into_internal_node(), Err(ConversionError::NotAnInternalNode)));
}

#[test]
fn any_rc_object_kinds() {
    let op = ObjectPointer::new(1, 2, ObjectType::LeafNode);
    let a = AnyRcObject::from_uberblock(NodeUberblock::new(1, op, 3));
    assert!(matches!(a, AnyRcObject::Uberblock(_)));
    let b = AnyRcObject::from_buffer_node(BufferNode::new());
    assert!(BufferNode::<u64, u64>::from_any(&b).is_some());
    assert!(NodeLeaf::<u64, u64>::from_any(&b).is_none());
    let c = NodeLeaf::into_any(Rc::new(NodeLeaf::from(vec![NodeEntry::new(1u64, 1u64)])));
    assert_eq!(NodeLeaf::<u64, u64>::from_any(&c).unwrap().entries.len(), 1);
    assert!(InternalNode::<u64>::from_any(&c).is_none());
}

#[test]
fn uberblock_is_an_object() {
    let ub = NodeUberblock::new(7, ObjectPointer::new(200, 48, ObjectType::LeafNode), 300);
    let raw = ub.obj_to_raw();
    assert_eq!(raw.len(), NodeUberblock::RAW_SIZE);
    assert_eq!(NodeUberblock::from_raw(&raw), Some(ub));
    let a = NodeUberblock::into_any(Rc::new(ub));
    assert!(matches!(a, AnyRcObject::Uberblock(_)));
    assert_eq!(*NodeUberblock::from_any(&a).unwrap(), ub);
    assert!(NodeLeaf::<u64, u64>::from_any(&a).is_none());
}
