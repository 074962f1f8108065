use reactdb::cached_space_manager::CachedSpaceManager;
use reactdb::non_volatile::block_device::BlockImage;
use reactdb::non_volatile::object::object_pointer::ObjectPointer as NodePointer;
use reactdb::non_volatile::object::object_type::ObjectType;
use reactdb::non_volatile::object::tree::{InternalNode, LeafNode, NodeEntry};
use reactdb::object_pointer::ObjectPointer;
use reactdb::space_manager::SpaceManager;

#[test]
fn space_manager_store_and_retrieve() {
    let mut sm = SpaceManager::new(10, BlockImage::new(Vec::new()));
    let op = sm.store(&LeafNode::from(vec![NodeEntry::new(1u64, 2u64)]));
    assert_eq!(op, ObjectPointer::new(10, 24));
    assert_eq!(sm.free_space_offset, 34);
    assert_eq!(sm.block_dev.data.len(), 34);
    assert_eq!(&sm.block_dev.data[0..10], &[0u8; 10][..]);
    let back: LeafNode<u64, u64> = sm.retrieve(&op);
    assert_eq!((back.entries[0].key, back.entries[0].value), (1, 2));
    let second = sm.store(&LeafNode::<u64, u64>::new());
    assert_eq!(second, ObjectPointer::new(34, 8));
}

#[test]
fn cached_space_manager_hit_and_miss() {
    let mut c = CachedSpaceManager::new(0, BlockImage::new(Vec::new()));
    let child = NodePointer::new(5, 6, ObjectType::LeafNode);
    let op = c.store(InternalNode::from(vec![NodeEntry::new(9u64, child)]));
    assert_eq!(op, ObjectPointer::new(0, 33));
    let hit = c.retrieve::<InternalNode<u64>>(&op);
    assert_eq!(hit.entries[0].value, child);

    let data = c.get_mut_block_dev().data.clone();
    let mut other = CachedSpaceManager::new(33, BlockImage::new(data));
    let miss = other.retrieve::<InternalNode<u64>>(&op);
    assert_eq!(miss.entries[0].key, 9);
    let again = other.retrieve::<InternalNode<u64>>(&op);
    assert_eq!(again.entries[0].value, child);
}

#[test]
fn cached_space_manager_accessors() {
    let mut c = CachedSpaceManager::new(7, BlockImage::new(vec![1, 2, 3]));
    assert_eq!(*c.get_mut_free_space_offset(), 7);
    *c.get_mut_free_space_offset() = 100;
    assert_eq!(c.get_mut_sm().free_space_offset, 100);
    c.get_mut_block_dev().write(0, &[9]);
    assert_eq!(c.get_mut_sm().block_dev.data, vec![9, 2, 3]);
    let op = c.store(LeafNode::<u64, u64>::new());
    assert_eq!(op, ObjectPointer::new(100, 8));
}
