use reactdb::algorithm::b_epsilon_tree::DebugLine;
use reactdb::context::Context;
use reactdb::non_volatile::block_device::BlockImage;
use reactdb::non_volatile::object::object_pointer::ObjectPointer;
use reactdb::non_volatile::object::object_type::ObjectType;
use reactdb::non_volatile::object::tree::{BufferNode, Insert, InternalNode, LeafNode, Message, NodeEntry};
use reactdb::non_volatile::object::uberblock::Uberblock;
use reactdb::nv_obj_cache::NVObjectCache;
use reactdb::nv_obj_mngr::{NVObjectManager, UB_AREA};

#[test]
fn block_image_read_after_write() {
    let mut img = BlockImage::new(vec![1, 2, 3]);
    img.write(1, &[9, 9]);
    assert_eq!(img.data, vec![1, 9, 9]);
    assert_eq!(img.read(1, 2), vec![9, 9]);
    img.write(5, &[7]);
    assert_eq!(img.data, vec![1, 9, 9, 0, 0, 7]);
    assert_eq!(img.read(0, 0), Vec::<u8>::new());
}

#[test]
fn cache_get_and_insert() {
    let mut cache = NVObjectCache::new();
    let op = ObjectPointer::new(200, 24, ObjectType::LeafNode);
    assert!(cache.get::<LeafNode<u64, u64>>(&op).is_none());
    cache.insert(&op, LeafNode::from(vec![NodeEntry::new(1u64, 2u64)]));
    let got = cache.get::<LeafNode<u64, u64>>(&op).unwrap();
    assert_eq!(got.entries[0].value, 2);
}

#[test]
fn manager_formats_the_device() {
    let (mgr, op) = NVObjectManager::new(LeafNode::<u64, u64>::new(), BlockImage::new(Vec::new()));
    assert_eq!(op, ObjectPointer::new(UB_AREA, 8, ObjectType::LeafNode));
    assert_eq!(mgr.txg, 1);
    assert_eq!(mgr.fso, UB_AREA + 8);
    assert_eq!(mgr.nv_blk_dev.data.len(), 131);
    let ub = Uberblock::new(1, op, 131).serialize();
    assert_eq!(&mgr.nv_blk_dev.data[0..41], &ub[..]);
    assert_eq!(&mgr.nv_blk_dev.data[41..82], &ub[..]);
    assert_eq!(&mgr.nv_blk_dev.data[82..123], &ub[..]);
    assert_eq!(&mgr.nv_blk_dev.data[123..131], &[0u8; 8][..]);
}

#[test]
fn manager_store_then_get() {
    let (mut mgr, _) = NVObjectManager::new(LeafNode::<u64, u64>::new(), BlockImage::new(Vec::new()));
    let leaf = LeafNode::from(vec![NodeEntry::new(5u64, 50u64), NodeEntry::new(6, 60)]);
    let op = mgr.store(leaf);
    assert_eq!(op, ObjectPointer::new(131, 40, ObjectType::LeafNode));
    assert_eq!(mgr.fso, 171);
    let got = mgr.get::<LeafNode<u64, u64>>(&op);
    assert_eq!(got.entries[1].value, 60);
    let child = ObjectPointer::new(131, 40, ObjectType::LeafNode);
    let inner = mgr.store(InternalNode::from(vec![NodeEntry::new(5u64, child)]));
    assert_eq!(inner, ObjectPointer::new(171, 33, ObjectType::InternalNode));
    assert_eq!(mgr.get::<InternalNode<u64>>(&inner).entries[0].value, child);
}

#[test]
fn manager_get_after_reload_reads_the_device() {
    let (mut mgr, _) = NVObjectManager::new(LeafNode::<u64, u64>::new(), BlockImage::new(Vec::new()));
    let op = mgr.store(LeafNode::from(vec![NodeEntry::new(1u64, 2u64)]));
    mgr.commit(&op);
    let (mut again, root) = NVObjectManager::load(BlockImage::new(mgr.nv_blk_dev.data.clone()));
    assert_eq!(root, op);
    assert_eq!(again.txg, 2);
    assert_eq!(again.fso, mgr.fso);
    let got = again.get::<LeafNode<u64, u64>>(&op);
    assert_eq!((got.entries[0].key, got.entries[0].value), (1, 2));
}

#[test]
fn manager_commit_writes_the_selected_copy() {
    let (mut mgr, op) = NVObjectManager::new(LeafNode::<u64, u64>::new(), BlockImage::new(Vec::new()));
    let before = mgr.nv_blk_dev.data.clone();
    mgr.commit(&op);
    assert_eq!(mgr.txg, 2);
    let ub = Uberblock::new(2, op, mgr.fso).serialize();
    assert_eq!(&mgr.nv_blk_dev.data[82..123], &ub[..]);
    assert_eq!(&mgr.nv_blk_dev.data[0..82], &before[0..82]);
    mgr.commit(&op);
    let ub = Uberblock::new(3, op, mgr.fso).serialize();
    assert_eq!(&mgr.nv_blk_dev.data[0..41], &ub[..]);
}

#[test]
fn load_takes_the_first_latest_copy() {
    let (mgr, op) = NVObjectManager::new(LeafNode::<u64, u64>::new(), BlockImage::new(Vec::new()));
    let mut data = mgr.nv_blk_dev.data.clone();
    let other = ObjectPointer::new(7, 8, ObjectType::LeafNode);
    let newer = Uberblock::new(5, other, 999).serialize();
    data[41..82].copy_from_slice(&newer);
    let (loaded, root) = NVObjectManager::load(BlockImage::new(data.clone()));
    assert_eq!(root, other);
    assert_eq!(loaded.txg, 5);
    assert_eq!(loaded.fso, 999);
    data[82..123].copy_from_slice(&Uberblock::new(5, op, 1).serialize());
    let (_, root) = NVObjectManager::load(BlockImage::new(data));
    assert_eq!(root, other);
}

fn leaf_keys(line: &DebugLine) -> Vec<(u64, u64)> {
    match line {
        DebugLine::Leaf { entries, .. } => entries.iter().map(|e| (e.key, e.value)).collect(),
        DebugLine::Internal { .. } => panic!("an inner node where a leaf was expected"),
    }
}

#[test]
fn context_buffers_then_commits_on_the_third_key() {
    let mut ctx = Context::new(BlockImage::new(Vec::new()));
    assert_eq!(ctx.head, ObjectPointer::new(123, 8, ObjectType::LeafNode));
    ctx.insert(1, 1001);
    ctx.insert(2, 1002);
    assert_eq!(ctx.memstore.len(), 2);
    assert_eq!(ctx.buffer.get(&2), Some(&1002));
    assert_eq!(ctx.nv_obj_mngr.txg, 1);
    ctx.insert(3, 1003);
    assert!(ctx.memstore.is_empty());
    assert!(ctx.buffer.is_empty());
    assert_eq!(ctx.nv_obj_mngr.txg, 2);
    assert_eq!(ctx.head, ObjectPointer::new(131, 56, ObjectType::LeafNode));
    let lines = ctx.debug();
    assert_eq!(lines.len(), 1);
    assert_eq!(leaf_keys(&lines[0]), vec![(1, 1001), (2, 1002), (3, 1003)]);
}

#[test]
fn context_same_key_twice_counts_once() {
    let mut ctx = Context::new(BlockImage::new(Vec::new()));
    ctx.insert(1, 1);
    ctx.insert(1, 2);
    assert_eq!(ctx.memstore.len(), 1);
    assert_eq!(ctx.buffer.get(&1), Some(&2));
    assert_eq!(ctx.nv_obj_mngr.txg, 1);
}

#[test]
fn context_reload_gives_back_the_committed_tree() {
    let mut ctx = Context::new(BlockImage::new(Vec::new()));
    for k in 1..=6u64 {
        ctx.insert(k, 1000 + k);
    }
    assert_eq!(ctx.nv_obj_mngr.txg, 3);
    assert_eq!(ctx.head.object_type, ObjectType::InternalNode);
    let saved = ctx.debug();
    let mut loaded = Context::load(BlockImage::new(ctx.nv_obj_mngr.nv_blk_dev.data.clone()));
    assert_eq!(loaded.head, ctx.head);
    assert_eq!(loaded.nv_obj_mngr.txg, 3);
    assert_eq!(loaded.nv_obj_mngr.fso, ctx.nv_obj_mngr.fso);
    let lines = loaded.debug();
    assert_eq!(lines.len(), 3);
    assert_eq!(lines.len(), saved.len());
    assert!(matches!(lines[0], DebugLine::Internal { indent: 0, .. }));
    assert_eq!(leaf_keys(&lines[1]), vec![(1, 1001), (2, 1002), (3, 1003)]);
    assert_eq!(leaf_keys(&lines[2]), vec![(4, 1004), (5, 1005), (6, 1006)]);
}

#[test]
fn context_commit_by_hand() {
    let mut ctx = Context::new(BlockImage::new(Vec::new()));
    ctx.insert(7, 70);
    ctx.commit();
    assert_eq!(ctx.nv_obj_mngr.txg, 2);
    let lines = ctx.debug();
    assert_eq!(leaf_keys(&lines[0]), vec![(7, 70)]);
    let mut loaded = Context::load(BlockImage::new(ctx.nv_obj_mngr.nv_blk_dev.data.clone()));
    assert_eq!(leaf_keys(&loaded.debug()[0]), vec![(7, 70)]);
}

#[test]
fn manager_stores_buffers() {
    let (mut mgr, _) = NVObjectManager::new(LeafNode::<u64, u64>::new(), BlockImage::new(Vec::new()));
    let msg = Message::Insert(Insert { value: 5u64 });
    let op = mgr.store(BufferNode::from(vec![NodeEntry::new(1u64, msg)]));
    assert_eq!(op, ObjectPointer::new(131, 28, ObjectType::BufferNode));
    let (mut again, _) = NVObjectManager::load(BlockImage::new(mgr.nv_blk_dev.data.clone()));
    let got = again.get::<BufferNode<u64, u64>>(&op);
    assert_eq!(got.entries[0].value, msg);
}

#[test]
fn context_commits_in_key_order() {
    let mut ctx = Context::new(BlockImage::new(Vec::new()));
    ctx.insert(30, 3);
    ctx.insert(10, 1);
    ctx.insert(20, 2);
    let lines = ctx.debug();
    assert_eq!(leaf_keys(&lines[0]), vec![(10, 1), (20, 2), (30, 3)]);
}

#[test]
fn context_commit_keeps_the_previous_tree() {
    let mut ctx = Context::new(BlockImage::new(Vec::new()));
    for k in 1..=3u64 {
        ctx.insert(k, k);
    }
    let previous = ctx.head;
    for k in 4..=6u64 {
        ctx.insert(k, k);
    }
    assert_ne!(ctx.head, previous);
    let old_leaf = ctx.nv_obj_mngr.get::<LeafNode<u64, u64>>(&previous);
    let got: Vec<(u64, u64)> = old_leaf.entries.iter().map(|e| (e.key, e.value)).collect();
    assert_eq!(got, vec![(1, 1), (2, 2), (3, 3)]);
}

#[test]
fn load_after_stores_and_commits() {
    let (mut mgr, op0) = NVObjectManager::new(LeafNode::<u64, u64>::new(), BlockImage::new(Vec::new()));
    let (_, root) = NVObjectManager::load(BlockImage::new(mgr.nv_blk_dev.data.clone()));
    assert_eq!(root, op0);
    let op1 = mgr.store(LeafNode::from(vec![NodeEntry::new(1u64, 1u64)]));
    let fso1 = mgr.fso;
    mgr.commit(&op1);
    let _ = mgr.store(LeafNode::from(vec![NodeEntry::new(2u64, 2u64)]));
    let op3 = mgr.store(LeafNode::from(vec![NodeEntry::new(3u64, 3u64)]));
    let fso3 = mgr.fso;
    mgr.commit(&op3);
    let _ = mgr.store(LeafNode::<u64, u64>::new());
    let (loaded, root) = NVObjectManager::load(BlockImage::new(mgr.nv_blk_dev.data.clone()));
    assert_eq!(root, op3);
    assert_eq!(loaded.txg, 3);
    assert_eq!(loaded.fso, fso3);
    assert!(fso1 < fso3);
}

#[test]
fn store_and_get_an_uberblock() {
    let (mut mgr, root) = NVObjectManager::new(LeafNode::<u64, u64>::new(), BlockImage::new(Vec::new()));
    let ub = Uberblock::new(7, root, 300);
    let op = mgr.store(ub);
    assert_eq!(op.object_type, ObjectType::Uberblock);
    assert_eq!(op.len as usize, Uberblock::RAW_SIZE);
    assert_eq!(*mgr.get::<Uberblock>(&op), ub);
}
