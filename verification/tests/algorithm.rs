use reactdb::algo::Test;
use reactdb::algorithm::b_epsilon_tree::{
    compute_repartition, debug, entry_key_le, merge_tree, new, reduce, DebugLine, B,
};
use reactdb::non_volatile::block_device::BlockImage;
use reactdb::non_volatile::object::object_type::ObjectType;
use reactdb::non_volatile::object::tree::{LeafNode, NodeEntry};
use reactdb::nv_obj_mngr::{NVObjectManager, UB_AREA};

fn rep(n: usize, m: usize) -> (usize, usize, usize, usize) {
    let r = compute_repartition(n, m);
    (r.bigger_chunk_len, r.bigger_chunk_num, r.smaller_chunk_len, r.smaller_chunk_num)
}

#[test]
fn repartition_exact_values() {
    assert_eq!(rep(1, 5), (1, 1, 0, 0));
    assert_eq!(rep(5, 5), (5, 1, 4, 0));
    assert_eq!(rep(6, 5), (3, 2, 2, 0));
    assert_eq!(rep(7, 5), (4, 1, 3, 1));
    assert_eq!(rep(11, 5), (4, 2, 3, 1));
    assert_eq!(rep(12, 5), (4, 3, 3, 0));
    assert_eq!(rep(10, 3), (3, 2, 2, 2));
}

fn entries(n: u64) -> Vec<NodeEntry<u64, u64>> {
    (0..n).map(|i| NodeEntry::new(i, 100 + i)).collect()
}

fn lens(chunks: &[Vec<NodeEntry<u64, u64>>]) -> Vec<usize> {
    chunks.iter().map(|c| c.len()).collect()
}

#[test]
fn reduce_one_chunk() {
    let chunks = reduce(entries(5));
    assert_eq!(lens(&chunks), vec![5]);
}

#[test]
fn reduce_longer_chunks_first() {
    let chunks = reduce(entries(7));
    assert_eq!(lens(&chunks), vec![4, 3]);
    let chunks = reduce(entries(11));
    assert_eq!(lens(&chunks), vec![4, 4, 3]);
    assert_eq!(chunks[2][0].key, 8);
}

#[test]
fn reduce_keeps_order() {
    let chunks = reduce(entries(13));
    let flat: Vec<u64> = chunks.iter().flatten().map(|e| e.key).collect();
    assert_eq!(flat, (0..13).collect::<Vec<u64>>());
    assert!(chunks.iter().all(|c| !c.is_empty() && c.len() <= B));
}

#[test]
fn entry_order_by_key() {
    let a = NodeEntry::new(1u64, 9u64);
    let b = NodeEntry::new(2u64, 0u64);
    assert!(entry_key_le(&a, &b));
    assert!(!entry_key_le(&b, &a));
    assert!(entry_key_le(&a, &a));
}

#[test]
fn new_tree_is_an_empty_leaf() {
    assert!(new().entries.is_empty());
}

fn keys_of(line: &DebugLine) -> Vec<u64> {
    match line {
        DebugLine::Leaf { entries, .. } => entries.iter().map(|e| e.key).collect(),
        DebugLine::Internal { entries, .. } => entries.iter().map(|e| e.key).collect(),
    }
}

#[test]
fn merge_into_empty_leaf() {
    let (mut mgr, root) = NVObjectManager::new(new(), BlockImage::new(Vec::new()));
    assert_eq!(root.offset, UB_AREA);
    let pairs: Vec<(u64, u64)> = vec![(1, 11), (2, 12), (3, 13)];
    let head = merge_tree(pairs, &mut mgr, &root);
    assert_eq!(head.object_type, ObjectType::LeafNode);
    assert_eq!(head.offset, UB_AREA + 8);
    assert_eq!(head.len, 8 + 16 * 3);
    let leaf = mgr.get::<LeafNode<u64, u64>>(&head);
    let got: Vec<(u64, u64)> = leaf.entries.iter().map(|e| (e.key, e.value)).collect();
    assert_eq!(got, vec![(1, 11), (2, 12), (3, 13)]);
    // the old root is left as it was
    assert!(mgr.get::<LeafNode<u64, u64>>(&root).entries.is_empty());
}

#[test]
fn merge_splits_and_grows_a_root() {
    let (mut mgr, root) = NVObjectManager::new(new(), BlockImage::new(Vec::new()));
    let first: Vec<(u64, u64)> = vec![(2, 2), (4, 4), (6, 6)];
    let head = merge_tree(first, &mut mgr, &root);
    let second: Vec<(u64, u64)> = vec![(1, 1), (3, 3), (5, 5), (7, 7)];
    let head = merge_tree(second, &mut mgr, &head);
    assert_eq!(head.object_type, ObjectType::InternalNode);
    let mut lines = Vec::new();
    debug(0, &mut mgr, &head, &mut lines);
    assert_eq!(lines.len(), 3);
    assert!(matches!(lines[0], DebugLine::Internal { indent: 0, .. }));
    assert!(matches!(lines[1], DebugLine::Leaf { indent: 1, .. }));
    assert_eq!(keys_of(&lines[0]), vec![1, 5]);
    assert_eq!(keys_of(&lines[1]), vec![1, 2, 3, 4]);
    assert_eq!(keys_of(&lines[2]), vec![5, 6, 7]);
}

#[test]
fn merge_keeps_duplicate_keys_old_first() {
    let (mut mgr, root) = NVObjectManager::new(new(), BlockImage::new(Vec::new()));
    let head = merge_tree(vec![(1, 10)], &mut mgr, &root);
    let head = merge_tree(vec![(1, 20)], &mut mgr, &head);
    let leaf = mgr.get::<LeafNode<u64, u64>>(&head);
    let got: Vec<(u64, u64)> = leaf.entries.iter().map(|e| (e.key, e.value)).collect();
    assert_eq!(got, vec![(1, 10), (1, 20)]);
}

#[test]
fn test_struct_views() {
    let u1: &'static u64 = Box::leak(Box::new(1u64));
    let u2: &'static u64 = Box::leak(Box::new(2u64));
    let t = Test { raw: vec![0u8; 4], u1, s: "abc", u2 };
    assert_eq!(*t.u1(), 1);
    assert_eq!(t.s(), "abc");
    assert_eq!(*t.u2(), 2);
}

#[test]
fn merge_into_one_branch_of_an_inner_root() {
    let (mut mgr, root) = NVObjectManager::new(new(), BlockImage::new(Vec::new()));
    let head = merge_tree(vec![(1, 1), (2, 2), (3, 3), (4, 4), (5, 5), (6, 6), (7, 7)], &mut mgr, &root);
    assert_eq!(head.object_type, ObjectType::InternalNode);
    let head = merge_tree(vec![(8, 8), (9, 9)], &mut mgr, &head);
    let mut lines = Vec::new();
    debug(0, &mut mgr, &head, &mut lines);
    assert_eq!(lines.len(), 3);
    assert_eq!(keys_of(&lines[0]), vec![1, 5]);
    assert_eq!(keys_of(&lines[1]), vec![1, 2, 3, 4]);
    assert_eq!(keys_of(&lines[2]), vec![5, 6, 7, 8, 9]);
}

#[test]
fn repartition_of_a_large_count() {
    let n = usize::MAX / 3 * 2;
    let r = compute_repartition(n, 1000);
    assert_eq!(r.bigger_chunk_len, 1000);
    assert_eq!(r.bigger_chunk_len * r.bigger_chunk_num + r.smaller_chunk_len * r.smaller_chunk_num, n);
}

fn three_leaf_tree() -> (NVObjectManager, reactdb::non_volatile::object::object_pointer::ObjectPointer) {
    let (mut mgr, root) = NVObjectManager::new(new(), BlockImage::new(Vec::new()));
    let pairs: Vec<(u64, u64)> =
        vec![1, 2, 3, 4, 10, 11, 12, 13, 20, 21, 22].into_iter().map(|k| (k, k)).collect();
    let head = merge_tree(pairs, &mut mgr, &root);
    (mgr, head)
}

#[test]
fn merge_spreads_the_memstore_over_several_branches() {
    let (mut mgr, head) = three_leaf_tree();
    let mut lines = Vec::new();
    debug(0, &mut mgr, &head, &mut lines);
    assert_eq!(keys_of(&lines[0]), vec![1, 10, 20]);
    let head = merge_tree(vec![(5, 5), (15, 15)], &mut mgr, &head);
    let mut lines = Vec::new();
    debug(0, &mut mgr, &head, &mut lines);
    assert_eq!(lines.len(), 4);
    assert_eq!(keys_of(&lines[0]), vec![1, 10, 20]);
    assert_eq!(keys_of(&lines[1]), vec![1, 2, 3, 4, 5]);
    assert_eq!(keys_of(&lines[2]), vec![10, 11, 12, 13, 15]);
    assert_eq!(keys_of(&lines[3]), vec![20, 21, 22]);
}

#[test]
fn merge_splits_several_branches_at_once() {
    let (mut mgr, head) = three_leaf_tree();
    let ms: Vec<(u64, u64)> = vec![0, 5, 6, 14, 15, 25].into_iter().map(|k| (k, k)).collect();
    let head = merge_tree(ms, &mut mgr, &head);
    let mut lines = Vec::new();
    debug(0, &mut mgr, &head, &mut lines);
    assert_eq!(lines.len(), 6);
    assert_eq!(keys_of(&lines[0]), vec![0, 4, 10, 13, 20]);
    assert_eq!(keys_of(&lines[1]), vec![0, 1, 2, 3]);
    assert_eq!(keys_of(&lines[2]), vec![4, 5, 6]);
    assert_eq!(keys_of(&lines[3]), vec![10, 11, 12]);
    assert_eq!(keys_of(&lines[4]), vec![13, 14, 15]);
    assert_eq!(keys_of(&lines[5]), vec![20, 21, 22, 25]);
}
