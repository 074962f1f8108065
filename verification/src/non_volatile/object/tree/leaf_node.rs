use vstd::prelude::*;

use super::super::object_type::ObjectType;
use super::{entries_map, entries_sorted, has_key, insert_sorted, lemma_map_lookup, NodeEntry};
use crate::common::ConstObjType;

verus! {

/// A leaf of the tree: key-value entries.
#[derive(Debug, Clone)]
pub struct LeafNode<K, V> {
    pub entries: Vec<NodeEntry<K, V>>,
}

impl<K, V> ConstObjType for LeafNode<K, V> {
    open spec fn spec_obj_type() -> ObjectType {
        ObjectType::LeafNode
    }

    fn obj_type() -> (t: ObjectType) {
        ObjectType::LeafNode
    }
}

impl<K, V> LeafNode<K, V> {
    pub fn new() -> (n: Self)
        ensures
            n.entries@.len() == 0,
    {
        Self { entries: Vec::new() }
    }

    pub fn from(entries: Vec<NodeEntry<K, V>>) -> (n: Self)
        ensures
            n.entries@ == entries@,
    {
        Self { entries }
    }
}

impl<V> LeafNode<u64, V> {
    /// Puts `entry` into the leaf's sorted entries, returning the value that
    /// the key had before, if any.
    pub fn insert_local(&mut self, entry: NodeEntry<u64, V>) -> (r: Option<V>)
        requires
            entries_sorted(old(self).entries@),
        ensures
            entries_sorted(final(self).entries@),
            entries_map(final(self).entries@) == entries_map(old(self).entries@).insert(
                entry.key,
                entry.value,
            ),
            r == (if has_key(old(self).entries@, entry.key) {
                Some(entries_map(old(self).entries@)[entry.key])
            } else {
                None::<V>
            }),
    {
        proof {
            lemma_map_lookup(old(self).entries@);
        }
        insert_sorted(&mut self.entries, entry)
    }
}

} // verus!
