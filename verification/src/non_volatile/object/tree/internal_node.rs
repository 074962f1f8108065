use vstd::prelude::*;

use super::super::object_type::ObjectType;
use super::{entries_map, entries_sorted, has_key, insert_sorted, lemma_map_lookup, NodeEntry};
use crate::common::ConstObjType;
use crate::non_volatile::object::object_pointer::ObjectPointer;

verus! {

/// An inner node of the tree: for each child, its smallest key and a pointer to it.
#[derive(Debug, Clone)]
pub struct InternalNode<K> {
    pub entries: Vec<NodeEntry<K, ObjectPointer>>,
}

impl<K> ConstObjType for InternalNode<K> {
    open spec fn spec_obj_type() -> ObjectType {
        ObjectType::InternalNode
    }

    fn obj_type() -> (t: ObjectType) {
        ObjectType::InternalNode
    }
}

impl<K> InternalNode<K> {
    pub fn new() -> (n: Self)
        ensures
            n.entries@.len() == 0,
    {
        Self { entries: Vec::new() }
    }

    pub fn from(entries: Vec<NodeEntry<K, ObjectPointer>>) -> (n: Self)
        ensures
            n.entries@ == entries@,
    {
        Self { entries }
    }
}

impl InternalNode<u64> {
    /// Puts `entry` into the node's sorted entries, returning the value that
    /// the key had before, if any.
    pub fn insert_local(&mut self, entry: NodeEntry<u64, ObjectPointer>) -> (r: Option<ObjectPointer>)
        requires
            entries_sorted(old(self).entries@),
        ensures
            entries_sorted(final(self).entries@),
            entries_map(final(self).entries@) == entries_map(old(self).entries@).insert(
                entry.key,
                entry.value,
            ),
            r == (if has_key(old(self).entries@, entry.key) {
                Some(entries_map(old(self).entries@)[entry.key])
            } else {
                None::<ObjectPointer>
            }),
    {
        proof {
            lemma_map_lookup(old(self).entries@);
        }
        insert_sorted(&mut self.entries, entry)
    }
}

} // verus!
