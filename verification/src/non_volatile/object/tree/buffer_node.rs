use vstd::prelude::*;

use super::super::object_type::ObjectType;
use super::NodeEntry;
use crate::common::ConstObjType;

verus! {

/// A pending insertion of a value.
#[derive(Debug, Clone, Copy, PartialEq, Eq, Structural)]
pub struct Insert<V> {
    pub value: V,
}

/// A pending operation on a key.
#[derive(Debug, Clone, Copy, PartialEq, Eq, Structural)]
pub enum Message<V> {
    Insert(Insert<V>),
}

/// A node's buffer of pending operations.
#[derive(Debug, Clone)]
pub struct BufferNode<K, V> {
    pub entries: Vec<NodeEntry<K, Message<V>>>,
}

impl<K, V> ConstObjType for BufferNode<K, V> {
    open spec fn spec_obj_type() -> ObjectType {
        ObjectType::BufferNode
    }

    fn obj_type() -> (t: ObjectType) {
        ObjectType::BufferNode
    }
}

impl<K, V> BufferNode<K, V> {
    pub fn new() -> (n: Self)
        ensures
            n.entries@.len() == 0,
    {
        Self { entries: Vec::new() }
    }

    pub fn from(entries: Vec<NodeEntry<K, Message<V>>>) -> (n: Self)
        ensures
            n.entries@ == entries@,
    {
        Self { entries }
    }

    /// The empty buffer.
    pub fn default() -> (n: Self)
        ensures
            n.entries@.len() == 0,
    {
        Self::new()
    }
}

} // verus!
