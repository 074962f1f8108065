use vstd::prelude::*;

use super::leaf_node::LeafNode;
use crate::non_volatile::object::any_rc_object::pair_leaf;
use crate::non_volatile::object::tree::InternalNode;
use crate::object_type::ObjectType;
use crate::serializable::decode_leaf;

verus! {

/// A node of either kind, as read back from the device.
#[derive(Debug)]
#[non_exhaustive]
pub enum AnyNode<K, V> {
    LeafNode(LeafNode<K, V>),
    InternalNode(InternalNode<K>),
}

impl AnyNode<u64, u64> {
    /// Reads a node of either kind back: its type tag, one byte, then the
    /// node. No bytes at all, or a leaf that does not read back, give
    /// `None`. Reading an inner node is not implemented, and a byte that is
    /// no tag makes the reader panic; the precondition leaves both out.
    pub fn deserialize(raw: &[u8]) -> (r: Option<Self>)
        requires
            raw@.len() > 0 ==> raw@[0] == 1,
        ensures
            raw@.len() == 0 ==> r is None,
            raw@.len() > 0 ==> (r is None <==> decode_leaf(raw@.drop_first()) is None),
            r matches Some(n) ==> n matches AnyNode::LeafNode(l) && decode_leaf(raw@.drop_first()) matches Some(s)
                && l@ == s.map_values(|p: (u64, u64)| pair_leaf(p)),
    {
        if raw.len() == 0 {
            return None;
        }
        let object_type = ObjectType::from_u8(raw[0]);
        match object_type {
            ObjectType::LeafNode => {
                let rest = vstd::slice::slice_subrange(raw, 1, raw.len());
                assert(rest@ =~= raw@.drop_first());
                match LeafNode::deserialize(rest) {
                    Some(l) => Some(AnyNode::LeafNode(l)),
                    None => None,
                }
            },
            ObjectType::InternalNode => {
                assert(false);
                None
            },
        }
    }
}

} // verus!
