use vstd::prelude::*;
use crate::common::RawSized;

verus! {

/// The kind of a tree node in the first on-disk layout.
#[derive(Debug, Clone, Copy, PartialEq, Eq, Structural)]
pub enum ObjectType {
    InternalNode,
    LeafNode,
}

/// The one-byte tag of each node kind.
pub open spec fn spec_tag(t: ObjectType) -> u8 {
    match t {
        ObjectType::InternalNode => 0,
        ObjectType::LeafNode => 1,
    }
}

impl ObjectType {
    /// Size in bytes of the serialized tag.
    pub const RAW_SIZE: usize = 1;

    /// Decodes a tag; only 0 and 1 are tags.
    pub fn from_u8(n: u8) -> (t: ObjectType)
        requires
            n < 2,
        ensures
            spec_tag(t) == n,
            n == 0 ==> t == ObjectType::InternalNode,
            n == 1 ==> t == ObjectType::LeafNode,
    {
        match n {
            0 => ObjectType::InternalNode,
            _ => ObjectType::LeafNode,
        }
    }

    pub fn to_u8(&self) -> (n: u8)
        ensures
            n == spec_tag(*self),
            n < 2,
    {
        match self {
            ObjectType::InternalNode => 0,
            ObjectType::LeafNode => 1,
        }
    }
}

/// Every node kind survives a trip through its tag, and every tag through
/// its node kind.
pub proof fn lemma_tag_roundtrip(t: ObjectType, n: u8)
    requires
        n < 2,
    ensures
        spec_tag(t) < 2,
        (spec_tag(t) == n) <==> (n == 0 && t == ObjectType::InternalNode) || (n == 1 && t
            == ObjectType::LeafNode),
{
}

impl RawSized for ObjectType {
    open spec fn spec_raw_size() -> nat {
        1
    }

    fn raw_size() -> (n: usize) {
        Self::RAW_SIZE
    }
}

} // verus!
