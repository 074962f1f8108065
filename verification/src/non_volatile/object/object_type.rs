use vstd::prelude::*;
use crate::common::RawSized;

verus! {

/// The kind of an object stored on the block device.
#[derive(Debug, Clone, Copy, PartialEq, Eq, Structural)]
#[non_exhaustive]
pub enum ObjectType {
    Uberblock,
    InternalNode,
    LeafNode,
    BufferNode,
}

/// The one-byte tag that stands for each object type on disk.
pub open spec fn spec_tag(t: ObjectType) -> u8 {
    match t {
        ObjectType::Uberblock => 0,
        ObjectType::InternalNode => 1,
        ObjectType::LeafNode => 2,
        ObjectType::BufferNode => 3,
    }
}

/// Whether a byte is the tag of some object type.
pub open spec fn is_tag(n: u8) -> bool {
    n < 4
}

/// The object type that a valid tag stands for.
pub open spec fn spec_from_tag(n: u8) -> ObjectType
    recommends
        is_tag(n),
{
    if n == 0 {
        ObjectType::Uberblock
    } else if n == 1 {
        ObjectType::InternalNode
    } else if n == 2 {
        ObjectType::LeafNode
    } else {
        ObjectType::BufferNode
    }
}

impl ObjectType {
    /// Size in bytes of the serialized tag.
    pub const RAW_SIZE: usize = 1;

    /// Decodes a tag; a byte that is no tag is rejected by the precondition
    /// (the decoding has no object type to give for it).
    pub fn from_u8(n: u8) -> (t: ObjectType)
        requires
            is_tag(n),
        ensures
            t == spec_from_tag(n),
            spec_tag(t) == n,
    {
        match n {
            0 => ObjectType::Uberblock,
            1 => ObjectType::InternalNode,
            2 => ObjectType::LeafNode,
            _ => ObjectType::BufferNode,
        }
    }

    pub fn to_u8(&self) -> (n: u8)
        ensures
            n == spec_tag(*self),
            is_tag(n),
    {
        match self {
            ObjectType::Uberblock => 0,
            ObjectType::InternalNode => 1,
            ObjectType::LeafNode => 2,
            ObjectType::BufferNode => 3,
        }
    }
}

/// Decoding a tag gives back the object type it was encoded from.
pub proof fn lemma_tag_roundtrip(t: ObjectType)
    ensures
        is_tag(spec_tag(t)),
        spec_from_tag(spec_tag(t)) == t,
{
}

/// Encoding a decoded tag gives back the tag.
pub proof fn lemma_from_tag_roundtrip(n: u8)
    requires
        is_tag(n),
    ensures
        spec_tag(spec_from_tag(n)) == n,
{
}

impl RawSized for ObjectType {
    open spec fn spec_raw_size() -> nat {
        1
    }

    fn raw_size() -> (n: usize) {
        Self::RAW_SIZE
    }
}

} // verus!
