use vstd::prelude::*;
use crate::common::RawSized;

use super::object_type::ObjectType;

verus! {

/// Where an object lies on the block device and what kind of object it is.
#[derive(Debug, Clone, Copy, PartialEq, Eq, Structural)]
pub struct ObjectPointer {
    pub offset: u64,
    pub len: u64,
    pub object_type: ObjectType,
}

impl ObjectPointer {
    /// Size in bytes of the serialized pointer: two `u64` and the type tag.
    pub const RAW_SIZE: usize = 17;

    pub fn new(offset: u64, len: u64, object_type: ObjectType) -> (op: ObjectPointer)
        ensures
            op.offset == offset,
            op.len == len,
            op.object_type == object_type,
    {
        ObjectPointer { offset, len, object_type }
    }
}

impl RawSized for ObjectPointer {
    open spec fn spec_raw_size() -> nat {
        17
    }

    fn raw_size() -> (n: usize) {
        Self::RAW_SIZE
    }
}

} // verus!
