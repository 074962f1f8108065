use vstd::bytes::*;
use vstd::prelude::*;
use crate::common::RawSized;

use crate::non_volatile::serialize::{get_u64_le, put_u64_le};
use crate::uberblock::RawError;

verus! {

/// Where an object lies on the block device, in the first on-disk layout.
#[derive(Debug, Clone, Copy, PartialEq, Eq, Structural)]
pub struct ObjectPointer {
    pub offset: u64,
    pub len: u64,
}

impl ObjectPointer {
    /// Size in bytes of the serialized pointer.
    pub const RAW_SIZE: usize = 16;

    /// The serialized form: the offset, then the length, each as eight
    /// little-endian bytes.
    pub open spec fn spec_bytes(self) -> Seq<u8> {
        spec_u64_to_le_bytes(self.offset) + spec_u64_to_le_bytes(self.len)
    }

    /// The pointer that the first sixteen bytes of `bytes` encode.
    pub open spec fn spec_decode(bytes: Seq<u8>) -> ObjectPointer {
        ObjectPointer {
            offset: spec_u64_from_le_bytes(bytes.subrange(0, 8)),
            len: spec_u64_from_le_bytes(bytes.subrange(8, 16)),
        }
    }

    pub fn new(offset: u64, len: u64) -> (op: ObjectPointer)
        ensures
            op.offset == offset,
            op.len == len,
    {
        ObjectPointer { offset, len }
    }

    /// Reads a pointer from the start of `bytes`; fewer than sixteen bytes
    /// are left out by the precondition.
    pub fn from_bytes(bytes: &[u8]) -> (r: Result<ObjectPointer, RawError>)
        requires
            bytes@.len() >= Self::RAW_SIZE,
        ensures
            r matches Ok(op) && op == Self::spec_decode(bytes@),
    {
        let offset = get_u64_le(bytes, 0);
        let len = get_u64_le(bytes, 8);
        Ok(ObjectPointer { offset, len })
    }

    /// Appends the serialized pointer to `bytes`.
    pub fn to_bytes(&self, bytes: &mut Vec<u8>)
        ensures
            final(bytes)@ == old(bytes)@ + self.spec_bytes(),
    {
        put_u64_le(bytes, self.offset);
        put_u64_le(bytes, self.len);
        assert(bytes@ == old(bytes)@ + self.spec_bytes());
    }

    /// The serialized pointer in a buffer of its own.
    pub fn to_mem(&self) -> (mem: Vec<u8>)
        ensures
            mem@ == self.spec_bytes(),
            mem@.len() == Self::RAW_SIZE,
    {
        let mut mem: Vec<u8> = Vec::new();
        self.to_bytes(&mut mem);
        proof {
            lemma_auto_spec_u64_to_from_le_bytes();
        }
        mem
    }
}

/// Reading back what `to_bytes` wrote gives the same pointer, and the
/// serialized form has `RAW_SIZE` bytes.
pub proof fn lemma_pointer_roundtrip(op: ObjectPointer)
    ensures
        op.spec_bytes().len() == ObjectPointer::RAW_SIZE,
        ObjectPointer::spec_decode(op.spec_bytes()) == op,
{
    lemma_auto_spec_u64_to_from_le_bytes();
    let b = op.spec_bytes();
    assert(b.subrange(0, 8) == spec_u64_to_le_bytes(op.offset));
    assert(b.subrange(8, 16) == spec_u64_to_le_bytes(op.len));
}

impl RawSized for ObjectPointer {
    open spec fn spec_raw_size() -> nat {
        16
    }

    fn raw_size() -> (n: usize) {
        Self::RAW_SIZE
    }
}

} // verus!
