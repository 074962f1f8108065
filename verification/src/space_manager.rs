//! Space on the block device, handed out from a free-space offset that
//! only grows: objects are serialized and written there, and read back.

use vstd::prelude::*;

use crate::common::cast_u64;
use crate::non_volatile::block_device::{spec_write, BlockImage};
use crate::non_volatile::object::any_rc_object::Object;
use crate::object_pointer::ObjectPointer;

verus! {

/// The block device and the offset from which free space is handed out.
#[derive(Debug)]
pub struct SpaceManager {
    pub block_dev: BlockImage,
    pub free_space_offset: u64,
}

impl SpaceManager {
    /// The bytes on the device that `op` points at.
    pub open spec fn raw_at(&self, op: ObjectPointer) -> Seq<u8> {
        self.block_dev.data@.subrange(op.offset as int, op.offset + op.len)
    }

    /// A space manager over `block_dev` that hands out space from `offset`
    /// on.
    pub fn new(offset: u64, block_dev: BlockImage) -> (sm: Self)
        ensures
            sm.block_dev.data@ == block_dev.data@,
            sm.free_space_offset == offset,
    {
        Self { block_dev, free_space_offset: offset }
    }

    fn allocate(&mut self, size: u64) -> (o: u64)
        requires
            old(self).free_space_offset + size <= u64::MAX,
        ensures
            o == old(self).free_space_offset,
            final(self).free_space_offset == old(self).free_space_offset + size,
            final(self).block_dev == old(self).block_dev,
    {
        let o = self.free_space_offset;
        self.free_space_offset = self.free_space_offset + cast_u64(size).unwrap();
        o
    }

    /// Serializes `object` and writes it at the free-space offset, which
    /// moves past it; returns where it lies.
    pub fn store<O: Object>(&mut self, object: &O) -> (op: ObjectPointer)
        requires
            old(self).free_space_offset + object.spec_raw().len() <= usize::MAX,
            old(self).free_space_offset + object.spec_raw().len() <= u64::MAX,
        ensures
            op == (ObjectPointer {
                offset: old(self).free_space_offset,
                len: object.spec_raw().len() as u64,
            }),
            final(self).free_space_offset == old(self).free_space_offset + object.spec_raw().len(),
            final(self).block_dev.data@ == spec_write(
                old(self).block_dev.data@,
                old(self).free_space_offset as int,
                object.spec_raw(),
            ),
            O::spec_read(final(self).raw_at(op)) == Some(object.node_view()),
    {
        let object_mem = object.obj_to_raw();
        let len = object_mem.len() as u64;
        let offset = self.allocate(len);
        self.block_dev.write(offset, object_mem.as_slice());
        proof {
            object.lemma_read_raw();
            assert(self.raw_at(ObjectPointer { offset, len }) =~= object.spec_raw());
        }
        ObjectPointer::new(offset, len)
    }

    /// Reads the object at `op` and deserializes it. Bytes past the end of
    /// the device, or bytes that do not read back as an object of this
    /// kind, are a failure that the precondition leaves out.
    pub fn retrieve<O: Object>(&mut self, op: &ObjectPointer) -> (o: O)
        requires
            op.offset + op.len <= old(self).block_dev.data@.len(),
            O::spec_read(old(self).raw_at(*op)) is Some,
        ensures
            *final(self) == *old(self),
            O::spec_read(old(self).raw_at(*op)) == Some(o.node_view()),
    {
        let raw = self.block_dev.read(op.offset, op.len);
        proof {
            O::lemma_read_ok(raw@);
        }
        O::from_raw(raw.as_slice()).unwrap()
    }
}

} // verus!
