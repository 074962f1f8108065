//! A space manager with a cache in front: objects stored or read once are
//! kept, by offset, and handed out again without reading the device.

use std::collections::HashMap;
use std::rc::Rc;
use vstd::prelude::*;

use crate::non_volatile::block_device::{spec_write, BlockImage};
use crate::non_volatile::object::any_rc_object::{rc_clone, AnyRcObject, Object};
use crate::object_pointer::ObjectPointer;
use crate::space_manager::SpaceManager;

verus! {

broadcast use vstd::std_specs::hash::group_hash_axioms;

/// The space manager and the cache of the objects it stored or read.
#[derive(Debug)]
pub struct CachedSpaceManager {
    sm: SpaceManager,
    map: HashMap<u64, AnyRcObject>,
}

impl CachedSpaceManager {
    /// The space manager underneath.
    pub closed spec fn space(&self) -> SpaceManager {
        self.sm
    }

    /// The cached objects, by offset.
    pub closed spec fn cache(&self) -> Map<u64, AnyRcObject> {
        self.map@
    }

    /// A cached space manager over `block_dev` that hands out space from
    /// `offset` on, with nothing cached.
    pub fn new(offset: u64, block_dev: BlockImage) -> (c: Self)
        ensures
            c.space().block_dev.data@ == block_dev.data@,
            c.space().free_space_offset == offset,
            c.cache() == Map::<u64, AnyRcObject>::empty(),
    {
        Self { sm: SpaceManager::new(offset, block_dev), map: HashMap::new() }
    }

    /// Stores `object` through the space manager and caches it at its
    /// offset.
    pub fn store<O: Object>(&mut self, object: O) -> (op: ObjectPointer)
        requires
            old(self).space().free_space_offset + object.spec_raw().len() <= usize::MAX,
            old(self).space().free_space_offset + object.spec_raw().len() <= u64::MAX,
        ensures
            op == (ObjectPointer {
                offset: old(self).space().free_space_offset,
                len: object.spec_raw().len() as u64,
            }),
            final(self).space().free_space_offset == old(self).space().free_space_offset
                + object.spec_raw().len(),
            final(self).space().block_dev.data@ == spec_write(
                old(self).space().block_dev.data@,
                old(self).space().free_space_offset as int,
                object.spec_raw(),
            ),
            O::spec_read(final(self).space().raw_at(op)) == Some(object.node_view()),
            final(self).cache().dom() == old(self).cache().dom().insert(op.offset),
            final(self).cache()[op.offset].kind() == O::spec_obj_type(),
            final(self).cache()[op.offset].view_node() == object.node_view(),
            forall|k: u64|
                k != op.offset && old(self).cache().contains_key(k) ==> #[trigger] final(self).cache()[k]
                    == old(self).cache()[k],
    {
        let op = self.sm.store(&object);
        let a = O::into_any(Rc::new(object));
        self.map.insert(op.offset, a);
        op
    }

    /// The object at `op`: the cached one on a hit; on a miss, the object
    /// read from the device, which is then cached. A cached object of
    /// another kind, or bytes that do not read back as one, are a failure
    /// that the precondition leaves out.
    pub fn retrieve<O: Object>(&mut self, op: &ObjectPointer) -> (r: Rc<O>)
        requires
            old(self).cache().contains_key(op.offset) ==> old(self).cache()[op.offset].kind()
                == O::spec_obj_type(),
            !old(self).cache().contains_key(op.offset) ==> op.offset + op.len <= old(self).space().block_dev.data@.len()
                && O::spec_read(old(self).space().raw_at(*op)) is Some,
        ensures
            final(self).space() == old(self).space(),
            old(self).cache().contains_key(op.offset) ==> final(self).cache() == old(self).cache()
                && r.node_view() == old(self).cache()[op.offset].view_node(),
            !old(self).cache().contains_key(op.offset) ==> {
                &&& Some(r.node_view()) == O::spec_read(old(self).space().raw_at(*op))
                &&& final(self).cache().dom() == old(self).cache().dom().insert(op.offset)
                &&& final(self).cache()[op.offset].kind() == O::spec_obj_type()
                &&& final(self).cache()[op.offset].view_node() == r.node_view()
                &&& forall|k: u64|
                    k != op.offset && old(self).cache().contains_key(k)
                        ==> #[trigger] final(self).cache()[k] == old(self).cache()[k]
            },
    {
        match self.map.get(&op.offset) {
            Some(a) => O::from_any(a).unwrap(),
            None => {
                let o = self.sm.retrieve::<O>(op);
                let rc = Rc::new(o);
                let a = O::into_any(rc_clone(&rc));
                self.map.insert(op.offset, a);
                rc
            },
        }
    }

    /// The free-space offset, to be changed in place.
    pub fn get_mut_free_space_offset(&mut self) -> (r: &mut u64)
        ensures
            *r == old(self).space().free_space_offset,
            final(self).space().free_space_offset == *final(r),
            final(self).space().block_dev == old(self).space().block_dev,
            final(self).cache() == old(self).cache(),
    {
        &mut self.sm.free_space_offset
    }

    /// The block device, to be changed in place.
    pub fn get_mut_block_dev(&mut self) -> (r: &mut BlockImage)
        ensures
            *r == old(self).space().block_dev,
            final(self).space().block_dev == *final(r),
            final(self).space().free_space_offset == old(self).space().free_space_offset,
            final(self).cache() == old(self).cache(),
    {
        &mut self.sm.block_dev
    }

    /// The space manager, to be changed in place.
    pub fn get_mut_sm(&mut self) -> (r: &mut SpaceManager)
        ensures
            *r == old(self).space(),
            final(self).space() == *final(r),
            final(self).cache() == old(self).cache(),
    {
        &mut self.sm
    }
}

} // verus!
