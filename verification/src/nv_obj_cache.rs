use std::collections::HashMap;
use std::rc::Rc;
use vstd::prelude::*;

use crate::non_volatile::object::any_rc_object::{AnyRcObject, Object};
use crate::non_volatile::object::object_pointer::ObjectPointer;

verus! {

broadcast use vstd::std_specs::hash::group_hash_axioms;

/// The clean cache: the objects written or read so far, by offset.
#[derive(Debug)]
pub struct NVObjectCache {
    pub map: HashMap<u64, AnyRcObject>,
}

impl NVObjectCache {
    pub fn new() -> (c: Self)
        ensures
            c.map@ == Map::<u64, AnyRcObject>::empty(),
    {
        Self { map: HashMap::new() }
    }

    /// The cached object at the pointer's offset, if any. An object of
    /// another kind there cannot be converted and is left out by the
    /// precondition.
    pub fn get<O: Object>(&self, op: &ObjectPointer) -> (r: Option<Rc<O>>)
        requires
            self.map@.contains_key(op.offset) ==> self.map@[op.offset].kind() == O::spec_obj_type(),
        ensures
            r is Some <==> self.map@.contains_key(op.offset),
            r matches Some(o) ==> o.node_view() == self.map@[op.offset].view_node(),
    {
        match self.map.get(&op.offset) {
            Some(a) => Some(O::from_any(a).unwrap()),
            None => None,
        }
    }

    /// Caches `obj` at the pointer's offset, replacing what was there.
    pub fn insert<O: Object>(&mut self, op: &ObjectPointer, obj: O)
        ensures
            final(self).map@.dom() == old(self).map@.dom().insert(op.offset),
            final(self).map@[op.offset].kind() == O::spec_obj_type(),
            final(self).map@[op.offset].view_node() == obj.node_view(),
            forall|k: u64|
                k != op.offset && old(self).map@.contains_key(k) ==> #[trigger] final(self).map@[k]
                    == old(self).map@[k],
    {
        let a = O::into_any(Rc::new(obj));
        self.map.insert(op.offset, a);
    }
}

} // verus!
