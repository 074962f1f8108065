use vstd::prelude::*;

use crate::non_volatile::object::object_type::ObjectType;

verus! {

/// Types whose serialized form has a fixed length.
pub trait RawSized {
    /// size of the serialized form in bytes
    spec fn spec_raw_size() -> nat;

    fn raw_size() -> (n: usize)
        ensures
            n as nat == Self::spec_raw_size(),
    ;
}

/// Types that are stored on the device under a fixed object type tag.
pub trait ConstObjType {
    spec fn spec_obj_type() -> ObjectType;

    fn obj_type() -> (t: ObjectType)
        ensures
            t == Self::spec_obj_type(),
    ;
}

/// `num::cast::<u64, u64>`: converting a `u64` to a `u64` always succeeds
/// and keeps the value.
#[verifier::external_body]
pub(crate) fn cast_u64(size: u64) -> (r: Option<u64>)
    ensures
        r == Some(size),
{
    num::cast::<u64, u64>(size)
}

} // verus!
