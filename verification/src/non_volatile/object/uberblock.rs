use vstd::prelude::*;

use super::object_pointer::ObjectPointer;
use super::object_type::{is_tag, spec_from_tag, spec_tag, ObjectType};
use crate::common::{ConstObjType, RawSized};
use crate::serializable::{
    decode_uberblock,
    deserialize_uberblock_fields,
    encode_uberblock,
    serialize_uberblock_fields,
    RawUberblock,
};
use crate::uberblock::{magic_number, spec_magic_number, starts_with_magic};

verus! {

/// The root record: the transaction group that wrote it, the free-space
/// offset at that time and the pointer to the tree root.
#[derive(Debug, Clone, Copy, PartialEq, Eq, Structural)]
pub struct Uberblock {
    pub txg: u64,
    pub fso: u64,
    pub op: ObjectPointer,
}

/// Why bytes could not be read back as an uberblock.
#[derive(Debug, Clone)]
pub enum UberblockError {
    /// Fewer bytes than an uberblock takes.
    Truncated,
    /// The bytes do not start with the magic number; `found` holds the
    /// eight bytes that stand in its place.
    InvalidMagicNumber { found: Vec<u8> },
}

impl ConstObjType for Uberblock {
    open spec fn spec_obj_type() -> ObjectType {
        ObjectType::Uberblock
    }

    fn obj_type() -> (t: ObjectType) {
        ObjectType::Uberblock
    }
}

impl RawSized for Uberblock {
    open spec fn spec_raw_size() -> nat {
        41
    }

    fn raw_size() -> (n: usize) {
        Self::RAW_SIZE
    }
}

/// The serialized form of an uberblock: the magic number, the transaction
/// group, the free-space offset, then the root pointer's offset, length
/// and type tag.
pub open spec fn uberblock_bytes(u: Uberblock) -> Seq<u8> {
    encode_uberblock(
        (
            [0x52u8, 0x65u8, 0x61u8, 0x63u8, 0x74u8, 0x44u8, 0x42u8, 0x30u8],
            u.txg,
            u.fso,
            (u.op.offset, u.op.len, spec_tag(u.op.object_type)),
        ),
    )
}

/// The outcome of reading bytes as an uberblock: `None` for the bytes on
/// which reading panics (a root pointer whose type tag is no tag).
pub open spec fn read_uberblock(b: Seq<u8>) -> Option<Result<Uberblock, ()>> {
    match decode_uberblock(b) {
        None => Some(Err(())),
        Some(f) => if f.0 != spec_magic_number() {
            Some(Err(()))
        } else if !is_tag(f.3.2) {
            None
        } else {
            Some(
                Ok(
                    Uberblock {
                        txg: f.1,
                        fso: f.2,
                        op: ObjectPointer {
                            offset: f.3.0,
                            len: f.3.1,
                            object_type: spec_from_tag(f.3.2),
                        },
                    },
                ),
            )
        },
    }
}

impl Uberblock {
    /// Size in bytes of the serialized uberblock.
    pub const RAW_SIZE: usize = 41;

    pub fn new(txg: u64, op: ObjectPointer, fso: u64) -> (u: Uberblock)
        ensures
            u.txg == txg,
            u.op == op,
            u.fso == fso,
    {
        Uberblock { txg, fso, op }
    }

    /// Serializes the uberblock.
    pub fn serialize(&self) -> (raw: Vec<u8>)
        ensures
            raw@ == uberblock_bytes(*self),
    {
        let fields: RawUberblock = (
            magic_number(),
            self.txg,
            self.fso,
            (self.op.offset, self.op.len, self.op.object_type.to_u8()),
        );
        proof {
            assert(fields.0@ =~= spec_magic_number());
        }
        match serialize_uberblock_fields(&fields) {
            Some(raw) => raw,
            None => Vec::new(),
        }
    }

    /// Reads an uberblock back with `bincode`, which reads the magic
    /// number first: bytes that do not start with it give
    /// `InvalidMagicNumber`; fewer bytes than the magic number, or than an
    /// uberblock after a right magic number, give `Truncated`. A root
    /// pointer whose type tag is no tag is left out by the precondition.
    pub fn deserialize(bytes: &[u8]) -> (r: Result<Uberblock, UberblockError>)
        requires
            read_uberblock(bytes@) is Some,
        ensures
            r matches Ok(u) ==> read_uberblock(bytes@) == Some(Ok::<Uberblock, ()>(u)),
            r is Err ==> read_uberblock(bytes@) == Some(Err::<Uberblock, ()>(())),
            bytes@.len() >= 8 && bytes@.subrange(0, 8) != spec_magic_number() ==> (r matches Err(
                UberblockError::InvalidMagicNumber { found },
            ) && found@ == bytes@.subrange(0, 8)),
            bytes@.len() < 8 || (bytes@.subrange(0, 8) == spec_magic_number() && bytes@.len()
                < Self::RAW_SIZE) ==> r matches Err(UberblockError::Truncated),
    {
        if bytes.len() >= 8 && !starts_with_magic(bytes) {
            let found = vstd::slice::slice_to_vec(vstd::slice::slice_subrange(bytes, 0, 8));
            return Err(UberblockError::InvalidMagicNumber { found });
        }
        match deserialize_uberblock_fields(bytes) {
            None => Err(UberblockError::Truncated),
            Some(fields) => {
                assert(fields.0@ =~= spec_magic_number());
                let op = ObjectPointer::new(fields.3.0, fields.3.1, ObjectType::from_u8(fields.3.2));
                Ok(Uberblock { txg: fields.1, fso: fields.2, op })
            },
        }
    }
}

/// Reading back a serialized uberblock gives it back.
pub proof fn lemma_uberblock_roundtrip(u: Uberblock)
    ensures
        uberblock_bytes(u).len() == Uberblock::RAW_SIZE,
        read_uberblock(uberblock_bytes(u)) == Some(Ok::<Uberblock, ()>(u)),
{
    vstd::bytes::lemma_auto_spec_u64_to_from_le_bytes();
    let b = uberblock_bytes(u);
    let m = [0x52u8, 0x65u8, 0x61u8, 0x63u8, 0x74u8, 0x44u8, 0x42u8, 0x30u8];
    assert(m@ =~= spec_magic_number());
    assert(b.subrange(0, 8) =~= spec_magic_number());
    assert(b.subrange(8, 16) =~= vstd::bytes::spec_u64_to_le_bytes(u.txg));
    assert(b.subrange(16, 24) =~= vstd::bytes::spec_u64_to_le_bytes(u.fso));
    assert(b.subrange(24, 32) =~= vstd::bytes::spec_u64_to_le_bytes(u.op.offset));
    assert(b.subrange(32, 40) =~= vstd::bytes::spec_u64_to_le_bytes(u.op.len));
    assert(b[40] == spec_tag(u.op.object_type));
}

} // verus!
