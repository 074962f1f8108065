use vstd::bytes::*;
use vstd::prelude::*;
use crate::common::RawSized;

use crate::non_volatile::serialize::{copy_to_array8, get_u64_le, put_slice, put_u64_le};
use crate::object_pointer::{lemma_pointer_roundtrip, ObjectPointer};
use crate::serializable::{
    deserialize_first_uberblock_fields,
    serialize_first_uberblock_fields,
    FirstRawUberblock,
};

verus! {

/// Why raw bytes could not be read as an object.
#[derive(Debug, Clone)]
pub enum RawError {
    /// The block does not start with the magic number; `found` holds the
    /// eight bytes that stand in its place.
    IncorrectMagicNumber { found: Vec<u8> },
    /// Fewer bytes than an uberblock takes.
    Truncated,
}

/// The bytes "ReactDB0" that open every uberblock.
pub open spec fn spec_magic_number() -> Seq<u8> {
    seq![0x52u8, 0x65u8, 0x61u8, 0x63u8, 0x74u8, 0x44u8, 0x42u8, 0x30u8]
}

/// The magic number as an array.
pub fn magic_number() -> (m: [u8; 8])
    ensures
        m@ == spec_magic_number(),
{
    let m: [u8; 8] = [0x52u8, 0x65u8, 0x61u8, 0x63u8, 0x74u8, 0x44u8, 0x42u8, 0x30u8];
    assert(m@ =~= spec_magic_number());
    m
}

/// Whether `bytes` starts with the magic number.
pub fn starts_with_magic(bytes: &[u8]) -> (b: bool)
    requires
        bytes@.len() >= 8,
    ensures
        b == (bytes@.subrange(0, 8) == spec_magic_number()),
{
    let magic = magic_number();
    let mut i: usize = 0;
    while i < 8
        invariant
            0 <= i <= 8,
            bytes@.len() >= 8,
            magic@ == spec_magic_number(),
            forall|j: int| 0 <= j < i ==> bytes@[j] == magic@[j],
        decreases 8 - i,
    {
        if bytes[i] != magic[i] {
            assert(bytes@.subrange(0, 8)[i as int] != spec_magic_number()[i as int]);
            return false;
        }
        i = i + 1;
    }
    assert(bytes@.subrange(0, 8) =~= spec_magic_number());
    true
}

/// Compares eight bytes with the magic number.
fn is_magic_number(found: &[u8; 8]) -> (b: bool)
    ensures
        b == (found@ == spec_magic_number()),
{
    let magic = magic_number();
    let mut i: usize = 0;
    while i < 8
        invariant
            0 <= i <= 8,
            magic@ == spec_magic_number(),
            forall|j: int| 0 <= j < i ==> found@[j] == magic@[j],
        decreases 8 - i,
    {
        if found[i] != magic[i] {
            return false;
        }
        i = i + 1;
    }
    assert(found@ =~= spec_magic_number());
    true
}

/// The root record of the first on-disk layout: the transaction group, the
/// free-space offset and the pointer to the tree root.
#[derive(Debug, Clone, Copy, PartialEq, Eq, Structural)]
pub struct Uberblock {
    pub tgx: u64,
    pub free_space_offset: u64,
    pub tree_root_pointer: ObjectPointer,
}

impl Uberblock {
    /// Size in bytes of the serialized uberblock.
    pub const RAW_SIZE: usize = 40;

    /// The serialized form: the magic number, the transaction group, the
    /// free-space offset (little endian), then the root pointer.
    pub open spec fn spec_bytes(self) -> Seq<u8> {
        spec_magic_number() + spec_u64_to_le_bytes(self.tgx) + spec_u64_to_le_bytes(
            self.free_space_offset,
        ) + self.tree_root_pointer.spec_bytes()
    }

    /// The uberblock that bytes with a valid magic number encode.
    pub open spec fn spec_decode(bytes: Seq<u8>) -> Uberblock {
        Uberblock {
            tgx: spec_u64_from_le_bytes(bytes.subrange(8, 16)),
            free_space_offset: spec_u64_from_le_bytes(bytes.subrange(16, 24)),
            tree_root_pointer: ObjectPointer::spec_decode(bytes.subrange(24, bytes.len() as int)),
        }
    }

    pub fn new(tgx: u64, tree_root_pointer: ObjectPointer, free_space_offset: u64) -> (u: Uberblock)
        ensures
            u.tgx == tgx,
            u.tree_root_pointer == tree_root_pointer,
            u.free_space_offset == free_space_offset,
    {
        Uberblock { tgx, free_space_offset, tree_root_pointer }
    }

    /// Reads an uberblock from `bytes`. Bytes that do not start with the
    /// magic number give `IncorrectMagicNumber`; the precondition leaves out
    /// a buffer shorter than `RAW_SIZE`, and one that has a valid magic
    /// number but bytes left over after the uberblock.
    pub fn from_bytes(bytes: &[u8]) -> (r: Result<Uberblock, RawError>)
        requires
            bytes@.len() >= Self::RAW_SIZE,
            bytes@.subrange(0, 8) == spec_magic_number() ==> bytes@.len() == Self::RAW_SIZE,
        ensures
            bytes@.subrange(0, 8) == spec_magic_number() ==> r == Ok::<Uberblock, RawError>(
                Self::spec_decode(bytes@),
            ),
            bytes@.subrange(0, 8) != spec_magic_number() ==> (r matches Err(
                RawError::IncorrectMagicNumber { found },
            ) && found@ == bytes@.subrange(0, 8)),
    {
        let magic = copy_to_array8(bytes, 0);
        if !is_magic_number(&magic) {
            let found = vstd::slice::slice_to_vec(&magic);
            return Err(RawError::IncorrectMagicNumber { found });
        }
        let tgx = get_u64_le(bytes, 8);
        let free_space_offset = get_u64_le(bytes, 16);
        let rest = vstd::slice::slice_subrange(bytes, 24, bytes.len());
        let tree_root_pointer = match ObjectPointer::from_bytes(rest) {
            Ok(op) => op,
            Err(e) => {
                return Err(e);
            },
        };
        Ok(Uberblock { tgx, tree_root_pointer, free_space_offset })
    }

    /// Appends the serialized uberblock to `bytes`.
    pub fn to_bytes(&self, bytes: &mut Vec<u8>)
        ensures
            final(bytes)@ == old(bytes)@ + self.spec_bytes(),
    {
        let magic = magic_number();
        put_slice(bytes, &magic);
        put_u64_le(bytes, self.tgx);
        put_u64_le(bytes, self.free_space_offset);
        self.tree_root_pointer.to_bytes(bytes);
        assert(bytes@ =~= old(bytes)@ + self.spec_bytes());
    }

    /// Serializes the uberblock with `bincode`: the same bytes that
    /// `to_bytes` appends.
    pub fn serialize(&self) -> (raw: Vec<u8>)
        ensures
            raw@ == self.spec_bytes(),
    {
        let fields: FirstRawUberblock = (
            magic_number(),
            self.tgx,
            self.free_space_offset,
            (self.tree_root_pointer.offset, self.tree_root_pointer.len),
        );
        let raw = match serialize_first_uberblock_fields(&fields) {
            Some(raw) => raw,
            None => Vec::new(),
        };
        assert(raw@ =~= self.spec_bytes());
        raw
    }

    /// Reads an uberblock with `bincode`, which reads the magic number
    /// first. Bytes that do not start with the magic number give
    /// `IncorrectMagicNumber`; fewer bytes than the magic number, or than
    /// an uberblock after a right magic number, give `Truncated`; bytes after
    /// the uberblock are ignored.
    pub fn deserialize(bytes: &[u8]) -> (r: Result<Uberblock, RawError>)
        ensures
            bytes@.len() < 8 ==> r matches Err(RawError::Truncated),
            bytes@.len() >= 8 && bytes@.subrange(0, 8) != spec_magic_number() ==> (r matches Err(
                RawError::IncorrectMagicNumber { found },
            ) && found@ == bytes@.subrange(0, 8)),
            bytes@.len() >= 8 && bytes@.subrange(0, 8) == spec_magic_number() && bytes@.len()
                < Self::RAW_SIZE ==> r matches Err(RawError::Truncated),
            bytes@.len() >= Self::RAW_SIZE && bytes@.subrange(0, 8) == spec_magic_number() ==> r
                == Ok::<Uberblock, RawError>(Self::spec_decode(bytes@)),
    {
        if bytes.len() >= 8 && !starts_with_magic(bytes) {
            let found = vstd::slice::slice_to_vec(vstd::slice::slice_subrange(bytes, 0, 8));
            return Err(RawError::IncorrectMagicNumber { found });
        }
        match deserialize_first_uberblock_fields(bytes) {
            None => Err(RawError::Truncated),
            Some(fields) => {
                let tree_root_pointer = ObjectPointer::new(fields.3.0, fields.3.1);
                assert(bytes@.subrange(24, bytes@.len() as int).subrange(0, 8) =~= bytes@.subrange(24, 32));
                assert(bytes@.subrange(24, bytes@.len() as int).subrange(8, 16) =~= bytes@.subrange(32, 40));
                Ok(Uberblock { tgx: fields.1, free_space_offset: fields.2, tree_root_pointer })
            },
        }
    }

    /// The serialized uberblock in a buffer of its own, `RAW_SIZE` bytes.
    pub fn to_mem(&self) -> (mem: Vec<u8>)
        ensures
            mem@ == self.spec_bytes(),
            mem@.len() == Self::RAW_SIZE,
    {
        let mut mem: Vec<u8> = Vec::new();
        self.to_bytes(&mut mem);
        proof {
            lemma_uberblock_bytes_len(*self);
        }
        assert(mem@ =~= self.spec_bytes());
        mem
    }
}

/// The serialized uberblock has `RAW_SIZE` bytes and starts with the magic
/// number.
pub proof fn lemma_uberblock_bytes_len(u: Uberblock)
    ensures
        u.spec_bytes().len() == Uberblock::RAW_SIZE,
        u.spec_bytes().subrange(0, 8) == spec_magic_number(),
{
    lemma_auto_spec_u64_to_from_le_bytes();
    lemma_pointer_roundtrip(u.tree_root_pointer);
    assert(u.spec_bytes().subrange(0, 8) =~= spec_magic_number());
}

/// Reading back what `to_bytes` wrote gives the same uberblock.
pub proof fn lemma_uberblock_roundtrip(u: Uberblock)
    ensures
        Uberblock::spec_decode(u.spec_bytes()) == u,
{
    lemma_auto_spec_u64_to_from_le_bytes();
    lemma_pointer_roundtrip(u.tree_root_pointer);
    let b = u.spec_bytes();
    lemma_uberblock_bytes_len(u);
    assert(b.subrange(8, 16) =~= spec_u64_to_le_bytes(u.tgx));
    assert(b.subrange(16, 24) =~= spec_u64_to_le_bytes(u.free_space_offset));
    assert(b.subrange(24, b.len() as int) =~= u.tree_root_pointer.spec_bytes());
}

impl RawSized for Uberblock {
    open spec fn spec_raw_size() -> nat {
        40
    }

    fn raw_size() -> (n: usize) {
        Self::RAW_SIZE
    }
}

} // verus!
