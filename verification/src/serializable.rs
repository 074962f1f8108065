//! The on-disk form of objects, written and read by `bincode`.
//!
//! Objects are handed to `bincode` as tuples of integers: a leaf as its
//! `(key, value)` pairs, an inner node as `(key, (offset, len, tag))`
//! entries, an uberblock as `(magic, txg, fso, (offset, len, tag))`.
//! `bincode` (with the options of `bincode::serialize`) writes integers as
//! fixed-size little-endian values, a tuple as its fields one after the
//! other, and a vector as its length (a `u64`) followed by its elements.

use vstd::bytes::*;
use vstd::prelude::*;

verus! {

/// Eight little-endian bytes of `x`.
pub open spec fn le(x: u64) -> Seq<u8> {
    spec_u64_to_le_bytes(x)
}

/// The `u64` whose little-endian bytes start at `p`.
pub open spec fn rd(b: Seq<u8>, p: int) -> u64 {
    spec_u64_from_le_bytes(b.subrange(p, p + 8))
}

/// Bytes of one leaf entry.
pub open spec fn leaf_entry_bytes(e: (u64, u64)) -> Seq<u8> {
    le(e.0) + le(e.1)
}

/// Bytes of the entries of a leaf, one after the other.
pub open spec fn leaf_body(s: Seq<(u64, u64)>) -> Seq<u8>
    decreases s.len(),
{
    if s.len() == 0 {
        Seq::empty()
    } else {
        leaf_body(s.drop_last()) + leaf_entry_bytes(s.last())
    }
}

/// What `bincode::serialize` makes of a vector of leaf entries.
pub open spec fn encode_leaf(s: Seq<(u64, u64)>) -> Seq<u8> {
    le(s.len() as u64) + leaf_body(s)
}

/// Size in bytes of one serialized leaf entry.
pub const LEAF_ENTRY_SIZE: usize = 16;

/// What `bincode::deserialize` reads from `b` as a vector of leaf entries:
/// the length, then that many pairs; `None` when the bytes run out. Bytes
/// after the last entry are ignored.
pub open spec fn decode_leaf(b: Seq<u8>) -> Option<Seq<(u64, u64)>> {
    if b.len() >= 8 && rd(b, 0) <= usize::MAX && 8 + 16 * rd(b, 0) <= b.len() {
        Some(Seq::new(rd(b, 0) as nat, |i: int| (rd(b, 8 + 16 * i), rd(b, 16 + 16 * i))))
    } else {
        None
    }
}

/// Bytes of one inner-node entry: key, child offset, child length, child
/// type tag.
pub open spec fn internal_entry_bytes(e: (u64, (u64, u64, u8))) -> Seq<u8> {
    le(e.0) + le(e.1.0) + le(e.1.1) + seq![e.1.2]
}

/// Bytes of the entries of an inner node, one after the other.
pub open spec fn internal_body(s: Seq<(u64, (u64, u64, u8))>) -> Seq<u8>
    decreases s.len(),
{
    if s.len() == 0 {
        Seq::empty()
    } else {
        internal_body(s.drop_last()) + internal_entry_bytes(s.last())
    }
}

/// What `bincode::serialize` makes of a vector of inner-node entries.
pub open spec fn encode_internal(s: Seq<(u64, (u64, u64, u8))>) -> Seq<u8> {
    le(s.len() as u64) + internal_body(s)
}

/// Size in bytes of one serialized inner-node entry.
pub const INTERNAL_ENTRY_SIZE: usize = 25;

/// What `bincode::deserialize` reads from `b` as a vector of inner-node
/// entries; `None` when the bytes run out.
pub open spec fn decode_internal(b: Seq<u8>) -> Option<Seq<(u64, (u64, u64, u8))>> {
    if b.len() >= 8 && rd(b, 0) <= usize::MAX && 8 + 25 * rd(b, 0) <= b.len() {
        Some(
            Seq::new(
                rd(b, 0) as nat,
                |i: int|
                    (
                        rd(b, 8 + 25 * i),
                        (rd(b, 16 + 25 * i), rd(b, 24 + 25 * i), b[32 + 25 * i]),
                    ),
            ),
        )
    } else {
        None
    }
}

/// Four little-endian bytes of `x`.
pub open spec fn le32(x: u32) -> Seq<u8> {
    spec_u32_to_le_bytes(x)
}

/// The `u32` whose little-endian bytes start at `p`.
pub open spec fn rd32(b: Seq<u8>, p: int) -> u32 {
    spec_u32_from_le_bytes(b.subrange(p, p + 4))
}

/// Bytes of one buffer entry: the key, the message's variant index (a
/// `u32`; `Insert` is variant 0), then the value.
pub open spec fn buffer_entry_bytes(e: (u64, u32, u64)) -> Seq<u8> {
    le(e.0) + le32(e.1) + le(e.2)
}

/// Bytes of the entries of a buffer, one after the other.
pub open spec fn buffer_body(s: Seq<(u64, u32, u64)>) -> Seq<u8>
    decreases s.len(),
{
    if s.len() == 0 {
        Seq::empty()
    } else {
        buffer_body(s.drop_last()) + buffer_entry_bytes(s.last())
    }
}

/// What `bincode::serialize` makes of a vector of buffer entries.
pub open spec fn encode_buffer(s: Seq<(u64, u32, u64)>) -> Seq<u8> {
    le(s.len() as u64) + buffer_body(s)
}

/// Size in bytes of one serialized buffer entry.
pub const BUFFER_ENTRY_SIZE: usize = 20;

/// What `bincode::deserialize` reads from `b` as a vector of buffer
/// entries; `None` when the bytes run out.
pub open spec fn decode_buffer(b: Seq<u8>) -> Option<Seq<(u64, u32, u64)>> {
    if b.len() >= 8 && rd(b, 0) <= usize::MAX && 8 + 20 * rd(b, 0) <= b.len() {
        Some(
            Seq::new(
                rd(b, 0) as nat,
                |i: int| (rd(b, 8 + 20 * i), rd32(b, 16 + 20 * i), rd(b, 20 + 20 * i)),
            ),
        )
    } else {
        None
    }
}

proof fn lemma_buffer_body_len(s: Seq<(u64, u32, u64)>)
    ensures
        buffer_body(s).len() == 20 * s.len(),
    decreases s.len(),
{
    lemma_auto_spec_u64_to_from_le_bytes();
    lemma_auto_spec_u32_to_from_le_bytes();
    if s.len() > 0 {
        lemma_buffer_body_len(s.drop_last());
    }
}

/// A serialized buffer takes eight bytes for its length and twenty per
/// entry.
pub proof fn lemma_encode_buffer_len(s: Seq<(u64, u32, u64)>)
    ensures
        encode_buffer(s).len() == 8 + 20 * s.len(),
{
    lemma_auto_spec_u64_to_from_le_bytes();
    lemma_buffer_body_len(s);
}

/// The bytes of entry `i` of a buffer body: key, variant index, value.
proof fn lemma_buffer_body_at(s: Seq<(u64, u32, u64)>, i: int)
    requires
        0 <= i < s.len(),
    ensures
        buffer_body(s).subrange(20 * i, 20 * i + 8) == le(s[i].0),
        buffer_body(s).subrange(20 * i + 8, 20 * i + 12) == le32(s[i].1),
        buffer_body(s).subrange(20 * i + 12, 20 * i + 20) == le(s[i].2),
    decreases s.len(),
{
    lemma_auto_spec_u64_to_from_le_bytes();
    lemma_auto_spec_u32_to_from_le_bytes();
    let pre = s.drop_last();
    lemma_buffer_body_len(pre);
    let body = buffer_body(s);
    let l = s.last();
    assert(body == buffer_body(pre) + (le(l.0) + le32(l.1) + le(l.2)));
    if i == s.len() - 1 {
        assert(body.subrange(20 * i, 20 * i + 8) =~= le(s[i].0));
        assert(body.subrange(20 * i + 8, 20 * i + 12) =~= le32(s[i].1));
        assert(body.subrange(20 * i + 12, 20 * i + 20) =~= le(s[i].2));
    } else {
        lemma_buffer_body_at(pre, i);
        assert(pre[i] == s[i]);
        let pb = buffer_body(pre);
        assert(body.subrange(20 * i, 20 * i + 8) =~= pb.subrange(20 * i, 20 * i + 8));
        assert(body.subrange(20 * i + 8, 20 * i + 12) =~= pb.subrange(20 * i + 8, 20 * i + 12));
        assert(body.subrange(20 * i + 12, 20 * i + 20) =~= pb.subrange(20 * i + 12, 20 * i + 20));
    }
}

/// A serialized buffer reads back as the entries it was made of.
pub proof fn lemma_decode_encode_buffer(s: Seq<(u64, u32, u64)>)
    requires
        s.len() <= usize::MAX,
    ensures
        decode_buffer(encode_buffer(s)) == Some(s),
{
    lemma_auto_spec_u64_to_from_le_bytes();
    lemma_auto_spec_u32_to_from_le_bytes();
    lemma_buffer_body_len(s);
    let b = encode_buffer(s);
    let body = buffer_body(s);
    assert(b.subrange(0, 8) =~= le(s.len() as u64));
    assert(rd(b, 0) == s.len());
    assert forall|i: int| 0 <= i < s.len() implies rd(b, 8 + 20 * i) == s[i].0 && rd32(b, 16 + 20 * i)
        == s[i].1 && rd(b, 20 + 20 * i) == s[i].2 by {
        lemma_buffer_body_at(s, i);
        assert(b.subrange(8 + 20 * i, 16 + 20 * i) =~= body.subrange(20 * i, 20 * i + 8));
        assert(b.subrange(16 + 20 * i, 20 + 20 * i) =~= body.subrange(20 * i + 8, 20 * i + 12));
        assert(b.subrange(20 + 20 * i, 28 + 20 * i) =~= body.subrange(20 * i + 12, 20 * i + 20));
    }
    assert(decode_buffer(b).unwrap() =~= s);
}

/// `bincode::serialize` on a vector of `(u64, u32, u64)` entries: the
/// length and then each entry's fields. `bincode` writes a message
/// `Insert(Insert { value })` as its variant index, a `u32`, followed by the
/// value, so these are the bytes of a buffer's entries. It does not fail.
#[verifier::external_body]
pub(crate) fn serialize_buffer_entries(entries: &Vec<(u64, u32, u64)>) -> (r: Option<Vec<u8>>)
    ensures
        r is Some,
        r.unwrap()@ == encode_buffer(entries@),
{
    bincode::serialize(entries).ok()
}

/// `bincode::deserialize` of a vector of `(u64, u32, u64)` entries from
/// `bytes`; fails when the bytes run out, ignores bytes left over.
#[verifier::external_body]
pub(crate) fn deserialize_buffer_entries(bytes: &[u8]) -> (r: Option<Vec<(u64, u32, u64)>>)
    ensures
        r is None <==> decode_buffer(bytes@) is None,
        r matches Some(v) ==> decode_buffer(bytes@) == Some(v@),
{
    bincode::deserialize::<Vec<(u64, u32, u64)>>(bytes).ok()
}

/// The fields of an uberblock of the first layout as `bincode` sees them:
/// the magic number, the transaction group, the free-space offset and the
/// root pointer (offset, length).
pub type FirstRawUberblock = ([u8; 8], u64, u64, (u64, u64));

/// What `bincode::serialize` makes of the fields of a first-layout
/// uberblock.
pub open spec fn encode_first_uberblock(u: FirstRawUberblock) -> Seq<u8> {
    u.0@ + le(u.1) + le(u.2) + le(u.3.0) + le(u.3.1)
}

/// The fields that `bincode::deserialize` reads from `b`, with the magic
/// number as a sequence; `None` when fewer than 40 bytes are given.
pub open spec fn decode_first_uberblock(b: Seq<u8>) -> Option<(Seq<u8>, u64, u64, (u64, u64))> {
    if b.len() >= 40 {
        Some((b.subrange(0, 8), rd(b, 8), rd(b, 16), (rd(b, 24), rd(b, 32))))
    } else {
        None
    }
}

/// `bincode::serialize` on the fields of a first-layout uberblock: the
/// eight magic bytes, then the integers; it does not fail.
#[verifier::external_body]
pub(crate) fn serialize_first_uberblock_fields(u: &FirstRawUberblock) -> (r: Option<Vec<u8>>)
    ensures
        r is Some,
        r.unwrap()@ == encode_first_uberblock(*u),
{
    bincode::serialize(u).ok()
}

/// `bincode::deserialize` of the fields of a first-layout uberblock from
/// `bytes`; fails when fewer than 40 bytes are given, ignores bytes left
/// over.
#[verifier::external_body]
pub(crate) fn deserialize_first_uberblock_fields(bytes: &[u8]) -> (r: Option<FirstRawUberblock>)
    ensures
        r is None <==> decode_first_uberblock(bytes@) is None,
        r matches Some(u) ==> decode_first_uberblock(bytes@) == Some((u.0@, u.1, u.2, u.3)),
{
    bincode::deserialize::<FirstRawUberblock>(bytes).ok()
}

/// The fields of an uberblock as `bincode` sees them: the magic number,
/// the transaction group, the free-space offset and the root pointer
/// (offset, length, type tag).
pub type RawUberblock = ([u8; 8], u64, u64, (u64, u64, u8));

/// What `bincode::serialize` makes of the fields of an uberblock.
pub open spec fn encode_uberblock(u: RawUberblock) -> Seq<u8> {
    u.0@ + le(u.1) + le(u.2) + le(u.3.0) + le(u.3.1) + seq![u.3.2]
}

/// The fields that `bincode::deserialize` reads from `b`, with the magic
/// number as a sequence; `None` when fewer than 41 bytes are given.
pub open spec fn decode_uberblock(b: Seq<u8>) -> Option<(Seq<u8>, u64, u64, (u64, u64, u8))> {
    if b.len() >= 41 {
        Some((b.subrange(0, 8), rd(b, 8), rd(b, 16), (rd(b, 24), rd(b, 32), b[40])))
    } else {
        None
    }
}

/// A serialized leaf takes eight bytes for its length and sixteen per
/// entry.
pub proof fn lemma_encode_leaf_len(s: Seq<(u64, u64)>)
    ensures
        encode_leaf(s).len() == 8 + 16 * s.len(),
    decreases s.len(),
{
    lemma_auto_spec_u64_to_from_le_bytes();
    lemma_leaf_body_len(s);
}

proof fn lemma_leaf_body_len(s: Seq<(u64, u64)>)
    ensures
        leaf_body(s).len() == 16 * s.len(),
    decreases s.len(),
{
    lemma_auto_spec_u64_to_from_le_bytes();
    if s.len() > 0 {
        lemma_leaf_body_len(s.drop_last());
    }
}

/// A serialized inner node takes eight bytes for its length and
/// twenty-five per entry.
pub proof fn lemma_encode_internal_len(s: Seq<(u64, (u64, u64, u8))>)
    ensures
        encode_internal(s).len() == 8 + 25 * s.len(),
    decreases s.len(),
{
    lemma_auto_spec_u64_to_from_le_bytes();
    lemma_internal_body_len(s);
}

proof fn lemma_internal_body_len(s: Seq<(u64, (u64, u64, u8))>)
    ensures
        internal_body(s).len() == 25 * s.len(),
    decreases s.len(),
{
    lemma_auto_spec_u64_to_from_le_bytes();
    if s.len() > 0 {
        lemma_internal_body_len(s.drop_last());
    }
}

/// The bytes of entry `i` of a leaf body: its key, then its value.
proof fn lemma_leaf_body_at(s: Seq<(u64, u64)>, i: int)
    requires
        0 <= i < s.len(),
    ensures
        leaf_body(s).subrange(16 * i, 16 * i + 8) == le(s[i].0),
        leaf_body(s).subrange(16 * i + 8, 16 * i + 16) == le(s[i].1),
    decreases s.len(),
{
    lemma_auto_spec_u64_to_from_le_bytes();
    let pre = s.drop_last();
    lemma_leaf_body_len(pre);
    let body = leaf_body(s);
    assert(body == leaf_body(pre) + (le(s.last().0) + le(s.last().1)));
    if i == s.len() - 1 {
        assert(body.subrange(16 * i, 16 * i + 8) =~= le(s[i].0));
        assert(body.subrange(16 * i + 8, 16 * i + 16) =~= le(s[i].1));
    } else {
        lemma_leaf_body_at(pre, i);
        assert(pre[i] == s[i]);
        assert(body.subrange(16 * i, 16 * i + 8) =~= leaf_body(pre).subrange(16 * i, 16 * i + 8));
        assert(body.subrange(16 * i + 8, 16 * i + 16) =~= leaf_body(pre).subrange(
            16 * i + 8,
            16 * i + 16,
        ));
    }
}

/// A serialized leaf reads back as the entries it was made of.
pub proof fn lemma_decode_encode_leaf(s: Seq<(u64, u64)>)
    requires
        s.len() <= usize::MAX,
    ensures
        decode_leaf(encode_leaf(s)) == Some(s),
{
    lemma_auto_spec_u64_to_from_le_bytes();
    lemma_leaf_body_len(s);
    let b = encode_leaf(s);
    assert(b.subrange(0, 8) =~= le(s.len() as u64));
    assert(rd(b, 0) == s.len());
    assert forall|i: int| 0 <= i < s.len() implies rd(b, 8 + 16 * i) == s[i].0 && rd(b, 16 + 16 * i)
        == s[i].1 by {
        lemma_leaf_body_at(s, i);
        assert(b.subrange(8 + 16 * i, 16 + 16 * i) =~= leaf_body(s).subrange(16 * i, 16 * i + 8));
        assert(b.subrange(16 + 16 * i, 24 + 16 * i) =~= leaf_body(s).subrange(
            16 * i + 8,
            16 * i + 16,
        ));
    }
    assert(decode_leaf(b).unwrap() =~= s);
}

/// The bytes of entry `i` of an inner-node body: key, child offset, child
/// length, then the tag byte.
proof fn lemma_internal_body_at(s: Seq<(u64, (u64, u64, u8))>, i: int)
    requires
        0 <= i < s.len(),
    ensures
        internal_body(s).subrange(25 * i, 25 * i + 8) == le(s[i].0),
        internal_body(s).subrange(25 * i + 8, 25 * i + 16) == le(s[i].1.0),
        internal_body(s).subrange(25 * i + 16, 25 * i + 24) == le(s[i].1.1),
        internal_body(s)[25 * i + 24] == s[i].1.2,
    decreases s.len(),
{
    lemma_auto_spec_u64_to_from_le_bytes();
    let pre = s.drop_last();
    lemma_internal_body_len(pre);
    let body = internal_body(s);
    let l = s.last();
    assert(body == internal_body(pre) + (le(l.0) + le(l.1.0) + le(l.1.1) + seq![l.1.2]));
    if i == s.len() - 1 {
        assert(body.subrange(25 * i, 25 * i + 8) =~= le(s[i].0));
        assert(body.subrange(25 * i + 8, 25 * i + 16) =~= le(s[i].1.0));
        assert(body.subrange(25 * i + 16, 25 * i + 24) =~= le(s[i].1.1));
    } else {
        lemma_internal_body_at(pre, i);
        assert(pre[i] == s[i]);
        let pb = internal_body(pre);
        assert(body.subrange(25 * i, 25 * i + 8) =~= pb.subrange(25 * i, 25 * i + 8));
        assert(body.subrange(25 * i + 8, 25 * i + 16) =~= pb.subrange(25 * i + 8, 25 * i + 16));
        assert(body.subrange(25 * i + 16, 25 * i + 24) =~= pb.subrange(25 * i + 16, 25 * i + 24));
        assert(body[25 * i + 24] == pb[25 * i + 24]);
    }
}

/// A serialized inner node reads back as the entries it was made of.
pub proof fn lemma_decode_encode_internal(s: Seq<(u64, (u64, u64, u8))>)
    requires
        s.len() <= usize::MAX,
    ensures
        decode_internal(encode_internal(s)) == Some(s),
{
    lemma_auto_spec_u64_to_from_le_bytes();
    lemma_internal_body_len(s);
    let b = encode_internal(s);
    let body = internal_body(s);
    assert(b.subrange(0, 8) =~= le(s.len() as u64));
    assert(rd(b, 0) == s.len());
    assert forall|i: int| 0 <= i < s.len() implies rd(b, 8 + 25 * i) == s[i].0 && rd(b, 16 + 25 * i)
        == s[i].1.0 && rd(b, 24 + 25 * i) == s[i].1.1 && b[32 + 25 * i] == s[i].1.2 by {
        lemma_internal_body_at(s, i);
        assert(b.subrange(8 + 25 * i, 16 + 25 * i) =~= body.subrange(25 * i, 25 * i + 8));
        assert(b.subrange(16 + 25 * i, 24 + 25 * i) =~= body.subrange(25 * i + 8, 25 * i + 16));
        assert(b.subrange(24 + 25 * i, 32 + 25 * i) =~= body.subrange(25 * i + 16, 25 * i + 24));
        assert(b[32 + 25 * i] == body[25 * i + 24]);
    }
    assert(decode_internal(b).unwrap() =~= s);
}

/// `bincode::serialize` on a vector of `(u64, u64)` pairs. With the
/// options of `bincode::serialize` (no size limit, fixed-size little-endian
/// integers) the length is known up front and the output is a `Vec`, so
/// the call does not fail; the bytes are the length and then each pair.
#[verifier::external_body]
pub(crate) fn serialize_leaf_entries(entries: &Vec<(u64, u64)>) -> (r: Option<Vec<u8>>)
    ensures
        r is Some,
        r.unwrap()@ == encode_leaf(entries@),
{
    bincode::serialize(entries).ok()
}

/// `bincode::deserialize` of a vector of `(u64, u64)` pairs from `bytes`:
/// it reads the length and then the pairs, fails when the bytes run out,
/// and ignores bytes left over.
#[verifier::external_body]
pub(crate) fn deserialize_leaf_entries(bytes: &[u8]) -> (r: Option<Vec<(u64, u64)>>)
    ensures
        r is None <==> decode_leaf(bytes@) is None,
        r matches Some(v) ==> decode_leaf(bytes@) == Some(v@),
{
    bincode::deserialize::<Vec<(u64, u64)>>(bytes).ok()
}

/// `bincode::serialize` on a vector of `(u64, (u64, u64, u8))` entries:
/// the length and then each entry's fields; it does not fail.
#[verifier::external_body]
pub(crate) fn serialize_internal_entries(entries: &Vec<(u64, (u64, u64, u8))>) -> (r: Option<
    Vec<u8>,
>)
    ensures
        r is Some,
        r.unwrap()@ == encode_internal(entries@),
{
    bincode::serialize(entries).ok()
}

/// `bincode::deserialize` of a vector of `(u64, (u64, u64, u8))` entries
/// from `bytes`; fails when the bytes run out, ignores bytes left over.
#[verifier::external_body]
pub(crate) fn deserialize_internal_entries(bytes: &[u8]) -> (r: Option<Vec<(u64, (u64, u64, u8))>>)
    ensures
        r is None <==> decode_internal(bytes@) is None,
        r matches Some(v) ==> decode_internal(bytes@) == Some(v@),
{
    bincode::deserialize::<Vec<(u64, (u64, u64, u8))>>(bytes).ok()
}

/// `bincode::serialize` on the fields of an uberblock: the eight magic
/// bytes (an array has no length prefix), then the integers; it does not
/// fail.
#[verifier::external_body]
pub(crate) fn serialize_uberblock_fields(u: &RawUberblock) -> (r: Option<Vec<u8>>)
    ensures
        r is Some,
        r.unwrap()@ == encode_uberblock(*u),
{
    bincode::serialize(u).ok()
}

/// `bincode::deserialize` of the fields of an uberblock from `bytes`; fails
/// when fewer than 41 bytes are given, ignores bytes left over.
#[verifier::external_body]
pub(crate) fn deserialize_uberblock_fields(bytes: &[u8]) -> (r: Option<RawUberblock>)
    ensures
        r is None <==> decode_uberblock(bytes@) is None,
        r matches Some(u) ==> decode_uberblock(bytes@) == Some((u.0@, u.1, u.2, u.3)),
{
    bincode::deserialize::<RawUberblock>(bytes).ok()
}

} // verus!
