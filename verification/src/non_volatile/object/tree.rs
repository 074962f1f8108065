use std::marker::PhantomData;
use vstd::prelude::*;

use super::any_rc_object::{
    internal_entries_from_raw,
    internal_entries_to_raw,
    internal_tuple,
    leaf_entries_from_raw,
    leaf_entries_to_raw,
    leaf_pair,
    pair_leaf,
    tags_valid,
    tuple_internal,
};
use super::object_pointer::ObjectPointer;
use super::object_type::ObjectType;
use crate::common::ConstObjType;
use crate::serializable::{decode_internal, decode_leaf, encode_internal, encode_leaf};

pub mod buffer_node;
pub mod internal_node;
pub mod leaf_node;

pub use buffer_node::{BufferNode, Insert, Message};
pub use internal_node::InternalNode;
pub use leaf_node::LeafNode;

verus! {

/// A key and the value stored under it in a node.
#[derive(Debug, Clone, Copy)]
pub struct NodeEntry<K, V> {
    pub key: K,
    pub value: V,
}

impl<K, V> NodeEntry<K, V> {
    pub fn new(key: K, value: V) -> (e: Self)
        ensures
            e.key == key,
            e.value == value,
    {
        Self { key, value }
    }
}

/// Strictly increasing.
pub open spec fn strictly_increasing(s: Seq<u64>) -> bool {
    forall|i: int, j: int| 0 <= i < j < s.len() ==> s[i] < s[j]
}

/// Whether the sequence strictly increases: each element is greater than
/// the one before it (true for an empty sequence and for one element).
pub fn is_sorted(s: &[u64]) -> (b: bool)
    ensures
        b == strictly_increasing(s@),
{
    if s.len() == 0 {
        return true;
    }
    let mut last = s[0];
    let mut i: usize = 1;
    while i < s.len()
        invariant
            1 <= i <= s@.len(),
            last == s@[i - 1],
            forall|a: int, c: int| 0 <= a < c < i ==> s@[a] < s@[c],
        decreases s@.len() - i,
    {
        if s[i] <= last {
            assert(s@[i - 1] >= s@[i as int]);
            return false;
        }
        last = s[i];
        i = i + 1;
    }
    true
}

/// Keys strictly increase along the entries.
pub open spec fn entries_sorted<V>(s: Seq<NodeEntry<u64, V>>) -> bool {
    forall|i: int, j: int| 0 <= i < j < s.len() ==> s[i].key < s[j].key
}

/// Whether some entry has key `k`.
pub open spec fn has_key<V>(s: Seq<NodeEntry<u64, V>>, k: u64) -> bool {
    exists|i: int| 0 <= i < s.len() && s[i].key == k
}

/// The key-to-value map that a sequence of entries with distinct keys
/// stands for.
pub open spec fn entries_map<V>(s: Seq<NodeEntry<u64, V>>) -> Map<u64, V> {
    Map::new(
        |k: u64| has_key(s, k),
        |k: u64| s[choose|i: int| 0 <= i < s.len() && s[i].key == k].value,
    )
}

/// Binary search over entries sorted by strictly increasing key: `Ok(i)`
/// when entry `i` has the key, else `Err(i)` with `i` the position at which
/// the key would be inserted to keep the order.
pub fn search_key<V>(entries: &[NodeEntry<u64, V>], key: u64) -> (r: Result<usize, usize>)
    requires
        entries_sorted(entries@),
    ensures
        match r {
            Ok(i) => i < entries@.len() && entries@[i as int].key == key,
            Err(i) => i <= entries@.len() && (forall|j: int|
                0 <= j < i ==> #[trigger] entries@[j].key < key) && (forall|j: int|
                i <= j < entries@.len() ==> key < #[trigger] entries@[j].key),
        },
{
    let mut lo: usize = 0;
    let mut hi: usize = entries.len();
    while lo < hi
        invariant
            0 <= lo <= hi <= entries@.len(),
            entries_sorted(entries@),
            forall|j: int| 0 <= j < lo ==> #[trigger] entries@[j].key < key,
            forall|j: int| hi <= j < entries@.len() ==> key < #[trigger] entries@[j].key,
        decreases hi - lo,
    {
        let mid = lo + (hi - lo) / 2;
        let k = entries[mid].key;
        if k == key {
            return Ok(mid);
        } else if k < key {
            lo = mid + 1;
        } else {
            hi = mid;
        }
    }
    Err(lo)
}

/// Inserting an entry into a sorted sequence at its place, or replacing the
/// entry with the same key, updates the map at that key and keeps the order.
proof fn lemma_map_after_put<V>(
    old_s: Seq<NodeEntry<u64, V>>,
    new_s: Seq<NodeEntry<u64, V>>,
    e: NodeEntry<u64, V>,
)
    requires
        entries_sorted(old_s),
        entries_sorted(new_s),
        exists|i: int| 0 <= i < new_s.len() && new_s[i] == e,
        forall|j: int|
            0 <= j < new_s.len() && new_s[j].key != e.key ==> exists|l: int|
                0 <= l < old_s.len() && old_s[l] == #[trigger] new_s[j],
        forall|l: int|
            0 <= l < old_s.len() && old_s[l].key != e.key ==> exists|j: int|
                0 <= j < new_s.len() && new_s[j] == #[trigger] old_s[l],
    ensures
        entries_map(new_s) == entries_map(old_s).insert(e.key, e.value),
{
    let m1 = entries_map(new_s);
    let m2 = entries_map(old_s).insert(e.key, e.value);
    assert forall|k: u64| #[trigger] m1.contains_key(k) == m2.contains_key(k) by {
        if k != e.key {
            if has_key(new_s, k) {
                let j = choose|j: int| 0 <= j < new_s.len() && new_s[j].key == k;
                let l = choose|l: int| 0 <= l < old_s.len() && old_s[l] == new_s[j];
                assert(old_s[l].key == k);
            }
            if has_key(old_s, k) {
                let l = choose|l: int| 0 <= l < old_s.len() && old_s[l].key == k;
                let j = choose|j: int| 0 <= j < new_s.len() && new_s[j] == old_s[l];
                assert(new_s[j].key == k);
            }
        } else {
            let i = choose|i: int| 0 <= i < new_s.len() && new_s[i] == e;
            assert(new_s[i].key == k);
        }
    }
    assert forall|k: u64| #[trigger] m1.contains_key(k) implies m1[k] == m2[k] by {
        let j = choose|j: int| 0 <= j < new_s.len() && new_s[j].key == k;
        if k == e.key {
            let i = choose|i: int| 0 <= i < new_s.len() && new_s[i] == e;
            if i != j {
                if i < j {
                    assert(new_s[i].key < new_s[j].key);
                } else {
                    assert(new_s[j].key < new_s[i].key);
                }
            }
        } else {
            let l = choose|l: int| 0 <= l < old_s.len() && old_s[l] == new_s[j];
            assert(old_s[l].key == k);
            let l2 = choose|l2: int| 0 <= l2 < old_s.len() && old_s[l2].key == k;
            if l != l2 {
                if l < l2 {
                    assert(old_s[l].key < old_s[l2].key);
                } else {
                    assert(old_s[l2].key < old_s[l].key);
                }
            }
        }
    }
    assert(m1 =~= m2);
}

/// Puts `entry` into entries sorted by strictly increasing key: replaces the
/// value of the entry with the same key and returns the value it had, or
/// inserts the entry at its place and returns `None`.
pub fn insert_sorted<V>(entries: &mut Vec<NodeEntry<u64, V>>, entry: NodeEntry<u64, V>) -> (r:
    Option<V>)
    requires
        entries_sorted(old(entries)@),
    ensures
        entries_sorted(final(entries)@),
        entries_map(final(entries)@) == entries_map(old(entries)@).insert(entry.key, entry.value),
        match r {
            Some(v) => exists|i: int|
                0 <= i < old(entries)@.len() && old(entries)@[i].key == entry.key
                    && old(entries)@[i].value == v && final(entries)@ == old(entries)@.update(
                    i,
                    entry,
                ),
            None => !has_key(old(entries)@, entry.key) && exists|i: int|
                0 <= i <= old(entries)@.len() && final(entries)@ == old(entries)@.insert(
                    i,
                    entry,
                ),
        },
{
    let ghost old_s = entries@;
    match search_key(entries.as_slice(), entry.key) {
        Ok(i) => {
            let old_entry = entries.remove(i);
            proof {
                lemma_put_update(old_s, i as int, entry);
            }
            entries.insert(i, entry);
            assert(entries@ =~= old_s.update(i as int, entry));
            Some(old_entry.value)
        },
        Err(i) => {
            proof {
                lemma_put_insert(old_s, i as int, entry);
            }
            entries.insert(i, entry);
            None
        },
    }
}

/// Replacing the entry at `i` by one with the same key keeps the order and
/// updates the map at that key.
proof fn lemma_put_update<V>(old_s: Seq<NodeEntry<u64, V>>, i: int, e: NodeEntry<u64, V>)
    requires
        entries_sorted(old_s),
        0 <= i < old_s.len(),
        old_s[i].key == e.key,
    ensures
        entries_sorted(old_s.update(i, e)),
        entries_map(old_s.update(i, e)) == entries_map(old_s).insert(e.key, e.value),
{
    let new_s = old_s.update(i, e);
    assert(new_at(new_s, e, i));
    assert forall|j: int|
        0 <= j < new_s.len() && new_s[j].key != e.key implies exists|l: int|
        0 <= l < old_s.len() && old_s[l] == #[trigger] new_s[j] by {
        assert(old_s[j] == new_s[j]);
    }
    assert forall|l: int|
        0 <= l < old_s.len() && old_s[l].key != e.key implies exists|j: int|
        0 <= j < new_s.len() && new_s[j] == #[trigger] old_s[l] by {
        assert(old_s[l] == new_s[l]);
    }
    lemma_map_after_put(old_s, new_s, e);
}

/// Inserting an entry at the position where its key belongs keeps the
/// order and adds the key to the map.
proof fn lemma_put_insert<V>(old_s: Seq<NodeEntry<u64, V>>, i: int, e: NodeEntry<u64, V>)
    requires
        entries_sorted(old_s),
        0 <= i <= old_s.len(),
        forall|j: int| 0 <= j < i ==> #[trigger] old_s[j].key < e.key,
        forall|j: int| i <= j < old_s.len() ==> e.key < #[trigger] old_s[j].key,
    ensures
        !has_key(old_s, e.key),
        entries_sorted(old_s.insert(i, e)),
        entries_map(old_s.insert(i, e)) == entries_map(old_s).insert(e.key, e.value),
{
    let new_s = old_s.insert(i, e);
    assert(new_at(new_s, e, i));
    if has_key(old_s, e.key) {
        let j = choose|j: int| 0 <= j < old_s.len() && old_s[j].key == e.key;
        assert(old_s[j].key != e.key);
    }
    assert forall|a: int, b: int| 0 <= a < b < new_s.len() implies new_s[a].key < new_s[b].key by {
        if b < i {
        } else if b == i {
        } else if a < i {
        } else if a == i {
            assert(new_s[b] == old_s[b - 1]);
        } else {
            assert(new_s[a] == old_s[a - 1]);
            assert(new_s[b] == old_s[b - 1]);
        }
    }
    assert forall|j: int|
        0 <= j < new_s.len() && new_s[j].key != e.key implies exists|l: int|
        0 <= l < old_s.len() && old_s[l] == #[trigger] new_s[j] by {
        if j < i {
            assert(old_s[j] == new_s[j]);
        } else {
            assert(old_s[j - 1] == new_s[j]);
        }
    }
    assert forall|l: int|
        0 <= l < old_s.len() && old_s[l].key != e.key implies exists|j: int|
        0 <= j < new_s.len() && new_s[j] == #[trigger] old_s[l] by {
        if l < i {
            assert(old_s[l] == new_s[l]);
        } else {
            assert(old_s[l] == new_s[l + 1]);
        }
    }
    lemma_map_after_put(old_s, new_s, e);
}

/// Entry `e` stands at position `i` of `s`.
spec fn new_at<V>(s: Seq<NodeEntry<u64, V>>, e: NodeEntry<u64, V>, i: int) -> bool {
    0 <= i < s.len() && s[i] == e
}

/// Marks nodes made of leaf entries.
#[derive(Debug, Clone)]
pub struct LeafType;

impl ConstObjType for LeafType {
    open spec fn spec_obj_type() -> ObjectType {
        ObjectType::LeafNode
    }

    fn obj_type() -> (t: ObjectType) {
        ObjectType::LeafNode
    }
}

/// Marks nodes made of pointers to child nodes.
#[derive(Debug, Clone)]
pub struct InternalType;

impl ConstObjType for InternalType {
    open spec fn spec_obj_type() -> ObjectType {
        ObjectType::InternalNode
    }

    fn obj_type() -> (t: ObjectType) {
        ObjectType::InternalNode
    }
}

/// A node whose kind is given by its marker type.
#[derive(Debug)]
pub struct Node<K, V, OT> {
    pub entries: Vec<NodeEntry<K, V>>,
    pub _ot: PhantomData<OT>,
}

/// Every node has the object type of its marker.
impl<K, V, OT: ConstObjType> ConstObjType for Node<K, V, OT> {
    open spec fn spec_obj_type() -> ObjectType {
        OT::spec_obj_type()
    }

    fn obj_type() -> (t: ObjectType) {
        OT::obj_type()
    }
}

impl<K, V, OT> Node<K, V, OT> {
    pub fn new() -> (n: Self)
        ensures
            n.entries@.len() == 0,
    {
        Self { entries: Vec::new(), _ot: PhantomData }
    }

    pub fn from(entries: Vec<NodeEntry<K, V>>) -> (n: Self)
        ensures
            n.entries@ == entries@,
    {
        Self { entries, _ot: PhantomData }
    }
}

impl<V, OT> Node<u64, V, OT> {
    /// Puts `entry` into the node's sorted entries, returning the value that
    /// the key had before, if any.
    pub fn insert_local(&mut self, entry: NodeEntry<u64, V>) -> (r: Option<V>)
        requires
            entries_sorted(old(self).entries@),
        ensures
            entries_sorted(final(self).entries@),
            entries_map(final(self).entries@) == entries_map(old(self).entries@).insert(
                entry.key,
                entry.value,
            ),
            r == (if has_key(old(self).entries@, entry.key) {
                Some(entries_map(old(self).entries@)[entry.key])
            } else {
                None::<V>
            }),
    {
        proof {
            lemma_map_lookup(old(self).entries@);
        }
        insert_sorted(&mut self.entries, entry)
    }
}

impl<OT> Node<u64, u64, OT> {
    /// The serialized node: its entries, as a leaf's.
    pub fn serialize(&self) -> (raw: Vec<u8>)
        ensures
            raw@ == encode_leaf(self.entries@.map_values(|e: NodeEntry<u64, u64>| leaf_pair(e))),
    {
        leaf_entries_to_raw(&self.entries)
    }

    /// Reads a node back; `None` where the bytes do not hold one.
    pub fn deserialize(raw: &[u8]) -> (r: Option<Self>)
        ensures
            r is None <==> decode_leaf(raw@) is None,
            r matches Some(n) ==> decode_leaf(raw@) matches Some(s) && n.entries@ == s.map_values(
                |p: (u64, u64)| pair_leaf(p),
            ),
    {
        match leaf_entries_from_raw(raw) {
            None => None,
            Some(entries) => Some(Self::from(entries)),
        }
    }
}

impl<OT> Node<u64, ObjectPointer, OT> {
    /// The serialized node: its entries, as an inner node's.
    pub fn serialize(&self) -> (raw: Vec<u8>)
        ensures
            raw@ == encode_internal(
                self.entries@.map_values(|e: NodeEntry<u64, ObjectPointer>| internal_tuple(e)),
            ),
    {
        internal_entries_to_raw(&self.entries)
    }

    /// Reads a node back; `None` where the bytes do not hold one. A
    /// child's type tag that is no tag makes the reader panic, and is left
    /// out by the precondition.
    pub fn deserialize(raw: &[u8]) -> (r: Option<Self>)
        requires
            !(decode_internal(raw@) matches Some(s) && !tags_valid(s)),
        ensures
            r is None <==> decode_internal(raw@) is None,
            r matches Some(n) ==> decode_internal(raw@) matches Some(s) && n.entries@ == s.map_values(
                |t: (u64, (u64, u64, u8))| tuple_internal(t),
            ),
    {
        match internal_entries_from_raw(raw) {
            None => None,
            Some(entries) => Some(Self::from(entries)),
        }
    }
}

/// In sorted entries, the map gives each key the value of the entry that
/// holds it.
pub proof fn lemma_map_lookup<V>(s: Seq<NodeEntry<u64, V>>)
    requires
        entries_sorted(s),
    ensures
        forall|i: int|
            0 <= i < s.len() ==> entries_map(s).contains_key(#[trigger] s[i].key) && entries_map(
                s,
            )[s[i].key] == s[i].value,
{
    assert forall|i: int| 0 <= i < s.len() implies entries_map(s).contains_key(
        #[trigger] s[i].key,
    ) && entries_map(s)[s[i].key] == s[i].value by {
        let k = s[i].key;
        assert(has_key(s, k));
        let j = choose|j: int| 0 <= j < s.len() && s[j].key == k;
        if j != i {
            if j < i {
                assert(s[j].key < s[i].key);
            } else {
                assert(s[i].key < s[j].key);
            }
        }
    }
}

} // verus!
