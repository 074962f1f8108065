use vstd::prelude::*;

use crate::non_volatile::object::tree::{
    entries_map,
    entries_sorted,
    has_key,
    insert_sorted,
    lemma_map_lookup,
    NodeEntry,
};

use crate::non_volatile::object::any_rc_object::{
    leaf_entries_from_raw,
    leaf_entries_to_raw,
    leaf_pair,
    pair_leaf,
};
use crate::serializable::{decode_leaf, encode_leaf};

verus! {

/// A leaf of the first tree layout; its entries are reached through the
/// view.
#[derive(Debug, Clone)]
pub struct LeafNode<K, V> {
    entries: Vec<NodeEntry<K, V>>,
}

impl<K, V> View for LeafNode<K, V> {
    type V = Seq<NodeEntry<K, V>>;

    closed spec fn view(&self) -> Seq<NodeEntry<K, V>> {
        self.entries@
    }
}

impl<K, V> LeafNode<K, V> {
    pub fn new() -> (n: Self)
        ensures
            n@.len() == 0,
    {
        Self { entries: Vec::new() }
    }
}

impl<V> LeafNode<u64, V> {
    /// Puts `entry` into the leaf's sorted entries, returning the value that
    /// the key had before, if any.
    pub fn insert_local(&mut self, entry: NodeEntry<u64, V>) -> (r: Option<V>)
        requires
            entries_sorted(old(self)@),
        ensures
            entries_sorted(final(self)@),
            entries_map(final(self)@) == entries_map(old(self)@).insert(entry.key, entry.value),
            r == (if has_key(old(self)@, entry.key) {
                Some(entries_map(old(self)@)[entry.key])
            } else {
                None::<V>
            }),
    {
        proof {
            lemma_map_lookup(self.entries@);
        }
        insert_sorted(&mut self.entries, entry)
    }
}

impl LeafNode<u64, u64> {
    /// The serialized leaf: its entries.
    pub fn serialize(&self) -> (raw: Vec<u8>)
        ensures
            raw@ == encode_leaf(self@.map_values(|e: NodeEntry<u64, u64>| leaf_pair(e))),
    {
        leaf_entries_to_raw(&self.entries)
    }

    /// Reads a leaf back; `None` where the bytes do not hold one.
    pub fn deserialize(raw: &[u8]) -> (r: Option<Self>)
        ensures
            r is None <==> decode_leaf(raw@) is None,
            r matches Some(n) ==> decode_leaf(raw@) matches Some(s) && n@ == s.map_values(
                |p: (u64, u64)| pair_leaf(p),
            ),
    {
        match leaf_entries_from_raw(raw) {
            None => None,
            Some(entries) => Some(LeafNode { entries }),
        }
    }
}

} // verus!
