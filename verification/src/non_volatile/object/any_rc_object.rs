use std::rc::Rc;
use vstd::prelude::*;

use super::object_pointer::ObjectPointer;
use super::object_type::{is_tag, lemma_tag_roundtrip, spec_from_tag, spec_tag, ObjectType};
use super::tree::{BufferNode, Insert, InternalNode, LeafNode, Message, NodeEntry};
use super::uberblock::{lemma_uberblock_roundtrip, read_uberblock, uberblock_bytes, Uberblock};
use crate::common::ConstObjType;
use crate::serializable::{
    decode_internal,
    decode_leaf,
    deserialize_internal_entries,
    decode_buffer,
    deserialize_buffer_entries,
    deserialize_leaf_entries,
    encode_buffer,
    encode_internal,
    lemma_decode_encode_buffer,
    lemma_encode_buffer_len,
    serialize_buffer_entries,
    lemma_decode_encode_internal,
    lemma_decode_encode_leaf,
    lemma_encode_internal_len,
    lemma_encode_leaf_len,
    encode_leaf,
    serialize_internal_entries,
    serialize_leaf_entries,
};

verus! {

/// `Rc::clone`: another pointer to the same value.
#[verifier::external_body]
pub(crate) fn rc_clone<T>(rc: &Rc<T>) -> (r: Rc<T>)
    ensures
        r == *rc,
{
    Rc::clone(rc)
}

/// An object of any kind, shared, as the cache holds it.
#[derive(Debug)]
pub enum AnyRcObject {
    Uberblock(Rc<Uberblock>),
    LeafNode(Rc<LeafNode<u64, u64>>),
    InternalNode(Rc<InternalNode<u64>>),
    BufferNode(Rc<BufferNode<u64, u64>>),
}

/// What an object holds, as the specification sees it: a tree node's
/// entries, or an uberblock.
pub enum NodeView {
    Leaf(Seq<NodeEntry<u64, u64>>),
    Internal(Seq<NodeEntry<u64, ObjectPointer>>),
    Buffer(Seq<NodeEntry<u64, Message<u64>>>),
    Root(Uberblock),
}

impl AnyRcObject {
    /// The kind of the object.
    pub open spec fn kind(&self) -> ObjectType {
        match self {
            AnyRcObject::Uberblock(_) => ObjectType::Uberblock,
            AnyRcObject::LeafNode(_) => ObjectType::LeafNode,
            AnyRcObject::InternalNode(_) => ObjectType::InternalNode,
            AnyRcObject::BufferNode(_) => ObjectType::BufferNode,
        }
    }

    /// What the object holds.
    pub open spec fn view_node(&self) -> NodeView {
        match self {
            AnyRcObject::LeafNode(l) => NodeView::Leaf(l.entries@),
            AnyRcObject::InternalNode(n) => NodeView::Internal(n.entries@),
            AnyRcObject::BufferNode(n) => NodeView::Buffer(n.entries@),
            AnyRcObject::Uberblock(u) => NodeView::Root(**u),
        }
    }

    pub fn from_uberblock(u: Uberblock) -> (a: Self)
        ensures
            a == AnyRcObject::Uberblock(Rc::new(u)),
    {
        AnyRcObject::Uberblock(Rc::new(u))
    }

    pub fn from_buffer_node(n: BufferNode<u64, u64>) -> (a: Self)
        ensures
            a == AnyRcObject::BufferNode(Rc::new(n)),
    {
        AnyRcObject::BufferNode(Rc::new(n))
    }
}

/// Objects that the object manager serializes, stores and caches.
pub trait Object: ConstObjType + Sized {
    /// The entries the object holds, as a tree node.
    spec fn node_view(&self) -> NodeView;

    /// The serialized object.
    spec fn spec_raw(&self) -> Seq<u8>;

    /// What serialized bytes read back as; `None` where reading fails.
    spec fn spec_read(raw: Seq<u8>) -> Option<NodeView>;

    /// Reading `raw` stops the program: a field holds a number that no
    /// value of its type stands for, and the reader panics on it.
    spec fn spec_read_aborts(raw: Seq<u8>) -> bool;

    /// Bytes that read back as an object do not stop the reader.
    proof fn lemma_read_ok(raw: Seq<u8>)
        requires
            Self::spec_read(raw) is Some,
        ensures
            !Self::spec_read_aborts(raw),
    ;

    fn obj_to_raw(&self) -> (raw: Vec<u8>)
        ensures
            raw@ == self.spec_raw(),
    ;

    /// A serialized object is never empty: it starts with a length.
    proof fn lemma_raw_len(&self)
        ensures
            self.spec_raw().len() >= 8,
    ;

    /// A serialized object reads back as the object.
    proof fn lemma_read_raw(&self)
        requires
            self.spec_raw().len() <= usize::MAX,
        ensures
            Self::spec_read(self.spec_raw()) == Some(self.node_view()),
    ;

    fn from_raw(raw: &[u8]) -> (r: Option<Self>)
        requires
            !Self::spec_read_aborts(raw@),
        ensures
            r is None <==> Self::spec_read(raw@) is None,
            r matches Some(o) ==> Self::spec_read(raw@) == Some(o.node_view()),
    ;

    /// Wraps the shared object for the cache.
    fn into_any(rc: Rc<Self>) -> (a: AnyRcObject)
        ensures
            a.kind() == Self::spec_obj_type(),
            a.view_node() == rc.node_view(),
    ;

    /// The shared object, when `a` is of this kind.
    fn from_any(a: &AnyRcObject) -> (r: Option<Rc<Self>>)
        ensures
            r is Some <==> a.kind() == Self::spec_obj_type(),
            r matches Some(o) ==> o.node_view() == a.view_node(),
    ;
}

/// A leaf entry as a pair.
pub open spec fn leaf_pair(e: NodeEntry<u64, u64>) -> (u64, u64) {
    (e.key, e.value)
}

/// A pair as a leaf entry.
pub open spec fn pair_leaf(p: (u64, u64)) -> NodeEntry<u64, u64> {
    NodeEntry { key: p.0, value: p.1 }
}

/// An inner-node entry as the tuple that is serialized.
pub open spec fn internal_tuple(e: NodeEntry<u64, ObjectPointer>) -> (u64, (u64, u64, u8)) {
    (e.key, (e.value.offset, e.value.len, spec_tag(e.value.object_type)))
}

/// A deserialized tuple as an inner-node entry.
pub open spec fn tuple_internal(t: (u64, (u64, u64, u8))) -> NodeEntry<u64, ObjectPointer> {
    NodeEntry {
        key: t.0,
        value: ObjectPointer { offset: t.1.0, len: t.1.1, object_type: spec_from_tag(t.1.2) },
    }
}

impl Object for Uberblock {
    open spec fn node_view(&self) -> NodeView {
        NodeView::Root(*self)
    }

    open spec fn spec_raw(&self) -> Seq<u8> {
        uberblock_bytes(*self)
    }

    open spec fn spec_read(raw: Seq<u8>) -> Option<NodeView> {
        match read_uberblock(raw) {
            Some(Ok(u)) => Some(NodeView::Root(u)),
            _ => None,
        }
    }

    /// Reading panics on a root pointer whose type tag is no tag.
    open spec fn spec_read_aborts(raw: Seq<u8>) -> bool {
        read_uberblock(raw) is None
    }

    proof fn lemma_read_ok(raw: Seq<u8>) {
    }

    fn obj_to_raw(&self) -> (raw: Vec<u8>) {
        self.serialize()
    }

    fn from_raw(raw: &[u8]) -> (r: Option<Self>) {
        match Uberblock::deserialize(raw) {
            Ok(u) => Some(u),
            Err(_) => None,
        }
    }

    proof fn lemma_raw_len(&self) {
        lemma_uberblock_roundtrip(*self);
    }

    proof fn lemma_read_raw(&self) {
        lemma_uberblock_roundtrip(*self);
    }

    fn into_any(rc: Rc<Self>) -> (a: AnyRcObject) {
        AnyRcObject::Uberblock(rc)
    }

    fn from_any(a: &AnyRcObject) -> (r: Option<Rc<Self>>) {
        match a {
            AnyRcObject::Uberblock(u) => Some(rc_clone(u)),
            _ => None,
        }
    }
}

impl Object for LeafNode<u64, u64> {
    open spec fn node_view(&self) -> NodeView {
        NodeView::Leaf(self.entries@)
    }

    open spec fn spec_raw(&self) -> Seq<u8> {
        encode_leaf(self.entries@.map_values(|e: NodeEntry<u64, u64>| leaf_pair(e)))
    }

    open spec fn spec_read(raw: Seq<u8>) -> Option<NodeView> {
        match decode_leaf(raw) {
            Some(s) => Some(NodeView::Leaf(s.map_values(|p: (u64, u64)| pair_leaf(p)))),
            None => None,
        }
    }

    open spec fn spec_read_aborts(raw: Seq<u8>) -> bool {
        false
    }

    proof fn lemma_read_ok(raw: Seq<u8>) {
    }

    fn obj_to_raw(&self) -> (raw: Vec<u8>) {
        leaf_entries_to_raw(&self.entries)
    }

    fn from_raw(raw: &[u8]) -> (r: Option<Self>) {
        match leaf_entries_from_raw(raw) {
            None => None,
            Some(entries) => Some(LeafNode::from(entries)),
        }
    }

    proof fn lemma_raw_len(&self) {
        vstd::bytes::lemma_auto_spec_u64_to_from_le_bytes();
    }

    proof fn lemma_read_raw(&self) {
        let s = self.entries@.map_values(|e: NodeEntry<u64, u64>| leaf_pair(e));
        lemma_encode_leaf_len(s);
        lemma_decode_encode_leaf(s);
        assert(s.map_values(|p: (u64, u64)| pair_leaf(p)) =~= self.entries@);
    }

    fn into_any(rc: Rc<Self>) -> (a: AnyRcObject) {
        AnyRcObject::LeafNode(rc)
    }

    fn from_any(a: &AnyRcObject) -> (r: Option<Rc<Self>>) {
        match a {
            AnyRcObject::LeafNode(n) => Some(rc_clone(n)),
            _ => None,
        }
    }
}

/// The serialized entries of a leaf.
pub fn leaf_entries_to_raw(entries: &Vec<NodeEntry<u64, u64>>) -> (raw: Vec<u8>)
    ensures
        raw@ == encode_leaf(entries@.map_values(|e: NodeEntry<u64, u64>| leaf_pair(e))),
{
    let mut pairs: Vec<(u64, u64)> = Vec::new();
    let mut i: usize = 0;
    while i < entries.len()
        invariant
            i <= entries@.len(),
            pairs@ == entries@.subrange(0, i as int).map_values(|e: NodeEntry<u64, u64>| leaf_pair(e)),
        decreases entries@.len() - i,
    {
        let e = &entries[i];
        pairs.push((e.key, e.value));
        i = i + 1;
        assert(pairs@ =~= entries@.subrange(0, i as int).map_values(
            |e: NodeEntry<u64, u64>| leaf_pair(e),
        ));
    }
    assert(entries@.subrange(0, i as int) =~= entries@);
    match serialize_leaf_entries(&pairs) {
        Some(raw) => raw,
        None => Vec::new(),
    }
}

/// The leaf entries that `raw` reads back as; `None` where reading fails.
pub fn leaf_entries_from_raw(raw: &[u8]) -> (r: Option<Vec<NodeEntry<u64, u64>>>)
    ensures
        r is None <==> decode_leaf(raw@) is None,
        r matches Some(v) ==> decode_leaf(raw@) matches Some(s) && v@ == s.map_values(
            |p: (u64, u64)| pair_leaf(p),
        ),
{
    match deserialize_leaf_entries(raw) {
        None => None,
        Some(pairs) => {
            let mut entries: Vec<NodeEntry<u64, u64>> = Vec::new();
            let mut i: usize = 0;
            while i < pairs.len()
                invariant
                    i <= pairs@.len(),
                    entries@ == pairs@.subrange(0, i as int).map_values(|p: (u64, u64)| pair_leaf(p)),
                decreases pairs@.len() - i,
            {
                let p = pairs[i];
                entries.push(NodeEntry::new(p.0, p.1));
                i = i + 1;
                assert(entries@ =~= pairs@.subrange(0, i as int).map_values(
                    |p: (u64, u64)| pair_leaf(p),
                ));
            }
            assert(pairs@.subrange(0, i as int) =~= pairs@);
            Some(entries)
        },
    }
}

/// All type tags in deserialized inner-node entries are tags.
pub open spec fn tags_valid(s: Seq<(u64, (u64, u64, u8))>) -> bool {
    forall|i: int| 0 <= i < s.len() ==> is_tag(#[trigger] s[i].1.2)
}

impl Object for InternalNode<u64> {
    open spec fn node_view(&self) -> NodeView {
        NodeView::Internal(self.entries@)
    }

    open spec fn spec_raw(&self) -> Seq<u8> {
        encode_internal(
            self.entries@.map_values(|e: NodeEntry<u64, ObjectPointer>| internal_tuple(e)),
        )
    }

    open spec fn spec_read(raw: Seq<u8>) -> Option<NodeView> {
        match decode_internal(raw) {
            Some(s) => if tags_valid(s) {
                Some(
                    NodeView::Internal(
                        s.map_values(|t: (u64, (u64, u64, u8))| tuple_internal(t)),
                    ),
                )
            } else {
                None
            },
            None => None,
        }
    }

    open spec fn spec_read_aborts(raw: Seq<u8>) -> bool {
        decode_internal(raw) matches Some(s) && !tags_valid(s)
    }

    proof fn lemma_read_ok(raw: Seq<u8>) {
    }

    fn obj_to_raw(&self) -> (raw: Vec<u8>) {
        internal_entries_to_raw(&self.entries)
    }

    fn from_raw(raw: &[u8]) -> (r: Option<Self>) {
        match internal_entries_from_raw(raw) {
            None => None,
            Some(entries) => Some(InternalNode::from(entries)),
        }
    }

    proof fn lemma_raw_len(&self) {
        vstd::bytes::lemma_auto_spec_u64_to_from_le_bytes();
    }

    proof fn lemma_read_raw(&self) {
        let s = self.entries@.map_values(|e: NodeEntry<u64, ObjectPointer>| internal_tuple(e));
        lemma_encode_internal_len(s);
        lemma_decode_encode_internal(s);
        assert forall|i: int| 0 <= i < s.len() implies is_tag(#[trigger] s[i].1.2) by {
            lemma_tag_roundtrip(self.entries@[i].value.object_type);
        }
        assert forall|i: int| 0 <= i < s.len() implies #[trigger] tuple_internal(s[i])
            == self.entries@[i] by {
            lemma_tag_roundtrip(self.entries@[i].value.object_type);
        }
        assert(s.map_values(|t: (u64, (u64, u64, u8))| tuple_internal(t)) =~= self.entries@);
    }

    fn into_any(rc: Rc<Self>) -> (a: AnyRcObject) {
        AnyRcObject::InternalNode(rc)
    }

    fn from_any(a: &AnyRcObject) -> (r: Option<Rc<Self>>) {
        match a {
            AnyRcObject::InternalNode(n) => Some(rc_clone(n)),
            _ => None,
        }
    }
}

/// The serialized entries of an inner node.
pub fn internal_entries_to_raw(entries: &Vec<NodeEntry<u64, ObjectPointer>>) -> (raw: Vec<u8>)
    ensures
        raw@ == encode_internal(
            entries@.map_values(|e: NodeEntry<u64, ObjectPointer>| internal_tuple(e)),
        ),
{
    let mut tuples: Vec<(u64, (u64, u64, u8))> = Vec::new();
    let mut i: usize = 0;
    while i < entries.len()
        invariant
            i <= entries@.len(),
            tuples@ == entries@.subrange(0, i as int).map_values(
                |e: NodeEntry<u64, ObjectPointer>| internal_tuple(e),
            ),
        decreases entries@.len() - i,
    {
        let e = &entries[i];
        tuples.push((e.key, (e.value.offset, e.value.len, e.value.object_type.to_u8())));
        i = i + 1;
        assert(tuples@ =~= entries@.subrange(0, i as int).map_values(
            |e: NodeEntry<u64, ObjectPointer>| internal_tuple(e),
        ));
    }
    assert(entries@.subrange(0, i as int) =~= entries@);
    match serialize_internal_entries(&tuples) {
        Some(raw) => raw,
        None => Vec::new(),
    }
}

/// The inner-node entries that `raw` reads back as; `None` where reading
/// fails. A child's type tag that is no tag makes the reader panic, and is
/// left out by the precondition.
pub fn internal_entries_from_raw(raw: &[u8]) -> (r: Option<Vec<NodeEntry<u64, ObjectPointer>>>)
    requires
        !(decode_internal(raw@) matches Some(s) && !tags_valid(s)),
    ensures
        r is None <==> decode_internal(raw@) is None,
        r matches Some(v) ==> decode_internal(raw@) matches Some(s) && v@ == s.map_values(
            |t: (u64, (u64, u64, u8))| tuple_internal(t),
        ),
{
    match deserialize_internal_entries(raw) {
        None => None,
        Some(tuples) => {
            let mut entries: Vec<NodeEntry<u64, ObjectPointer>> = Vec::new();
            let mut i: usize = 0;
            while i < tuples.len()
                invariant
                    i <= tuples@.len(),
                    entries@ == tuples@.subrange(0, i as int).map_values(
                        |t: (u64, (u64, u64, u8))| tuple_internal(t),
                    ),
                    forall|j: int| 0 <= j < tuples@.len() ==> is_tag(#[trigger] tuples@[j].1.2),
                    decode_internal(raw@) == Some(tuples@),
                decreases tuples@.len() - i,
            {
                let t = tuples[i];
                assert(is_tag(tuples@[i as int].1.2));
                let op = ObjectPointer::new(t.1.0, t.1.1, ObjectType::from_u8(t.1.2));
                entries.push(NodeEntry::new(t.0, op));
                i = i + 1;
                assert(entries@ =~= tuples@.subrange(0, i as int).map_values(
                    |t: (u64, (u64, u64, u8))| tuple_internal(t),
                ));
            }
            assert(tuples@.subrange(0, i as int) =~= tuples@);
            Some(entries)
        },
    }
}

/// A buffer entry as the triple that is serialized: the key, the
/// message's variant index and the value.
pub open spec fn buffer_triple(e: NodeEntry<u64, Message<u64>>) -> (u64, u32, u64) {
    match e.value {
        Message::Insert(i) => (e.key, 0u32, i.value),
    }
}

/// A deserialized triple as a buffer entry.
pub open spec fn triple_buffer(t: (u64, u32, u64)) -> NodeEntry<u64, Message<u64>> {
    NodeEntry { key: t.0, value: Message::Insert(Insert { value: t.2 }) }
}

/// Every variant index names a message: `Insert` is the only one.
pub open spec fn variants_valid(s: Seq<(u64, u32, u64)>) -> bool {
    forall|i: int| 0 <= i < s.len() ==> #[trigger] s[i].1 == 0
}

impl Object for BufferNode<u64, u64> {
    open spec fn node_view(&self) -> NodeView {
        NodeView::Buffer(self.entries@)
    }

    open spec fn spec_raw(&self) -> Seq<u8> {
        encode_buffer(self.entries@.map_values(|e: NodeEntry<u64, Message<u64>>| buffer_triple(e)))
    }

    open spec fn spec_read(raw: Seq<u8>) -> Option<NodeView> {
        match decode_buffer(raw) {
            Some(s) => if variants_valid(s) {
                Some(NodeView::Buffer(s.map_values(|t: (u64, u32, u64)| triple_buffer(t))))
            } else {
                None
            },
            None => None,
        }
    }

    open spec fn spec_read_aborts(raw: Seq<u8>) -> bool {
        false
    }

    proof fn lemma_read_ok(raw: Seq<u8>) {
    }

    fn obj_to_raw(&self) -> (raw: Vec<u8>) {
        let mut triples: Vec<(u64, u32, u64)> = Vec::new();
        let mut i: usize = 0;
        while i < self.entries.len()
            invariant
                i <= self.entries@.len(),
                triples@ == self.entries@.subrange(0, i as int).map_values(
                    |e: NodeEntry<u64, Message<u64>>| buffer_triple(e),
                ),
            decreases self.entries@.len() - i,
        {
            let e = &self.entries[i];
            let value = match e.value {
                Message::Insert(ins) => ins.value,
            };
            triples.push((e.key, 0u32, value));
            i = i + 1;
            assert(triples@ =~= self.entries@.subrange(0, i as int).map_values(
                |e: NodeEntry<u64, Message<u64>>| buffer_triple(e),
            ));
        }
        assert(self.entries@.subrange(0, i as int) =~= self.entries@);
        match serialize_buffer_entries(&triples) {
            Some(raw) => raw,
            None => Vec::new(),
        }
    }

    fn from_raw(raw: &[u8]) -> (r: Option<Self>) {
        match deserialize_buffer_entries(raw) {
            None => None,
            Some(triples) => {
                let mut entries: Vec<NodeEntry<u64, Message<u64>>> = Vec::new();
                let mut i: usize = 0;
                while i < triples.len()
                    invariant
                        i <= triples@.len(),
                        entries@ == triples@.subrange(0, i as int).map_values(
                            |t: (u64, u32, u64)| triple_buffer(t),
                        ),
                        forall|j: int| 0 <= j < i ==> #[trigger] triples@[j].1 == 0,
                        decode_buffer(raw@) == Some(triples@),
                    decreases triples@.len() - i,
                {
                    let t = triples[i];
                    if t.1 != 0 {
                        assert(!variants_valid(triples@));
                        return None;
                    }
                    entries.push(NodeEntry::new(t.0, Message::Insert(Insert { value: t.2 })));
                    i = i + 1;
                    assert(entries@ =~= triples@.subrange(0, i as int).map_values(
                        |t: (u64, u32, u64)| triple_buffer(t),
                    ));
                }
                assert(triples@.subrange(0, i as int) =~= triples@);
                Some(BufferNode::from(entries))
            },
        }
    }

    proof fn lemma_raw_len(&self) {
        vstd::bytes::lemma_auto_spec_u64_to_from_le_bytes();
    }

    proof fn lemma_read_raw(&self) {
        let s = self.entries@.map_values(|e: NodeEntry<u64, Message<u64>>| buffer_triple(e));
        lemma_encode_buffer_len(s);
        lemma_decode_encode_buffer(s);
        assert forall|i: int| 0 <= i < s.len() implies #[trigger] s[i].1 == 0 by {
            match self.entries@[i].value {
                Message::Insert(_) => {},
            }
        }
        assert forall|i: int| 0 <= i < s.len() implies #[trigger] triple_buffer(s[i])
            == self.entries@[i] by {
            match self.entries@[i].value {
                Message::Insert(_) => {},
            }
        }
        assert(s.map_values(|t: (u64, u32, u64)| triple_buffer(t)) =~= self.entries@);
    }

    fn into_any(rc: Rc<Self>) -> (a: AnyRcObject) {
        AnyRcObject::BufferNode(rc)
    }

    fn from_any(a: &AnyRcObject) -> (r: Option<Rc<Self>>) {
        match a {
            AnyRcObject::BufferNode(n) => Some(rc_clone(n)),
            _ => None,
        }
    }
}

/// A buffer node written out reads back, without stopping the reader, as a
/// buffer node with the same entries: the same keys and the same inserted
/// values, in the same order.
pub proof fn lemma_buffer_node_roundtrip(b: BufferNode<u64, u64>)
    requires
        8 + 20 * b.entries@.len() <= usize::MAX,
    ensures
        b.spec_raw().len() == 8 + 20 * b.entries@.len(),
        !BufferNode::<u64, u64>::spec_read_aborts(b.spec_raw()),
        BufferNode::<u64, u64>::spec_read(b.spec_raw()) == Some(NodeView::Buffer(b.entries@)),
{
    lemma_encode_buffer_len(b.entries@.map_values(|e: NodeEntry<u64, Message<u64>>| buffer_triple(e)));
    b.lemma_read_raw();
}

} // verus!
