//! What a tree on the object manager holds: its well-formedness, its
//! content (the leaf entries in order), and how storing new objects leaves
//! existing trees alone.

use vstd::prelude::*;

use crate::non_volatile::object::any_rc_object::{NodeView, Object};
use crate::non_volatile::object::object_pointer::ObjectPointer;
use crate::non_volatile::object::object_type::ObjectType;
use crate::non_volatile::object::tree::{InternalNode, LeafNode, NodeEntry};
use crate::non_volatile::object::any_rc_object::AnyRcObject;
use super::B;
use crate::nv_obj_mngr::{slot_offset, slot_uberblock, slot_valid, NVObjectManager, UB_AREA};

verus! {

/// Keys never decrease along the entries.
pub open spec fn keys_sorted(s: Seq<NodeEntry<u64, u64>>) -> bool {
    forall|i: int, j: int| 0 <= i <= j < s.len() ==> s[i].key <= s[j].key
}

/// The node that `get` returns at `op`, for the kind of node `op` names.
pub open spec fn node_at(mgr: NVObjectManager, op: ObjectPointer) -> Option<NodeView> {
    match op.object_type {
        ObjectType::LeafNode => if mgr.can_get::<LeafNode<u64, u64>>(op) {
            Some(mgr.got::<LeafNode<u64, u64>>(op))
        } else {
            None
        },
        ObjectType::InternalNode => if mgr.can_get::<InternalNode<u64>>(op) {
            Some(mgr.got::<InternalNode<u64>>(op))
        } else {
            None
        },
        _ => None,
    }
}

/// What the bytes `raw` read back as, for a node of kind `t`.
pub open spec fn read_node(t: ObjectType, raw: Seq<u8>) -> Option<NodeView> {
    match t {
        ObjectType::LeafNode => LeafNode::<u64, u64>::spec_read(raw),
        ObjectType::InternalNode => InternalNode::<u64>::spec_read(raw),
        _ => None,
    }
}

/// The bytes on the device at `op` read back as the node that `get`
/// returns there, cached or not.
pub open spec fn durable(mgr: NVObjectManager, op: ObjectPointer) -> bool {
    &&& op.offset + op.len <= mgr.image().len()
    &&& read_node(op.object_type, mgr.raw_at(op)) == node_at(mgr, op)
}

/// How many entries the node at `op` holds.
pub open spec fn node_len(mgr: NVObjectManager, op: ObjectPointer) -> int {
    match node_at(mgr, op) {
        Some(NodeView::Leaf(es)) => es.len() as int,
        Some(NodeView::Internal(es)) => es.len() as int,
        _ => 0,
    }
}

/// Keys strictly increase along the entries.
pub open spec fn keys_strict(s: Seq<NodeEntry<u64, u64>>) -> bool {
    forall|i: int, j: int| 0 <= i < j < s.len() ==> s[i].key < s[j].key
}

/// The nodes `out` lie one right after the other from `start` on, and the
/// last one ends at `end`.
pub open spec fn laid_out(out: Seq<NodeEntry<u64, ObjectPointer>>, start: u64, end: u64) -> bool {
    &&& out.len() == 0 ==> end == start
    &&& out.len() > 0 ==> out[0].value.offset == start && out.last().value.offset
        + out.last().value.len == end
    &&& forall|i: int|
        0 <= i < out.len() - 1 ==> #[trigger] out[i + 1].value.offset == out[i].value.offset
            + out[i].value.len
}

/// Nodes laid out from `start` to `end` lie between the two.
pub proof fn lemma_laid_out_bounds(out: Seq<NodeEntry<u64, ObjectPointer>>, start: u64, end: u64)
    requires
        laid_out(out, start, end),
    ensures
        forall|i: int|
            0 <= i < out.len() ==> start <= #[trigger] out[i].value.offset && out[i].value.offset
                + out[i].value.len <= end,
{
    assert forall|i: int| 0 <= i < out.len() implies start <= #[trigger] out[i].value.offset
        && out[i].value.offset + out[i].value.len <= end by {
        lemma_laid_out_from(out, start, end, i);
        lemma_laid_out_to(out, start, end, i);
    }
}

proof fn lemma_laid_out_from(out: Seq<NodeEntry<u64, ObjectPointer>>, start: u64, end: u64, i: int)
    requires
        laid_out(out, start, end),
        0 <= i < out.len(),
    ensures
        start <= out[i].value.offset,
    decreases i,
{
    if i > 0 {
        lemma_laid_out_from(out, start, end, i - 1);
        assert(out[(i - 1) + 1].value.offset == out[i - 1].value.offset + out[i - 1].value.len);
    }
}

proof fn lemma_laid_out_to(out: Seq<NodeEntry<u64, ObjectPointer>>, start: u64, end: u64, i: int)
    requires
        laid_out(out, start, end),
        0 <= i < out.len(),
    ensures
        out[i].value.offset + out[i].value.len <= end,
    decreases out.len() - i,
{
    if i < out.len() - 1 {
        lemma_laid_out_to(out, start, end, i + 1);
        assert(out[i + 1].value.offset == out[i].value.offset + out[i].value.len);
    }
}

/// `new` holds the bytes of `old` except in the range written from
/// `old.fso` to `new.fso`; the device grows to hold that range, with zeros
/// in a gap before it.
pub open spec fn written_from(new: NVObjectManager, old: NVObjectManager) -> bool {
    &&& old.fso <= new.fso
    &&& new.image().len() == if old.fso < new.fso && old.image().len() < new.fso {
        new.fso as int
    } else {
        old.image().len() as int
    }
    &&& forall|j: int|
        0 <= j < new.image().len() && !(old.fso <= j < new.fso) ==> #[trigger] new.image()[j] == if j
            < old.image().len() {
            old.image()[j]
        } else {
            0u8
        }
}

/// The objects that `new` caches are those of `old` and the nodes `out`.
pub open spec fn cached_with(new: NVObjectManager, old: NVObjectManager, out: Seq<NodeEntry<u64, ObjectPointer>>) -> bool {
    forall|k: u64|
        #[trigger] new.cache().contains_key(k) <==> (old.cache().contains_key(k) || exists|i: int|
            0 <= i < out.len() && out[i].value.offset == k)
}

/// One more node written at the free-space offset keeps the layout of the
/// nodes written since `mgr0`, the bytes around them and the cache.
pub proof fn lemma_write_step(
    mgr0: NVObjectManager,
    pre: NVObjectManager,
    post: NVObjectManager,
    out: Seq<NodeEntry<u64, ObjectPointer>>,
    e: NodeEntry<u64, ObjectPointer>,
    raw: Seq<u8>,
)
    requires
        written_from(pre, mgr0),
        laid_out(out, mgr0.fso, pre.fso),
        cached_with(pre, mgr0, out),
        post.image() == crate::non_volatile::block_device::spec_write(pre.image(), pre.fso as int, raw),
        post.fso == pre.fso + raw.len(),
        e.value.offset == pre.fso,
        e.value.len == raw.len(),
        raw.len() > 0,
        post.cache().dom() == pre.cache().dom().insert(pre.fso),
    ensures
        written_from(post, mgr0),
        laid_out(out.push(e), mgr0.fso, post.fso),
        cached_with(post, mgr0, out.push(e)),
{
    let o2 = out.push(e);
    assert forall|i: int| 0 <= i < o2.len() - 1 implies #[trigger] o2[i + 1].value.offset
        == o2[i].value.offset + o2[i].value.len by {
        if i < out.len() - 1 {
            assert(o2[i + 1] == out[i + 1]);
        }
    }
    assert forall|k: u64| #[trigger] post.cache().contains_key(k) <==> (mgr0.cache().contains_key(k)
        || exists|i: int| 0 <= i < o2.len() && o2[i].value.offset == k) by {
        if exists|i: int| 0 <= i < out.len() && out[i].value.offset == k {
            let i = choose|i: int| 0 <= i < out.len() && out[i].value.offset == k;
            assert(o2[i] == out[i]);
        }
        if exists|i: int| 0 <= i < o2.len() && o2[i].value.offset == k {
            let i = choose|i: int| 0 <= i < o2.len() && o2[i].value.offset == k;
            if i < out.len() {
                assert(o2[i] == out[i]);
            }
        }
        assert(o2[out.len() as int] == e);
    }
    assert forall|j: int|
        0 <= j < post.image().len() && !(mgr0.fso <= j < post.fso) implies #[trigger] post.image()[j]
        == if j < mgr0.image().len() {
        mgr0.image()[j]
    } else {
        0u8
    } by {
        assert(!(pre.fso <= j < post.fso));
        if j < pre.image().len() {
            assert(!(mgr0.fso <= j < pre.fso));
        }
    }
}

/// The object lies past the uberblocks and below the free-space offset.
pub open spec fn placed(mgr: NVObjectManager, op: ObjectPointer) -> bool {
    UB_AREA <= op.offset < mgr.fso && op.offset + op.len <= mgr.fso
}

/// The leaf entries under `op`, in order, for a tree of height at most `h`.
pub open spec fn content(mgr: NVObjectManager, op: ObjectPointer, h: nat) -> Seq<
    NodeEntry<u64, u64>,
>
    decreases h, 0nat,
{
    match node_at(mgr, op) {
        Some(NodeView::Leaf(es)) => es,
        Some(NodeView::Internal(es)) => if h > 0 {
            children_content(mgr, es, (h - 1) as nat)
        } else {
            Seq::empty()
        },
        _ => Seq::empty(),
    }
}

/// The leaf entries under the children `es`, one child after the other.
pub open spec fn children_content(mgr: NVObjectManager, es: Seq<NodeEntry<u64, ObjectPointer>>, h: nat) -> Seq<
    NodeEntry<u64, u64>,
>
    decreases h, es.len(),
{
    if es.len() == 0 {
        Seq::empty()
    } else {
        children_content(mgr, es.drop_last(), h) + content(mgr, es.last().value, h)
    }
}

/// A well-formed tree of height at most `h`: every node is placed,
/// readable and durable, leaves are sorted by key, inner nodes are non-empty, their
/// children are well-formed, each child has entries and is keyed by its
/// first key, and the entries under each inner node are sorted.
pub open spec fn tree_wf(mgr: NVObjectManager, op: ObjectPointer, h: nat) -> bool
    decreases h, 0nat,
{
    &&& placed(mgr, op)
    &&& durable(mgr, op)
    &&& match node_at(mgr, op) {
        Some(NodeView::Leaf(es)) => keys_sorted(es),
        Some(NodeView::Internal(es)) => h > 0 && es.len() > 0 && children_wf(
            mgr,
            es,
            (h - 1) as nat,
        ) && keys_sorted(children_content(mgr, es, (h - 1) as nat)),
        _ => false,
    }
}

/// Every child is a well-formed tree of height at most `h` with entries,
/// and is keyed by its first key.
pub open spec fn children_wf(mgr: NVObjectManager, es: Seq<NodeEntry<u64, ObjectPointer>>, h: nat) -> bool
    decreases h, es.len(),
{
    if es.len() == 0 {
        true
    } else {
        &&& children_wf(mgr, es.drop_last(), h)
        &&& tree_wf(mgr, es.last().value, h)
        &&& content(mgr, es.last().value, h).len() > 0
        &&& content(mgr, es.last().value, h)[0].key == es.last().key
    }
}

/// Every node of the tree at `op`, down to height `h`, holds at most `B`
/// entries.
pub open spec fn tree_bounded(mgr: NVObjectManager, op: ObjectPointer, h: nat) -> bool
    decreases h, 0nat,
{
    match node_at(mgr, op) {
        Some(NodeView::Leaf(es)) => es.len() <= B,
        Some(NodeView::Internal(es)) => es.len() <= B && h > 0 && children_bounded(
            mgr,
            es,
            (h - 1) as nat,
        ),
        _ => true,
    }
}

/// Every node under the children `es`, down to height `h`, holds at most
/// `B` entries.
pub open spec fn children_bounded(mgr: NVObjectManager, es: Seq<NodeEntry<u64, ObjectPointer>>, h: nat) -> bool
    decreases h, es.len(),
{
    if es.len() == 0 {
        true
    } else {
        children_bounded(mgr, es.drop_last(), h) && tree_bounded(mgr, es.last().value, h)
    }
}

/// Children are bounded exactly when each one is.
pub proof fn lemma_children_bounded_each(mgr: NVObjectManager, es: Seq<NodeEntry<u64, ObjectPointer>>, h: nat)
    ensures
        children_bounded(mgr, es, h) <==> forall|i: int|
            0 <= i < es.len() ==> tree_bounded(mgr, #[trigger] es[i].value, h),
    decreases es.len(),
{
    if es.len() > 0 {
        lemma_children_bounded_each(mgr, es.drop_last(), h);
        if children_bounded(mgr, es, h) {
            assert forall|i: int| 0 <= i < es.len() implies tree_bounded(mgr, #[trigger] es[i].value, h) by {
                if i < es.len() - 1 {
                    assert(es.drop_last()[i] == es[i]);
                }
            }
        }
        if forall|i: int| 0 <= i < es.len() ==> tree_bounded(mgr, #[trigger] es[i].value, h) {
            assert forall|i: int| 0 <= i < es.drop_last().len() implies tree_bounded(
                mgr,
                #[trigger] es.drop_last()[i].value,
                h,
            ) by {
                assert(es.drop_last()[i] == es[i]);
            }
            assert(tree_bounded(mgr, es[es.len() - 1].value, h));
        }
    }
}

/// A well-formed, bounded tree stays bounded in a manager that keeps its
/// objects.
pub proof fn lemma_bounded_frame(new: NVObjectManager, old: NVObjectManager, op: ObjectPointer, h: nat)
    requires
        keeps_objects(new, old),
        tree_wf(old, op, h),
        tree_bounded(old, op, h),
    ensures
        tree_bounded(new, op, h),
    decreases h, 0nat,
{
    lemma_node_at_frame(new, old, op);
    match node_at(old, op) {
        Some(NodeView::Internal(es)) => {
            lemma_children_bounded_frame(new, old, es, (h - 1) as nat);
        },
        _ => {},
    }
}

/// Well-formed, bounded children stay bounded in a manager that keeps its
/// objects.
pub proof fn lemma_children_bounded_frame(
    new: NVObjectManager,
    old: NVObjectManager,
    es: Seq<NodeEntry<u64, ObjectPointer>>,
    h: nat,
)
    requires
        keeps_objects(new, old),
        children_wf(old, es, h),
        children_bounded(old, es, h),
    ensures
        children_bounded(new, es, h),
    decreases h, es.len(),
{
    if es.len() > 0 {
        lemma_children_bounded_frame(new, old, es.drop_last(), h);
        lemma_bounded_frame(new, old, es.last().value, h);
    }
}

/// `op` roots a well-formed tree of some height all of whose nodes hold at
/// most `B` entries.
pub open spec fn wf_bounded(mgr: NVObjectManager, op: ObjectPointer) -> bool {
    exists|h: nat| tree_wf(mgr, op, h) && tree_bounded(mgr, op, h)
}

/// The same child is well-formed and keyed by its first key.
pub open spec fn child_ok(mgr: NVObjectManager, e: NodeEntry<u64, ObjectPointer>, h: nat) -> bool {
    &&& tree_wf(mgr, e.value, h)
    &&& content(mgr, e.value, h).len() > 0
    &&& content(mgr, e.value, h)[0].key == e.key
}

/// `new` keeps the objects that `old` holds below its free-space offset:
/// the cached objects, and the bytes past the uberblocks; new objects lie
/// at or past the old free-space offset.
pub open spec fn keeps_objects(new: NVObjectManager, old: NVObjectManager) -> bool {
    &&& old.fso <= new.fso
    &&& forall|k: u64| #[trigger]
        old.cache().contains_key(k) ==> new.cache().contains_key(k) && new.cache()[k]
            == old.cache()[k]
    &&& forall|k: u64| #[trigger]
        new.cache().contains_key(k) && !old.cache().contains_key(k) ==> old.fso <= k
    &&& old.image().len() <= new.image().len()
    &&& forall|i: int|
        UB_AREA <= i < old.fso && i < old.image().len() ==> #[trigger] new.image()[i]
            == old.image()[i]
}

/// `new` keeps the objects of `old` and the uberblock copies too.
pub open spec fn extends(new: NVObjectManager, old: NVObjectManager) -> bool {
    &&& keeps_objects(new, old)
    &&& forall|i: int|
        0 <= i < UB_AREA && i < old.image().len() ==> #[trigger] new.image()[i] == old.image()[i]
}

pub proof fn lemma_extends_trans(a: NVObjectManager, b: NVObjectManager, c: NVObjectManager)
    requires
        extends(b, a),
        extends(c, b),
    ensures
        extends(c, a),
{
    assert forall|k: u64| #[trigger]
        c.cache().contains_key(k) && !a.cache().contains_key(k) implies a.fso <= k by {
        if b.cache().contains_key(k) {
        } else {
        }
    }
}

pub proof fn lemma_extends_refl(a: NVObjectManager)
    ensures
        extends(a, a),
{
}

/// Placed nodes read the same in a manager that extends the old one.
pub proof fn lemma_node_at_frame(new: NVObjectManager, old: NVObjectManager, op: ObjectPointer)
    requires
        keeps_objects(new, old),
        placed(old, op),
    ensures
        placed(new, op),
        node_at(old, op) is Some ==> node_at(new, op) == node_at(old, op),
        durable(old, op) && node_at(old, op) is Some ==> durable(new, op),
        op.offset + op.len <= old.image().len() ==> new.raw_at(op) == old.raw_at(op),
{
    if op.offset + op.len <= old.image().len() {
        assert(new.raw_at(op) =~= old.raw_at(op));
    }
    if !old.cache().contains_key(op.offset) {
        assert(!new.cache().contains_key(op.offset));
    }
}

/// A placed, durable node reads the same from a manager that holds the
/// same bytes and caches nothing.
proof fn lemma_node_at_reload(new: NVObjectManager, old: NVObjectManager, op: ObjectPointer)
    requires
        new.cache() == Map::<u64, AnyRcObject>::empty(),
        new.image() == old.image(),
        new.fso == old.fso,
        placed(old, op),
        durable(old, op),
        node_at(old, op) is Some,
    ensures
        placed(new, op),
        durable(new, op),
        node_at(new, op) == node_at(old, op),
{
    assert(new.raw_at(op) == old.raw_at(op));
}

/// A well-formed tree reads the same from a manager that holds the same
/// bytes and caches nothing.
pub proof fn lemma_tree_reload(new: NVObjectManager, old: NVObjectManager, op: ObjectPointer, h: nat)
    requires
        new.cache() == Map::<u64, AnyRcObject>::empty(),
        new.image() == old.image(),
        new.fso == old.fso,
        tree_wf(old, op, h),
    ensures
        tree_wf(new, op, h),
        content(new, op, h) == content(old, op, h),
    decreases h, 0nat,
{
    lemma_node_at_reload(new, old, op);
    match node_at(old, op) {
        Some(NodeView::Internal(es)) => {
            lemma_children_reload(new, old, es, (h - 1) as nat);
        },
        _ => {},
    }
}

/// Well-formed children read the same from a manager that holds the same
/// bytes and caches nothing.
pub proof fn lemma_children_reload(
    new: NVObjectManager,
    old: NVObjectManager,
    es: Seq<NodeEntry<u64, ObjectPointer>>,
    h: nat,
)
    requires
        new.cache() == Map::<u64, AnyRcObject>::empty(),
        new.image() == old.image(),
        new.fso == old.fso,
        children_wf(old, es, h),
    ensures
        children_wf(new, es, h),
        children_content(new, es, h) == children_content(old, es, h),
    decreases h, es.len(),
{
    if es.len() > 0 {
        lemma_children_reload(new, old, es.drop_last(), h);
        lemma_tree_reload(new, old, es.last().value, h);
    }
}

/// Storing objects in the same transaction group leaves the uberblock
/// copies as they were.
pub proof fn lemma_extends_slots(new: NVObjectManager, old: NVObjectManager)
    requires
        extends(new, old),
        old.slots_ok(),
        new.txg == old.txg,
    ensures
        new.slots_ok(),
{
    assert forall|i: int| 0 <= i < 3 implies slot_valid(new.image(), i) && #[trigger] slot_uberblock(
        new.image(),
        i,
    ).txg <= new.txg by {
        assert(new.image().subrange(slot_offset(i), slot_offset(i) + 41) =~= old.image().subrange(
            slot_offset(i),
            slot_offset(i) + 41,
        ));
        assert(slot_uberblock(old.image(), i).txg <= old.txg);
    }
}

/// A well-formed tree keeps its shape and content in an extending manager.
pub proof fn lemma_tree_frame(new: NVObjectManager, old: NVObjectManager, op: ObjectPointer, h: nat)
    requires
        keeps_objects(new, old),
        tree_wf(old, op, h),
    ensures
        tree_wf(new, op, h),
        content(new, op, h) == content(old, op, h),
    decreases h, 0nat,
{
    lemma_node_at_frame(new, old, op);
    match node_at(old, op) {
        Some(NodeView::Internal(es)) => {
            lemma_children_frame(new, old, es, (h - 1) as nat);
        },
        _ => {},
    }
}

/// Well-formed children keep their shape and content in an extending
/// manager.
pub proof fn lemma_children_frame(
    new: NVObjectManager,
    old: NVObjectManager,
    es: Seq<NodeEntry<u64, ObjectPointer>>,
    h: nat,
)
    requires
        keeps_objects(new, old),
        children_wf(old, es, h),
    ensures
        children_wf(new, es, h),
        children_content(new, es, h) == children_content(old, es, h),
    decreases h, es.len(),
{
    if es.len() > 0 {
        lemma_children_frame(new, old, es.drop_last(), h);
        lemma_tree_frame(new, old, es.last().value, h);
    }
}

/// The content of concatenated children is the concatenation of their
/// contents.
pub proof fn lemma_children_content_concat(
    mgr: NVObjectManager,
    a: Seq<NodeEntry<u64, ObjectPointer>>,
    b: Seq<NodeEntry<u64, ObjectPointer>>,
    h: nat,
)
    ensures
        children_content(mgr, a + b, h) == children_content(mgr, a, h) + children_content(
            mgr,
            b,
            h,
        ),
    decreases b.len(),
{
    if b.len() == 0 {
        assert(a + b =~= a);
    } else {
        assert((a + b).drop_last() =~= a + b.drop_last());
        assert((a + b).last() == b.last());
        lemma_children_content_concat(mgr, a, b.drop_last(), h);
    }
}

/// Concatenated children are well-formed exactly when both parts are.
pub proof fn lemma_children_wf_concat(
    mgr: NVObjectManager,
    a: Seq<NodeEntry<u64, ObjectPointer>>,
    b: Seq<NodeEntry<u64, ObjectPointer>>,
    h: nat,
)
    ensures
        children_wf(mgr, a + b, h) <==> children_wf(mgr, a, h) && children_wf(mgr, b, h),
    decreases b.len(),
{
    if b.len() == 0 {
        assert(a + b =~= a);
    } else {
        assert((a + b).drop_last() =~= a + b.drop_last());
        assert((a + b).last() == b.last());
        lemma_children_wf_concat(mgr, a, b.drop_last(), h);
    }
}

/// Children are well-formed exactly when each one is.
pub proof fn lemma_children_wf_each(mgr: NVObjectManager, es: Seq<NodeEntry<u64, ObjectPointer>>, h: nat)
    ensures
        children_wf(mgr, es, h) <==> forall|i: int| 0 <= i < es.len() ==> child_ok(mgr, #[trigger] es[i], h),
    decreases es.len(),
{
    if es.len() > 0 {
        lemma_children_wf_each(mgr, es.drop_last(), h);
        if children_wf(mgr, es, h) {
            assert forall|i: int| 0 <= i < es.len() implies child_ok(mgr, #[trigger] es[i], h) by {
                if i < es.len() - 1 {
                    assert(es.drop_last()[i] == es[i]);
                }
            }
        }
        if forall|i: int| 0 <= i < es.len() ==> child_ok(mgr, #[trigger] es[i], h) {
            assert forall|i: int| 0 <= i < es.drop_last().len() implies child_ok(
                mgr,
                #[trigger] es.drop_last()[i],
                h,
            ) by {
                assert(es.drop_last()[i] == es[i]);
            }
            assert(child_ok(mgr, es[es.len() - 1], h));
        }
    }
}

/// A tree well-formed at some height is well-formed, with the same
/// content, at every greater height.
pub proof fn lemma_tree_mono(mgr: NVObjectManager, op: ObjectPointer, h: nat, h2: nat)
    requires
        tree_wf(mgr, op, h),
        h <= h2,
    ensures
        tree_wf(mgr, op, h2),
        content(mgr, op, h2) == content(mgr, op, h),
    decreases h, 0nat,
{
    match node_at(mgr, op) {
        Some(NodeView::Internal(es)) => {
            lemma_children_mono(mgr, es, (h - 1) as nat, (h2 - 1) as nat);
        },
        _ => {},
    }
}

pub proof fn lemma_children_mono(mgr: NVObjectManager, es: Seq<NodeEntry<u64, ObjectPointer>>, h: nat, h2: nat)
    requires
        children_wf(mgr, es, h),
        h <= h2,
    ensures
        children_wf(mgr, es, h2),
        children_content(mgr, es, h2) == children_content(mgr, es, h),
    decreases h, es.len(),
{
    if es.len() > 0 {
        lemma_children_mono(mgr, es.drop_last(), h, h2);
        lemma_tree_mono(mgr, es.last().value, h, h2);
    }
}

/// The merge of two entry sequences that `itertools::merge_by` computes
/// with `a.key <= b.key`: at each step the head of `a` goes first unless
/// the head of `b` has a smaller key.
pub open spec fn merge_entries(a: Seq<NodeEntry<u64, u64>>, b: Seq<NodeEntry<u64, u64>>) -> Seq<
    NodeEntry<u64, u64>,
>
    decreases a.len() + b.len(),
{
    if a.len() == 0 {
        b
    } else if b.len() == 0 {
        a
    } else if a[0].key <= b[0].key {
        seq![a[0]] + merge_entries(a.drop_first(), b)
    } else {
        seq![b[0]] + merge_entries(a, b.drop_first())
    }
}

/// The merge keeps every entry of both sides.
pub proof fn lemma_merge_len(a: Seq<NodeEntry<u64, u64>>, b: Seq<NodeEntry<u64, u64>>)
    ensures
        merge_entries(a, b).len() == a.len() + b.len(),
    decreases a.len() + b.len(),
{
    if a.len() > 0 && b.len() > 0 {
        if a[0].key <= b[0].key {
            lemma_merge_len(a.drop_first(), b);
        } else {
            lemma_merge_len(a, b.drop_first());
        }
    }
}

/// Every key of the merge is at least `k` when every key of both sides is.
proof fn lemma_merge_lower_bound(a: Seq<NodeEntry<u64, u64>>, b: Seq<NodeEntry<u64, u64>>, k: u64)
    requires
        forall|i: int| 0 <= i < a.len() ==> k <= #[trigger] a[i].key,
        forall|i: int| 0 <= i < b.len() ==> k <= #[trigger] b[i].key,
    ensures
        forall|i: int|
            0 <= i < merge_entries(a, b).len() ==> k <= #[trigger] merge_entries(a, b)[i].key,
    decreases a.len() + b.len(),
{
    if a.len() > 0 && b.len() > 0 {
        if a[0].key <= b[0].key {
            lemma_merge_lower_bound(a.drop_first(), b, k);
            let m = merge_entries(a, b);
            assert forall|i: int| 0 <= i < m.len() implies k <= #[trigger] m[i].key by {
                if i > 0 {
                    assert(m[i] == merge_entries(a.drop_first(), b)[i - 1]);
                }
            }
        } else {
            lemma_merge_lower_bound(a, b.drop_first(), k);
            let m = merge_entries(a, b);
            assert forall|i: int| 0 <= i < m.len() implies k <= #[trigger] m[i].key by {
                if i > 0 {
                    assert(m[i] == merge_entries(a, b.drop_first())[i - 1]);
                }
            }
        }
    }
}

/// The merge of two sorted sequences is sorted.
pub proof fn lemma_merge_sorted(a: Seq<NodeEntry<u64, u64>>, b: Seq<NodeEntry<u64, u64>>)
    requires
        keys_sorted(a),
        keys_sorted(b),
    ensures
        keys_sorted(merge_entries(a, b)),
    decreases a.len() + b.len(),
{
    if a.len() > 0 && b.len() > 0 {
        let m = merge_entries(a, b);
        if a[0].key <= b[0].key {
            let rest = merge_entries(a.drop_first(), b);
            lemma_merge_sorted(a.drop_first(), b);
            lemma_merge_lower_bound(a.drop_first(), b, a[0].key);
            assert forall|i: int, j: int| 0 <= i <= j < m.len() implies m[i].key <= m[j].key by {
                if i > 0 {
                    assert(m[i] == rest[i - 1]);
                }
                if j > 0 {
                    assert(m[j] == rest[j - 1]);
                }
            }
        } else {
            let rest = merge_entries(a, b.drop_first());
            lemma_merge_sorted(a, b.drop_first());
            lemma_merge_lower_bound(a, b.drop_first(), b[0].key);
            assert forall|i: int, j: int| 0 <= i <= j < m.len() implies m[i].key <= m[j].key by {
                if i > 0 {
                    assert(m[i] == rest[i - 1]);
                }
                if j > 0 {
                    assert(m[j] == rest[j - 1]);
                }
            }
        }
    }
}

/// Entries whose keys are all at most the first key of `m` come out of the
/// merge first, untouched.
pub proof fn lemma_merge_prefix(
    pre: Seq<NodeEntry<u64, u64>>,
    r: Seq<NodeEntry<u64, u64>>,
    m: Seq<NodeEntry<u64, u64>>,
)
    requires
        m.len() > 0 ==> forall|i: int| 0 <= i < pre.len() ==> #[trigger] pre[i].key <= m[0].key,
    ensures
        merge_entries(pre + r, m) == pre + merge_entries(r, m),
    decreases pre.len(),
{
    if pre.len() == 0 {
        assert(pre + r =~= r);
    } else if m.len() == 0 {
        assert(pre + r + m =~= pre + r);
    } else {
        assert((pre + r)[0] == pre[0]);
        assert((pre + r).drop_first() =~= pre.drop_first() + r);
        assert forall|i: int| 0 <= i < pre.drop_first().len() implies #[trigger] pre.drop_first()[i].key
            <= m[0].key by {
            assert(pre.drop_first()[i] == pre[i + 1]);
        }
        lemma_merge_prefix(pre.drop_first(), r, m);
        assert(seq![pre[0]] + (pre.drop_first() + merge_entries(r, m)) =~= pre + merge_entries(r, m));
    }
}

/// Merging two parts into two parts goes part by part when the first part
/// of each side comes before the second part of the other: the first
/// parts' merge, then the second parts'.
pub proof fn lemma_merge_concat(
    x: Seq<NodeEntry<u64, u64>>,
    y: Seq<NodeEntry<u64, u64>>,
    m1: Seq<NodeEntry<u64, u64>>,
    m2: Seq<NodeEntry<u64, u64>>,
)
    requires
        forall|i: int, j: int|
            0 <= i < x.len() && 0 <= j < m2.len() ==> #[trigger] x[i].key <= #[trigger] m2[j].key,
        forall|i: int, j: int|
            0 <= i < m1.len() && 0 <= j < y.len() ==> #[trigger] m1[i].key < #[trigger] y[j].key,
    ensures
        merge_entries(x + y, m1 + m2) == merge_entries(x, m1) + merge_entries(y, m2),
    decreases x.len() + m1.len(),
{
    if x.len() == 0 && m1.len() == 0 {
        assert(x + y =~= y);
        assert(m1 + m2 =~= m2);
        assert(merge_entries(x, m1) =~= Seq::<NodeEntry<u64, u64>>::empty());
        assert(Seq::<NodeEntry<u64, u64>>::empty() + merge_entries(y, m2) =~= merge_entries(y, m2));
    } else if x.len() == 0 {
        assert(x + y =~= y);
        if y.len() == 0 {
            assert(merge_entries(x + y, m1 + m2) == m1 + m2);
            assert(merge_entries(y, m2) == m2);
        } else {
            assert((m1 + m2)[0] == m1[0]);
            assert(m1[0].key < y[0].key);
            assert((m1 + m2).drop_first() =~= m1.drop_first() + m2);
            assert forall|i: int, j: int|
                0 <= i < m1.drop_first().len() && 0 <= j < y.len() implies #[trigger] m1.drop_first()[i].key
                < #[trigger] y[j].key by {
                assert(m1.drop_first()[i] == m1[i + 1]);
            }
            lemma_merge_concat(x, y, m1.drop_first(), m2);
            assert(merge_entries(x, m1.drop_first()) == m1.drop_first());
            assert(merge_entries(x, m1) == m1);
            assert(seq![m1[0]] + (m1.drop_first() + merge_entries(y, m2)) =~= m1 + merge_entries(y, m2));
        }
    } else if m1.len() == 0 {
        assert(m1 + m2 =~= m2);
        if m2.len() == 0 {
            assert(merge_entries(x + y, m2) == x + y);
            assert(merge_entries(y, m2) == y);
            assert(merge_entries(x, m1) == x);
        } else {
            assert((x + y)[0] == x[0]);
            assert(x[0].key <= m2[0].key);
            assert((x + y).drop_first() =~= x.drop_first() + y);
            assert forall|i: int, j: int|
                0 <= i < x.drop_first().len() && 0 <= j < m2.len() implies #[trigger] x.drop_first()[i].key
                <= #[trigger] m2[j].key by {
                assert(x.drop_first()[i] == x[i + 1]);
            }
            lemma_merge_concat(x.drop_first(), y, m1, m2);
            assert(merge_entries(x.drop_first(), m1) == x.drop_first());
            assert(merge_entries(x, m1) == x);
            assert(seq![x[0]] + (x.drop_first() + merge_entries(y, m2)) =~= x + merge_entries(y, m2));
        }
    } else {
        assert((x + y)[0] == x[0]);
        assert((m1 + m2)[0] == m1[0]);
        if x[0].key <= m1[0].key {
            assert((x + y).drop_first() =~= x.drop_first() + y);
            assert forall|i: int, j: int|
                0 <= i < x.drop_first().len() && 0 <= j < m2.len() implies #[trigger] x.drop_first()[i].key
                <= #[trigger] m2[j].key by {
                assert(x.drop_first()[i] == x[i + 1]);
            }
            lemma_merge_concat(x.drop_first(), y, m1, m2);
            assert(seq![x[0]] + (merge_entries(x.drop_first(), m1) + merge_entries(y, m2)) =~= seq![x[0]]
                + merge_entries(x.drop_first(), m1) + merge_entries(y, m2));
        } else {
            assert((m1 + m2).drop_first() =~= m1.drop_first() + m2);
            assert forall|i: int, j: int|
                0 <= i < m1.drop_first().len() && 0 <= j < y.len() implies #[trigger] m1.drop_first()[i].key
                < #[trigger] y[j].key by {
                assert(m1.drop_first()[i] == m1[i + 1]);
            }
            lemma_merge_concat(x, y, m1.drop_first(), m2);
            assert(seq![m1[0]] + (merge_entries(x, m1.drop_first()) + merge_entries(y, m2)) =~= seq![m1[0]]
                + merge_entries(x, m1.drop_first()) + merge_entries(y, m2));
        }
    }
}

/// Merging nothing in leaves the entries as they are.
pub proof fn lemma_merge_empty(a: Seq<NodeEntry<u64, u64>>)
    ensures
        merge_entries(a, Seq::empty()) == a,
{
}

/// `op` roots a well-formed tree of some height.
pub open spec fn wf_tree(mgr: NVObjectManager, op: ObjectPointer) -> bool {
    exists|h: nat| tree_wf(mgr, op, h)
}

/// The leaf entries, in order, of the well-formed tree at `op`.
pub open spec fn tree_content(mgr: NVObjectManager, op: ObjectPointer) -> Seq<NodeEntry<u64, u64>> {
    content(mgr, op, choose|h: nat| tree_wf(mgr, op, h))
}

/// Any height at which the tree is well-formed gives its content.
pub proof fn lemma_tree_content(mgr: NVObjectManager, op: ObjectPointer, h: nat)
    requires
        tree_wf(mgr, op, h),
    ensures
        wf_tree(mgr, op),
        tree_content(mgr, op) == content(mgr, op, h),
{
    let h2 = choose|h2: nat| tree_wf(mgr, op, h2);
    if h <= h2 {
        lemma_tree_mono(mgr, op, h, h2);
    } else {
        lemma_tree_mono(mgr, op, h2, h);
    }
}

/// Writing an uberblock copy, below the area where objects lie, keeps
/// the objects the manager holds.
pub proof fn lemma_uberblock_write_keeps(new: NVObjectManager, old: NVObjectManager, off: int, d: Seq<u8>)
    requires
        new.cache() == old.cache(),
        new.fso == old.fso,
        new.image() == crate::non_volatile::block_device::spec_write(old.image(), off, d),
        0 <= off,
        off + d.len() <= UB_AREA,
    ensures
        keeps_objects(new, old),
{
}

} // verus!
