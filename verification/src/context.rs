//! The store as its user sees it: inserts are buffered in a memstore and
//! merged into the tree, by copy on write, on commit.

use std::collections::BTreeMap;
use vstd::prelude::*;
use vstd::std_specs::iter::IteratorSpec;

use crate::algorithm::b_epsilon_tree;
use crate::algorithm::b_epsilon_tree::{
    debug_lines_view,
    debug_view,
    lemma_wf_readable,
    merge_tree_pre,
    tree_readable,
    message_pairs_entries,
    DebugLine,
};
use crate::algorithm::b_epsilon_tree::tree_spec::{merge_entries, tree_content, wf_tree};
use crate::non_volatile::block_device::BlockImage;
use crate::non_volatile::object::object_pointer::ObjectPointer;
use crate::non_volatile::object::object_type::ObjectType;
use crate::non_volatile::object::tree::{Insert, Message};
use crate::algorithm::b_epsilon_tree::tree_spec::{
    lemma_bounded_frame,
    lemma_extends_slots,
    tree_bounded,
    wf_bounded,
    lemma_tree_content,
    lemma_tree_frame,
    lemma_tree_reload,
    lemma_uberblock_write_keeps,
    tree_wf,
};
use crate::non_volatile::object::any_rc_object::{leaf_pair, AnyRcObject, Object};
use crate::non_volatile::object::tree::NodeEntry;
use crate::non_volatile::object::uberblock::{lemma_uberblock_roundtrip, uberblock_bytes, Uberblock};
use crate::nv_obj_mngr::{loadable, loaded_uberblock, slot_offset, slot_uberblock, slot_valid, NVObjectManager};
use crate::serializable::lemma_encode_leaf_len;
use vstd::bytes::lemma_auto_spec_u64_to_from_le_bytes;

verus! {

broadcast use vstd::std_specs::btree::group_btree_axioms;

/// `s` lists the entries of `m`, by strictly increasing key.
pub open spec fn lists_entries(s: Seq<(u64, Message<u64>)>, m: Map<u64, Message<u64>>) -> bool {
    &&& forall|i: int, j: int| 0 <= i < j < s.len() ==> s[i].0 < s[j].0
    &&& forall|i: int| 0 <= i < s.len() ==> m.contains_key(#[trigger] s[i].0) && m[s[i].0] == s[i].1
    &&& forall|k: u64| #[trigger] m.contains_key(k) ==> exists|i: int| 0 <= i < s.len() && s[i].0 == k
}

/// Two listings of one map by strictly increasing key agree on the keys
/// up to position `i`.
proof fn lemma_listing_keys(
    s1: Seq<(u64, Message<u64>)>,
    s2: Seq<(u64, Message<u64>)>,
    m: Map<u64, Message<u64>>,
    i: int,
)
    requires
        lists_entries(s1, m),
        lists_entries(s2, m),
        0 <= i < s1.len(),
        i < s2.len(),
    ensures
        forall|j: int| 0 <= j <= i ==> s1[j].0 == s2[j].0,
    decreases i,
{
    if i > 0 {
        lemma_listing_keys(s1, s2, m, i - 1);
    }
    let k1 = s1[i].0;
    let k2 = s2[i].0;
    assert(m.contains_key(k1));
    assert(m.contains_key(k2));
    let j2 = choose|j: int| 0 <= j < s2.len() && s2[j].0 == k1;
    let j1 = choose|j: int| 0 <= j < s1.len() && s1[j].0 == k2;
    if k1 < k2 {
        if j2 < i {
            assert(s1[j2].0 == s2[j2].0);
            assert(s1[j2].0 < s1[i].0);
        } else if j2 > i {
            assert(s2[i].0 < s2[j2].0);
        }
    } else if k2 < k1 {
        if j1 < i {
            assert(s2[j1].0 == s1[j1].0);
            assert(s2[j1].0 < s2[i].0);
        } else if j1 > i {
            assert(s1[i].0 < s1[j1].0);
        }
    }
}

/// A map has one listing by strictly increasing key: the pending inserts
/// determine the entries that a commit merges.
pub proof fn lemma_listing_unique(
    s1: Seq<(u64, Message<u64>)>,
    s2: Seq<(u64, Message<u64>)>,
    m: Map<u64, Message<u64>>,
)
    requires
        lists_entries(s1, m),
        lists_entries(s2, m),
    ensures
        s1 == s2,
{
    let n = if s1.len() < s2.len() {
        s1.len() as int
    } else {
        s2.len() as int
    };
    if n > 0 {
        lemma_listing_keys(s1, s2, m, n - 1);
    }
    if s1.len() < s2.len() {
        let k = s2[n].0;
        assert(m.contains_key(k));
        let j = choose|j: int| 0 <= j < s1.len() && s1[j].0 == k;
        assert(s1[j].0 == s2[j].0);
        assert(s2[j].0 < s2[n].0);
    } else if s2.len() < s1.len() {
        let k = s1[n].0;
        assert(m.contains_key(k));
        let j = choose|j: int| 0 <= j < s2.len() && s2[j].0 == k;
        assert(s1[j].0 == s2[j].0);
        assert(s1[j].0 < s1[n].0);
    }
    assert forall|j: int| 0 <= j < s1.len() implies s1[j] == s2[j] by {
        assert(m[s1[j].0] == s1[j].1);
        assert(m[s2[j].0] == s2[j].1);
    }
    assert(s1 =~= s2);
}

/// What committing `pending` onto the tree at `head` asks: the tree is a
/// leaf (the merge does not handle inner nodes yet), well-formed, the merge
/// of the pending inserts returns and fits, and the transaction group can
/// be counted up.
pub open spec fn commit_ready(mgr: NVObjectManager, head: ObjectPointer, pending: Map<u64, Message<u64>>) -> bool {
    &&& head.object_type == ObjectType::LeafNode
    &&& wf_tree(mgr, head)
    &&& forall|s: Seq<(u64, Message<u64>)>|
        lists_entries(s, pending) ==> #[trigger] merge_tree_pre(mgr, head, message_pairs_entries(s))
    &&& mgr.txg < u64::MAX
}

/// The entries of the memstore, by increasing key.
fn memstore_entries(m: &BTreeMap<u64, Message<u64>>) -> (v: Vec<(u64, Message<u64>)>)
    ensures
        lists_entries(v@, m@),
{
    broadcast use vstd::laws_cmp::group_laws_cmp;

    let ghost all = vstd::std_specs::btree::spec_btree_map_iter(m).remaining();
    let mut v: Vec<(u64, Message<u64>)> = Vec::new();
    for e in it: m.iter()
        invariant
            it.seq() == all,
            v@.len() == it.index(),
            forall|j: int| 0 <= j < it.index() ==> #[trigger] v@[j] == (*all[j].0, *all[j].1),
    {
        v.push((*e.0, *e.1));
    }
    proof {
        let keys = all.map_values(|kv: (&u64, &Message<u64>)| *kv.0);
        assert(vstd::std_specs::btree::increasing_seq(keys));
        assert(vstd::laws_cmp::obeys_cmp::<u64>());
        assert forall|i: int, j: int| 0 <= i < j < v@.len() implies v@[i].0 < v@[j].0 by {
            assert(keys[i] == v@[i].0);
            assert(keys[j] == v@[j].0);
            assert(vstd::std_specs::cmp::OrdSpec::cmp_spec(&keys[i], &keys[j]) is Less);
        }
        assert forall|k: u64| #[trigger] m@.contains_key(k) implies exists|i: int|
            0 <= i < v@.len() && v@[i].0 == k by {
            assert(all.contains((&k, &m@[k])));
            let i = choose|i: int| 0 <= i < all.len() && all[i] == (&k, &m@[k]);
            assert(v@[i].0 == k);
        }
    }
    v
}

/// The store: the object manager, the root of the tree of the last merge,
/// and the inserts not merged yet.
#[derive(Debug)]
pub struct Context {
    pub nv_obj_mngr: NVObjectManager,
    pub head: ObjectPointer,
    pub buffer: BTreeMap<u64, u64>,
    pub memstore: BTreeMap<u64, Message<u64>>,
}

impl Context {
    /// The object manager.
    pub open spec fn mgr(&self) -> NVObjectManager {
        self.nv_obj_mngr
    }

    /// The inserts not merged yet, as messages.
    pub open spec fn pending(&self) -> Map<u64, Message<u64>> {
        self.memstore@
    }

    /// The inserts not merged yet, as values.
    pub open spec fn buffered(&self) -> Map<u64, u64> {
        self.buffer@
    }

    /// The device holds what was last committed: opening it gives back the
    /// root, the tree there is well-formed, and space is handed out past
    /// the uberblocks and the cached objects.
    pub open spec fn committed(&self) -> bool {
        &&& self.mgr().rooted_at(self.head)
        &&& wf_tree(self.mgr(), self.head)
        &&& self.mgr().inv()
    }

    /// The store as `load` opens it from the device `img`: at the root,
    /// transaction group and free-space offset of the uberblock it takes,
    /// with nothing cached and nothing pending.
    pub open spec fn loaded_from(&self, img: Seq<u8>) -> bool {
        let ub = loaded_uberblock(img);
        &&& self.head == ub.op
        &&& self.mgr().txg == ub.txg
        &&& self.mgr().fso == ub.fso
        &&& self.mgr().image() == img
        &&& self.mgr().cache() == Map::<u64, AnyRcObject>::empty()
        &&& self.pending() == Map::<u64, Message<u64>>::empty()
        &&& self.buffered() == Map::<u64, u64>::empty()
    }

    /// What `commit` asks.
    pub open spec fn commit_pre(&self) -> bool {
        commit_ready(self.mgr(), self.head, self.pending())
    }

    /// Formats the device held in `nv_blk_dev` with an empty tree.
    pub fn new(nv_blk_dev: BlockImage) -> (ctx: Context)
        ensures
            ctx.head.object_type == ObjectType::LeafNode,
            ctx.mgr().txg == 1,
            wf_tree(ctx.mgr(), ctx.head),
            tree_content(ctx.mgr(), ctx.head).len() == 0,
            ctx.committed(),
            ctx.pending() == Map::<u64, Message<u64>>::empty(),
            ctx.buffered() == Map::<u64, u64>::empty(),
    {
        let root = b_epsilon_tree::new();
        proof {
            lemma_encode_leaf_len(root.entries@.map_values(|e: NodeEntry<u64, u64>| leaf_pair(e)));
        }
        let (nv_obj_mngr, head) = NVObjectManager::new(root, nv_blk_dev);
        proof {
            assert(tree_wf(nv_obj_mngr, head, 0));
            lemma_tree_content(nv_obj_mngr, head, 0);
        }

        Self { nv_obj_mngr, head, buffer: BTreeMap::new(), memstore: BTreeMap::new() }
    }

    /// Opens the device held in `nv_blk_dev` at its latest uberblock.
    pub fn load(nv_blk_dev: BlockImage) -> (ctx: Context)
        requires
            loadable(nv_blk_dev.data@),
        ensures
            ctx.loaded_from(nv_blk_dev.data@),
    {
        let (nv_obj_mngr, head) = NVObjectManager::load(nv_blk_dev);

        Self { nv_obj_mngr, head, buffer: BTreeMap::new(), memstore: BTreeMap::new() }
    }

    /// Merges the pending inserts into the tree, writes the uberblock of
    /// the next transaction group, and empties the memstore.
    pub fn commit(&mut self)
        requires
            old(self).commit_pre(),
        ensures
            final(self).pending() == Map::<u64, Message<u64>>::empty(),
            final(self).buffered() == Map::<u64, u64>::empty(),
            final(self).mgr().txg == old(self).mgr().txg + 1,
            wf_tree(final(self).mgr(), final(self).head),
            wf_bounded(final(self).mgr(), final(self).head),
            old(self).mgr().slots_ok() ==> final(self).committed(),
            slot_valid(final(self).mgr().image(), (final(self).mgr().txg % 3) as int),
            slot_uberblock(final(self).mgr().image(), (final(self).mgr().txg % 3) as int) == (Uberblock {
                txg: final(self).mgr().txg,
                fso: final(self).mgr().fso,
                op: final(self).head,
            }),
            wf_tree(final(self).mgr(), old(self).head),
            tree_content(final(self).mgr(), old(self).head) == tree_content(old(self).mgr(), old(self).head),
            exists|s: Seq<(u64, Message<u64>)>|
                lists_entries(s, old(self).pending()) && #[trigger] tree_content(
                    final(self).mgr(),
                    final(self).head,
                ) == merge_entries(
                    tree_content(old(self).mgr(), old(self).head),
                    message_pairs_entries(s),
                ),
    {
        let mut swap_buffer: BTreeMap<u64, u64> = BTreeMap::new();
        std::mem::swap(&mut swap_buffer, &mut self.buffer);

        let mut swap_memstore: BTreeMap<u64, Message<u64>> = BTreeMap::new();
        std::mem::swap(&mut swap_memstore, &mut self.memstore);

        let entries = memstore_entries(&swap_memstore);
        assert(merge_tree_pre(self.nv_obj_mngr, self.head, message_pairs_entries(entries@)));
        let ghost s = entries@;
        let ghost old_head = self.head;
        let head = b_epsilon_tree::merge_tree_epsilon(entries, &mut self.nv_obj_mngr, &self.head);
        self.head = head;

        let ghost merged = self.nv_obj_mngr;
        self.nv_obj_mngr.commit(&self.head);
        proof {
            lemma_auto_spec_u64_to_from_le_bytes();
            lemma_uberblock_roundtrip(
                Uberblock { txg: self.nv_obj_mngr.txg, fso: merged.fso, op: self.head },
            );
            lemma_uberblock_write_keeps(
                self.nv_obj_mngr,
                merged,
                slot_offset((self.nv_obj_mngr.txg % 3) as int),
                uberblock_bytes(Uberblock { txg: self.nv_obj_mngr.txg, fso: merged.fso, op: self.head }),
            );
            if old(self).mgr().slots_ok() {
                lemma_extends_slots(merged, old(self).mgr());
            }
            let h = choose|h: nat| tree_wf(merged, self.head, h);
            lemma_tree_content(merged, self.head, h);
            lemma_tree_frame(self.nv_obj_mngr, merged, self.head, h);
            lemma_tree_content(self.nv_obj_mngr, self.head, h);
            let hb = choose|hb: nat| tree_wf(merged, self.head, hb) && tree_bounded(merged, self.head, hb);
            lemma_bounded_frame(self.nv_obj_mngr, merged, self.head, hb);
            lemma_tree_frame(self.nv_obj_mngr, merged, self.head, hb);
            let h0 = choose|h0: nat| tree_wf(merged, old_head, h0);
            lemma_tree_content(merged, old_head, h0);
            lemma_tree_frame(self.nv_obj_mngr, merged, old_head, h0);
            lemma_tree_content(self.nv_obj_mngr, old_head, h0);
            assert(lists_entries(s, old(self).pending()));
        }
    }

    /// Whether inserting `v` under `k` now makes `insert` commit: three keys
    /// would be pending.
    pub fn commits_on_insert(&self, k: u64, v: u64) -> (r: bool)
        ensures
            r == (self.pending().insert(k, Message::Insert(Insert { value: v })).len() >= 3),
    {
        let ghost m = self.pending();
        let ghost m2 = m.insert(k, Message::Insert(Insert { value: v }));
        proof {
            if m.contains_key(k) {
                assert(m2.dom() =~= m.dom());
            } else {
                assert(m2.dom() =~= m.dom().insert(k));
            }
        }
        let n = self.memstore.len();
        if self.memstore.contains_key(&k) {
            n >= 3
        } else {
            n >= 2
        }
    }

    /// Buffers the insert of `v` under `k`; once three keys are pending,
    /// commits.
    pub fn insert(&mut self, k: u64, v: u64)
        requires
            old(self).pending().insert(k, Message::Insert(Insert { value: v })).len() >= 3
                ==> commit_ready(
                old(self).mgr(),
                old(self).head,
                old(self).pending().insert(k, Message::Insert(Insert { value: v })),
            ),
        ensures
            old(self).pending().insert(k, Message::Insert(Insert { value: v })).len() < 3 ==> {
                &&& final(self).pending() == old(self).pending().insert(
                    k,
                    Message::Insert(Insert { value: v }),
                )
                &&& final(self).buffered() == old(self).buffered().insert(k, v)
                &&& final(self).head == old(self).head
                &&& final(self).mgr() == old(self).mgr()
            },
            old(self).pending().insert(k, Message::Insert(Insert { value: v })).len() >= 3 ==> {
                &&& final(self).pending() == Map::<u64, Message<u64>>::empty()
                &&& final(self).buffered() == Map::<u64, u64>::empty()
                &&& final(self).mgr().txg == old(self).mgr().txg + 1
                &&& wf_tree(final(self).mgr(), final(self).head)
                &&& wf_bounded(final(self).mgr(), final(self).head)
                &&& old(self).mgr().slots_ok() ==> final(self).committed()
                &&& wf_tree(final(self).mgr(), old(self).head)
                &&& tree_content(final(self).mgr(), old(self).head) == tree_content(
                    old(self).mgr(),
                    old(self).head,
                )
                &&& exists|s: Seq<(u64, Message<u64>)>|
                    lists_entries(
                        s,
                        old(self).pending().insert(k, Message::Insert(Insert { value: v })),
                    ) && #[trigger] tree_content(final(self).mgr(), final(self).head)
                        == merge_entries(
                        tree_content(old(self).mgr(), old(self).head),
                        message_pairs_entries(s),
                    )
            },
            final(self).pending().len() < 3,
            old(self).pending().contains_key(k) && old(self).pending()[k] == Message::Insert(
                Insert { value: v },
            ) && old(self).pending().len() < 3 ==> final(self).pending() == old(self).pending()
                && final(self).head == old(self).head && final(self).mgr() == old(self).mgr(),
            old(self).buffered().contains_key(k) && old(self).buffered()[k] == v && old(
                self,
            ).pending().contains_key(k) && old(self).pending().len() < 3 ==> final(self).buffered()
                == old(self).buffered(),
    {
        proof {
            let msg = Message::Insert(Insert { value: v });
            if old(self).pending().contains_key(k) {
                assert(old(self).pending().insert(k, msg).dom() =~= old(self).pending().dom());
                if old(self).pending()[k] == msg {
                    assert(old(self).pending().insert(k, msg) =~= old(self).pending());
                }
            }
            if old(self).buffered().contains_key(k) && old(self).buffered()[k] == v {
                assert(old(self).buffered().insert(k, v) =~= old(self).buffered());
            }
        }
        self.buffer.insert(k, v);
        self.memstore.insert(k, Message::Insert(Insert { value: v }));
        if self.memstore.len() >= 3 {
            self.commit();
        }
    }

    /// Lists the nodes of the tree, each before its children.
    pub fn debug(&mut self) -> (lines: Vec<DebugLine>)
        requires
            exists|h: nat| tree_readable(old(self).mgr(), old(self).head, h) && h <= usize::MAX,
        ensures
            *final(self) == *old(self),
            exists|h: nat|
                tree_readable(old(self).mgr(), old(self).head, h) && debug_lines_view(lines@)
                    == #[trigger] debug_view(old(self).mgr(), old(self).head, 0, h),
    {
        let mut lines: Vec<DebugLine> = Vec::new();
        b_epsilon_tree::debug(0, &mut self.nv_obj_mngr, &self.head, &mut lines);
        assert(debug_lines_view(Seq::<DebugLine>::empty()) =~= Seq::<b_epsilon_tree::DebugView>::empty());
        proof {
            let h = choose|h: nat|
                tree_readable(old(self).mgr(), old(self).head, h) && debug_lines_view(lines@)
                    == debug_lines_view(Seq::<DebugLine>::empty()) + #[trigger] debug_view(
                    old(self).mgr(),
                    old(self).head,
                    0,
                    h,
                );
            assert(debug_lines_view(Seq::<DebugLine>::empty()) + debug_view(old(self).mgr(), old(self).head, 0, h)
                =~= debug_view(old(self).mgr(), old(self).head, 0, h));
        }
        lines
    }
}

/// Opening the device that a committed store left gives back the
/// committed tree: the device can be opened, and the store it opens has
/// the same root, transaction group and free-space offset, and a
/// well-formed tree there with the same entries in the same order.
pub proof fn lemma_reload(saved: Context, loaded: Context)
    requires
        saved.committed(),
        loaded.loaded_from(saved.mgr().image()),
    ensures
        loadable(saved.mgr().image()),
        loaded.committed(),
        loaded.head == saved.head,
        loaded.mgr().txg == saved.mgr().txg,
        loaded.mgr().fso == saved.mgr().fso,
        wf_tree(loaded.mgr(), loaded.head),
        tree_content(loaded.mgr(), loaded.head) == tree_content(saved.mgr(), saved.head),
{
    let h = choose|h: nat| tree_wf(saved.mgr(), saved.head, h);
    lemma_tree_reload(loaded.mgr(), saved.mgr(), saved.head, h);
    lemma_tree_content(saved.mgr(), saved.head, h);
    lemma_tree_content(loaded.mgr(), loaded.head, h);
}

} // verus!
