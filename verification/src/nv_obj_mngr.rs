//! The object manager: allocates space on the block device, serializes and
//! writes objects, caches them, reads them back, and writes the uberblock
//! that roots each committed transaction group.

use std::rc::Rc;
use vstd::prelude::*;

use crate::common::{cast_u64, ConstObjType};
use crate::non_volatile::block_device::{spec_write, BlockImage};
use crate::non_volatile::object::any_rc_object::{AnyRcObject, NodeView, Object};
use crate::non_volatile::object::object_pointer::ObjectPointer;
use crate::non_volatile::object::uberblock::{
    lemma_uberblock_roundtrip,
    read_uberblock,
    uberblock_bytes,
    Uberblock,
};
use crate::nv_obj_cache::NVObjectCache;

verus! {

/// Number of uberblock copies at the start of the device.
pub const NUM_UBERBLOCKS: u64 = 3;

/// Bytes at the start of the device that hold the uberblock copies.
pub const UB_AREA: u64 = 123;

/// Where uberblock copy `i` lies.
pub open spec fn slot_offset(i: int) -> int {
    i * 41
}

/// The uberblock that slot `i` of the device holds, when it reads back.
pub open spec fn slot_uberblock(img: Seq<u8>, i: int) -> Uberblock {
    read_uberblock(img.subrange(slot_offset(i), slot_offset(i) + 41)).unwrap()->Ok_0
}

/// Slot `i` reads back as an uberblock.
pub open spec fn slot_valid(img: Seq<u8>, i: int) -> bool {
    read_uberblock(img.subrange(slot_offset(i), slot_offset(i) + 41)) matches Some(Ok(_))
}

/// The slot that `load` picks: the first one whose transaction group is
/// greater than those of the slots before it and than zero.
pub open spec fn latest_slot(img: Seq<u8>) -> int {
    let t0 = slot_uberblock(img, 0).txg;
    let t1 = slot_uberblock(img, 1).txg;
    let t2 = slot_uberblock(img, 2).txg;
    let best01 = if t1 > t0 {
        1int
    } else {
        0int
    };
    let best01_txg = if t1 > t0 {
        t1
    } else {
        t0
    };
    if t2 > best01_txg {
        2
    } else {
        best01
    }
}

/// The device can be opened: it holds the uberblock area, every copy
/// reads back as an uberblock, and one has a transaction group above zero.
pub open spec fn loadable(img: Seq<u8>) -> bool {
    &&& img.len() >= UB_AREA
    &&& slot_valid(img, 0)
    &&& slot_valid(img, 1)
    &&& slot_valid(img, 2)
    &&& slot_uberblock(img, 0).txg > 0 || slot_uberblock(img, 1).txg > 0 || slot_uberblock(img, 2).txg > 0
}

/// The uberblock that opening the device `img` takes.
pub open spec fn loaded_uberblock(img: Seq<u8>) -> Uberblock {
    slot_uberblock(img, latest_slot(img))
}

/// The object manager's state.
#[derive(Debug)]
pub struct NVObjectManager {
    /// contents of the block device
    pub nv_blk_dev: BlockImage,
    /// transaction group number
    pub txg: u64,
    /// free space offset
    pub fso: u64,
    /// clean cache
    pub ccache: NVObjectCache,
}

impl NVObjectManager {
    pub open spec fn cache(&self) -> Map<u64, AnyRcObject> {
        self.ccache.map@
    }

    pub open spec fn image(&self) -> Seq<u8> {
        self.nv_blk_dev.data@
    }

    /// The bytes on the device that `op` points at.
    pub open spec fn raw_at(&self, op: ObjectPointer) -> Seq<u8> {
        self.image().subrange(op.offset as int, op.offset + op.len)
    }

    /// Whether `get::<O>` returns at `op`: a cached object of that kind, or
    /// bytes on the device that read back as one.
    pub open spec fn can_get<O: Object>(&self, op: ObjectPointer) -> bool {
        if self.cache().contains_key(op.offset) {
            self.cache()[op.offset].kind() == O::spec_obj_type()
        } else {
            op.offset + op.len <= self.image().len() && O::spec_read(self.raw_at(op)) is Some
        }
    }

    /// What `get::<O>` returns at `op`.
    pub open spec fn got<O: Object>(&self, op: ObjectPointer) -> NodeView {
        if self.cache().contains_key(op.offset) {
            self.cache()[op.offset].view_node()
        } else {
            O::spec_read(self.raw_at(op)).unwrap()
        }
    }

    /// Every uberblock copy on the device reads back, and none is of a
    /// later transaction group than the manager's.
    pub open spec fn slots_ok(&self) -> bool {
        &&& self.image().len() >= UB_AREA
        &&& forall|i: int|
            0 <= i < 3 ==> slot_valid(self.image(), i) && #[trigger] slot_uberblock(self.image(), i).txg
                <= self.txg
    }

    /// Opening the device gives back the manager's transaction group, with
    /// `fso` as the free-space offset and `op` as the root.
    pub open spec fn rooted_with(&self, op: ObjectPointer, fso: u64) -> bool {
        &&& self.slots_ok()
        &&& loadable(self.image())
        &&& loaded_uberblock(self.image()) == (Uberblock { txg: self.txg, fso, op })
    }

    /// Opening the device gives back the manager's transaction group and
    /// free-space offset, with `op` as the root.
    pub open spec fn rooted_at(&self, op: ObjectPointer) -> bool {
        self.rooted_with(op, self.fso)
    }

    /// `op` holds `obj`: a `get` of its kind there returns its entries,
    /// and so do the bytes on the device, which read back as it.
    pub open spec fn holds_object<O: Object>(&self, op: ObjectPointer, obj: O) -> bool {
        &&& self.cache().contains_key(op.offset)
        &&& self.cache()[op.offset].kind() == O::spec_obj_type()
        &&& self.cache()[op.offset].view_node() == obj.node_view()
        &&& op.offset + op.len <= self.image().len()
        &&& O::spec_read(self.raw_at(op)) == Some(obj.node_view())
    }

    /// Space is handed out past the uberblocks, and every cached object
    /// lies below the free-space offset.
    pub open spec fn inv(&self) -> bool {
        &&& UB_AREA <= self.fso
        &&& forall|k: u64| #[trigger] self.cache().contains_key(k) ==> UB_AREA <= k < self.fso
    }

    /// Formats a device: writes `obj` as the first object past the
    /// uberblock area and three copies of an uberblock of transaction group
    /// 1 that points at it. Returns the manager and the object's pointer.
    #[verifier::spinoff_prover]
    pub fn new<O: Object>(obj: O, nv_blk_dev: BlockImage) -> (r: (Self, ObjectPointer))
        requires
            UB_AREA + obj.spec_raw().len() <= usize::MAX,
        ensures
            ({
                let (mgr, op) = r;
                let raw = obj.spec_raw();
                let ub = Uberblock { txg: 1, fso: (UB_AREA + raw.len()) as u64, op };
                let written = spec_write(nv_blk_dev.data@, UB_AREA as int, raw);
                &&& op == ObjectPointer {
                    offset: UB_AREA,
                    len: raw.len() as u64,
                    object_type: O::spec_obj_type(),
                }
                &&& mgr.txg == 1
                &&& mgr.fso == UB_AREA + raw.len()
                &&& mgr.cache().dom() == Set::<u64>::empty().insert(UB_AREA)
                &&& mgr.holds_object(op, obj)
                &&& mgr.image() == spec_write(
                    spec_write(spec_write(written, 0, uberblock_bytes(ub)), 41, uberblock_bytes(ub)),
                    82,
                    uberblock_bytes(ub),
                )
                &&& mgr.inv()
                &&& mgr.rooted_at(op)
            }),
    {
        let mut nv_blk_dev = nv_blk_dev;
        let mut fso: u64 = Self::NUM_UBERBLOCKS * Uberblock::RAW_SIZE as u64;
        let txg: u64 = 1;
        let mut ccache = NVObjectCache::new();

        // convert obj to raw
        let obj_raw = Self::obj_to_raw(&obj);
        proof {
            obj.lemma_raw_len();
        }
        let len = obj_raw.len() as u64;

        // write obj
        let ghost o = obj;
        let offset = Self::alloc_impl(&mut fso, len);
        let op = Self::write_impl(&mut ccache, &mut nv_blk_dev, obj, obj_raw, offset);
        proof {
            o.lemma_read_raw();
        }

        // create uberblock
        let ub = Uberblock::new(txg, op, fso);
        let ub_raw = ub.serialize();
        proof {
            lemma_uberblock_roundtrip(ub);
        }

        // write uberblock copies
        let ghost written = nv_blk_dev.data@;
        let mut i: u64 = 0;
        while i < Self::NUM_UBERBLOCKS
            invariant
                i <= 3,
                ub_raw@ == uberblock_bytes(ub),
                ub_raw@.len() == 41,
                nv_blk_dev.data@ == if i == 0 {
                    written
                } else if i == 1 {
                    spec_write(written, 0, ub_raw@)
                } else if i == 2 {
                    spec_write(spec_write(written, 0, ub_raw@), 41, ub_raw@)
                } else {
                    spec_write(
                        spec_write(spec_write(written, 0, ub_raw@), 41, ub_raw@),
                        82,
                        ub_raw@,
                    )
                },
            decreases 3 - i,
        {
            nv_blk_dev.write(i * Uberblock::RAW_SIZE as u64, ub_raw.as_slice());
            i = i + 1;
        }
        proof {
            assert(nv_blk_dev.data@.subrange(op.offset as int, op.offset + op.len) =~= o.spec_raw());
            let img = nv_blk_dev.data@;
            assert(img.subrange(0, 41) =~= ub_raw@);
            assert(img.subrange(41, 82) =~= ub_raw@);
            assert(img.subrange(82, 123) =~= ub_raw@);
            assert(slot_uberblock(img, 0) == ub);
            assert(slot_uberblock(img, 1) == ub);
            assert(slot_uberblock(img, 2) == ub);
        }

        (Self { nv_blk_dev, txg, fso, ccache }, op)
    }

    /// Opens a formatted device: reads the three uberblock copies and takes
    /// the one of the latest transaction group (the first such, on a tie).
    /// A copy that does not read back, or no copy with a transaction group
    /// above zero, is a failure; the precondition leaves those devices out.
    pub fn load(nv_blk_dev: BlockImage) -> (r: (Self, ObjectPointer))
        requires
            loadable(nv_blk_dev.data@),
        ensures
            ({
                let (mgr, op) = r;
                let ub = loaded_uberblock(nv_blk_dev.data@);
                &&& mgr.txg == ub.txg
                &&& mgr.fso == ub.fso
                &&& op == ub.op
                &&& mgr.image() == nv_blk_dev.data@
                &&& mgr.cache() == Map::<u64, AnyRcObject>::empty()
            }),
    {
        let ccache = NVObjectCache::new();
        let ghost img = nv_blk_dev.data@;

        // find latest uberblock
        let mut latest_txg: u64 = 0;
        let mut latest_ub: Option<Uberblock> = None;
        let mut i: u64 = 0;
        while i < Self::NUM_UBERBLOCKS
            invariant
                i <= 3,
                nv_blk_dev.data@ == img,
                img.len() >= UB_AREA,
                slot_valid(img, 0),
                slot_valid(img, 1),
                slot_valid(img, 2),
                latest_ub is None ==> latest_txg == 0 && forall|j: int|
                    0 <= j < i ==> slot_uberblock(img, j).txg == 0,
                latest_ub matches Some(u) ==> latest_txg == u.txg && latest_txg > 0 && ({
                    let t0 = slot_uberblock(img, 0).txg;
                    let t1 = slot_uberblock(img, 1).txg;
                    let best01 = if t1 > t0 {
                        1int
                    } else {
                        0int
                    };
                    let best01_txg = if t1 > t0 {
                        t1
                    } else {
                        t0
                    };
                    if i == 1 {
                        u == slot_uberblock(img, 0)
                    } else if i == 2 {
                        u == slot_uberblock(img, best01)
                    } else {
                        i == 3 && u == slot_uberblock(img, latest_slot(img))
                    }
                }),
            decreases 3 - i,
        {
            let raw = nv_blk_dev.read(i * Uberblock::RAW_SIZE as u64, Uberblock::RAW_SIZE as u64);
            assert(raw@ == img.subrange(slot_offset(i as int), slot_offset(i as int) + 41));
            let ub = Uberblock::deserialize(raw.as_slice()).unwrap();
            if ub.txg > latest_txg {
                latest_txg = ub.txg;
                latest_ub = Some(ub);
            }
            i = i + 1;
        }
        let txg = latest_txg;
        let ub = latest_ub.unwrap();

        (Self { nv_blk_dev, txg, fso: ub.fso, ccache }, ub.op)
    }

    /// Ends a transaction group: writes an uberblock of the next group that
    /// points at `op` into the copy that the group number selects.
    pub fn commit(&mut self, op: &ObjectPointer)
        requires
            old(self).txg < u64::MAX,
        ensures
            final(self).txg == old(self).txg + 1,
            final(self).fso == old(self).fso,
            final(self).cache() == old(self).cache(),
            final(self).image() == spec_write(
                old(self).image(),
                slot_offset((final(self).txg % 3) as int),
                uberblock_bytes((Uberblock { txg: final(self).txg, fso: old(self).fso, op: *op })),
            ),
            slot_valid(final(self).image(), (final(self).txg % 3) as int),
            slot_uberblock(final(self).image(), (final(self).txg % 3) as int) == (Uberblock {
                txg: final(self).txg,
                fso: old(self).fso,
                op: *op,
            }),
            old(self).slots_ok() ==> final(self).rooted_at(*op),
    {
        self.txg = self.txg + 1;
        let ub = Uberblock::new(self.txg, *op, self.fso);
        let ub_raw = ub.serialize();
        proof {
            lemma_uberblock_roundtrip(ub);
        }
        let ub_offset = (self.txg % Self::NUM_UBERBLOCKS) * Uberblock::RAW_SIZE as u64;
        let ghost pre = self.nv_blk_dev.data@;
        self.nv_blk_dev.write(ub_offset, ub_raw.as_slice());
        proof {
            let img = self.nv_blk_dev.data@;
            let j = (self.txg % 3) as int;
            assert(img.subrange(slot_offset(j), slot_offset(j) + 41) =~= ub_raw@);
            if old(self).slots_ok() {
                assert forall|i: int| 0 <= i < 3 && i != j implies img.subrange(
                    slot_offset(i),
                    slot_offset(i) + 41,
                ) == pre.subrange(slot_offset(i), slot_offset(i) + 41) by {
                    assert(img.subrange(slot_offset(i), slot_offset(i) + 41) =~= pre.subrange(
                        slot_offset(i),
                        slot_offset(i) + 41,
                    ));
                }
                assert(slot_uberblock(pre, 0).txg <= old(self).txg);
                assert(slot_uberblock(pre, 1).txg <= old(self).txg);
                assert(slot_uberblock(pre, 2).txg <= old(self).txg);
                assert(slot_uberblock(img, j) == ub);
                assert(slot_valid(img, j));
                assert forall|i: int| 0 <= i < 3 implies slot_valid(img, i) && #[trigger] slot_uberblock(
                    img,
                    i,
                ).txg <= self.txg by {
                    if i != j {
                        assert(slot_valid(pre, i));
                    }
                }
                assert(latest_slot(img) == j);
            }
        }
    }

    /// The object at `op`: from the cache, or read from the device and
    /// deserialized. An object that is of another kind, or bytes that do
    /// not read back, are a failure that the precondition leaves out.
    pub fn get<O: Object>(&mut self, op: &ObjectPointer) -> (r: Rc<O>)
        requires
            old(self).can_get::<O>(*op),
        ensures
            *final(self) == *old(self),
            r.node_view() == old(self).got::<O>(*op),
    {
        match self.ccache.get::<O>(op) {
            Some(o) => o,
            None => {
                let raw = self.nv_blk_dev.read(op.offset, op.len);
                proof {
                    O::lemma_read_ok(raw@);
                }
                let obj = O::from_raw(raw.as_slice()).unwrap();
                Rc::new(obj)
            },
        }
    }

    /// Serializes `obj`, writes it at the free-space offset and caches it.
    pub fn store<O: Object>(&mut self, obj: O) -> (op: ObjectPointer)
        requires
            old(self).inv(),
            old(self).fso + obj.spec_raw().len() <= usize::MAX,
            old(self).fso + obj.spec_raw().len() <= u64::MAX,
        ensures
            op == (ObjectPointer {
                offset: old(self).fso,
                len: obj.spec_raw().len() as u64,
                object_type: O::spec_obj_type(),
            }),
            final(self).fso == old(self).fso + obj.spec_raw().len(),
            final(self).txg == old(self).txg,
            final(self).cache().dom() == old(self).cache().dom().insert(old(self).fso),
            final(self).holds_object(op, obj),
            forall|r: ObjectPointer, f: u64| #[trigger]
                old(self).rooted_with(r, f) ==> final(self).rooted_with(r, f),
            forall|k: u64| #[trigger]
                old(self).cache().contains_key(k) ==> final(self).cache()[k] == old(self).cache()[k],
            final(self).image() == spec_write(old(self).image(), old(self).fso as int, obj.spec_raw()),
            final(self).inv(),
    {
        let obj_raw = Self::obj_to_raw(&obj);
        proof {
            obj.lemma_raw_len();
        }
        let len = obj_raw.len() as u64;

        let ghost o = obj;
        let offset = self.allocate(len);
        let op = Self::write_impl(&mut self.ccache, &mut self.nv_blk_dev, obj, obj_raw, offset);
        proof {
            o.lemma_read_raw();
            assert(self.raw_at(op) =~= o.spec_raw());
            if old(self).image().len() >= UB_AREA {
                lemma_slots_kept(self.image(), old(self).image());
            }
            assert forall|k: u64| #[trigger] self.cache().contains_key(k) implies UB_AREA <= k
                < self.fso by {
                if k != offset {
                    assert(old(self).cache().contains_key(k));
                }
            }
        }
        op
    }

    fn allocate(&mut self, size: u64) -> (o: u64)
        requires
            old(self).fso + size <= u64::MAX,
        ensures
            o == old(self).fso,
            final(self).fso == old(self).fso + size,
            final(self).txg == old(self).txg,
            final(self).ccache == old(self).ccache,
            final(self).nv_blk_dev == old(self).nv_blk_dev,
    {
        Self::alloc_impl(&mut self.fso, size)
    }

    fn write_impl<O: Object>(
        ccache: &mut NVObjectCache,
        nv_blk_dev: &mut BlockImage,
        obj: O,
        obj_raw: Vec<u8>,
        offset: u64,
    ) -> (op: ObjectPointer)
        requires
            obj_raw@ == obj.spec_raw(),
            offset + obj_raw@.len() <= usize::MAX,
        ensures
            op == (ObjectPointer {
                offset,
                len: obj_raw@.len() as u64,
                object_type: O::spec_obj_type(),
            }),
            final(ccache).map@.dom() == old(ccache).map@.dom().insert(offset),
            final(ccache).map@[offset].kind() == O::spec_obj_type(),
            final(ccache).map@[offset].view_node() == obj.node_view(),
            forall|k: u64|
                k != offset && old(ccache).map@.contains_key(k) ==> #[trigger] final(ccache).map@[k]
                    == old(ccache).map@[k],
            final(nv_blk_dev).data@ == spec_write(old(nv_blk_dev).data@, offset as int, obj_raw@),
    {
        let op = ObjectPointer::new(offset, obj_raw.len() as u64, O::obj_type());

        // insert in clean cache
        ccache.insert(&op, obj);

        nv_blk_dev.write(offset, obj_raw.as_slice());
        op
    }

    fn obj_to_raw<O: Object>(object: &O) -> (raw: Vec<u8>)
        ensures
            raw@ == object.spec_raw(),
    {
        object.obj_to_raw()
    }

    fn alloc_impl(fso: &mut u64, size: u64) -> (o: u64)
        requires
            *old(fso) + size <= u64::MAX,
        ensures
            o == *old(fso),
            *final(fso) == *old(fso) + size,
    {
        let o = *fso;
        *fso = *fso + cast_u64(size).unwrap();
        o
    }
}

impl NVObjectManager {
    pub const NUM_UBERBLOCKS: u64 = 3;
}

/// Bytes that agree with `old` on the uberblock area hold the same
/// uberblock copies, and open at the same one.
pub proof fn lemma_slots_kept(new: Seq<u8>, old: Seq<u8>)
    requires
        old.len() >= UB_AREA,
        new.len() >= UB_AREA,
        forall|i: int| 0 <= i < UB_AREA ==> new[i] == old[i],
    ensures
        forall|i: int| 0 <= i < 3 ==> (slot_valid(new, i) <==> slot_valid(old, i)) && #[trigger] slot_uberblock(new, i)
            == slot_uberblock(old, i),
        latest_slot(new) == latest_slot(old),
        loadable(new) <==> loadable(old),
        loaded_uberblock(new) == loaded_uberblock(old),
{
    assert forall|i: int| 0 <= i < 3 implies new.subrange(slot_offset(i), slot_offset(i) + 41)
        == old.subrange(slot_offset(i), slot_offset(i) + 41) by {
        assert(new.subrange(slot_offset(i), slot_offset(i) + 41) =~= old.subrange(
            slot_offset(i),
            slot_offset(i) + 41,
        ));
    }
    assert(new.subrange(slot_offset(0), slot_offset(0) + 41) == old.subrange(slot_offset(0), slot_offset(0) + 41));
    assert(new.subrange(slot_offset(1), slot_offset(1) + 41) == old.subrange(slot_offset(1), slot_offset(1) + 41));
    assert(new.subrange(slot_offset(2), slot_offset(2) + 41) == old.subrange(slot_offset(2), slot_offset(2) + 41));
}

/// A manager rooted at `op` with free-space offset `fso` opens there: the
/// device can be opened, at the manager's transaction group, `fso` and
/// `op`. With `new`, `store` and `commit` keeping this, opening the device
/// after any run of them gives back the last committed root.
pub proof fn lemma_rooted_loads(mgr: NVObjectManager, op: ObjectPointer, fso: u64)
    requires
        mgr.rooted_with(op, fso),
    ensures
        loadable(mgr.image()),
        loaded_uberblock(mgr.image()) == (Uberblock { txg: mgr.txg, fso, op }),
{
}

/// A run of the manager: `mgrs[i + 1]` is `mgrs[i]` after step `i`, a
/// `store` (`None`) or a `commit` of a root (`Some`), as their contracts
/// state it.
pub open spec fn run_of(mgrs: Seq<NVObjectManager>, steps: Seq<Option<ObjectPointer>>) -> bool {
    &&& mgrs.len() == steps.len() + 1
    &&& forall|i: int|
        0 <= i < steps.len() ==> match #[trigger] steps[i] {
            None => {
                &&& mgrs[i + 1].txg == mgrs[i].txg
                &&& forall|r: ObjectPointer, f: u64| #[trigger]
                    mgrs[i].rooted_with(r, f) ==> mgrs[i + 1].rooted_with(r, f)
            },
            Some(op) => {
                &&& mgrs[i + 1].txg == mgrs[i].txg + 1
                &&& mgrs[i + 1].fso == mgrs[i].fso
                &&& mgrs[i].slots_ok() ==> mgrs[i + 1].rooted_at(op)
            },
        }
}

/// How many of the steps are commits.
pub open spec fn commit_count(steps: Seq<Option<ObjectPointer>>) -> nat
    decreases steps.len(),
{
    if steps.len() == 0 {
        0
    } else {
        commit_count(steps.drop_last()) + if steps.last() is Some {
            1nat
        } else {
            0nat
        }
    }
}

/// The root that the last commit of the run wrote and the free-space
/// offset at that commit; without commit, the first root and offset.
pub open spec fn last_commit(
    mgrs: Seq<NVObjectManager>,
    steps: Seq<Option<ObjectPointer>>,
    op0: ObjectPointer,
) -> (ObjectPointer, u64)
    decreases steps.len(),
{
    if steps.len() == 0 {
        (op0, mgrs[0].fso)
    } else {
        match steps.last() {
            Some(op) => (op, mgrs[steps.len() - 1].fso),
            None => last_commit(mgrs, steps.drop_last(), op0),
        }
    }
}

/// Opening the device after a run of stores and commits that starts from a
/// freshly formatted device gives back the last committed root, the
/// free-space offset at that commit, and the transaction group one past
/// the number of commits; without commit, the root that formatting wrote.
pub proof fn lemma_load_after_run(
    mgrs: Seq<NVObjectManager>,
    steps: Seq<Option<ObjectPointer>>,
    op0: ObjectPointer,
)
    requires
        run_of(mgrs, steps),
        mgrs[0].txg == 1,
        mgrs[0].rooted_at(op0),
    ensures
        loadable(mgrs.last().image()),
        loaded_uberblock(mgrs.last().image()) == (Uberblock {
            txg: (1 + commit_count(steps)) as u64,
            fso: last_commit(mgrs, steps, op0).1,
            op: last_commit(mgrs, steps, op0).0,
        }),
{
    lemma_run_rooted(mgrs, steps, op0);
    lemma_rooted_loads(mgrs.last(), last_commit(mgrs, steps, op0).0, last_commit(mgrs, steps, op0).1);
}

/// Along a run, the manager stays rooted at the last commit, at a
/// transaction group one past the number of commits.
proof fn lemma_run_rooted(mgrs: Seq<NVObjectManager>, steps: Seq<Option<ObjectPointer>>, op0: ObjectPointer)
    requires
        run_of(mgrs, steps),
        mgrs[0].txg == 1,
        mgrs[0].rooted_at(op0),
    ensures
        mgrs.last().rooted_with(last_commit(mgrs, steps, op0).0, last_commit(mgrs, steps, op0).1),
        mgrs.last().txg == 1 + commit_count(steps),
    decreases steps.len(),
{
    if steps.len() > 0 {
        let n = steps.len() - 1;
        let pm = mgrs.drop_last();
        let ps = steps.drop_last();
        assert forall|i: int| 0 <= i < ps.len() implies match #[trigger] ps[i] {
            None => {
                &&& pm[i + 1].txg == pm[i].txg
                &&& forall|r: ObjectPointer, f: u64| #[trigger]
                    pm[i].rooted_with(r, f) ==> pm[i + 1].rooted_with(r, f)
            },
            Some(op) => {
                &&& pm[i + 1].txg == pm[i].txg + 1
                &&& pm[i + 1].fso == pm[i].fso
                &&& pm[i].slots_ok() ==> pm[i + 1].rooted_at(op)
            },
        } by {
            assert(ps[i] == steps[i]);
            assert(pm[i] == mgrs[i]);
            assert(pm[i + 1] == mgrs[i + 1]);
        }
        lemma_run_rooted(pm, ps, op0);
        assert(pm.last() == mgrs[n]);
        assert(last_commit(pm, ps, op0) == last_commit(mgrs, ps, op0)) by {
            lemma_last_commit_prefix(mgrs, ps, op0);
        }
        assert(steps[n] == steps.last());
        match steps.last() {
            Some(op) => {},
            None => {
                let (r, f) = last_commit(mgrs, ps, op0);
                assert(mgrs[n].rooted_with(r, f));
            },
        }
    }
}

/// The last commit of a prefix of the steps reads the managers of the
/// prefix only.
proof fn lemma_last_commit_prefix(
    mgrs: Seq<NVObjectManager>,
    steps: Seq<Option<ObjectPointer>>,
    op0: ObjectPointer,
)
    requires
        steps.len() + 1 < mgrs.len(),
    ensures
        last_commit(mgrs.drop_last(), steps, op0) == last_commit(mgrs, steps, op0),
    decreases steps.len(),
{
    if steps.len() > 0 {
        lemma_last_commit_prefix(mgrs, steps.drop_last(), op0);
    }
}

/// What `store` writes, `get` reads back: where the manager holds an
/// object, a `get` of its kind succeeds and returns its entries, and so it
/// does in a manager opened on the same bytes with nothing cached.
pub proof fn lemma_get_after_store<O: Object>(
    mgr: NVObjectManager,
    op: ObjectPointer,
    obj: O,
    reopened: NVObjectManager,
)
    requires
        mgr.holds_object(op, obj),
        reopened.image() == mgr.image(),
        reopened.cache() == Map::<u64, AnyRcObject>::empty(),
    ensures
        mgr.can_get::<O>(op),
        mgr.got::<O>(op) == obj.node_view(),
        reopened.can_get::<O>(op),
        reopened.got::<O>(op) == obj.node_view(),
{
    assert(reopened.raw_at(op) == mgr.raw_at(op));
}

} // verus!
