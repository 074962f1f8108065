pub mod tree_spec;

use itertools::Itertools;
use vstd::prelude::*;

use crate::non_volatile::object::any_rc_object::{internal_tuple, leaf_pair, pair_leaf, NodeView, Object};
use crate::non_volatile::object::object_pointer::ObjectPointer;
use crate::non_volatile::object::object_type::ObjectType;
use crate::non_volatile::object::tree::{Insert, Message, entries_sorted, search_key, InternalNode, LeafNode, NodeEntry};
use crate::nv_obj_mngr::NVObjectManager;
use crate::serializable::{encode_internal, encode_leaf, lemma_encode_internal_len, lemma_encode_leaf_len};
use tree_spec::{
    lemma_tree_content,
    lemma_tree_frame,
    tree_content,
    wf_tree,
    lemma_children_mono,
    lemma_merge_len,
    lemma_merge_prefix,
    lemma_merge_sorted,
    lemma_merge_concat,
    lemma_merge_empty,
    merge_entries,
    child_ok,
    lemma_children_wf_concat,
    lemma_children_wf_each,
    children_content,
    children_wf,
    content,
    extends,
    keys_sorted,
    lemma_children_content_concat,
    lemma_children_frame,
    lemma_extends_refl,
    lemma_extends_trans,
    node_at,
    tree_wf,
    cached_with,
    keys_strict,
    laid_out,
    lemma_node_at_frame,
    lemma_write_step,
    children_bounded,
    keeps_objects,
    lemma_bounded_frame,
    lemma_children_bounded_each,
    tree_bounded,
    wf_bounded,
    lemma_laid_out_bounds,
    node_len,
    written_from,
};

verus! {

/// Largest number of entries in a node that a merge writes.
pub const B: usize = 5;

/// Largest serialized size of a node of at most `B` entries.
pub const NODE_MAX_RAW: u64 = 133;

/// `n / m` rounded up.
pub open spec fn ceil_div(n: int, m: int) -> int {
    n / m + if n % m == 0 {
        0int
    } else {
        1int
    }
}

/// How `num_entries` entries are cut into chunks: `bigger_chunk_num` chunks
/// of `bigger_chunk_len` entries, then `smaller_chunk_num` chunks of one
/// entry fewer.
pub struct Repartition {
    pub smaller_chunk_len: usize,
    pub smaller_chunk_num: usize,
    pub bigger_chunk_len: usize,
    pub bigger_chunk_num: usize,
}

/// The fewest chunks of at most `max_chunk_len` entries, sized as evenly as
/// possible: their lengths differ by at most one.
pub open spec fn repartition_ok(rep: Repartition, num_entries: int, max_chunk_len: int) -> bool {
    let total = ceil_div(num_entries, max_chunk_len);
    &&& rep.bigger_chunk_len == ceil_div(num_entries, total)
    &&& rep.smaller_chunk_len == rep.bigger_chunk_len - 1
    &&& rep.smaller_chunk_num == rep.bigger_chunk_len * total - num_entries
    &&& rep.bigger_chunk_num + rep.smaller_chunk_num == total
    &&& rep.bigger_chunk_len * rep.bigger_chunk_num + rep.smaller_chunk_len * rep.smaller_chunk_num
        == num_entries
    &&& 1 <= rep.bigger_chunk_len <= max_chunk_len
    &&& 1 <= rep.bigger_chunk_num
    &&& rep.smaller_chunk_num < total
    &&& rep.smaller_chunk_num > 0 ==> rep.smaller_chunk_len >= 1
}

proof fn lemma_ceil_div(n: int, m: int)
    requires
        n > 0,
        m > 0,
    ensures
        ceil_div(n, m) >= 1,
        ceil_div(n, m) * m >= n,
        ceil_div(n, m) * m < n + m,
        ceil_div(n, m) <= n,
{
    let q = n / m;
    let r = n % m;
    assert(n == m * q + r && 0 <= r < m) by (nonlinear_arith)
        requires
            m > 0,
            q == n / m,
            r == n % m,
    ;
    if r == 0 {
        assert(q >= 1) by (nonlinear_arith)
            requires
                n == m * q,
                n > 0,
                m > 0,
        ;
        assert(q * m == n) by (nonlinear_arith)
            requires
                n == m * q,
        ;
        assert(q <= n) by (nonlinear_arith)
            requires
                n == m * q,
                m >= 1,
                q >= 1,
        ;
    } else {
        assert((q + 1) * m == m * q + m) by (nonlinear_arith);
        assert(q >= 0) by (nonlinear_arith)
            requires
                n == m * q + r,
                n > 0,
                m > 0,
                0 <= r < m,
        ;
        assert(q + 1 <= n) by (nonlinear_arith)
            requires
                n == m * q + r,
                m >= 1,
                q >= 0,
                r >= 1,
        ;
    }
}

proof fn lemma_repartition(n: int, m: int)
    requires
        n > 0,
        m > 0,
    ensures
        ({
            let t = ceil_div(n, m);
            let b = ceil_div(n, t);
            let s = b * t - n;
            &&& 1 <= t <= n
            &&& 1 <= b <= m
            &&& 0 <= s < t
            &&& b * t < n + t
            &&& (b - 1) * s <= n
            &&& n - (b - 1) * s == b * (t - s)
            &&& (n - (b - 1) * s) / b == t - s
        }),
{
    let t = ceil_div(n, m);
    lemma_ceil_div(n, m);
    let b = ceil_div(n, t);
    lemma_ceil_div(n, t);
    let s = b * t - n;
    // b <= m: the chunks of length m suffice, so fewer than m each is impossible
    assert(b <= m) by {
        if b > m {
            assert((b - 1) * t >= m * t) by (nonlinear_arith)
                requires
                    b - 1 >= m,
                    t >= 1,
            ;
            assert(b * t == (b - 1) * t + t) by (nonlinear_arith);
            assert(t * m == m * t) by (nonlinear_arith);
        }
    }
    assert(n - (b - 1) * s == b * (t - s)) by (nonlinear_arith)
        requires
            s == b * t - n,
    ;
    assert((b - 1) * s <= n) by (nonlinear_arith)
        requires
            n - (b - 1) * s == b * (t - s),
            s < t,
            b >= 1,
    ;
    assert((n - (b - 1) * s) / b == t - s) by (nonlinear_arith)
        requires
            n - (b - 1) * s == b * (t - s),
            b >= 1,
    ;
}

/// The product that the repartition of `n` entries into chunks of at
/// most `m` computes, the longer chunk length times the chunk count, fits
/// in a `usize`.
pub open spec fn repartition_fits(n: int, m: int) -> bool {
    ceil_div(n, ceil_div(n, m)) * ceil_div(n, m) <= usize::MAX
}

/// Cuts `num_entries` entries into the fewest chunks of at most
/// `max_chunk_len`, with lengths that differ by at most one. Zero entries
/// or a zero maximum would divide by zero, and a count for which the
/// longer chunk length times the chunk count overflows would stop the
/// program; the precondition leaves them out.
pub fn compute_repartition(num_entries: usize, max_chunk_len: usize) -> (rep: Repartition)
    requires
        num_entries > 0,
        max_chunk_len > 0,
        repartition_fits(num_entries as int, max_chunk_len as int),
    ensures
        repartition_ok(rep, num_entries as int, max_chunk_len as int),
{
    proof {
        lemma_repartition(num_entries as int, max_chunk_len as int);
    }
    let total_chunk_num = num_entries / max_chunk_len + if num_entries % max_chunk_len == 0 {
        0
    } else {
        1
    };
    let bigger_chunk_len = num_entries / total_chunk_num + if num_entries % total_chunk_num == 0 {
        0
    } else {
        1
    };
    let smaller_chunk_len = bigger_chunk_len - 1;
    let smaller_chunk_num = bigger_chunk_len * total_chunk_num - num_entries;
    let bigger_chunk_num = (num_entries - smaller_chunk_len * smaller_chunk_num) / bigger_chunk_len;
    let rep = Repartition { smaller_chunk_len, smaller_chunk_num, bigger_chunk_len, bigger_chunk_num };
    proof {
        let t = total_chunk_num as int;
        let b = bigger_chunk_len as int;
        let s = smaller_chunk_num as int;
        let n = num_entries as int;
        let m = max_chunk_len as int;
        assert(t == ceil_div(n, m));
        assert(b == ceil_div(n, t));
        assert(s == b * t - n);
        assert(rep.bigger_chunk_num == t - s);
        assert(b * (t - s) + (b - 1) * s == b * t - s) by (nonlinear_arith);
        assert(rep.bigger_chunk_len * rep.bigger_chunk_num + rep.smaller_chunk_len
            * rep.smaller_chunk_num == n);
        if b == 1 {
            assert(b * t == t) by (nonlinear_arith)
                requires
                    b == 1,
            ;
        }
    }
    rep
}

/// The entries of a sequence of chunks, in order.
pub open spec fn flat<T>(chunks: Seq<Vec<T>>) -> Seq<T> {
    chunks.map_values(|c: Vec<T>| c@).flatten()
}

/// How many chunks `reduce` cuts `n` entries into.
pub open spec fn chunk_count(n: int) -> int {
    ceil_div(n, B as int)
}

/// The length of the longer chunks that `reduce` cuts `n` entries into.
pub open spec fn bigger_len(n: int) -> int {
    ceil_div(n, chunk_count(n))
}

/// How many of the chunks that `reduce` makes of `n` entries are the
/// longer ones; they come first.
pub open spec fn bigger_num(n: int) -> int {
    chunk_count(n) - (bigger_len(n) * chunk_count(n) - n)
}

/// The length of chunk `i` when `reduce` cuts `n` entries.
pub open spec fn chunk_len(n: int, i: int) -> int {
    if i < bigger_num(n) {
        bigger_len(n)
    } else {
        bigger_len(n) - 1
    }
}

proof fn lemma_flat_push<T>(chunks: Seq<Vec<T>>, c: Vec<T>)
    ensures
        flat(chunks.push(c)) == flat(chunks) + c@,
{
    let m = chunks.map_values(|v: Vec<T>| v@);
    assert(chunks.push(c).map_values(|v: Vec<T>| v@) =~= m.push(c@));
    m.lemma_flatten_push(c@);
}

/// Moves `num` chunks of `len` entries each from the front of `rest` to the
/// end of `result`.
fn take_chunks<K, V>(
    rest: &mut Vec<NodeEntry<K, V>>,
    result: &mut Vec<Vec<NodeEntry<K, V>>>,
    len: usize,
    num: usize,
)
    requires
        len * num <= old(rest)@.len(),
    ensures
        final(result)@.len() == old(result)@.len() + num,
        forall|i: int| 0 <= i < old(result)@.len() ==> #[trigger] final(result)@[i] == old(result)@[i],
        forall|i: int|
            old(result)@.len() <= i < final(result)@.len() ==> (#[trigger] final(result)@[i])@.len()
                == len,
        flat(final(result)@) + final(rest)@ == flat(old(result)@) + old(rest)@,
        final(rest)@.len() == old(rest)@.len() - len * num,
{
    let mut c: usize = 0;
    while c < num
        invariant
            c <= num,
            result@.len() == old(result)@.len() + c,
            forall|i: int| 0 <= i < old(result)@.len() ==> #[trigger] result@[i] == old(result)@[i],
            forall|i: int|
                old(result)@.len() <= i < result@.len() ==> (#[trigger] result@[i])@.len() == len,
            flat(result@) + rest@ == flat(old(result)@) + old(rest)@,
            rest@.len() == old(rest)@.len() - len * c,
            len * num <= old(rest)@.len(),
        decreases num - c,
    {
        proof {
            assert(len * c + len <= len * num) by (nonlinear_arith)
                requires
                    c < num,
            ;
        }
        let ghost before = rest@;
        let tail = rest.split_off(len);
        let ghost pre = result@;
        let mut chunk_vec = tail;
        std::mem::swap(rest, &mut chunk_vec);
        proof {
            lemma_flat_push(pre, chunk_vec);
            assert(chunk_vec@ + rest@ =~= before);
        }
        result.push(chunk_vec);
        proof {
            assert(flat(result@) + rest@ =~= flat(pre) + chunk_vec@ + rest@);
            assert(len * (c + 1) == len * c + len) by (nonlinear_arith);
        }
        c = c + 1;
    }
}

/// Cuts entries into `chunk_count` chunks of at most `B` entries, the longer
/// chunks first, keeping the order of the entries. An empty list divides by
/// zero in the repartition and is left out.
pub fn reduce<K, V>(new_entries: Vec<NodeEntry<K, V>>) -> (result: Vec<Vec<NodeEntry<K, V>>>)
    requires
        0 < new_entries@.len() <= usize::MAX / 2,
    ensures
        flat(result@) == new_entries@,
        result@.len() == chunk_count(new_entries@.len() as int),
        forall|i: int|
            0 <= i < result@.len() ==> (#[trigger] result@[i])@.len() == chunk_len(
                new_entries@.len() as int,
                i,
            ),
        forall|i: int| 0 <= i < result@.len() ==> 1 <= (#[trigger] result@[i])@.len() <= B,
{
    let ghost n = new_entries@.len() as int;
    proof {
        lemma_repartition(n, B as int);
    }
    let rep = compute_repartition(new_entries.len(), B);
    let mut result: Vec<Vec<NodeEntry<K, V>>> = Vec::new();
    let mut rest = new_entries;
    proof {
        assert(flat(result@) =~= Seq::<NodeEntry<K, V>>::empty()) by {
            assert(result@.map_values(|c: Vec<NodeEntry<K, V>>| c@) =~= Seq::<
                Seq<NodeEntry<K, V>>,
            >::empty());
        }
        assert(rep.bigger_chunk_len * rep.bigger_chunk_num <= n) by (nonlinear_arith)
            requires
                rep.bigger_chunk_len * rep.bigger_chunk_num + rep.smaller_chunk_len
                    * rep.smaller_chunk_num == n,
                rep.smaller_chunk_len >= 0,
                rep.smaller_chunk_num >= 0,
        ;
    }
    take_chunks(&mut rest, &mut result, rep.bigger_chunk_len, rep.bigger_chunk_num);
    take_chunks(&mut rest, &mut result, rep.smaller_chunk_len, rep.smaller_chunk_num);
    proof {
        assert(rest@.len() == 0);
        assert(flat(result@) + rest@ =~= flat(result@));
    }
    result
}

/// Splitting chunks around chunk `i` splits their entries the same way.
pub proof fn lemma_flat_split<T>(s: Seq<Vec<T>>, i: int)
    requires
        0 <= i < s.len(),
    ensures
        flat(s) == flat(s.subrange(0, i)) + s[i]@ + flat(s.subrange(i + 1, s.len() as int)),
        flat(s.subrange(0, i + 1)) == flat(s.subrange(0, i)) + s[i]@,
{
    let f = |c: Vec<T>| c@;
    let a = s.subrange(0, i);
    let b = s.subrange(i + 1, s.len() as int);
    assert(s =~= a + seq![s[i]] + b);
    assert(s.map_values(f) =~= a.map_values(f) + seq![s[i]].map_values(f) + b.map_values(f));
    vstd::seq_lib::lemma_flatten_concat(a.map_values(f) + seq![s[i]].map_values(f), b.map_values(f));
    vstd::seq_lib::lemma_flatten_concat(a.map_values(f), seq![s[i]].map_values(f));
    assert(seq![s[i]].map_values(f) =~= seq![s[i]@]);
    seq![s[i]@].lemma_flatten_one_element();
    assert(s.subrange(0, i + 1) =~= a.push(s[i]));
    lemma_flat_push(a, s[i]);
}

/// The middle part of a sorted sequence is sorted.
proof fn lemma_sorted_middle(
    a: Seq<NodeEntry<u64, u64>>,
    b: Seq<NodeEntry<u64, u64>>,
    c: Seq<NodeEntry<u64, u64>>,
)
    requires
        keys_sorted(a + b + c),
    ensures
        keys_sorted(b),
{
    assert forall|i: int, j: int| 0 <= i <= j < b.len() implies b[i].key <= b[j].key by {
        assert((a + b + c)[a.len() + i] == b[i]);
        assert((a + b + c)[a.len() + j] == b[j]);
    }
}

/// Where the entries under child `i` start among the entries under all the
/// children: at the count of entries under the children before it, where
/// the child's key stands; later children start later.
proof fn lemma_child_position(mgr: NVObjectManager, es: Seq<NodeEntry<u64, ObjectPointer>>, h: nat, i: int, j: int)
    requires
        children_wf(mgr, es, h),
        0 <= i < j <= es.len(),
    ensures
        children_content(mgr, es.subrange(0, i), h).len() < children_content(mgr, es, h).len(),
        children_content(mgr, es, h)[children_content(mgr, es.subrange(0, i), h).len() as int].key
            == es[i].key,
        children_content(mgr, es.subrange(0, i), h).len() < children_content(mgr, es.subrange(0, j), h).len(),
{
    lemma_children_wf_each(mgr, es, h);
    let n = es.len() as int;
    let pre = es.subrange(0, i);
    let rest = es.subrange(i, n);
    assert(es =~= pre + rest);
    lemma_children_content_concat(mgr, pre, rest, h);
    assert(rest[0] == es[i]);
    assert(child_ok(mgr, es[i], h));
    lemma_children_content_first(mgr, rest, h);
    let mid = es.subrange(i, j);
    assert(es.subrange(0, j) =~= pre + mid);
    lemma_children_content_concat(mgr, pre, mid, h);
    assert(mid[0] == es[i]);
    lemma_children_content_first(mgr, mid, h);
}

/// Children keyed by their first entries have non-decreasing keys over
/// sorted entries, and increasing keys over strictly increasing entries.
proof fn lemma_children_keys(mgr: NVObjectManager, es: Seq<NodeEntry<u64, ObjectPointer>>, h: nat)
    requires
        children_wf(mgr, es, h),
    ensures
        keys_sorted(children_content(mgr, es, h)) ==> forall|i: int, j: int|
            0 <= i < j < es.len() ==> #[trigger] es[i].key <= #[trigger] es[j].key,
        keys_strict(children_content(mgr, es, h)) ==> forall|i: int, j: int|
            0 <= i < j < es.len() ==> #[trigger] es[i].key < #[trigger] es[j].key,
{
    let cc = children_content(mgr, es, h);
    if keys_sorted(cc) {
        assert forall|i: int, j: int| 0 <= i < j < es.len() implies #[trigger] es[i].key
            <= #[trigger] es[j].key by {
            lemma_child_position(mgr, es, h, i, j);
            lemma_child_position(mgr, es, h, j, es.len() as int);
        }
    }
    if keys_strict(cc) {
        assert forall|i: int, j: int| 0 <= i < j < es.len() implies #[trigger] es[i].key
            < #[trigger] es[j].key by {
            lemma_child_position(mgr, es, h, i, j);
            lemma_child_position(mgr, es, h, j, es.len() as int);
        }
    }
}

/// The first entry under children whose first child has entries is the
/// first entry under that child.
proof fn lemma_children_content_first(mgr: NVObjectManager, es: Seq<NodeEntry<u64, ObjectPointer>>, h: nat)
    requires
        es.len() > 0,
        content(mgr, es[0].value, h).len() > 0,
    ensures
        children_content(mgr, es, h).len() > 0,
        children_content(mgr, es, h)[0] == content(mgr, es[0].value, h)[0],
{
    let first = es.subrange(0, 1);
    let rest = es.subrange(1, es.len() as int);
    assert(es =~= first + rest);
    lemma_children_content_concat(mgr, first, rest, h);
    assert(first.drop_last() =~= Seq::<NodeEntry<u64, ObjectPointer>>::empty());
    assert(first.last() == es[0]);
    assert(children_content(mgr, first.drop_last(), h) =~= Seq::<NodeEntry<u64, u64>>::empty());
    assert(children_content(mgr, first, h) =~= content(mgr, es[0].value, h));
}

/// `e` points at a leaf that holds `c`, written as the bytes of `c` and
/// keyed by its first key.
pub open spec fn leaf_written(mgr: NVObjectManager, e: NodeEntry<u64, ObjectPointer>, c: Seq<NodeEntry<u64, u64>>) -> bool {
    &&& e.value.object_type == ObjectType::LeafNode
    &&& e.value.len == 8 + 16 * c.len()
    &&& c.len() > 0 ==> e.key == c[0].key
    &&& node_at(mgr, e.value) == Some(NodeView::Leaf(c))
    &&& e.value.offset + e.value.len <= mgr.image().len()
    &&& mgr.raw_at(e.value) == encode_leaf(c.map_values(|x: NodeEntry<u64, u64>| leaf_pair(x)))
}

/// Writes each chunk of leaf entries as a leaf, in order, and returns for
/// each leaf its first key and its pointer.
#[verifier::rlimit(40)]
fn store_leaves(chunks: Vec<Vec<NodeEntry<u64, u64>>>, nv_obj_mngr: &mut NVObjectManager) -> (out:
    Vec<NodeEntry<u64, ObjectPointer>>)
    requires
        old(nv_obj_mngr).inv(),
        forall|i: int| 0 <= i < chunks@.len() ==> 1 <= (#[trigger] chunks@[i])@.len() <= B,
        keys_sorted(flat(chunks@)),
        old(nv_obj_mngr).fso + NODE_MAX_RAW * chunks@.len() <= usize::MAX,
    ensures
        out@.len() == chunks@.len(),
        final(nv_obj_mngr).inv(),
        extends(*final(nv_obj_mngr), *old(nv_obj_mngr)),
        final(nv_obj_mngr).txg == old(nv_obj_mngr).txg,
        final(nv_obj_mngr).fso <= old(nv_obj_mngr).fso + NODE_MAX_RAW * chunks@.len(),
        children_wf(*final(nv_obj_mngr), out@, 0),
        children_content(*final(nv_obj_mngr), out@, 0) == flat(chunks@),
        laid_out(out@, old(nv_obj_mngr).fso, final(nv_obj_mngr).fso),
        written_from(*final(nv_obj_mngr), *old(nv_obj_mngr)),
        cached_with(*final(nv_obj_mngr), *old(nv_obj_mngr), out@),
        forall|i: int| 0 <= i < out@.len() ==> leaf_written(*final(nv_obj_mngr), #[trigger] out@[i], chunks@[i]@),
{
    let ghost chunks0 = chunks@;
    let ghost mgr0 = *nv_obj_mngr;
    let mut chunks = chunks;
    let mut out: Vec<NodeEntry<u64, ObjectPointer>> = Vec::new();
    let mut k: usize = 0;
    proof {
        lemma_extends_refl(mgr0);
        assert(chunks0.subrange(0, 0).map_values(|c: Vec<NodeEntry<u64, u64>>| c@) =~= Seq::<
            Seq<NodeEntry<u64, u64>>,
        >::empty());
    }
    while chunks.len() > 0
        invariant
            k <= chunks0.len(),
            chunks@ == chunks0.subrange(k as int, chunks0.len() as int),
            out@.len() == k,
            forall|i: int| 0 <= i < chunks0.len() ==> 1 <= (#[trigger] chunks0[i])@.len() <= B,
            keys_sorted(flat(chunks0)),
            mgr0.fso + NODE_MAX_RAW * chunks0.len() <= usize::MAX,
            nv_obj_mngr.inv(),
            extends(*nv_obj_mngr, mgr0),
            nv_obj_mngr.txg == mgr0.txg,
            nv_obj_mngr.fso <= mgr0.fso + NODE_MAX_RAW * k,
            children_wf(*nv_obj_mngr, out@, 0),
            children_content(*nv_obj_mngr, out@, 0) == flat(chunks0.subrange(0, k as int)),
            laid_out(out@, mgr0.fso, nv_obj_mngr.fso),
            written_from(*nv_obj_mngr, mgr0),
            cached_with(*nv_obj_mngr, mgr0, out@),
            forall|i: int| 0 <= i < out@.len() ==> leaf_written(*nv_obj_mngr, #[trigger] out@[i], chunks0[i]@),
        decreases chunks@.len(),
    {
        let chunk = chunks.remove(0);
        proof {
            assert(chunk == chunks0[k as int]);
            lemma_flat_split(chunks0, k as int);
            lemma_sorted_middle(
                flat(chunks0.subrange(0, k as int)),
                chunk@,
                flat(chunks0.subrange(k + 1, chunks0.len() as int)),
            );
            assert(NODE_MAX_RAW * k + NODE_MAX_RAW <= NODE_MAX_RAW * chunks0.len()) by (nonlinear_arith)
                requires
                    k < chunks0.len(),
            ;
        }
        let key = chunk[0].key;
        let node = LeafNode::from(chunk);
        let ghost pre = *nv_obj_mngr;
        proof {
            lemma_encode_leaf_len(node.entries@.map_values(|e: NodeEntry<u64, u64>| leaf_pair(e)));
            assert(node.spec_raw().len() <= NODE_MAX_RAW);
        }
        let ghost raw = node.spec_raw();
        let op = nv_obj_mngr.store(node);
        let e = NodeEntry::new(key, op);
        proof {
            let post = *nv_obj_mngr;
            assert(node_at(*nv_obj_mngr, op) == Some(NodeView::Leaf(chunk@)));
            assert(tree_wf(*nv_obj_mngr, op, 0));
            assert(post.raw_at(op) =~= raw);
            lemma_write_step(mgr0, pre, post, out@, e, raw);
            lemma_children_wf_each(pre, out@, 0);
            assert forall|i: int| 0 <= i < out@.push(e).len() implies leaf_written(
                post,
                #[trigger] out@.push(e)[i],
                chunks0[i]@,
            ) by {
                if i < out@.len() {
                    assert(out@.push(e)[i] == out@[i]);
                    assert(child_ok(pre, out@[i], 0));
                    lemma_node_at_frame(post, pre, out@[i].value);
                } else {
                    assert(out@.push(e)[i] == e);
                }
            }
            lemma_extends_trans(mgr0, pre, *nv_obj_mngr);
            lemma_push_child(pre, *nv_obj_mngr, out@, e, 0);
            lemma_flat_split(chunks0, k as int);
            assert(NODE_MAX_RAW * (k + 1) == NODE_MAX_RAW * k + NODE_MAX_RAW) by (nonlinear_arith);
        }
        out.push(e);
        k = k + 1;
        proof {
            assert(chunks@ =~= chunks0.subrange(k as int, chunks0.len() as int));
        }
    }
    proof {
        assert(chunks0.subrange(0, k as int) =~= chunks0);
    }
    out
}

/// Appending a well-formed child keyed by its first entry keeps children
/// well-formed and appends its entries to theirs.
proof fn lemma_push_child(
    pre: NVObjectManager,
    post: NVObjectManager,
    out: Seq<NodeEntry<u64, ObjectPointer>>,
    e: NodeEntry<u64, ObjectPointer>,
    h: nat,
)
    requires
        extends(post, pre),
        children_wf(pre, out, h),
        tree_wf(post, e.value, h),
        content(post, e.value, h).len() > 0,
        content(post, e.value, h)[0].key == e.key,
    ensures
        children_wf(post, out.push(e), h),
        children_content(post, out.push(e), h) == children_content(pre, out, h) + content(
            post,
            e.value,
            h,
        ),
{
    lemma_children_frame(post, pre, out, h);
    assert(out.push(e).drop_last() =~= out);
    assert(out.push(e).last() == e);
}

/// Chunk `k` of well-formed children with sorted entries is itself
/// well-formed with sorted entries, and the entries before it are those of
/// the chunks before it.
proof fn lemma_chunk_children(
    mgr: NVObjectManager,
    chunks: Seq<Vec<NodeEntry<u64, ObjectPointer>>>,
    k: int,
    h: nat,
)
    requires
        0 <= k < chunks.len(),
        children_wf(mgr, flat(chunks), h),
        keys_sorted(children_content(mgr, flat(chunks), h)),
    ensures
        children_wf(mgr, chunks[k]@, h),
        children_wf(mgr, flat(chunks.subrange(0, k)), h),
        keys_sorted(children_content(mgr, chunks[k]@, h)),
        flat(chunks.subrange(0, k + 1)) == flat(chunks.subrange(0, k)) + chunks[k]@,
{
    let a = flat(chunks.subrange(0, k));
    let b = chunks[k]@;
    let c = flat(chunks.subrange(k + 1, chunks.len() as int));
    lemma_flat_split(chunks, k);
    lemma_children_wf_concat(mgr, a + b, c, h);
    lemma_children_wf_concat(mgr, a, b, h);
    lemma_children_content_concat(mgr, a + b, c, h);
    lemma_children_content_concat(mgr, a, b, h);
    lemma_sorted_middle(
        children_content(mgr, a, h),
        children_content(mgr, b, h),
        children_content(mgr, c, h),
    );
}

/// An inner node written from well-formed children with sorted entries is
/// a well-formed tree one level higher, whose entries are those of its
/// children and start with the first child's key.
proof fn lemma_new_internal(
    mgr: NVObjectManager,
    op: ObjectPointer,
    es: Seq<NodeEntry<u64, ObjectPointer>>,
    h: nat,
)
    requires
        tree_spec::placed(mgr, op),
        tree_spec::durable(mgr, op),
        node_at(mgr, op) == Some(NodeView::Internal(es)),
        0 < es.len() <= B,
        children_wf(mgr, es, h),
        keys_sorted(children_content(mgr, es, h)),
    ensures
        tree_wf(mgr, op, h + 1),
        content(mgr, op, h + 1) == children_content(mgr, es, h),
        content(mgr, op, h + 1).len() > 0,
        content(mgr, op, h + 1)[0].key == es[0].key,
{
    lemma_children_wf_each(mgr, es, h);
    assert(child_ok(mgr, es[0], h));
    lemma_children_content_first(mgr, es, h);
}

/// `e` points at an inner node that holds `c`, written as the bytes of
/// `c` and keyed by its first key.
pub open spec fn internal_written(
    mgr: NVObjectManager,
    e: NodeEntry<u64, ObjectPointer>,
    c: Seq<NodeEntry<u64, ObjectPointer>>,
) -> bool {
    &&& e.value.object_type == ObjectType::InternalNode
    &&& e.value.len == 8 + 25 * c.len()
    &&& c.len() > 0 ==> e.key == c[0].key
    &&& node_at(mgr, e.value) == Some(NodeView::Internal(c))
    &&& e.value.offset + e.value.len <= mgr.image().len()
    &&& mgr.raw_at(e.value) == encode_internal(
        c.map_values(|x: NodeEntry<u64, ObjectPointer>| internal_tuple(x)),
    )
}

/// Writes each chunk of children as an inner node, in order, and returns
/// for each node its first key and its pointer.
#[verifier::rlimit(40)]
fn store_internals(
    chunks: Vec<Vec<NodeEntry<u64, ObjectPointer>>>,
    nv_obj_mngr: &mut NVObjectManager,
    Ghost(h): Ghost<nat>,
) -> (out: Vec<NodeEntry<u64, ObjectPointer>>)
    requires
        old(nv_obj_mngr).inv(),
        forall|i: int| 0 <= i < chunks@.len() ==> 1 <= (#[trigger] chunks@[i])@.len() <= B,
        children_wf(*old(nv_obj_mngr), flat(chunks@), h),
        keys_sorted(children_content(*old(nv_obj_mngr), flat(chunks@), h)),
        old(nv_obj_mngr).fso + NODE_MAX_RAW * chunks@.len() <= usize::MAX,
    ensures
        out@.len() == chunks@.len(),
        final(nv_obj_mngr).inv(),
        extends(*final(nv_obj_mngr), *old(nv_obj_mngr)),
        final(nv_obj_mngr).txg == old(nv_obj_mngr).txg,
        final(nv_obj_mngr).fso <= old(nv_obj_mngr).fso + NODE_MAX_RAW * chunks@.len(),
        children_wf(*final(nv_obj_mngr), out@, h + 1),
        children_content(*final(nv_obj_mngr), out@, h + 1) == children_content(
            *old(nv_obj_mngr),
            flat(chunks@),
            h,
        ),
        laid_out(out@, old(nv_obj_mngr).fso, final(nv_obj_mngr).fso),
        written_from(*final(nv_obj_mngr), *old(nv_obj_mngr)),
        cached_with(*final(nv_obj_mngr), *old(nv_obj_mngr), out@),
        forall|i: int| 0 <= i < out@.len() ==> internal_written(*final(nv_obj_mngr), #[trigger] out@[i], chunks@[i]@),
{
    let ghost chunks0 = chunks@;
    let ghost mgr0 = *nv_obj_mngr;
    let mut chunks = chunks;
    let mut out: Vec<NodeEntry<u64, ObjectPointer>> = Vec::new();
    let mut k: usize = 0;
    proof {
        lemma_extends_refl(mgr0);
        assert(chunks0.subrange(0, 0).map_values(|c: Vec<NodeEntry<u64, ObjectPointer>>| c@)
            =~= Seq::<Seq<NodeEntry<u64, ObjectPointer>>>::empty());
    }
    while chunks.len() > 0
        invariant
            k <= chunks0.len(),
            chunks@ == chunks0.subrange(k as int, chunks0.len() as int),
            out@.len() == k,
            forall|i: int| 0 <= i < chunks0.len() ==> 1 <= (#[trigger] chunks0[i])@.len() <= B,
            mgr0.fso + NODE_MAX_RAW * chunks0.len() <= usize::MAX,
            nv_obj_mngr.inv(),
            extends(*nv_obj_mngr, mgr0),
            nv_obj_mngr.txg == mgr0.txg,
            nv_obj_mngr.fso <= mgr0.fso + NODE_MAX_RAW * k,
            children_wf(*nv_obj_mngr, flat(chunks0), h),
            children_content(*nv_obj_mngr, flat(chunks0), h) == children_content(
                mgr0,
                flat(chunks0),
                h,
            ),
            keys_sorted(children_content(*nv_obj_mngr, flat(chunks0), h)),
            children_wf(*nv_obj_mngr, out@, h + 1),
            children_content(*nv_obj_mngr, out@, h + 1) == children_content(
                *nv_obj_mngr,
                flat(chunks0.subrange(0, k as int)),
                h,
            ),
            laid_out(out@, mgr0.fso, nv_obj_mngr.fso),
            written_from(*nv_obj_mngr, mgr0),
            cached_with(*nv_obj_mngr, mgr0, out@),
            forall|i: int| 0 <= i < out@.len() ==> internal_written(*nv_obj_mngr, #[trigger] out@[i], chunks0[i]@),
        decreases chunks@.len(),
    {
        let chunk = chunks.remove(0);
        proof {
            assert(chunk == chunks0[k as int]);
            lemma_chunk_children(*nv_obj_mngr, chunks0, k as int, h);
            assert(NODE_MAX_RAW * k + NODE_MAX_RAW <= NODE_MAX_RAW * chunks0.len()) by (nonlinear_arith)
                requires
                    k < chunks0.len(),
            ;
        }
        let key = chunk[0].key;
        let node = InternalNode::from(chunk);
        let ghost pre = *nv_obj_mngr;
        proof {
            lemma_encode_internal_len(
                node.entries@.map_values(|e: NodeEntry<u64, ObjectPointer>| internal_tuple(e)),
            );
            assert(node.spec_raw().len() <= NODE_MAX_RAW);
        }
        let ghost raw = node.spec_raw();
        let op = nv_obj_mngr.store(node);
        let e = NodeEntry::new(key, op);
        proof {
            let post = *nv_obj_mngr;
            assert(node_at(post, op) == Some(NodeView::Internal(chunk@)));
            assert(post.raw_at(op) =~= raw);
            lemma_write_step(mgr0, pre, post, out@, e, raw);
            lemma_children_wf_each(pre, out@, h + 1);
            assert forall|i: int| 0 <= i < out@.push(e).len() implies internal_written(
                post,
                #[trigger] out@.push(e)[i],
                chunks0[i]@,
            ) by {
                if i < out@.len() {
                    assert(out@.push(e)[i] == out@[i]);
                    assert(child_ok(pre, out@[i], h + 1));
                    lemma_node_at_frame(post, pre, out@[i].value);
                } else {
                    assert(out@.push(e)[i] == e);
                }
            }
            lemma_children_frame(post, pre, chunk@, h);
            lemma_children_frame(post, pre, flat(chunks0), h);
            lemma_children_frame(post, pre, flat(chunks0.subrange(0, k as int)), h);
            lemma_new_internal(post, op, chunk@, h);
            lemma_extends_trans(mgr0, pre, post);
            lemma_push_child(pre, post, out@, e, h + 1);
            lemma_children_content_concat(post, flat(chunks0.subrange(0, k as int)), chunk@, h);
            assert(NODE_MAX_RAW * (k + 1) == NODE_MAX_RAW * k + NODE_MAX_RAW) by (nonlinear_arith);
        }
        out.push(e);
        k = k + 1;
        proof {
            assert(chunks@ =~= chunks0.subrange(k as int, chunks0.len() as int));
        }
    }
    proof {
        assert(chunks0.subrange(0, k as int) =~= chunks0);
    }
    out
}

/// Whether the first entry goes before the second in a merge: its key is
/// not greater.
pub fn entry_key_le(a: &NodeEntry<u64, u64>, b: &NodeEntry<u64, u64>) -> (r: bool)
    ensures
        r == (a.key <= b.key),
{
    a.key <= b.key
}

/// `Itertools::merge_by` of `a` and `b` with `entry_key_le` as the
/// predicate, collected: while both have entries, the head of `a` is taken
/// when the predicate holds of the two heads, else the head of `b`; then
/// the rest of the other.
#[verifier::external_body]
fn merge_by_key(a: Vec<NodeEntry<u64, u64>>, b: Vec<NodeEntry<u64, u64>>) -> (r: Vec<
    NodeEntry<u64, u64>,
>)
    ensures
        r@ == merge_entries(a@, b@),
{
    a.into_iter().merge_by(b.into_iter(), |x, y| entry_key_le(x, y)).collect()
}

/// A copy of the entries.
fn copy_entries(v: &Vec<NodeEntry<u64, u64>>) -> (r: Vec<NodeEntry<u64, u64>>)
    ensures
        r@ == v@,
{
    let mut r: Vec<NodeEntry<u64, u64>> = Vec::new();
    let mut i: usize = 0;
    while i < v.len()
        invariant
            i <= v@.len(),
            r@ == v@.subrange(0, i as int),
        decreases v@.len() - i,
    {
        r.push(v[i]);
        i = i + 1;
        assert(r@ =~= v@.subrange(0, i as int));
    }
    assert(v@.subrange(0, i as int) =~= v@);
    r
}

/// Separator keys never decrease.
pub open spec fn seps_sorted(es: Seq<NodeEntry<u64, ObjectPointer>>) -> bool {
    forall|i: int, j: int| 0 <= i <= j < es.len() ==> es[i].key <= es[j].key
}

/// How many leading separators are at most `k`.
pub open spec fn upper(es: Seq<NodeEntry<u64, ObjectPointer>>, k: u64) -> int
    decreases es.len(),
{
    if es.len() == 0 {
        0
    } else if es[0].key <= k {
        1 + upper(es.drop_first(), k)
    } else {
        0
    }
}

/// The child that a key belongs to: the last one whose separator is at
/// most the key, or the first child when there is none.
pub open spec fn branch_index(es: Seq<NodeEntry<u64, ObjectPointer>>, k: u64) -> int {
    if upper(es, k) == 0 {
        0
    } else {
        upper(es, k) - 1
    }
}

/// With sorted separators, `upper` is the partition point.
proof fn lemma_upper_partition(es: Seq<NodeEntry<u64, ObjectPointer>>, k: u64, p: int)
    requires
        seps_sorted(es),
        0 <= p <= es.len(),
        forall|j: int| 0 <= j < p ==> #[trigger] es[j].key <= k,
        forall|j: int| p <= j < es.len() ==> k < #[trigger] es[j].key,
    ensures
        upper(es, k) == p,
    decreases es.len(),
{
    if es.len() > 0 {
        if p > 0 {
            assert forall|j: int| 0 <= j < p - 1 implies #[trigger] es.drop_first()[j].key <= k by {
                assert(es.drop_first()[j] == es[j + 1]);
            }
            assert forall|j: int| p - 1 <= j < es.drop_first().len() implies k
                < #[trigger] es.drop_first()[j].key by {
                assert(es.drop_first()[j] == es[j + 1]);
            }
            lemma_upper_partition(es.drop_first(), k, p - 1);
        }
    }
}

/// `upper` counts some of the separators.
proof fn lemma_upper_bounds(es: Seq<NodeEntry<u64, ObjectPointer>>, k: u64)
    ensures
        0 <= upper(es, k) <= es.len(),
    decreases es.len(),
{
    if es.len() > 0 {
        lemma_upper_bounds(es.drop_first(), k);
    }
}

/// Finds the child that `k` belongs to by binary search on the separators.
fn find_branch(es: &Vec<NodeEntry<u64, ObjectPointer>>, k: u64) -> (b: usize)
    requires
        seps_sorted(es@),
        es@.len() > 0,
    ensures
        b == branch_index(es@, k),
        b < es@.len(),
        upper(es@, k) > 0 ==> es@[b as int].key <= k,
        b + 1 < es@.len() ==> k < es@[b + 1].key,
{
    let mut lo: usize = 0;
    let mut hi: usize = es.len();
    while lo < hi
        invariant
            0 <= lo <= hi <= es@.len(),
            seps_sorted(es@),
            forall|j: int| 0 <= j < lo ==> #[trigger] es@[j].key <= k,
            forall|j: int| hi <= j < es@.len() ==> k < #[trigger] es@[j].key,
        decreases hi - lo,
    {
        let mid = lo + (hi - lo) / 2;
        if es[mid].key <= k {
            lo = mid + 1;
        } else {
            hi = mid;
        }
    }
    proof {
        lemma_upper_partition(es@, k, lo as int);
    }
    if lo == 0 {
        0
    } else {
        lo - 1
    }
}

/// Children that are well-formed with sorted entries have sorted
/// separators.
proof fn lemma_seps_sorted(mgr: NVObjectManager, es: Seq<NodeEntry<u64, ObjectPointer>>, h: nat)
    requires
        children_wf(mgr, es, h),
        keys_sorted(children_content(mgr, es, h)),
    ensures
        seps_sorted(es),
{
    lemma_children_wf_each(mgr, es, h);
    assert forall|i: int, j: int| 0 <= i <= j < es.len() implies es[i].key <= es[j].key by {
        let all = children_content(mgr, es, h);
        let (pi, ci) = split_at_child(mgr, es, i, h);
        let (pj, cj) = split_at_child(mgr, es, j, h);
        assert(all[pi] == ci[0]);
        assert(all[pj] == cj[0]);
        assert(es[i].key == ci[0].key);
        assert(es[j].key == cj[0].key);
        assert(es.subrange(0, j) =~= es.subrange(0, i) + es.subrange(i, j));
        lemma_children_content_concat(mgr, es.subrange(0, i), es.subrange(i, j), h);
        assert(pi <= pj);
    }
}

/// Where the entries of child `i` start among the entries of all children.
proof fn split_at_child(
    mgr: NVObjectManager,
    es: Seq<NodeEntry<u64, ObjectPointer>>,
    i: int,
    h: nat,
) -> (r: (int, Seq<NodeEntry<u64, u64>>))
    requires
        0 <= i < es.len(),
        forall|j: int| 0 <= j < es.len() ==> child_ok(mgr, #[trigger] es[j], h),
    ensures
        r.0 == children_content(mgr, es.subrange(0, i), h).len(),
        r.1 == content(mgr, es[i].value, h),
        r.1.len() > 0,
        r.1[0].key == es[i].key,
        r.0 < children_content(mgr, es, h).len(),
        children_content(mgr, es, h)[r.0] == r.1[0],
{
    let pre = es.subrange(0, i);
    let rest = es.subrange(i, es.len() as int);
    assert(es =~= pre + rest);
    lemma_children_content_concat(mgr, pre, rest, h);
    assert(child_ok(mgr, es[i], h));
    assert(rest[0] == es[i]);
    lemma_children_content_first(mgr, rest, h);
    (children_content(mgr, pre, h).len() as int, content(mgr, es[i].value, h))
}

/// How many leading entries of `s` have keys below `k`.
pub open spec fn lower_count(s: Seq<NodeEntry<u64, u64>>, k: u64) -> int
    decreases s.len(),
{
    if s.len() == 0 {
        0
    } else if s[0].key < k {
        1 + lower_count(s.drop_first(), k)
    } else {
        0
    }
}

/// How many leading entries of the memstore `rest` go into the child that
/// the first of them belongs to: those below the next separator, or all of
/// them at the last child.
pub open spec fn seg_len(es: Seq<NodeEntry<u64, ObjectPointer>>, rest: Seq<NodeEntry<u64, u64>>) -> int {
    let b = branch_index(es, rest[0].key);
    if b + 1 < es.len() {
        lower_count(rest, es[b + 1].key)
    } else {
        rest.len() as int
    }
}

/// Whether merging the memstore `ms` into the tree at `op` returns: the
/// entries to cut are neither none nor beyond half the address space, at
/// this node and at each node below that the merge passes a part of the
/// memstore to.
pub open spec fn merge_ok(mgr: NVObjectManager, op: ObjectPointer, ms: Seq<NodeEntry<u64, u64>>, h: nat) -> bool
    decreases h, ms.len() + 1,
{
    match node_at(mgr, op) {
        Some(NodeView::Leaf(es)) => 0 < es.len() + ms.len() <= usize::MAX / 2,
        Some(NodeView::Internal(es)) => if h > 0 {
            &&& 0 < es.len()
            &&& segs_ok(mgr, es, ms, (h - 1) as nat)
            &&& es.len() + segs_out(mgr, es, ms, (h - 1) as nat) <= usize::MAX / 2
        } else {
            false
        },
        _ => false,
    }
}

/// Whether the memstore `rest` parts, one after the other, into the
/// children of `es` that its keys belong to, and each part's merge into
/// its child returns.
pub open spec fn segs_ok(
    mgr: NVObjectManager,
    es: Seq<NodeEntry<u64, ObjectPointer>>,
    rest: Seq<NodeEntry<u64, u64>>,
    h: nat,
) -> bool
    decreases h + 1, rest.len(),
{
    if rest.len() == 0 {
        true
    } else {
        let b = branch_index(es, rest[0].key);
        let n = seg_len(es, rest);
        if 0 < n <= rest.len() && 0 <= b < es.len() {
            merge_ok(mgr, es[b].value, rest.subrange(0, n), h) && segs_ok(
                mgr,
                es,
                rest.subrange(n, rest.len() as int),
                h,
            )
        } else {
            false
        }
    }
}

/// How many nodes the merge into the tree at `op` returns.
pub open spec fn out_count(mgr: NVObjectManager, op: ObjectPointer, ms: Seq<NodeEntry<u64, u64>>, h: nat) -> int
    decreases h, ms.len() + 1,
{
    match node_at(mgr, op) {
        Some(NodeView::Leaf(es)) => chunk_count((es.len() + ms.len()) as int),
        Some(NodeView::Internal(es)) => if h == 0 {
            0
        } else {
            chunk_count(es.len() + segs_out(mgr, es, ms, (h - 1) as nat))
        },
        _ => 0,
    }
}

/// How many more children an inner node with children `es` has once each
/// child that a part of `rest` goes into is replaced by what its merge
/// returns.
pub open spec fn segs_out(
    mgr: NVObjectManager,
    es: Seq<NodeEntry<u64, ObjectPointer>>,
    rest: Seq<NodeEntry<u64, u64>>,
    h: nat,
) -> int
    decreases h + 1, rest.len(),
{
    if rest.len() == 0 {
        0
    } else {
        let b = branch_index(es, rest[0].key);
        let n = seg_len(es, rest);
        if 0 < n <= rest.len() && 0 <= b < es.len() {
            out_count(mgr, es[b].value, rest.subrange(0, n), h) - 1 + segs_out(
                mgr,
                es,
                rest.subrange(n, rest.len() as int),
                h,
            )
        } else {
            0
        }
    }
}

/// How many nodes the merge into the tree at `op` writes.
pub open spec fn store_count(mgr: NVObjectManager, op: ObjectPointer, ms: Seq<NodeEntry<u64, u64>>, h: nat) -> int
    decreases h, ms.len() + 1,
{
    match node_at(mgr, op) {
        Some(NodeView::Leaf(es)) => chunk_count((es.len() + ms.len()) as int),
        Some(NodeView::Internal(es)) => if h == 0 {
            0
        } else {
            segs_store(mgr, es, ms, (h - 1) as nat) + chunk_count(
                es.len() + segs_out(mgr, es, ms, (h - 1) as nat),
            )
        },
        _ => 0,
    }
}

/// How many nodes the merges of the parts of `rest` into the children of
/// `es` write.
pub open spec fn segs_store(
    mgr: NVObjectManager,
    es: Seq<NodeEntry<u64, ObjectPointer>>,
    rest: Seq<NodeEntry<u64, u64>>,
    h: nat,
) -> int
    decreases h + 1, rest.len(),
{
    if rest.len() == 0 {
        0
    } else {
        let b = branch_index(es, rest[0].key);
        let n = seg_len(es, rest);
        if 0 < n <= rest.len() && 0 <= b < es.len() {
            store_count(mgr, es[b].value, rest.subrange(0, n), h) + segs_store(
                mgr,
                es,
                rest.subrange(n, rest.len() as int),
                h,
            )
        } else {
            0
        }
    }
}

/// The merge counts read the same in a manager that keeps the tree's
/// nodes.
proof fn lemma_merge_frame(new: NVObjectManager, old: NVObjectManager, op: ObjectPointer, ms: Seq<NodeEntry<u64, u64>>, h: nat)
    requires
        keeps_objects(new, old),
        tree_wf(old, op, h),
    ensures
        merge_ok(new, op, ms, h) == merge_ok(old, op, ms, h),
        out_count(new, op, ms, h) == out_count(old, op, ms, h),
        store_count(new, op, ms, h) == store_count(old, op, ms, h),
    decreases h, ms.len() + 1,
{
    lemma_node_at_frame(new, old, op);
    match node_at(old, op) {
        Some(NodeView::Internal(es)) => {
            lemma_segs_frame(new, old, es, ms, (h - 1) as nat);
        },
        _ => {},
    }
}

proof fn lemma_segs_frame(
    new: NVObjectManager,
    old: NVObjectManager,
    es: Seq<NodeEntry<u64, ObjectPointer>>,
    rest: Seq<NodeEntry<u64, u64>>,
    h: nat,
)
    requires
        keeps_objects(new, old),
        children_wf(old, es, h),
    ensures
        segs_ok(new, es, rest, h) == segs_ok(old, es, rest, h),
        segs_out(new, es, rest, h) == segs_out(old, es, rest, h),
        segs_store(new, es, rest, h) == segs_store(old, es, rest, h),
    decreases h + 1, rest.len(),
{
    if rest.len() > 0 {
        let b = branch_index(es, rest[0].key);
        let n = seg_len(es, rest);
        if 0 < n <= rest.len() && 0 <= b < es.len() {
            lemma_children_wf_each(old, es, h);
            assert(child_ok(old, es[b], h));
            lemma_merge_frame(new, old, es[b].value, rest.subrange(0, n), h);
            lemma_segs_frame(new, old, es, rest.subrange(n, rest.len() as int), h);
        }
    }
}

/// The node counts of a merge that returns: some nodes returned, and not
/// too many to cut, and none written fewer than none.
proof fn lemma_counts_nonneg(mgr: NVObjectManager, op: ObjectPointer, ms: Seq<NodeEntry<u64, u64>>, h: nat)
    requires
        merge_ok(mgr, op, ms, h),
    ensures
        1 <= out_count(mgr, op, ms, h) <= usize::MAX / 2,
        store_count(mgr, op, ms, h) >= 0,
    decreases h, ms.len() + 1,
{
    match node_at(mgr, op) {
        Some(NodeView::Internal(es)) => {
            lemma_segs_nonneg(mgr, es, ms, (h - 1) as nat);
            lemma_chunk_count_pos(es.len() + segs_out(mgr, es, ms, (h - 1) as nat));
        },
        Some(NodeView::Leaf(es)) => {
            lemma_chunk_count_pos((es.len() + ms.len()) as int);
        },
        _ => {},
    }
}

proof fn lemma_segs_nonneg(
    mgr: NVObjectManager,
    es: Seq<NodeEntry<u64, ObjectPointer>>,
    rest: Seq<NodeEntry<u64, u64>>,
    h: nat,
)
    requires
        segs_ok(mgr, es, rest, h),
    ensures
        segs_store(mgr, es, rest, h) >= 0,
        segs_out(mgr, es, rest, h) >= 0,
    decreases h + 1, rest.len(),
{
    if rest.len() > 0 {
        let b = branch_index(es, rest[0].key);
        let n = seg_len(es, rest);
        lemma_counts_nonneg(mgr, es[b].value, rest.subrange(0, n), h);
        lemma_segs_nonneg(mgr, es, rest.subrange(n, rest.len() as int), h);
    }
}

/// In a sorted concatenation, the first entry of the second part bounds the
/// first part from above and the second part from below.
proof fn lemma_sorted_split_bounds(x: Seq<NodeEntry<u64, u64>>, y: Seq<NodeEntry<u64, u64>>)
    requires
        keys_sorted(x + y),
        y.len() > 0,
    ensures
        forall|i: int| 0 <= i < x.len() ==> #[trigger] x[i].key <= y[0].key,
        forall|i: int| 0 <= i < y.len() ==> y[0].key <= #[trigger] y[i].key,
{
    assert forall|i: int| 0 <= i < x.len() implies #[trigger] x[i].key <= y[0].key by {
        assert((x + y)[i] == x[i]);
        assert((x + y)[x.len() as int] == y[0]);
    }
    assert forall|i: int| 0 <= i < y.len() implies y[0].key <= #[trigger] y[i].key by {
        assert((x + y)[x.len() + i] == y[i]);
        assert((x + y)[x.len() as int] == y[0]);
    }
}

/// A chunk count is positive for a positive number of entries.
proof fn lemma_chunk_count_pos(n: int)
    requires
        n > 0,
    ensures
        1 <= chunk_count(n) <= n,
{
}

/// With sorted entries, `lower_count` is the partition point.
proof fn lemma_lower_partition(s: Seq<NodeEntry<u64, u64>>, k: u64, p: int)
    requires
        0 <= p <= s.len(),
        forall|j: int| 0 <= j < p ==> #[trigger] s[j].key < k,
        forall|j: int| p <= j < s.len() ==> k <= #[trigger] s[j].key,
    ensures
        lower_count(s, k) == p,
    decreases s.len(),
{
    if s.len() > 0 && p > 0 {
        assert forall|j: int| 0 <= j < p - 1 implies #[trigger] s.drop_first()[j].key < k by {
            assert(s.drop_first()[j] == s[j + 1]);
        }
        assert forall|j: int| p - 1 <= j < s.drop_first().len() implies k <= #[trigger] s.drop_first()[j].key by {
            assert(s.drop_first()[j] == s[j + 1]);
        }
        lemma_lower_partition(s.drop_first(), k, p - 1);
    }
}

/// The first entry under the children from `i` on is child `i`'s first
/// entry, and with sorted entries it bounds the entries under the
/// children before `i` from above and those from `i` on from below.
proof fn lemma_child_bounds(mgr: NVObjectManager, es: Seq<NodeEntry<u64, ObjectPointer>>, i: int, h: nat)
    requires
        children_wf(mgr, es, h),
        keys_sorted(children_content(mgr, es, h)),
        0 <= i < es.len(),
    ensures
        forall|j: int|
            0 <= j < children_content(mgr, es.subrange(0, i), h).len() ==> #[trigger] children_content(
                mgr,
                es.subrange(0, i),
                h,
            )[j].key <= es[i].key,
        forall|j: int|
            0 <= j < children_content(mgr, es.subrange(i, es.len() as int), h).len() ==> es[i].key
                <= #[trigger] children_content(mgr, es.subrange(i, es.len() as int), h)[j].key,
{
    let pre = es.subrange(0, i);
    let post = es.subrange(i, es.len() as int);
    assert(es =~= pre + post);
    lemma_children_content_concat(mgr, pre, post, h);
    lemma_children_wf_each(mgr, es, h);
    assert(child_ok(mgr, es[i], h));
    assert(post[0] == es[i]);
    lemma_children_content_first(mgr, post, h);
    lemma_sorted_split_bounds(children_content(mgr, pre, h), children_content(mgr, post, h));
}

/// Children `es[i..j]` are well-formed when all of `es` are, and their
/// entries are those between the entries of `es[..i]` and of `es[j..]`.
proof fn lemma_children_slice(mgr: NVObjectManager, es: Seq<NodeEntry<u64, ObjectPointer>>, i: int, j: int, h: nat)
    requires
        children_wf(mgr, es, h),
        0 <= i <= j <= es.len(),
    ensures
        children_wf(mgr, es.subrange(i, j), h),
        children_content(mgr, es.subrange(0, j), h) == children_content(mgr, es.subrange(0, i), h)
            + children_content(mgr, es.subrange(i, j), h),
        children_content(mgr, es.subrange(i, es.len() as int), h) == children_content(
            mgr,
            es.subrange(i, j),
            h,
        ) + children_content(mgr, es.subrange(j, es.len() as int), h),
{
    let a = es.subrange(0, i);
    let m = es.subrange(i, j);
    let c = es.subrange(j, es.len() as int);
    assert(es =~= a + m + c);
    assert(es.subrange(0, j) =~= a + m);
    assert(es.subrange(i, es.len() as int) =~= m + c);
    lemma_children_wf_concat(mgr, a + m, c, h);
    lemma_children_wf_concat(mgr, a, m, h);
    lemma_children_content_concat(mgr, a, m, h);
    lemma_children_content_concat(mgr, m, c, h);
}

/// One step of the merge into an inner node: the untouched children up to
/// the branch are kept, and the branch is replaced by what merging its part
/// of the memstore into it returned.
proof fn lemma_merge_step(
    mgr0: NVObjectManager,
    cur: NVObjectManager,
    cur2: NVObjectManager,
    es: Seq<NodeEntry<u64, ObjectPointer>>,
    ms: Seq<NodeEntry<u64, u64>>,
    prev: Seq<NodeEntry<u64, ObjectPointer>>,
    child_out: Seq<NodeEntry<u64, ObjectPointer>>,
    oi: int,
    mi: int,
    b: int,
    end: int,
    h: nat,
)
    requires
        extends(cur, mgr0),
        extends(cur2, cur),
        children_wf(mgr0, es, h),
        keys_sorted(children_content(mgr0, es, h)),
        entries_sorted(ms),
        0 <= oi <= b < es.len(),
        0 <= mi < end <= ms.len(),
        oi == 0 ==> mi == 0,
        oi > 0 ==> es[oi].key <= ms[mi].key,
        forall|j: int| 0 <= j < mi ==> #[trigger] ms[j].key < es[oi].key,
        b > 0 ==> es[b].key <= ms[mi].key,
        children_wf(cur, prev, h),
        children_content(cur, prev, h) == merge_entries(
            children_content(mgr0, es.subrange(0, oi), h),
            ms.subrange(0, mi),
        ),
        children_wf(cur2, child_out, h),
        children_content(cur2, child_out, h) == merge_entries(
            content(mgr0, es[b].value, h),
            ms.subrange(mi, end),
        ),
    ensures
        children_wf(cur2, prev + es.subrange(oi, b) + child_out, h),
        children_content(cur2, prev + es.subrange(oi, b) + child_out, h) == merge_entries(
            children_content(mgr0, es.subrange(0, b + 1), h),
            ms.subrange(0, end),
        ),
{
    let mid = es.subrange(oi, b);
    let x = children_content(mgr0, es.subrange(0, oi), h);
    let y1 = children_content(mgr0, mid, h);
    let cb = content(mgr0, es[b].value, h);
    let m1 = ms.subrange(0, mi);
    let m2 = ms.subrange(mi, end);
    lemma_children_slice(mgr0, es, oi, b, h);
    lemma_children_slice(mgr0, es, b, b + 1, h);
    lemma_children_slice(mgr0, es, oi, b + 1, h);
    let one = es.subrange(b, b + 1);
    assert(one.drop_last() =~= Seq::<NodeEntry<u64, ObjectPointer>>::empty());
    assert(one.last() == es[b]);
    assert(children_content(mgr0, one.drop_last(), h) =~= Seq::<NodeEntry<u64, u64>>::empty());
    assert(children_content(mgr0, one, h) =~= cb);
    lemma_children_slice(mgr0, es, 0, oi, h);
    assert(es.subrange(0, 0) =~= Seq::<NodeEntry<u64, ObjectPointer>>::empty());
    lemma_children_slice(mgr0, es, oi, b + 1, h);
    let y = children_content(mgr0, es.subrange(oi, b + 1), h);
    assert(es.subrange(oi, b + 1) =~= mid + one);
    lemma_children_content_concat(mgr0, mid, one, h);
    // the entries before the branch come before the memstore's part
    lemma_child_bounds(mgr0, es, oi, h);
    let post = es.subrange(oi, es.len() as int);
    lemma_children_slice(mgr0, es, b + 1, es.len() as int, h);
    assert(es.subrange(oi, es.len() as int) =~= es.subrange(oi, b + 1) + es.subrange(b + 1, es.len() as int));
    lemma_children_content_concat(mgr0, es.subrange(oi, b + 1), es.subrange(b + 1, es.len() as int), h);
    assert forall|i: int, j: int| 0 <= i < x.len() && 0 <= j < m2.len() implies #[trigger] x[i].key
        <= #[trigger] m2[j].key by {
        assert(m2[j] == ms[mi + j]);
        if oi > 0 {
            if j > 0 {
                assert(ms[mi].key < ms[mi + j].key);
            }
        } else {
            assert(es.subrange(0, oi) =~= Seq::<NodeEntry<u64, ObjectPointer>>::empty());
        }
    }
    assert forall|i: int, j: int| 0 <= i < m1.len() && 0 <= j < y.len() implies #[trigger] m1[i].key
        < #[trigger] y[j].key by {
        assert(m1[i] == ms[i]);
        assert(children_content(mgr0, post, h)[j] == y[j]);
    }
    assert(es.subrange(0, b + 1) =~= es.subrange(0, oi) + es.subrange(oi, b + 1));
    lemma_children_content_concat(mgr0, es.subrange(0, oi), es.subrange(oi, b + 1), h);
    assert(ms.subrange(0, end) =~= m1 + m2);
    lemma_merge_concat(x, y, m1, m2);
    // the untouched children up to the branch come before the memstore's part
    if b > oi {
        lemma_child_bounds(mgr0, es, b, h);
        lemma_children_slice(mgr0, es, oi, b, h);
        lemma_children_slice(mgr0, es, 0, oi, h);
        assert forall|i: int| 0 <= i < y1.len() implies #[trigger] y1[i].key <= m2[0].key by {
            assert(children_content(mgr0, es.subrange(0, b), h)[x.len() + i] == y1[i]);
        }
    } else {
        assert(mid =~= Seq::<NodeEntry<u64, ObjectPointer>>::empty());
        assert(y1 =~= Seq::<NodeEntry<u64, u64>>::empty());
    }
    lemma_merge_prefix(y1, cb, m2);
    // the kept children read the same after the merges
    lemma_children_frame(cur, mgr0, mid, h);
    lemma_children_frame(cur2, cur, mid, h);
    lemma_children_frame(cur2, cur, prev, h);
    lemma_children_wf_concat(cur2, prev + mid, child_out, h);
    lemma_children_wf_concat(cur2, prev, mid, h);
    lemma_children_content_concat(cur2, prev + mid, child_out, h);
    lemma_children_content_concat(cur2, prev, mid, h);
    assert(merge_entries(x, m1) + y1 + merge_entries(cb, m2) =~= merge_entries(x, m1) + (y1 + merge_entries(cb, m2)));
}

/// The last step of the merge into an inner node: the children after the
/// last branch are kept.
proof fn lemma_merge_finish(
    mgr0: NVObjectManager,
    cur: NVObjectManager,
    es: Seq<NodeEntry<u64, ObjectPointer>>,
    ms: Seq<NodeEntry<u64, u64>>,
    prev: Seq<NodeEntry<u64, ObjectPointer>>,
    oi: int,
    h: nat,
)
    requires
        extends(cur, mgr0),
        children_wf(mgr0, es, h),
        keys_sorted(children_content(mgr0, es, h)),
        0 <= oi <= es.len(),
        oi == 0 ==> ms.len() == 0,
        oi < es.len() ==> forall|j: int| 0 <= j < ms.len() ==> #[trigger] ms[j].key < es[oi].key,
        children_wf(cur, prev, h),
        children_content(cur, prev, h) == merge_entries(children_content(mgr0, es.subrange(0, oi), h), ms),
    ensures
        children_wf(cur, prev + es.subrange(oi, es.len() as int), h),
        children_content(cur, prev + es.subrange(oi, es.len() as int), h) == merge_entries(
            children_content(mgr0, es, h),
            ms,
        ),
{
    let rest = es.subrange(oi, es.len() as int);
    let x = children_content(mgr0, es.subrange(0, oi), h);
    let y = children_content(mgr0, rest, h);
    lemma_children_slice(mgr0, es, oi, es.len() as int, h);
    lemma_children_slice(mgr0, es, 0, oi, h);
    assert(es.subrange(0, es.len() as int) =~= es);
    assert(es.subrange(0, 0) =~= Seq::<NodeEntry<u64, ObjectPointer>>::empty());
    if oi < es.len() {
        lemma_child_bounds(mgr0, es, oi, h);
    } else {
        assert(rest =~= Seq::<NodeEntry<u64, ObjectPointer>>::empty());
    }
    let none = Seq::<NodeEntry<u64, u64>>::empty();
    assert forall|i: int, j: int| 0 <= i < ms.len() && 0 <= j < y.len() implies #[trigger] ms[i].key
        < #[trigger] y[j].key by {
    }
    assert(ms + none =~= ms);
    lemma_merge_concat(x, y, ms, none);
    lemma_merge_empty(y);
    lemma_children_frame(cur, mgr0, rest, h);
    lemma_children_wf_concat(cur, prev, rest, h);
    lemma_children_content_concat(cur, prev, rest, h);
}

/// Strictly increasing keys never decrease.
proof fn lemma_sorted_ms(ms: Seq<NodeEntry<u64, u64>>)
    requires
        entries_sorted(ms),
    ensures
        keys_sorted(ms),
{
}

/// What a merge into the tree at `op` asks of the manager: the tree is
/// well-formed, the merge returns, and the nodes it writes fit below the
/// end of the address space.
pub open spec fn merge_pre(mgr: NVObjectManager, op: ObjectPointer, ms: Seq<NodeEntry<u64, u64>>, h: nat) -> bool {
    &&& mgr.inv()
    &&& tree_wf(mgr, op, h)
    &&& merge_ok(mgr, op, ms, h)
    &&& entries_sorted(ms)
    &&& mgr.fso + NODE_MAX_RAW * store_count(mgr, op, ms, h) <= usize::MAX
}

/// Merges the sorted memstore into the tree at `node_op` by copy on write:
/// a leaf is merged with the memstore and cut into new leaves; an inner
/// node parts the memstore between its children by their separators,
/// passes each part to its child, and is rewritten with those children's
/// replacements, cut into new inner nodes. Returns the
/// new nodes with their first keys; the old tree is left as it was.
#[verifier::rlimit(60)]
fn merge_rec(
    memstore: &[NodeEntry<u64, u64>],
    nv_obj_mngr: &mut NVObjectManager,
    node_op: &ObjectPointer,
    Ghost(h): Ghost<nat>,
) -> (out: Vec<NodeEntry<u64, ObjectPointer>>)
    requires
        merge_pre(*old(nv_obj_mngr), *node_op, memstore@, h),
    ensures
        out@.len() == out_count(*old(nv_obj_mngr), *node_op, memstore@, h),
        out@.len() >= 1,
        final(nv_obj_mngr).inv(),
        extends(*final(nv_obj_mngr), *old(nv_obj_mngr)),
        final(nv_obj_mngr).txg == old(nv_obj_mngr).txg,
        final(nv_obj_mngr).fso <= old(nv_obj_mngr).fso + NODE_MAX_RAW * store_count(
            *old(nv_obj_mngr),
            *node_op,
            memstore@,
            h,
        ),
        children_wf(*final(nv_obj_mngr), out@, h),
        children_content(*final(nv_obj_mngr), out@, h) == merge_entries(
            content(*old(nv_obj_mngr), *node_op, h),
            memstore@,
        ),
        merge_out_ok(*old(nv_obj_mngr), *final(nv_obj_mngr), *node_op, out@, merge_entries(
            content(*old(nv_obj_mngr), *node_op, h),
            memstore@,
        )),
    decreases h,
{
    let ghost mgr0 = *nv_obj_mngr;
    let ghost ms = memstore@;
    match node_op.object_type {
        ObjectType::LeafNode => {
            // get the leaf
            let leaf = nv_obj_mngr.get::<LeafNode<u64, u64>>(node_op);
            let ghost es = leaf.entries@;

            // the sorted merging of the leaf's entries and the memstore
            let it_leaf = copy_entries(&leaf.entries);
            let it_memstore = vstd::slice::slice_to_vec(memstore);
            let entries = merge_by_key(it_leaf, it_memstore);
            proof {
                lemma_merge_len(es, ms);
                lemma_sorted_ms(ms);
                lemma_merge_sorted(es, ms);
                lemma_chunk_count_pos(entries@.len() as int);
            }
            let chunks = reduce(entries);
            let ghost cs = chunks@;
            let out = store_leaves(chunks, nv_obj_mngr);
            proof {
                lemma_children_mono(*nv_obj_mngr, out@, 0, h);
                lemma_leaf_out(mgr0, *nv_obj_mngr, *node_op, out@, cs, entries@, h);
            }
            out
        },
        ObjectType::InternalNode => {
            let mut new_entries: Vec<NodeEntry<u64, ObjectPointer>> = Vec::new();
            let mut old_entries_it: usize = 0;
            let mut memstore_it: usize = 0;

            // get the node
            let internal = nv_obj_mngr.get::<InternalNode<u64>>(node_op);
            let ghost es = internal.entries@;
            let ghost hc = (h - 1) as nat;
            proof {
                assert(node_at(mgr0, *node_op) == Some(NodeView::Internal(es)));
                lemma_tree_wf_internal(mgr0, *node_op, es, h);
                lemma_seps_sorted(mgr0, es, hc);
                lemma_children_wf_each(mgr0, es, hc);
                lemma_segs_nonneg(mgr0, es, ms, hc);
                lemma_chunk_count_pos(es.len() + segs_out(mgr0, es, ms, hc));
                assert(ms.subrange(0, 0) =~= Seq::<NodeEntry<u64, u64>>::empty());
                assert(es.subrange(0, 0) =~= Seq::<NodeEntry<u64, ObjectPointer>>::empty());
                assert(ms.subrange(0, ms.len() as int) =~= ms);
                lemma_extends_refl(mgr0);
            }
            // merge each part of the memstore into the branch it belongs to
            while memstore_it < memstore.len()
                invariant
                    internal.entries@ == es,
                    memstore@ == ms,
                    h > 0,
                    hc == h - 1,
                    node_at(mgr0, *node_op) == Some(NodeView::Internal(es)),
                    0 < es.len(),
                    children_wf(mgr0, es, hc),
                    keys_sorted(children_content(mgr0, es, hc)),
                    seps_sorted(es),
                    entries_sorted(ms),
                    old_entries_it <= es.len(),
                    memstore_it <= ms.len(),
                    old_entries_it == es.len() ==> memstore_it == ms.len(),
                    old_entries_it == 0 ==> memstore_it == 0,
                    old_entries_it > 0 && memstore_it < ms.len() ==> es[old_entries_it as int].key
                        <= ms[memstore_it as int].key,
                    old_entries_it < es.len() ==> forall|j: int|
                        0 <= j < memstore_it ==> #[trigger] ms[j].key < es[old_entries_it as int].key,
                    segs_ok(mgr0, es, ms.subrange(memstore_it as int, ms.len() as int), hc),
                    segs_ok(mgr0, es, ms, hc),
                    es.len() + segs_out(mgr0, es, ms, hc) <= usize::MAX / 2,
                    mgr0.fso + NODE_MAX_RAW * (segs_store(mgr0, es, ms, hc) + chunk_count(
                        es.len() + segs_out(mgr0, es, ms, hc),
                    )) <= usize::MAX,
                    chunk_count(es.len() + segs_out(mgr0, es, ms, hc)) >= 0,
                    nv_obj_mngr.inv(),
                    extends(*nv_obj_mngr, mgr0),
                    nv_obj_mngr.txg == mgr0.txg,
                    nv_obj_mngr.fso + NODE_MAX_RAW * segs_store(
                        mgr0,
                        es,
                        ms.subrange(memstore_it as int, ms.len() as int),
                        hc,
                    ) <= mgr0.fso + NODE_MAX_RAW * segs_store(mgr0, es, ms, hc),
                    new_entries@.len() + (es.len() - old_entries_it) + segs_out(
                        mgr0,
                        es,
                        ms.subrange(memstore_it as int, ms.len() as int),
                        hc,
                    ) == es.len() + segs_out(mgr0, es, ms, hc),
                    children_wf(*nv_obj_mngr, new_entries@, hc),
                    children_content(*nv_obj_mngr, new_entries@, hc) == merge_entries(
                        children_content(mgr0, es.subrange(0, old_entries_it as int), hc),
                        ms.subrange(0, memstore_it as int),
                    ),
                decreases ms.len() - memstore_it,
            {
                let ghost cur = *nv_obj_mngr;
                let ghost mi = memstore_it as int;
                let ghost oi = old_entries_it as int;
                let ghost rest = ms.subrange(mi, ms.len() as int);
                // find the branch where the memstore's next part goes
                let branch_index = find_branch(&internal.entries, memstore[memstore_it].key);
                let ghost b = branch_index as int;
                proof {
                    assert(rest[0] == ms[mi]);
                    if oi > 0 && b < oi {
                        assert(es[b + 1].key <= es[oi].key);
                    }
                    lemma_upper_bounds(es, ms[mi].key);
                }
                // how much of the memstore goes into that branch: up to the
                // next separator
                let end: usize = if branch_index < internal.entries.len() - 1 {
                    let max = internal.entries[branch_index + 1].key;
                    match search_key(memstore, max) {
                        Ok(i) => {
                            proof {
                                assert forall|j: int| 0 <= j < i implies #[trigger] ms[j].key < max by {
                                    assert(ms[j].key < ms[i as int].key);
                                }
                                assert forall|j: int| i <= j < ms.len() implies max <= #[trigger] ms[j].key by {
                                    if i < j {
                                        assert(ms[i as int].key < ms[j].key);
                                    }
                                }
                            }
                            i
                        },
                        Err(i) => i,
                    }
                } else {
                    memstore.len()
                };
                proof {
                    if b + 1 < es.len() {
                        let max = es[b + 1].key;
                        assert(forall|j: int| 0 <= j < end ==> #[trigger] ms[j].key < max);
                        assert(forall|j: int| end <= j < ms.len() ==> max <= #[trigger] ms[j].key);
                        assert(mi < end);
                        assert forall|j: int| 0 <= j < end - mi implies #[trigger] rest[j].key < max by {
                            assert(rest[j] == ms[mi + j]);
                        }
                        assert forall|j: int| end - mi <= j < rest.len() implies max <= #[trigger] rest[j].key by {
                            assert(rest[j] == ms[mi + j]);
                        }
                        lemma_lower_partition(rest, max, end - mi);
                    }
                    assert(seg_len(es, rest) == end - mi);
                    assert(rest.subrange(0, end - mi) =~= ms.subrange(mi, end as int));
                    assert(rest.subrange(end - mi, rest.len() as int) =~= ms.subrange(end as int, ms.len() as int));
                }

                // move the untouched entries before the branch
                let ghost prev = new_entries@;
                let mut i = old_entries_it;
                while i < branch_index
                    invariant
                        old_entries_it <= i <= branch_index < internal.entries@.len(),
                        internal.entries@ == es,
                        new_entries@ == prev + es.subrange(old_entries_it as int, i as int),
                    decreases branch_index - i,
                {
                    new_entries.push(internal.entries[i]);
                    i = i + 1;
                    assert(new_entries@ =~= prev + es.subrange(old_entries_it as int, i as int));
                }

                // append the merged branch
                let sub = vstd::slice::slice_subrange(memstore, memstore_it, end);
                let ghost seg = sub@;
                proof {
                    assert(seg =~= ms.subrange(mi, end as int));
                    lemma_children_wf_each(mgr0, es, hc);
                    assert(child_ok(mgr0, es[b], hc));
                    lemma_tree_frame(cur, mgr0, es[b].value, hc);
                    lemma_merge_frame(cur, mgr0, es[b].value, seg, hc);
                    lemma_counts_nonneg(mgr0, es[b].value, seg, hc);
                    lemma_segs_nonneg(mgr0, es, ms.subrange(end as int, ms.len() as int), hc);
                    assert forall|j: int, k: int| 0 <= j < k < seg.len() implies seg[j].key < seg[k].key by {
                        assert(seg[j] == ms[mi + j]);
                        assert(seg[k] == ms[mi + k]);
                    }
                }
                let mut merged = merge_rec(sub, nv_obj_mngr, &internal.entries[branch_index].value, Ghost(hc));
                proof {
                    lemma_extends_trans(mgr0, cur, *nv_obj_mngr);
                    lemma_merge_step(mgr0, cur, *nv_obj_mngr, es, ms, prev, merged@, oi, mi, b, end as int, hc);
                    assert(new_entries@ + merged@ =~= prev + es.subrange(oi, b) + merged@);
                    if b + 1 < es.len() {
                        assert forall|j: int| 0 <= j < end implies #[trigger] ms[j].key < es[b + 1].key by {
                            if j < mi {
                                assert(es[oi].key <= es[b + 1].key);
                            }
                        }
                    }
                }
                new_entries.append(&mut merged);
                old_entries_it = branch_index + 1;
                memstore_it = end;
            }
            // move the remaining entries
            let ghost before_rest = new_entries@;
            let mut i = old_entries_it;
            while i < internal.entries.len()
                invariant
                    old_entries_it <= i <= internal.entries@.len(),
                    internal.entries@ == es,
                    new_entries@ == before_rest + es.subrange(old_entries_it as int, i as int),
                decreases internal.entries@.len() - i,
            {
                new_entries.push(internal.entries[i]);
                i = i + 1;
                assert(new_entries@ =~= before_rest + es.subrange(old_entries_it as int, i as int));
            }
            proof {
                assert(ms.subrange(ms.len() as int, ms.len() as int) =~= Seq::<NodeEntry<u64, u64>>::empty());
                assert(ms.subrange(0, ms.len() as int) =~= ms);
                lemma_merge_finish(mgr0, *nv_obj_mngr, es, ms, before_rest, old_entries_it as int, hc);
                assert(new_entries@ =~= before_rest + es.subrange(old_entries_it as int, es.len() as int));
                lemma_chunk_count_pos(new_entries@.len() as int);
                lemma_sorted_ms(ms);
                lemma_merge_sorted(children_content(mgr0, es, hc), ms);
            }
            let chunks = reduce(new_entries);
            let ghost cs = chunks@;
            let ghost mid = *nv_obj_mngr;
            let out = store_internals(chunks, nv_obj_mngr, Ghost(hc));
            proof {
                lemma_extends_trans(mgr0, mid, *nv_obj_mngr);
                lemma_sorted_ms(ms);
                lemma_tree_wf_internal(mgr0, *node_op, es, h);
                lemma_merge_sorted(content(mgr0, *node_op, h), ms);
                lemma_internal_out(mgr0, mid, *nv_obj_mngr, *node_op, out@, cs, h);
            }
            out
        },
        _ => {
            proof {
                assert(false);
            }
            Vec::new()
        },
    }
}

/// What a merge returns besides its content, `merged`: nodes of the kind
/// merged into, written past the old free-space offset, each of 1 to `B`
/// entries with sizes within one of each other, keyed in order (strictly,
/// over strictly increasing entries). Merging into a leaf writes only the
/// returned leaves, one after the other from the old free-space offset,
/// each holding the next chunk of `merged` as `reduce` cuts it.
pub open spec fn merge_out_ok(
    old: NVObjectManager,
    new: NVObjectManager,
    op: ObjectPointer,
    out: Seq<NodeEntry<u64, ObjectPointer>>,
    merged: Seq<NodeEntry<u64, u64>>,
) -> bool {
    &&& forall|i: int|
        0 <= i < out.len() ==> {
            &&& old.fso <= (#[trigger] out[i]).value.offset
            &&& 1 <= node_len(new, out[i].value) <= B
            &&& out[i].value.object_type == op.object_type
        }
    &&& forall|i: int, j: int|
        0 <= i < out.len() && 0 <= j < out.len() ==> node_len(new, #[trigger] out[i].value)
            <= node_len(new, #[trigger] out[j].value) + 1
    &&& keys_sorted(merged) ==> forall|i: int, j: int|
        0 <= i < j < out.len() ==> #[trigger] out[i].key <= #[trigger] out[j].key
    &&& keys_strict(merged) ==> forall|i: int, j: int|
        0 <= i < j < out.len() ==> #[trigger] out[i].key < #[trigger] out[j].key
    &&& op.object_type == ObjectType::LeafNode ==> {
        &&& laid_out(out, old.fso, new.fso)
        &&& written_from(new, old)
        &&& cached_with(new, old, out)
        &&& forall|i: int|
            0 <= i < out.len() ==> leaf_written(new, #[trigger] out[i], leaf_at(new, out[i].value))
                && node_len(new, out[i].value) == chunk_len(merged.len() as int, i)
    }
}

/// The inner nodes that `store_internals` writes from chunks of children
/// meet what a merge into an inner node returns.
proof fn lemma_internal_out(
    old: NVObjectManager,
    mid: NVObjectManager,
    new: NVObjectManager,
    op: ObjectPointer,
    out: Seq<NodeEntry<u64, ObjectPointer>>,
    cs: Seq<Vec<NodeEntry<u64, ObjectPointer>>>,
    h: nat,
)
    requires
        op.object_type == ObjectType::InternalNode,
        old.fso <= mid.fso,
        out.len() == cs.len(),
        cs.len() > 0 ==> (forall|i: int| 0 <= i < cs.len() ==> (#[trigger] cs[i])@.len() == chunk_len(flat(cs).len() as int, i)),
        forall|i: int| 0 <= i < cs.len() ==> 1 <= (#[trigger] cs[i])@.len() <= B,
        forall|i: int| 0 <= i < out.len() ==> internal_written(new, #[trigger] out[i], cs[i]@),
        laid_out(out, mid.fso, new.fso),
        children_wf(new, out, h),
    ensures
        forall|merged: Seq<NodeEntry<u64, u64>>|
            children_content(new, out, h) == merged && keys_sorted(merged) ==> #[trigger] merge_out_ok(old, new, op, out, merged),
{
    lemma_children_keys(new, out, h);
    lemma_laid_out_bounds(out, mid.fso, new.fso);
    assert forall|i: int| 0 <= i < out.len() implies 1 <= node_len(new, #[trigger] out[i].value) <= B
        && out[i].value.object_type == ObjectType::InternalNode && old.fso <= out[i].value.offset by {
        assert(internal_written(new, out[i], cs[i]@));
    }
    assert forall|i: int, j: int| 0 <= i < out.len() && 0 <= j < out.len() implies node_len(
        new,
        #[trigger] out[i].value,
    ) <= node_len(new, #[trigger] out[j].value) + 1 by {
        assert(internal_written(new, out[i], cs[i]@));
        assert(internal_written(new, out[j], cs[j]@));
    }
}

/// Where chunk `i` starts when `reduce` cuts `n` entries.
pub open spec fn chunk_start(n: int, i: int) -> int
    decreases i,
{
    if i <= 0 {
        0
    } else {
        chunk_start(n, i - 1) + chunk_len(n, i - 1)
    }
}

/// Leaves written as the chunks of `merged`, in order, hold the entries of
/// `merged` chunk by chunk.
#[verifier::spinoff_prover]
#[verifier::rlimit(40)]
proof fn lemma_leaf_chunks(
    new: NVObjectManager,
    out: Seq<NodeEntry<u64, ObjectPointer>>,
    merged: Seq<NodeEntry<u64, u64>>,
    h: nat,
    k: int,
)
    requires
        forall|i: int|
            0 <= i < out.len() ==> leaf_written(new, #[trigger] out[i], leaf_at(new, out[i].value))
                && node_len(new, out[i].value) == chunk_len(merged.len() as int, i),
        children_content(new, out, h) == merged,
        0 <= k <= out.len(),
    ensures
        children_content(new, out.subrange(0, k), h) == merged.subrange(0, chunk_start(merged.len() as int, k)),
        0 <= chunk_start(merged.len() as int, k) <= merged.len(),
        forall|i: int|
            0 <= i < k ==> #[trigger] leaf_at(new, out[i].value) == merged.subrange(
                chunk_start(merged.len() as int, i),
                chunk_start(merged.len() as int, i) + chunk_len(merged.len() as int, i),
            ),
    decreases k,
{
    let n = merged.len() as int;
    if k == 0 {
        assert(out.subrange(0, 0) =~= Seq::<NodeEntry<u64, ObjectPointer>>::empty());
        assert(merged.subrange(0, 0) =~= Seq::<NodeEntry<u64, u64>>::empty());
    } else {
        lemma_leaf_chunks(new, out, merged, h, k - 1);
        let pre = out.subrange(0, k - 1);
        let upto = out.subrange(0, k);
        assert(upto.drop_last() =~= pre);
        assert(upto.last() == out[k - 1]);
        assert(leaf_written(new, out[k - 1], leaf_at(new, out[k - 1].value)));
        let c = leaf_at(new, out[k - 1].value);
        assert(content(new, out[k - 1].value, h) == c);
        assert(children_content(new, upto, h) == children_content(new, pre, h) + c);
        let rest = out.subrange(k, out.len() as int);
        assert(out =~= upto + rest);
        lemma_children_content_concat(new, upto, rest, h);
        let s0 = chunk_start(n, k - 1);
        let s1 = chunk_start(n, k);
        assert(s1 == s0 + c.len());
        assert(children_content(new, upto, h).len() == s1);
        assert(merged.subrange(0, s1) =~= children_content(new, upto, h));
        assert(merged.subrange(s0, s1) =~= c);
    }
}

/// Nodes laid out from `start` to `end` cover every byte between the two.
proof fn lemma_laid_out_covers(out: Seq<NodeEntry<u64, ObjectPointer>>, start: u64, end: u64, j: int)
    requires
        laid_out(out, start, end),
        start <= j < end,
    ensures
        exists|i: int| 0 <= i < out.len() && (#[trigger] out[i]).value.offset <= j < out[i].value.offset + out[i].value.len,
    decreases out.len(),
{
    let n = out.len() as int;
    if n > 0 {
        let last = out[n - 1];
        if j >= last.value.offset {
        } else {
            let pre = out.drop_last();
            if n == 1 {
                assert(false);
            } else {
                assert(out[(n - 2) + 1].value.offset == out[n - 2].value.offset + out[n - 2].value.len);
                assert forall|i: int| 0 <= i < pre.len() - 1 implies #[trigger] pre[i + 1].value.offset
                    == pre[i].value.offset + pre[i].value.len by {
                    assert(out[i + 1].value.offset == out[i].value.offset + out[i].value.len);
                }
                assert(laid_out(pre, start, last.value.offset));
                lemma_laid_out_covers(pre, start, last.value.offset, j);
                let i = choose|i: int| 0 <= i < pre.len() && (#[trigger] pre[i]).value.offset <= j < pre[i].value.offset
                    + pre[i].value.len;
                assert(pre[i] == out[i]);
            }
        }
    }
}

/// A merge into a leaf is pinned down by its contract: two managers that
/// start from the same one and merge into the leaf at `op` the same
/// entries return the same nodes, and leave the same free-space offset, the
/// same bytes on the device and the same cached objects (new ones of the
/// same kind with the same entries).
pub proof fn lemma_leaf_merge_determined(
    old: NVObjectManager,
    new1: NVObjectManager,
    new2: NVObjectManager,
    op: ObjectPointer,
    out1: Seq<NodeEntry<u64, ObjectPointer>>,
    out2: Seq<NodeEntry<u64, ObjectPointer>>,
    merged: Seq<NodeEntry<u64, u64>>,
    h1: nat,
    h2: nat,
)
    requires
        op.object_type == ObjectType::LeafNode,
        out1.len() == chunk_count(merged.len() as int),
        out2.len() == chunk_count(merged.len() as int),
        extends(new1, old),
        extends(new2, old),
        children_content(new1, out1, h1) == merged,
        children_content(new2, out2, h2) == merged,
        merge_out_ok(old, new1, op, out1, merged),
        merge_out_ok(old, new2, op, out2, merged),
    ensures
        out1 == out2,
        new1.fso == new2.fso,
        new1.image() == new2.image(),
        new1.cache().dom() == new2.cache().dom(),
        forall|k: u64|
            #[trigger] new1.cache().contains_key(k) ==> new1.cache()[k] == new2.cache()[k] || (
            new1.cache()[k].kind() == new2.cache()[k].kind() && new1.cache()[k].view_node()
                == new2.cache()[k].view_node()),
{
    let n = merged.len() as int;
    lemma_leaf_chunks(new1, out1, merged, h1, out1.len() as int);
    lemma_leaf_chunks(new2, out2, merged, h2, out2.len() as int);
    assert forall|i: int| 0 <= i < out1.len() implies #[trigger] out1[i] == out2[i] by {
        lemma_same_out(new1, new2, out1, out2, merged, old.fso, i);
    }
    assert(out1 =~= out2);
    assert(new1.fso == new2.fso);
    assert forall|j: int| 0 <= j < new1.image().len() implies new1.image()[j] == new2.image()[j] by {
        if old.fso <= j < new1.fso {
            lemma_laid_out_covers(out1, old.fso, new1.fso, j);
            let i = choose|i: int| 0 <= i < out1.len() && (#[trigger] out1[i]).value.offset <= j < out1[i].value.offset
                + out1[i].value.len;
            assert(leaf_written(new1, out1[i], leaf_at(new1, out1[i].value)));
            assert(leaf_written(new2, out2[i], leaf_at(new2, out2[i].value)));
            let off = out1[i].value.offset as int;
            assert(new1.raw_at(out1[i].value)[j - off] == new1.image()[j]);
            assert(new2.raw_at(out2[i].value)[j - off] == new2.image()[j]);
        }
    }
    assert(new1.image() =~= new2.image());
    assert forall|k: u64| #[trigger] new1.cache().contains_key(k) <==> new2.cache().contains_key(k) by {
        if exists|i: int| 0 <= i < out1.len() && out1[i].value.offset == k {
            let i = choose|i: int| 0 <= i < out1.len() && out1[i].value.offset == k;
            assert(out2[i].value.offset == k);
        }
        if exists|i: int| 0 <= i < out2.len() && out2[i].value.offset == k {
            let i = choose|i: int| 0 <= i < out2.len() && out2[i].value.offset == k;
            assert(out1[i].value.offset == k);
        }
    }
    assert(new1.cache().dom() =~= new2.cache().dom());
    assert forall|k: u64| #[trigger] new1.cache().contains_key(k) implies new1.cache()[k] == new2.cache()[k] || (
    new1.cache()[k].kind() == new2.cache()[k].kind() && new1.cache()[k].view_node() == new2.cache()[k].view_node()) by {
        if !old.cache().contains_key(k) {
            let i = choose|i: int| 0 <= i < out1.len() && out1[i].value.offset == k;
            assert(leaf_written(new1, out1[i], leaf_at(new1, out1[i].value)));
            assert(leaf_written(new2, out2[i], leaf_at(new2, out2[i].value)));
        }
    }
}

/// The merge of insert messages into a leaf agrees with the merge of their
/// values: from the same manager and leaf, where the values are those that
/// the messages insert, what `merge_rec_epsilon` and `merge_rec` ensure
/// makes them return the same nodes and leave the same free-space offset,
/// the same bytes on the device and the same cached objects.
pub proof fn lemma_epsilon_agrees(
    old: NVObjectManager,
    new1: NVObjectManager,
    new2: NVObjectManager,
    op: ObjectPointer,
    out1: Seq<NodeEntry<u64, ObjectPointer>>,
    out2: Seq<NodeEntry<u64, ObjectPointer>>,
    msgs: Seq<NodeEntry<u64, Message<u64>>>,
    vals: Seq<NodeEntry<u64, u64>>,
    h1: nat,
    h2: nat,
)
    requires
        op.object_type == ObjectType::LeafNode,
        node_at(old, op) matches Some(NodeView::Leaf(_)),
        vals == message_entries(msgs),
        out1.len() == out_count(old, op, message_entries(msgs), h1),
        extends(new1, old),
        children_content(new1, out1, h1) == merge_entries(content(old, op, h1), message_entries(msgs)),
        merge_out_ok(old, new1, op, out1, merge_entries(content(old, op, h1), message_entries(msgs))),
        out2.len() == out_count(old, op, vals, h2),
        extends(new2, old),
        children_content(new2, out2, h2) == merge_entries(content(old, op, h2), vals),
        merge_out_ok(old, new2, op, out2, merge_entries(content(old, op, h2), vals)),
    ensures
        out1 == out2,
        new1.fso == new2.fso,
        new1.image() == new2.image(),
        new1.cache().dom() == new2.cache().dom(),
        forall|k: u64|
            #[trigger] new1.cache().contains_key(k) ==> new1.cache()[k] == new2.cache()[k] || (
            new1.cache()[k].kind() == new2.cache()[k].kind() && new1.cache()[k].view_node()
                == new2.cache()[k].view_node()),
{
    let merged = merge_entries(content(old, op, h1), vals);
    assert(content(old, op, h1) == content(old, op, h2));
    lemma_merge_len(content(old, op, h1), vals);
    lemma_leaf_merge_determined(old, new1, new2, op, out1, out2, merged, h1, h2);
}

/// Entry `i` of two merges into a leaf of the same entries is the same.
proof fn lemma_same_out(
    new1: NVObjectManager,
    new2: NVObjectManager,
    out1: Seq<NodeEntry<u64, ObjectPointer>>,
    out2: Seq<NodeEntry<u64, ObjectPointer>>,
    merged: Seq<NodeEntry<u64, u64>>,
    start: u64,
    i: int,
)
    requires
        out1.len() == out2.len(),
        0 <= i < out1.len(),
        laid_out(out1, start, new1.fso),
        laid_out(out2, start, new2.fso),
        forall|j: int|
            0 <= j < out1.len() ==> leaf_written(new1, #[trigger] out1[j], leaf_at(new1, out1[j].value)),
        forall|j: int|
            0 <= j < out2.len() ==> leaf_written(new2, #[trigger] out2[j], leaf_at(new2, out2[j].value)),
        forall|j: int| 0 <= j < out1.len() ==> 1 <= node_len(new1, #[trigger] out1[j].value),
        forall|j: int|
            0 <= j < out1.len() ==> #[trigger] leaf_at(new1, out1[j].value) == merged.subrange(
                chunk_start(merged.len() as int, j),
                chunk_start(merged.len() as int, j) + chunk_len(merged.len() as int, j),
            ),
        forall|j: int|
            0 <= j < out2.len() ==> #[trigger] leaf_at(new2, out2[j].value) == merged.subrange(
                chunk_start(merged.len() as int, j),
                chunk_start(merged.len() as int, j) + chunk_len(merged.len() as int, j),
            ),
    ensures
        out1[i] == out2[i],
    decreases i,
{
    assert(leaf_written(new1, out1[i], leaf_at(new1, out1[i].value)));
    assert(leaf_written(new2, out2[i], leaf_at(new2, out2[i].value)));
    assert(leaf_at(new1, out1[i].value) == leaf_at(new2, out2[i].value));
    if i > 0 {
        lemma_same_out(new1, new2, out1, out2, merged, start, i - 1);
        assert(out1[(i - 1) + 1].value.offset == out1[i - 1].value.offset + out1[i - 1].value.len);
        assert(out2[(i - 1) + 1].value.offset == out2[i - 1].value.offset + out2[i - 1].value.len);
    }
    assert(out1[i].value == out2[i].value);
}

/// The entries of the leaf at `op`.
pub open spec fn leaf_at(mgr: NVObjectManager, op: ObjectPointer) -> Seq<NodeEntry<u64, u64>> {
    match node_at(mgr, op) {
        Some(NodeView::Leaf(es)) => es,
        _ => Seq::empty(),
    }
}

/// The leaves that `store_leaves` writes from the chunks of `merged` meet
/// what a merge into a leaf returns.
proof fn lemma_leaf_out(
    old: NVObjectManager,
    new: NVObjectManager,
    op: ObjectPointer,
    out: Seq<NodeEntry<u64, ObjectPointer>>,
    cs: Seq<Vec<NodeEntry<u64, u64>>>,
    merged: Seq<NodeEntry<u64, u64>>,
    h: nat,
)
    requires
        op.object_type == ObjectType::LeafNode,
        out.len() == cs.len(),
        flat(cs) == merged,
        cs.len() == chunk_count(merged.len() as int),
        forall|i: int| 0 <= i < cs.len() ==> (#[trigger] cs[i])@.len() == chunk_len(merged.len() as int, i),
        forall|i: int| 0 <= i < cs.len() ==> 1 <= (#[trigger] cs[i])@.len() <= B,
        forall|i: int| 0 <= i < out.len() ==> leaf_written(new, #[trigger] out[i], cs[i]@),
        laid_out(out, old.fso, new.fso),
        written_from(new, old),
        cached_with(new, old, out),
        children_wf(new, out, h),
        children_content(new, out, h) == merged,
    ensures
        merge_out_ok(old, new, op, out, merged),
{
    lemma_children_keys(new, out, h);
    lemma_laid_out_bounds(out, old.fso, new.fso);
    assert forall|i: int| 0 <= i < out.len() implies leaf_written(new, #[trigger] out[i], leaf_at(new, out[i].value))
        && node_len(new, out[i].value) == chunk_len(merged.len() as int, i) && 1 <= node_len(new, out[i].value) <= B by {
        assert(leaf_written(new, out[i], cs[i]@));
    }
}

/// What a well-formed inner node's shape tells.
proof fn lemma_tree_wf_internal(
    mgr: NVObjectManager,
    op: ObjectPointer,
    es: Seq<NodeEntry<u64, ObjectPointer>>,
    h: nat,
)
    requires
        tree_wf(mgr, op, h),
        node_at(mgr, op) == Some(NodeView::Internal(es)),
    ensures
        h > 0,
        es.len() > 0,
        children_wf(mgr, es, (h - 1) as nat),
        keys_sorted(children_content(mgr, es, (h - 1) as nat)),
        content(mgr, op, h) == children_content(mgr, es, (h - 1) as nat),
{
}

/// A chunk count is smaller than the count of more than one entry.
pub proof fn lemma_chunk_count_lt(n: int)
    requires
        n > 1,
    ensures
        0 <= chunk_count(n) < n,
{
}

/// How many inner nodes are written to bring `n` nodes under one root,
/// `B` at a time.
pub open spec fn loop_stores(n: int) -> int
    decreases n,
{
    if n <= 1 {
        0
    } else {
        proof {
            lemma_chunk_count_lt(n);
        }
        chunk_count(n) + loop_stores(chunk_count(n))
    }
}

proof fn lemma_loop_stores_nonneg(n: int)
    ensures
        loop_stores(n) >= 0,
    decreases n,
{
    if n > 1 {
        lemma_chunk_count_lt(n);
        lemma_loop_stores_nonneg(chunk_count(n));
    }
}

/// Writes inner nodes over the nodes `list`, `B` at a time, level by level,
/// until one root is left, and returns it.
fn grow_root(
    list: Vec<NodeEntry<u64, ObjectPointer>>,
    nv_obj_mngr: &mut NVObjectManager,
    Ghost(h): Ghost<nat>,
) -> (root: ObjectPointer)
    requires
        1 <= list@.len() <= usize::MAX / 2,
        old(nv_obj_mngr).inv(),
        children_wf(*old(nv_obj_mngr), list@, h),
        keys_sorted(children_content(*old(nv_obj_mngr), list@, h)),
        old(nv_obj_mngr).fso + NODE_MAX_RAW * loop_stores(list@.len() as int) <= usize::MAX,
    ensures
        final(nv_obj_mngr).inv(),
        extends(*final(nv_obj_mngr), *old(nv_obj_mngr)),
        final(nv_obj_mngr).txg == old(nv_obj_mngr).txg,
        wf_tree(*final(nv_obj_mngr), root),
        tree_content(*final(nv_obj_mngr), root) == children_content(*old(nv_obj_mngr), list@, h),
        children_bounded(*old(nv_obj_mngr), list@, h) ==> wf_bounded(*final(nv_obj_mngr), root),
{
    let ghost mgr0 = *nv_obj_mngr;
    let ghost bnd = children_bounded(mgr0, list@, h);
    let ghost target = children_content(mgr0, list@, h);
    let ghost mut hh = h;
    let mut new_childs_ops = list;
    proof {
        lemma_extends_refl(mgr0);
    }
    while new_childs_ops.len() != 1
        invariant
            1 <= new_childs_ops@.len() <= usize::MAX / 2,
            nv_obj_mngr.inv(),
            extends(*nv_obj_mngr, mgr0),
            nv_obj_mngr.txg == mgr0.txg,
            children_wf(*nv_obj_mngr, new_childs_ops@, hh),
            children_content(*nv_obj_mngr, new_childs_ops@, hh) == target,
            keys_sorted(target),
            nv_obj_mngr.fso + NODE_MAX_RAW * loop_stores(new_childs_ops@.len() as int) <= usize::MAX,
            bnd ==> children_bounded(*nv_obj_mngr, new_childs_ops@, hh),
        decreases new_childs_ops@.len(),
    {
        let ghost n = new_childs_ops@.len() as int;
        proof {
            lemma_chunk_count_lt(n);
            lemma_loop_stores_nonneg(chunk_count(n));
        }
        let chunks = reduce(new_childs_ops);
        let ghost cs = chunks@;
        let ghost pre = *nv_obj_mngr;
        new_childs_ops = store_internals(chunks, nv_obj_mngr, Ghost(hh));
        proof {
            lemma_extends_trans(mgr0, pre, *nv_obj_mngr);
            if bnd {
                let post = *nv_obj_mngr;
                let out = new_childs_ops@;
                assert forall|i: int| 0 <= i < out.len() implies tree_bounded(post, #[trigger] out[i].value, hh + 1) by {
                    assert(internal_written(post, out[i], cs[i]@));
                    lemma_chunk_bounded(pre, post, cs, i, hh);
                }
                lemma_children_bounded_each(post, out, hh + 1);
            }
            hh = hh + 1;
        }
    }
    let ghost last_list = new_childs_ops@;
    let root = new_childs_ops.pop().unwrap();
    proof {
        let one = seq![root];
        assert(last_list =~= one);
        lemma_children_wf_each(*nv_obj_mngr, one, hh);
        assert(child_ok(*nv_obj_mngr, one[0], hh));
        assert(one.drop_last() =~= Seq::<NodeEntry<u64, ObjectPointer>>::empty());
        assert(children_content(*nv_obj_mngr, one.drop_last(), hh) =~= Seq::<NodeEntry<u64, u64>>::empty());
        assert(children_content(*nv_obj_mngr, one, hh) =~= content(*nv_obj_mngr, root.value, hh));
        lemma_tree_content(*nv_obj_mngr, root.value, hh);
        if bnd {
            lemma_children_bounded_each(*nv_obj_mngr, one, hh);
            assert(tree_bounded(*nv_obj_mngr, root.value, hh));
        }
    }
    root.value
}

/// The children of one chunk of bounded children stay bounded after the
/// chunks are written.
proof fn lemma_chunk_bounded(
    pre: NVObjectManager,
    post: NVObjectManager,
    cs: Seq<Vec<NodeEntry<u64, ObjectPointer>>>,
    k: int,
    h: nat,
)
    requires
        keeps_objects(post, pre),
        children_wf(pre, flat(cs), h),
        children_bounded(pre, flat(cs), h),
        0 <= k < cs.len(),
    ensures
        children_bounded(post, cs[k]@, h),
{
    lemma_flat_split(cs, k);
    let a = flat(cs.subrange(0, k));
    let b = cs[k]@;
    let f = flat(cs);
    lemma_children_bounded_each(pre, f, h);
    lemma_children_wf_each(pre, f, h);
    assert forall|j: int| 0 <= j < b.len() implies tree_bounded(post, #[trigger] b[j].value, h) by {
        assert(f[a.len() + j] == b[j]);
        assert(child_ok(pre, f[a.len() + j], h));
        lemma_bounded_frame(post, pre, b[j].value, h);
    }
    lemma_children_bounded_each(post, b, h);
}

/// Everything a merge of `ms` into the tree at `op` needs, at some height:
/// the merge returns and all the nodes it writes fit in the address space.
pub open spec fn merge_tree_pre(mgr: NVObjectManager, op: ObjectPointer, ms: Seq<NodeEntry<u64, u64>>) -> bool {
    exists|h: nat|
        merge_pre(mgr, op, ms, h) && mgr.fso + NODE_MAX_RAW * (store_count(mgr, op, ms, h)
            + loop_stores(out_count(mgr, op, ms, h))) <= usize::MAX
}

/// The memstore entries that key-value pairs stand for.
pub open spec fn pairs_entries(s: Seq<(u64, u64)>) -> Seq<NodeEntry<u64, u64>> {
    s.map_values(|p: (u64, u64)| pair_leaf(p))
}

/// Each key-value pair of a batch stands for the entry with that key and
/// that value, in the batch's order.
pub proof fn lemma_pairs_entries(s: Seq<(u64, u64)>)
    ensures
        pairs_entries(s).len() == s.len(),
        forall|i: int|
            0 <= i < s.len() ==> #[trigger] pairs_entries(s)[i] == (NodeEntry { key: s[i].0, value: s[i].1 }),
{
}

/// Merges the key-value pairs, sorted by strictly increasing key, into the
/// tree at `op` by copy on write and returns the new root: the new tree
/// holds the old tree's entries merged with the pairs (an old entry goes
/// before a new one with the same key), and the old tree is left as it
/// was.
pub fn merge_tree(
    in_memstore: Vec<(u64, u64)>,
    nv_obj_mngr: &mut NVObjectManager,
    op: &ObjectPointer,
) -> (root: ObjectPointer)
    requires
        wf_tree(*old(nv_obj_mngr), *op),
        merge_tree_pre(*old(nv_obj_mngr), *op, pairs_entries(in_memstore@)),
    ensures
        final(nv_obj_mngr).inv(),
        extends(*final(nv_obj_mngr), *old(nv_obj_mngr)),
        final(nv_obj_mngr).txg == old(nv_obj_mngr).txg,
        wf_tree(*final(nv_obj_mngr), root),
        tree_content(*final(nv_obj_mngr), root) == merge_entries(
            tree_content(*old(nv_obj_mngr), *op),
            pairs_entries(in_memstore@),
        ),
        wf_tree(*final(nv_obj_mngr), *op),
        tree_content(*final(nv_obj_mngr), *op) == tree_content(*old(nv_obj_mngr), *op),
{
    // the memstore as entries
    let mut memstore: Vec<NodeEntry<u64, u64>> = Vec::new();
    let mut i: usize = 0;
    while i < in_memstore.len()
        invariant
            i <= in_memstore@.len(),
            memstore@ == pairs_entries(in_memstore@.subrange(0, i as int)),
        decreases in_memstore@.len() - i,
    {
        let (k, v) = in_memstore[i];
        memstore.push(NodeEntry::new(k, v));
        i = i + 1;
        assert(memstore@ =~= pairs_entries(in_memstore@.subrange(0, i as int)));
    }
    assert(in_memstore@.subrange(0, i as int) =~= in_memstore@);
    merge_tree_entries(memstore, nv_obj_mngr, op)
}

/// The merge of `merge_tree`, on a memstore of entries.
fn merge_tree_entries(
    memstore: Vec<NodeEntry<u64, u64>>,
    nv_obj_mngr: &mut NVObjectManager,
    op: &ObjectPointer,
) -> (root: ObjectPointer)
    requires
        wf_tree(*old(nv_obj_mngr), *op),
        merge_tree_pre(*old(nv_obj_mngr), *op, memstore@),
    ensures
        final(nv_obj_mngr).inv(),
        extends(*final(nv_obj_mngr), *old(nv_obj_mngr)),
        final(nv_obj_mngr).txg == old(nv_obj_mngr).txg,
        wf_tree(*final(nv_obj_mngr), root),
        tree_content(*final(nv_obj_mngr), root) == merge_entries(
            tree_content(*old(nv_obj_mngr), *op),
            memstore@,
        ),
        wf_tree(*final(nv_obj_mngr), *op),
        tree_content(*final(nv_obj_mngr), *op) == tree_content(*old(nv_obj_mngr), *op),
{
    let ghost mgr0 = *nv_obj_mngr;
    let ghost ms = memstore@;
    let ghost h = choose|h: nat|
        merge_pre(mgr0, *op, ms, h) && mgr0.fso + NODE_MAX_RAW * (store_count(mgr0, *op, ms, h)
            + loop_stores(out_count(mgr0, *op, ms, h))) <= usize::MAX;
    proof {
        lemma_counts_nonneg(mgr0, *op, ms, h);
        lemma_loop_stores_nonneg(out_count(mgr0, *op, ms, h));
        lemma_tree_content(mgr0, *op, h);
        lemma_sorted_ms(ms);
        lemma_merge_sorted(content(mgr0, *op, h), ms);
    }
    let new_childs_ops = merge_rec(memstore.as_slice(), nv_obj_mngr, op, Ghost(h));
    let ghost mid = *nv_obj_mngr;
    let root = grow_root(new_childs_ops, nv_obj_mngr, Ghost(h));
    proof {
        lemma_extends_trans(mgr0, mid, *nv_obj_mngr);
        lemma_tree_frame(*nv_obj_mngr, mgr0, *op, h);
        lemma_tree_content(*nv_obj_mngr, *op, h);
    }
    root
}

/// The root of an empty tree: an empty leaf.
pub fn new() -> (leaf: LeafNode<u64, u64>)
    ensures
        leaf.entries@.len() == 0,
{
    LeafNode::<u64, u64>::new()
}

/// The value that a message inserts.
pub open spec fn message_value(m: Message<u64>) -> u64 {
    match m {
        Message::Insert(i) => i.value,
    }
}

/// The leaf entries that a memstore of messages stands for.
pub open spec fn message_entries(s: Seq<NodeEntry<u64, Message<u64>>>) -> Seq<NodeEntry<u64, u64>> {
    s.map_values(|e: NodeEntry<u64, Message<u64>>| NodeEntry { key: e.key, value: message_value(e.value) })
}

/// The memstore entries that key-message pairs stand for.
pub open spec fn message_pairs_entries(s: Seq<(u64, Message<u64>)>) -> Seq<NodeEntry<u64, u64>> {
    s.map_values(|p: (u64, Message<u64>)| NodeEntry { key: p.0, value: message_value(p.1) })
}

/// An insert message stands for the value it inserts, unchanged.
pub proof fn lemma_insert_value(v: u64)
    ensures
        message_value(Message::Insert(Insert { value: v })) == v,
{
}

/// The entries that a memstore of messages stands for are its entries in
/// order, each with its key and the value that its message inserts.
pub proof fn lemma_message_entries(s: Seq<NodeEntry<u64, Message<u64>>>)
    ensures
        message_entries(s).len() == s.len(),
        forall|i: int|
            0 <= i < s.len() ==> (#[trigger] message_entries(s)[i]).key == s[i].key && s[i].value
                == Message::Insert(Insert { value: message_entries(s)[i].value }),
{
    assert forall|i: int| 0 <= i < s.len() implies (#[trigger] message_entries(s)[i]).key == s[i].key
        && s[i].value == Message::Insert(Insert { value: message_entries(s)[i].value }) by {
        match s[i].value {
            Message::Insert(ins) => {
                lemma_insert_value(ins.value);
            },
        }
    }
}

/// The entries that key-message pairs stand for are the pairs in order,
/// each with its key and the value that its message inserts.
pub proof fn lemma_message_pairs_entries(s: Seq<(u64, Message<u64>)>)
    ensures
        message_pairs_entries(s).len() == s.len(),
        forall|i: int|
            0 <= i < s.len() ==> (#[trigger] message_pairs_entries(s)[i]).key == s[i].0 && s[i].1
                == Message::Insert(Insert { value: message_pairs_entries(s)[i].value }),
{
    assert forall|i: int| 0 <= i < s.len() implies (#[trigger] message_pairs_entries(s)[i]).key == s[i].0
        && s[i].1 == Message::Insert(Insert { value: message_pairs_entries(s)[i].value }) by {
        match s[i].1 {
            Message::Insert(ins) => {
                lemma_insert_value(ins.value);
            },
        }
    }
}

/// Merges a memstore of messages into the leaf at `node_op`: each message
/// inserts its value. The merge into inner nodes is not implemented: they
/// are left out by the precondition.
fn merge_rec_epsilon(
    memstore: &[NodeEntry<u64, Message<u64>>],
    nv_obj_mngr: &mut NVObjectManager,
    node_op: &ObjectPointer,
    Ghost(h): Ghost<nat>,
) -> (out: Vec<NodeEntry<u64, ObjectPointer>>)
    requires
        node_op.object_type == ObjectType::LeafNode,
        merge_pre(*old(nv_obj_mngr), *node_op, message_entries(memstore@), h),
    ensures
        out@.len() == out_count(*old(nv_obj_mngr), *node_op, message_entries(memstore@), h),
        final(nv_obj_mngr).inv(),
        extends(*final(nv_obj_mngr), *old(nv_obj_mngr)),
        final(nv_obj_mngr).txg == old(nv_obj_mngr).txg,
        final(nv_obj_mngr).fso <= old(nv_obj_mngr).fso + NODE_MAX_RAW * store_count(
            *old(nv_obj_mngr),
            *node_op,
            message_entries(memstore@),
            h,
        ),
        children_wf(*final(nv_obj_mngr), out@, h),
        children_content(*final(nv_obj_mngr), out@, h) == merge_entries(
            content(*old(nv_obj_mngr), *node_op, h),
            message_entries(memstore@),
        ),
        merge_out_ok(*old(nv_obj_mngr), *final(nv_obj_mngr), *node_op, out@, merge_entries(
            content(*old(nv_obj_mngr), *node_op, h),
            message_entries(memstore@),
        )),
{
    let ghost mgr0 = *nv_obj_mngr;
    let ghost ms = message_entries(memstore@);
    // get the leaf
    let leaf = nv_obj_mngr.get::<LeafNode<u64, u64>>(node_op);
    let ghost es = leaf.entries@;

    // the sorted merging of the leaf's entries and the inserted values
    let it_leaf = copy_entries(&leaf.entries);
    let mut it_memstore: Vec<NodeEntry<u64, u64>> = Vec::new();
    let mut i: usize = 0;
    while i < memstore.len()
        invariant
            i <= memstore@.len(),
            it_memstore@ == message_entries(memstore@.subrange(0, i as int)),
        decreases memstore@.len() - i,
    {
        let msg = &memstore[i];
        let value = match &msg.value {
            Message::Insert(ins) => ins.value,
        };
        it_memstore.push(NodeEntry::new(msg.key, value));
        i = i + 1;
        assert(it_memstore@ =~= message_entries(memstore@.subrange(0, i as int)));
    }
    assert(memstore@.subrange(0, i as int) =~= memstore@);
    let entries = merge_by_key(it_leaf, it_memstore);
    proof {
        lemma_merge_len(es, ms);
        lemma_sorted_ms(ms);
        lemma_merge_sorted(es, ms);
        lemma_chunk_count_pos(entries@.len() as int);
    }
    let chunks = reduce(entries);
    let ghost cs = chunks@;
    let out = store_leaves(chunks, nv_obj_mngr);
    proof {
        lemma_children_mono(*nv_obj_mngr, out@, 0, h);
        lemma_leaf_out(mgr0, *nv_obj_mngr, *node_op, out@, cs, entries@, h);
    }
    out
}

/// Merges the key-message pairs, sorted by strictly increasing key, into
/// the tree at `op`, which must be a leaf (the merge does not handle inner
/// nodes yet), and returns the new root: the new tree holds the leaf's
/// entries merged with the inserted values, and the old leaf is left as it
/// was.
pub fn merge_tree_epsilon(
    in_memstore: Vec<(u64, Message<u64>)>,
    nv_obj_mngr: &mut NVObjectManager,
    op: &ObjectPointer,
) -> (root: ObjectPointer)
    requires
        op.object_type == ObjectType::LeafNode,
        wf_tree(*old(nv_obj_mngr), *op),
        merge_tree_pre(*old(nv_obj_mngr), *op, message_pairs_entries(in_memstore@)),
    ensures
        final(nv_obj_mngr).inv(),
        extends(*final(nv_obj_mngr), *old(nv_obj_mngr)),
        final(nv_obj_mngr).txg == old(nv_obj_mngr).txg,
        wf_tree(*final(nv_obj_mngr), root),
        wf_bounded(*final(nv_obj_mngr), root),
        tree_content(*final(nv_obj_mngr), root) == merge_entries(
            tree_content(*old(nv_obj_mngr), *op),
            message_pairs_entries(in_memstore@),
        ),
        wf_tree(*final(nv_obj_mngr), *op),
        tree_content(*final(nv_obj_mngr), *op) == tree_content(*old(nv_obj_mngr), *op),
{
    let ghost mgr0 = *nv_obj_mngr;
    // the memstore as entries
    let mut memstore: Vec<NodeEntry<u64, Message<u64>>> = Vec::new();
    let mut i: usize = 0;
    while i < in_memstore.len()
        invariant
            i <= in_memstore@.len(),
            memstore@.len() == i,
            forall|j: int|
                0 <= j < i ==> (#[trigger] memstore@[j]).key == in_memstore@[j].0
                    && memstore@[j].value == in_memstore@[j].1,
        decreases in_memstore@.len() - i,
    {
        let msg = in_memstore[i];
        memstore.push(NodeEntry::new(msg.0, msg.1));
        i = i + 1;
    }
    assert(message_entries(memstore@) =~= message_pairs_entries(in_memstore@));
    let ghost ms = message_entries(memstore@);
    let ghost h = choose|h: nat|
        merge_pre(mgr0, *op, ms, h) && mgr0.fso + NODE_MAX_RAW * (store_count(mgr0, *op, ms, h)
            + loop_stores(out_count(mgr0, *op, ms, h))) <= usize::MAX;
    proof {
        lemma_counts_nonneg(mgr0, *op, ms, h);
        lemma_loop_stores_nonneg(out_count(mgr0, *op, ms, h));
        lemma_tree_content(mgr0, *op, h);
        lemma_sorted_ms(ms);
        lemma_merge_sorted(content(mgr0, *op, h), ms);
    }
    let new_childs_ops = merge_rec_epsilon(memstore.as_slice(), nv_obj_mngr, op, Ghost(h));
    let ghost mid = *nv_obj_mngr;
    proof {
        let out = new_childs_ops@;
        assert forall|i: int| 0 <= i < out.len() implies tree_bounded(mid, #[trigger] out[i].value, h) by {
            assert(leaf_written(mid, out[i], leaf_at(mid, out[i].value)));
        }
        lemma_children_bounded_each(mid, out, h);
    }
    let root = grow_root(new_childs_ops, nv_obj_mngr, Ghost(h));
    proof {
        lemma_extends_trans(mgr0, mid, *nv_obj_mngr);
        lemma_tree_frame(*nv_obj_mngr, mgr0, *op, h);
        lemma_tree_content(*nv_obj_mngr, *op, h);
    }
    root
}

/// One node of the tree as `debug` lists it: its depth, its offset on the
/// device, and its entries (for an inner node, each child's first key and
/// pointer).
#[derive(Debug)]
pub enum DebugLine {
    Leaf { indent: usize, offset: u64, entries: Vec<NodeEntry<u64, u64>> },
    Internal { indent: usize, offset: u64, entries: Vec<NodeEntry<u64, ObjectPointer>> },
}

/// What a listed node shows.
pub enum DebugView {
    Leaf(int, u64, Seq<NodeEntry<u64, u64>>),
    Internal(int, u64, Seq<NodeEntry<u64, ObjectPointer>>),
}

impl DebugLine {
    pub open spec fn view(&self) -> DebugView {
        match self {
            DebugLine::Leaf { indent, offset, entries } => DebugView::Leaf(
                *indent as int,
                *offset,
                entries@,
            ),
            DebugLine::Internal { indent, offset, entries } => DebugView::Internal(
                *indent as int,
                *offset,
                entries@,
            ),
        }
    }
}

/// The nodes of the tree at `op` in depth-first order, each node before its
/// children, starting at depth `indent`.
pub open spec fn debug_view(mgr: NVObjectManager, op: ObjectPointer, indent: int, h: nat) -> Seq<DebugView>
    decreases h, 0nat,
{
    match node_at(mgr, op) {
        Some(NodeView::Leaf(es)) => seq![DebugView::Leaf(indent, op.offset, es)],
        Some(NodeView::Internal(es)) => if h > 0 {
            seq![DebugView::Internal(indent, op.offset, es)] + debug_children(
                mgr,
                es,
                indent + 1,
                (h - 1) as nat,
            )
        } else {
            Seq::empty()
        },
        _ => Seq::empty(),
    }
}

/// The listing of a readable tree starts with the line of its root: at the
/// given depth, at the offset that the root's pointer gives, with the
/// root's entries; a leaf's listing is that one line, and an inner node's
/// line is followed by its children's listings, child after child, one
/// level deeper.
pub proof fn lemma_debug_first_line(mgr: NVObjectManager, op: ObjectPointer, indent: int, h: nat)
    requires
        tree_readable(mgr, op, h),
    ensures
        debug_view(mgr, op, indent, h).len() >= 1,
        match node_at(mgr, op) {
            Some(NodeView::Leaf(es)) => debug_view(mgr, op, indent, h) == seq![
                DebugView::Leaf(indent, op.offset, es),
            ],
            Some(NodeView::Internal(es)) => {
                &&& debug_view(mgr, op, indent, h)[0] == DebugView::Internal(indent, op.offset, es)
                &&& debug_view(mgr, op, indent, h).drop_first() == debug_children(
                    mgr,
                    es,
                    indent + 1,
                    (h - 1) as nat,
                )
            },
            _ => false,
        },
{
    match node_at(mgr, op) {
        Some(NodeView::Internal(es)) => {
            let first = seq![DebugView::Internal(indent, op.offset, es)];
            let rest = debug_children(mgr, es, indent + 1, (h - 1) as nat);
            assert((first + rest).drop_first() =~= rest);
        },
        _ => {},
    }
}

/// The listing of children is the listing of each child in turn, at the
/// given depth: that of all but the last, then the last one's.
pub proof fn lemma_debug_children_split(
    mgr: NVObjectManager,
    es: Seq<NodeEntry<u64, ObjectPointer>>,
    indent: int,
    h: nat,
)
    ensures
        es.len() == 0 ==> debug_children(mgr, es, indent, h).len() == 0,
        es.len() > 0 ==> debug_children(mgr, es, indent, h) == debug_children(
            mgr,
            es.subrange(0, es.len() - 1),
            indent,
            h,
        ) + debug_view(mgr, es[es.len() - 1].value, indent, h),
{
    if es.len() > 0 {
        assert(es.drop_last() =~= es.subrange(0, es.len() - 1));
    }
}

/// The listings of the children `es`, one after the other.
pub open spec fn debug_children(
    mgr: NVObjectManager,
    es: Seq<NodeEntry<u64, ObjectPointer>>,
    indent: int,
    h: nat,
) -> Seq<DebugView>
    decreases h, es.len(),
{
    if es.len() == 0 {
        Seq::empty()
    } else {
        debug_children(mgr, es.drop_last(), indent, h) + debug_view(mgr, es.last().value, indent, h)
    }
}

/// Every node under `op`, down to height `h`, can be read: a leaf, or an
/// inner node whose children can all be read one level lower.
pub open spec fn tree_readable(mgr: NVObjectManager, op: ObjectPointer, h: nat) -> bool
    decreases h, 0nat,
{
    match node_at(mgr, op) {
        Some(NodeView::Leaf(_)) => true,
        Some(NodeView::Internal(es)) => h > 0 && children_readable(mgr, es, (h - 1) as nat),
        _ => false,
    }
}

/// Every child can be read, down to height `h`.
pub open spec fn children_readable(mgr: NVObjectManager, es: Seq<NodeEntry<u64, ObjectPointer>>, h: nat) -> bool
    decreases h, es.len(),
{
    if es.len() == 0 {
        true
    } else {
        children_readable(mgr, es.drop_last(), h) && tree_readable(mgr, es.last().value, h)
    }
}

/// Children can be read exactly when each one can.
proof fn lemma_children_readable_each(mgr: NVObjectManager, es: Seq<NodeEntry<u64, ObjectPointer>>, h: nat)
    ensures
        children_readable(mgr, es, h) <==> forall|i: int|
            0 <= i < es.len() ==> tree_readable(mgr, #[trigger] es[i].value, h),
    decreases es.len(),
{
    if es.len() > 0 {
        lemma_children_readable_each(mgr, es.drop_last(), h);
        if children_readable(mgr, es, h) {
            assert forall|i: int| 0 <= i < es.len() implies tree_readable(mgr, #[trigger] es[i].value, h) by {
                if i < es.len() - 1 {
                    assert(es.drop_last()[i] == es[i]);
                }
            }
        }
        if forall|i: int| 0 <= i < es.len() ==> tree_readable(mgr, #[trigger] es[i].value, h) {
            assert forall|i: int| 0 <= i < es.drop_last().len() implies tree_readable(
                mgr,
                #[trigger] es.drop_last()[i].value,
                h,
            ) by {
                assert(es.drop_last()[i] == es[i]);
            }
            assert(tree_readable(mgr, es[es.len() - 1].value, h));
        }
    }
}

/// A well-formed tree can be read.
pub proof fn lemma_wf_readable(mgr: NVObjectManager, op: ObjectPointer, h: nat)
    requires
        tree_wf(mgr, op, h),
    ensures
        tree_readable(mgr, op, h),
    decreases h, 0nat,
{
    match node_at(mgr, op) {
        Some(NodeView::Internal(es)) => {
            lemma_children_wf_readable(mgr, es, (h - 1) as nat);
        },
        _ => {},
    }
}

/// Well-formed children can be read.
proof fn lemma_children_wf_readable(mgr: NVObjectManager, es: Seq<NodeEntry<u64, ObjectPointer>>, h: nat)
    requires
        children_wf(mgr, es, h),
    ensures
        children_readable(mgr, es, h),
    decreases h, es.len(),
{
    if es.len() > 0 {
        lemma_children_wf_readable(mgr, es.drop_last(), h);
        lemma_wf_readable(mgr, es.last().value, h);
    }
}

/// The views of listed lines.
pub open spec fn debug_lines_view(lines: Seq<DebugLine>) -> Seq<DebugView> {
    lines.map_values(|l: DebugLine| l.view())
}

/// A copy of the children entries.
fn copy_children(v: &Vec<NodeEntry<u64, ObjectPointer>>) -> (r: Vec<NodeEntry<u64, ObjectPointer>>)
    ensures
        r@ == v@,
{
    let mut r: Vec<NodeEntry<u64, ObjectPointer>> = Vec::new();
    let mut i: usize = 0;
    while i < v.len()
        invariant
            i <= v@.len(),
            r@ == v@.subrange(0, i as int),
        decreases v@.len() - i,
    {
        r.push(v[i]);
        i = i + 1;
        assert(r@ =~= v@.subrange(0, i as int));
    }
    assert(v@.subrange(0, i as int) =~= v@);
    r
}

/// Lists the nodes of the well-formed tree at `node_op`, each before its
/// children, appending to `lines`.
pub fn debug(indent: usize, nv_obj_mngr: &mut NVObjectManager, node_op: &ObjectPointer, lines: &mut Vec<DebugLine>)
    requires
        exists|h: nat| tree_readable(*old(nv_obj_mngr), *node_op, h) && indent + h <= usize::MAX,
    ensures
        *final(nv_obj_mngr) == *old(nv_obj_mngr),
        exists|h: nat|
            tree_readable(*old(nv_obj_mngr), *node_op, h) && debug_lines_view(final(lines)@)
                == debug_lines_view(old(lines)@) + #[trigger] debug_view(
                *old(nv_obj_mngr),
                *node_op,
                indent as int,
                h,
            ),
{
    let ghost h = choose|h: nat| tree_readable(*nv_obj_mngr, *node_op, h) && indent + h <= usize::MAX;
    debug_rec(indent, nv_obj_mngr, node_op, lines, Ghost(h));
}

fn debug_rec(
    indent: usize,
    nv_obj_mngr: &mut NVObjectManager,
    node_op: &ObjectPointer,
    lines: &mut Vec<DebugLine>,
    Ghost(h): Ghost<nat>,
)
    requires
        tree_readable(*old(nv_obj_mngr), *node_op, h),
        indent + h <= usize::MAX,
    ensures
        *final(nv_obj_mngr) == *old(nv_obj_mngr),
        debug_lines_view(final(lines)@) == debug_lines_view(old(lines)@) + debug_view(
            *old(nv_obj_mngr),
            *node_op,
            indent as int,
            h,
        ),
    decreases h, 0nat,
{
    let ghost mgr = *nv_obj_mngr;
    match node_op.object_type {
        ObjectType::LeafNode => {
            // get the leaf
            let node = nv_obj_mngr.get::<LeafNode<u64, u64>>(node_op);
            let entries = copy_entries(&node.entries);
            let ghost pre = lines@;
            lines.push(DebugLine::Leaf { indent, offset: node_op.offset, entries });
            assert(debug_lines_view(lines@) =~= debug_lines_view(pre) + debug_view(
                mgr,
                *node_op,
                indent as int,
                h,
            ));
        },
        ObjectType::InternalNode => {
            // get the internal node
            let node = nv_obj_mngr.get::<InternalNode<u64>>(node_op);
            let entries = copy_children(&node.entries);
            let ghost es = node.entries@;
            let ghost pre = lines@;
            lines.push(DebugLine::Internal { indent, offset: node_op.offset, entries });
            assert(debug_lines_view(lines@) =~= debug_lines_view(pre) + seq![
                DebugView::Internal(indent as int, node_op.offset, es),
            ]);
            assert(node_at(mgr, *node_op) == Some(NodeView::Internal(es)));
            proof {
                lemma_children_readable_each(mgr, es, (h - 1) as nat);
            }

            // recursively list the children
            let ghost start = lines@;
            let mut i: usize = 0;
            while i < node.entries.len()
                invariant
                    i <= es.len(),
                    node.entries@ == es,
                    *nv_obj_mngr == mgr,
                    h > 0,
                    indent + h <= usize::MAX,
                    forall|j: int| 0 <= j < es.len() ==> tree_readable(mgr, #[trigger] es[j].value, (h - 1) as nat),
                    debug_lines_view(lines@) == debug_lines_view(start) + debug_children(
                        mgr,
                        es.subrange(0, i as int),
                        indent + 1,
                        (h - 1) as nat,
                    ),
                decreases es.len() - i,
            {
                assert(tree_readable(mgr, es[i as int].value, (h - 1) as nat));
                debug_rec(indent + 1, nv_obj_mngr, &node.entries[i].value, lines, Ghost((h - 1) as nat));
                proof {
                    assert(es.subrange(0, i + 1).drop_last() =~= es.subrange(0, i as int));
                    assert(es.subrange(0, i + 1).last() == es[i as int]);
                }
                i = i + 1;
                assert(debug_lines_view(lines@) =~= debug_lines_view(start) + debug_children(
                    mgr,
                    es.subrange(0, i as int),
                    indent + 1,
                    (h - 1) as nat,
                ));
            }
            assert(es.subrange(0, i as int) =~= es);
            assert(debug_lines_view(lines@) =~= debug_lines_view(pre) + debug_view(
                mgr,
                *node_op,
                indent as int,
                h,
            ));
        },
        _ => {
            proof {
                assert(false);
            }
        },
    }
}

} // verus!
