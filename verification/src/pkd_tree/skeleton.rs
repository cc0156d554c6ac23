//! The skeleton of a tree: its top `LAMBDA` levels in heap order, used to
//! route points to buckets and to record bucket sizes.

use vstd::prelude::*;
use crate::bbox::BBox;
use crate::sieve::BucketFn;
use super::{Node, Skeleton, SkeletonEntry, LAMBDA, NUM_BUCKETS, SKELETON_SLOTS};
use super::build_tree::{pow2, enough_points, lemma_pow2_pos, median_shape};

verus! {

broadcast use vstd::array::group_array_axioms;

/// Slot `j` lies in the subtree rooted at slot `i`.
pub open spec fn desc(j: int, i: int) -> bool
    decreases j,
{
    if j <= 0 || i <= 0 {
        false
    } else if j == i {
        true
    } else if j < i {
        false
    } else {
        desc(j / 2, i)
    }
}

/// `s1` and `s2` agree on every slot of the subtree rooted at `i`.
pub open spec fn agree(s1: Seq<SkeletonEntry>, s2: Seq<SkeletonEntry>, i: int) -> bool {
    &&& s1.len() == s2.len()
    &&& forall|j: int| 0 <= j < s1.len() && #[trigger] desc(j, i) ==> s1[j] == s2[j]
}

/// `s1` and `s2` agree on every slot outside the subtree rooted at `i`.
pub open spec fn agree_outside(s1: Seq<SkeletonEntry>, s2: Seq<SkeletonEntry>, i: int) -> bool {
    &&& s1.len() == s2.len()
    &&& forall|j: int| 0 <= j < s1.len() && !#[trigger] desc(j, i) ==> s1[j] == s2[j]
}

/// First bucket of the subtree at slot `i`.
pub open spec fn skel_lo(s: Seq<SkeletonEntry>, i: int) -> int
    decreases s.len() - i,
{
    if i < 1 || i >= s.len() {
        0
    } else {
        match s[i] {
            SkeletonEntry::Bucket(b) => b as int,
            SkeletonEntry::Splitter { .. } => if 2 * i + 1 < s.len() {
                skel_lo(s, 2 * i)
            } else {
                0
            },
            SkeletonEntry::Blank => 0,
        }
    }
}

/// One past the last bucket of the subtree at slot `i`.
pub open spec fn skel_hi(s: Seq<SkeletonEntry>, i: int) -> int
    decreases s.len() - i,
{
    if i < 1 || i >= s.len() {
        0
    } else {
        match s[i] {
            SkeletonEntry::Bucket(b) => b + 1,
            SkeletonEntry::Splitter { .. } => if 2 * i + 1 < s.len() {
                skel_hi(s, 2 * i + 1)
            } else {
                0
            },
            SkeletonEntry::Blank => 0,
        }
    }
}

/// The subtree at slot `i` is a proper tree: no blank slot is reached, every
/// splitter names an existing axis and has both children, and buckets are
/// numbered consecutively from left to right.
pub open spec fn skel_wf<const K: usize>(s: Seq<SkeletonEntry>, i: int) -> bool
    decreases s.len() - i,
{
    if i < 1 || i >= s.len() {
        false
    } else {
        match s[i] {
            SkeletonEntry::Bucket(_) => true,
            SkeletonEntry::Splitter { splitter, .. } => {
                &&& splitter.1 < K
                &&& 2 * i + 1 < s.len()
                &&& skel_wf::<K>(s, 2 * i)
                &&& skel_wf::<K>(s, 2 * i + 1)
                &&& skel_hi(s, 2 * i) == skel_lo(s, 2 * i + 1)
            },
            SkeletonEntry::Blank => false,
        }
    }
}

/// The bucket that `p` reaches from slot `i`: at a splitter, points at or
/// above the splitting value go right.
pub open spec fn skel_lookup<const K: usize>(s: Seq<SkeletonEntry>, i: int, p: [i32; K]) -> int
    decreases s.len() - i,
{
    if i < 1 || i >= s.len() {
        0
    } else {
        match s[i] {
            SkeletonEntry::Bucket(b) => b as int,
            SkeletonEntry::Splitter { splitter, .. } => if 2 * i + 1 >= s.len() {
                0
            } else if p[splitter.1 as int] >= splitter.0 {
                skel_lookup(s, 2 * i + 1, p)
            } else {
                skel_lookup(s, 2 * i, p)
            },
            SkeletonEntry::Blank => 0,
        }
    }
}

/// The two skeletons have the same splitters and buckets in the subtree at `i`.
pub open spec fn shape_eq(s1: Seq<SkeletonEntry>, s2: Seq<SkeletonEntry>, i: int) -> bool
    decreases s1.len() - i,
{
    if i < 1 || i >= s1.len() || s1.len() != s2.len() {
        false
    } else {
        match s1[i] {
            SkeletonEntry::Bucket(a) => s2[i] == SkeletonEntry::Bucket(a),
            SkeletonEntry::Splitter { splitter, .. } => {
                &&& s2[i] matches SkeletonEntry::Splitter { splitter: sp2, .. }
                &&& sp2 == splitter
                &&& 2 * i + 1 < s1.len()
                &&& shape_eq(s1, s2, 2 * i)
                &&& shape_eq(s1, s2, 2 * i + 1)
            },
            SkeletonEntry::Blank => false,
        }
    }
}

/// Sum of `bs[a..b]`.
pub open spec fn range_sum(bs: Seq<usize>, a: int, b: int) -> int
    decreases b - a,
{
    if b <= a {
        0
    } else {
        range_sum(bs, a, b - 1) + bs[b - 1]
    }
}

/// Every splitter of the subtree at `i` records the total size of its buckets
/// and the total size of its left child's buckets.
pub open spec fn sizes_ok(s: Seq<SkeletonEntry>, i: int, bs: Seq<usize>) -> bool
    decreases s.len() - i,
{
    if i < 1 || i >= s.len() {
        false
    } else {
        match s[i] {
            SkeletonEntry::Bucket(_) => true,
            SkeletonEntry::Splitter { total, split, .. } => {
                &&& 2 * i + 1 < s.len()
                &&& total == range_sum(bs, skel_lo(s, i), skel_hi(s, i))
                &&& split == range_sum(bs, skel_lo(s, 2 * i), skel_hi(s, 2 * i))
                &&& sizes_ok(s, 2 * i, bs)
                &&& sizes_ok(s, 2 * i + 1, bs)
            },
            SkeletonEntry::Blank => false,
        }
    }
}

/// The skeleton slots from `i` down mirror the top levels of `node`, which
/// sits at depth `depth`: interior nodes above depth `LAMBDA` are splitters
/// with the node's splitter, everything else is a bucket.
pub open spec fn mirrors<const K: usize>(node: Node<K>, s: Seq<SkeletonEntry>, i: int, depth: int) -> bool
    decreases node,
{
    &&& 1 <= i < s.len()
    &&& match node {
        Node::Interior { splitter, left, right, .. } => if depth < LAMBDA {
            &&& s[i] matches SkeletonEntry::Splitter { splitter: sp, .. }
            &&& sp == splitter
            &&& mirrors(*left, s, 2 * i, depth + 1)
            &&& mirrors(*right, s, 2 * i + 1, depth + 1)
        } else {
            s[i] is Bucket
        },
        Node::Leaf { .. } => s[i] is Bucket,
    }
}

/// Every splitter that mirrors an interior node of `node` records the node's
/// size as its total and the size of the node's left child as its split.
pub open spec fn records_sizes<const K: usize>(node: Node<K>, s: Seq<SkeletonEntry>, i: int, depth: int) -> bool
    decreases node,
{
    match node {
        Node::Interior { size, left, right, .. } => depth < LAMBDA ==> {
            &&& 1 <= i < s.len()
            &&& s[i] matches SkeletonEntry::Splitter { total, split, .. }
            &&& total == size
            &&& split == left.spec_size()
            &&& records_sizes(*left, s, 2 * i, depth + 1)
            &&& records_sizes(*right, s, 2 * i + 1, depth + 1)
        },
        Node::Leaf { .. } => true,
    }
}

/// Slot `j` is one that the walk of the skeleton of `node`, rooted at slot
/// `i` at depth `depth`, writes: the slot of `node` itself, and below an
/// interior node above depth `LAMBDA` the slots of its children.
pub open spec fn node_slot<const K: usize>(node: Node<K>, i: int, depth: int, j: int) -> bool
    decreases node,
{
    ||| j == i
    ||| match node {
        Node::Interior { left, right, .. } => depth < LAMBDA && (node_slot(*left, 2 * i, depth + 1, j)
            || node_slot(*right, 2 * i + 1, depth + 1, j)),
        Node::Leaf { .. } => false,
    }
}

/// Slot `j` is reached from slot `i` by following splitters of `s`.
pub open spec fn skel_slot(s: Seq<SkeletonEntry>, i: int, j: int) -> bool
    decreases s.len() - i,
{
    ||| j == i
    ||| (1 <= i && 2 * i + 1 < s.len() && s[i] is Splitter && (skel_slot(s, 2 * i, j) || skel_slot(
        s,
        2 * i + 1,
        j,
    )))
}

// ---------------------------------------------------------------------------
// Lemmas on slots and subtrees

pub proof fn lemma_desc_child(j: int, i: int)
    requires
        i >= 1,
        desc(j, 2 * i) || desc(j, 2 * i + 1),
    ensures
        desc(j, i),
    decreases j,
{
    if j == 2 * i || j == 2 * i + 1 {
        assert(j / 2 == i);
        assert(desc(i, i));
    } else {
        lemma_desc_child(j / 2, i);
    }
}

pub proof fn lemma_desc_ge(j: int, i: int)
    requires
        desc(j, i),
    ensures
        j >= i,
        i >= 1,
    decreases j,
{
    if j != i {
        lemma_desc_ge(j / 2, i);
    }
}

pub proof fn lemma_desc_disjoint(j: int, i: int)
    requires
        i >= 1,
    ensures
        !(desc(j, 2 * i) && desc(j, 2 * i + 1)),
    decreases j,
{
    if desc(j, 2 * i) && desc(j, 2 * i + 1) {
        if j == 2 * i {
            lemma_desc_ge(j, 2 * i + 1);
        } else if j == 2 * i + 1 {
            assert(desc(j / 2, 2 * i));
            lemma_desc_ge(j / 2, 2 * i);
        } else {
            lemma_desc_ge(j, 2 * i);
            lemma_desc_ge(j, 2 * i + 1);
            lemma_desc_disjoint(j / 2, i);
        }
    }
}

pub proof fn lemma_agree_child(s1: Seq<SkeletonEntry>, s2: Seq<SkeletonEntry>, i: int)
    requires
        i >= 1,
        agree(s1, s2, i),
    ensures
        agree(s1, s2, 2 * i),
        agree(s1, s2, 2 * i + 1),
        s1[i] == s2[i] || i >= s1.len(),
{
    assert forall|j: int| 0 <= j < s1.len() && #[trigger] desc(j, 2 * i) implies s1[j] == s2[j] by {
        lemma_desc_child(j, i);
    }
    assert forall|j: int| 0 <= j < s1.len() && #[trigger] desc(j, 2 * i + 1) implies s1[j]
        == s2[j] by {
        lemma_desc_child(j, i);
    }
    if i < s1.len() {
        assert(desc(i, i));
    }
}

/// Facts about a well-formed subtree carry over to a skeleton that agrees on it.
pub proof fn lemma_agree_wf<const K: usize>(s1: Seq<SkeletonEntry>, s2: Seq<SkeletonEntry>, i: int)
    requires
        skel_wf::<K>(s1, i),
        agree(s1, s2, i),
    ensures
        skel_wf::<K>(s2, i),
        skel_lo(s1, i) == skel_lo(s2, i),
        skel_hi(s1, i) == skel_hi(s2, i),
        forall|p: [i32; K]| skel_lookup(s1, i, p) == #[trigger] skel_lookup(s2, i, p),
    decreases s1.len() - i,
{
    lemma_agree_child(s1, s2, i);
    if s1[i] is Splitter {
        lemma_agree_wf::<K>(s1, s2, 2 * i);
        lemma_agree_wf::<K>(s1, s2, 2 * i + 1);
        assert forall|p: [i32; K]| skel_lookup(s1, i, p) == #[trigger] skel_lookup(s2, i, p) by {
            assert(skel_lookup(s1, 2 * i, p) == skel_lookup(s2, 2 * i, p));
            assert(skel_lookup(s1, 2 * i + 1, p) == skel_lookup(s2, 2 * i + 1, p));
        }
    }
}

pub proof fn lemma_agree_sizes(s1: Seq<SkeletonEntry>, s2: Seq<SkeletonEntry>, i: int, bs: Seq<usize>)
    requires
        sizes_ok(s1, i, bs),
        agree(s1, s2, i),
    ensures
        sizes_ok(s2, i, bs),
    decreases s1.len() - i,
{
    lemma_agree_child(s1, s2, i);
    if s1[i] is Splitter {
        lemma_agree_sizes(s1, s2, 2 * i, bs);
        lemma_agree_sizes(s1, s2, 2 * i + 1, bs);
        lemma_agree_lohi(s1, s2, i);
        lemma_agree_lohi(s1, s2, 2 * i);
    }
}

pub proof fn lemma_agree_lohi(s1: Seq<SkeletonEntry>, s2: Seq<SkeletonEntry>, i: int)
    requires
        agree(s1, s2, i),
        i >= 1,
    ensures
        skel_lo(s1, i) == skel_lo(s2, i),
        skel_hi(s1, i) == skel_hi(s2, i),
    decreases s1.len() - i,
{
    if i < s1.len() {
        lemma_agree_child(s1, s2, i);
        if s1[i] is Splitter && 2 * i + 1 < s1.len() {
            lemma_agree_lohi(s1, s2, 2 * i);
            lemma_agree_lohi(s1, s2, 2 * i + 1);
        }
    }
}

pub proof fn lemma_agree_shape(s0: Seq<SkeletonEntry>, s1: Seq<SkeletonEntry>, s2: Seq<SkeletonEntry>, i: int)
    requires
        shape_eq(s0, s1, i),
        agree(s1, s2, i),
    ensures
        shape_eq(s0, s2, i),
    decreases s0.len() - i,
{
    lemma_agree_child(s1, s2, i);
    if s0[i] is Splitter {
        lemma_agree_shape(s0, s1, s2, 2 * i);
        lemma_agree_shape(s0, s1, s2, 2 * i + 1);
    }
}

pub proof fn lemma_agree_mirrors<const K: usize>(
    node: Node<K>,
    s1: Seq<SkeletonEntry>,
    s2: Seq<SkeletonEntry>,
    i: int,
    depth: int,
)
    requires
        mirrors(node, s1, i, depth),
        agree(s1, s2, i),
    ensures
        mirrors(node, s2, i, depth),
    decreases node,
{
    lemma_agree_child(s1, s2, i);
    match node {
        Node::Interior { left, right, .. } => {
            if depth < LAMBDA {
                lemma_agree_mirrors(*left, s1, s2, 2 * i, depth + 1);
                lemma_agree_mirrors(*right, s1, s2, 2 * i + 1, depth + 1);
            }
        },
        Node::Leaf { .. } => {},
    }
}

pub proof fn lemma_agree_records<const K: usize>(
    node: Node<K>,
    s1: Seq<SkeletonEntry>,
    s2: Seq<SkeletonEntry>,
    i: int,
    depth: int,
)
    requires
        records_sizes(node, s1, i, depth),
        agree(s1, s2, i),
        1 <= i,
    ensures
        records_sizes(node, s2, i, depth),
    decreases node,
{
    match node {
        Node::Interior { left, right, .. } => {
            if depth < LAMBDA {
                lemma_agree_child(s1, s2, i);
                assert(desc(i, i));
                lemma_agree_records(*left, s1, s2, 2 * i, depth + 1);
                lemma_agree_records(*right, s1, s2, 2 * i + 1, depth + 1);
            }
        },
        Node::Leaf { .. } => {},
    }
}

/// Skeletons of the same shape reach the same slots.
pub proof fn lemma_shape_slots(s1: Seq<SkeletonEntry>, s2: Seq<SkeletonEntry>, i: int, j: int)
    requires
        shape_eq(s1, s2, i),
    ensures
        skel_slot(s1, i, j) == skel_slot(s2, i, j),
    decreases s1.len() - i,
{
    if s1[i] is Splitter {
        lemma_shape_slots(s1, s2, 2 * i, j);
        lemma_shape_slots(s1, s2, 2 * i + 1, j);
    }
}

/// Facts about a well-formed subtree carry over to a skeleton of the same shape.
pub proof fn lemma_shape_wf<const K: usize>(s1: Seq<SkeletonEntry>, s2: Seq<SkeletonEntry>, i: int)
    requires
        skel_wf::<K>(s1, i),
        shape_eq(s1, s2, i),
    ensures
        skel_wf::<K>(s2, i),
        skel_lo(s1, i) == skel_lo(s2, i),
        skel_hi(s1, i) == skel_hi(s2, i),
        forall|p: [i32; K]| skel_lookup(s1, i, p) == #[trigger] skel_lookup(s2, i, p),
    decreases s1.len() - i,
{
    if s1[i] is Splitter {
        lemma_shape_wf::<K>(s1, s2, 2 * i);
        lemma_shape_wf::<K>(s1, s2, 2 * i + 1);
        assert forall|p: [i32; K]| skel_lookup(s1, i, p) == #[trigger] skel_lookup(s2, i, p) by {
            assert(skel_lookup(s1, 2 * i, p) == skel_lookup(s2, 2 * i, p));
            assert(skel_lookup(s1, 2 * i + 1, p) == skel_lookup(s2, 2 * i + 1, p));
        }
    }
}

pub proof fn lemma_shape_mirrors<const K: usize>(
    node: Node<K>,
    s1: Seq<SkeletonEntry>,
    s2: Seq<SkeletonEntry>,
    i: int,
    depth: int,
)
    requires
        mirrors(node, s1, i, depth),
        shape_eq(s1, s2, i),
    ensures
        mirrors(node, s2, i, depth),
    decreases node,
{
    match node {
        Node::Interior { left, right, .. } => {
            if depth < LAMBDA {
                lemma_shape_mirrors(*left, s1, s2, 2 * i, depth + 1);
                lemma_shape_mirrors(*right, s1, s2, 2 * i + 1, depth + 1);
            }
        },
        Node::Leaf { .. } => {},
    }
}

/// In a well-formed subtree, buckets span a non-empty range and every point
/// reaches a bucket of that range.
pub proof fn lemma_lookup_range<const K: usize>(s: Seq<SkeletonEntry>, i: int, p: [i32; K])
    requires
        skel_wf::<K>(s, i),
    ensures
        skel_lo(s, i) < skel_hi(s, i),
        skel_lo(s, i) <= skel_lookup(s, i, p) < skel_hi(s, i),
        0 <= skel_lo(s, i),
    decreases s.len() - i,
{
    if s[i] is Splitter {
        lemma_lookup_range::<K>(s, 2 * i, p);
        lemma_lookup_range::<K>(s, 2 * i + 1, p);
    }
}

pub proof fn lemma_range_sum_split(bs: Seq<usize>, a: int, b: int, c: int)
    requires
        a <= b <= c,
    ensures
        range_sum(bs, a, c) == range_sum(bs, a, b) + range_sum(bs, b, c),
    decreases c - b,
{
    if c > b {
        lemma_range_sum_split(bs, a, b, c - 1);
    }
}

pub proof fn lemma_range_sum_nonneg(bs: Seq<usize>, a: int, b: int)
    ensures
        range_sum(bs, a, b) >= 0,
    decreases b - a,
{
    if b > a {
        lemma_range_sum_nonneg(bs, a, b - 1);
    }
}

/// Sizes that are differences of consecutive offsets sum to a difference of offsets.
pub proof fn lemma_range_sum_offsets(bs: Seq<usize>, off: Seq<usize>, a: int, b: int)
    requires
        0 <= a <= b,
        b < off.len(),
        b <= bs.len(),
        forall|x: int| a <= x < b ==> #[trigger] bs[x] == off[x + 1] - off[x],
    ensures
        range_sum(bs, a, b) == off[b] - off[a],
    decreases b - a,
{
    if b > a {
        lemma_range_sum_offsets(bs, off, a, b - 1);
    }
}

} // verus!

verus! {

pub proof fn lemma_pow2_values()
    ensures
        pow2(0) == 1,
        pow2(1) == 2,
        pow2(2) == 4,
        pow2(3) == 8,
        pow2(4) == 16,
        pow2(5) == 32,
        pow2(6) == 64,
        pow2(7) == 128,
{
    assert(pow2(0) == 1);
    assert(pow2(1) == 2);
    assert(pow2(2) == 4);
    assert(pow2(3) == 8);
    assert(pow2(4) == 16);
    assert(pow2(5) == 32);
    assert(pow2(6) == 64);
    assert(pow2(7) == 128);
}

pub proof fn lemma_pow2_mono(a: nat, b: nat)
    requires
        a <= b,
    ensures
        pow2(a) <= pow2(b),
    decreases b,
{
    if b > a {
        lemma_pow2_mono(a, (b - 1) as nat);
    }
}

/// Two skeletons that agree outside a subtree agree on every disjoint subtree.
proof fn lemma_outside_sibling(s1: Seq<SkeletonEntry>, s2: Seq<SkeletonEntry>, i: int)
    requires
        i >= 1,
        agree_outside(s1, s2, 2 * i + 1),
    ensures
        agree(s1, s2, 2 * i),
{
    assert forall|j: int| 0 <= j < s1.len() && #[trigger] desc(j, 2 * i) implies s1[j] == s2[j] by {
        lemma_desc_disjoint(j, i);
    }
}

proof fn lemma_shape_lookup<const K: usize>(s1: Seq<SkeletonEntry>, s2: Seq<SkeletonEntry>, i: int, p: [i32; K])
    requires
        shape_eq(s1, s2, i),
    ensures
        skel_lookup(s1, i, p) == skel_lookup(s2, i, p),
    decreases s1.len() - i,
{
    if let SkeletonEntry::Splitter { .. } = s1[i] {
        lemma_shape_lookup(s1, s2, 2 * i, p);
        lemma_shape_lookup(s1, s2, 2 * i + 1, p);
    }
}

/// Recording bucket sizes does not move any point: a skeleton and its sized
/// copy send every point to the same bucket.
pub proof fn law_sizing_keeps_lookup<const K: usize>(skel: Skeleton, sized: Skeleton, p: [i32; K])
    requires
        shape_eq(skel.flattened@, sized.flattened@, 1),
    ensures
        skel_lookup(skel.flattened@, 1, p) == skel_lookup(sized.flattened@, 1, p),
{
    lemma_shape_lookup(skel.flattened@, sized.flattened@, 1, p);
}

proof fn lemma_sized_entries_agree<const K: usize>(
    s1: Seq<SkeletonEntry>,
    s2: Seq<SkeletonEntry>,
    i: int,
    bs: Seq<usize>,
    j: int,
)
    requires
        skel_wf::<K>(s1, i),
        shape_eq(s1, s2, i),
        sizes_ok(s1, i, bs),
        sizes_ok(s2, i, bs),
        skel_slot(s1, i, j),
    ensures
        s1[j] == s2[j],
    decreases s1.len() - i,
{
    lemma_shape_wf::<K>(s1, s2, i);
    if s1[i] is Splitter {
        lemma_shape_wf::<K>(s1, s2, 2 * i);
        if j != i {
            if skel_slot(s1, 2 * i, j) {
                lemma_sized_entries_agree::<K>(s1, s2, 2 * i, bs, j);
            } else {
                lemma_sized_entries_agree::<K>(s1, s2, 2 * i + 1, bs, j);
            }
        }
    }
}

/// Sizing a sized skeleton again with the same bucket sizes gives it back:
/// a skeleton whose splitters already record `bucket_sizes`, and whose
/// unreached slots are blank, equals any skeleton that `size_tree` can make
/// of it with `bucket_sizes`.
pub proof fn law_sizing_idempotent<const K: usize>(sized: Skeleton, again: Skeleton, bucket_sizes: Seq<usize>)
    requires
        sized.wf::<K>(),
        sizes_ok(sized.flattened@, 1, bucket_sizes),
        forall|j: int|
            0 <= j < SKELETON_SLOTS && !skel_slot(sized.flattened@, 1, j) ==> #[trigger] sized.flattened@[j] is Blank,
        again.n_buckets == sized.n_buckets,
        shape_eq(sized.flattened@, again.flattened@, 1),
        sizes_ok(again.flattened@, 1, bucket_sizes),
        forall|j: int|
            0 <= j < SKELETON_SLOTS && !skel_slot(again.flattened@, 1, j) ==> #[trigger] again.flattened@[j] is Blank,
    ensures
        again.flattened@ == sized.flattened@,
{
    let s1 = sized.flattened@;
    let s2 = again.flattened@;
    assert forall|j: int| 0 <= j < s1.len() implies s1[j] == s2[j] by {
        lemma_shape_slots(s1, s2, 1, j);
        if skel_slot(s1, 1, j) {
            lemma_sized_entries_agree::<K>(s1, s2, 1, bucket_sizes, j);
        }
    }
    assert(s2 =~= s1);
}

impl Skeleton {
    /// The skeleton is a proper tree over buckets `0..n_buckets`, with at most
    /// `NUM_BUCKETS` buckets, in `SKELETON_SLOTS` slots.
    pub open spec fn wf<const K: usize>(&self) -> bool {
        &&& self.flattened@.len() == SKELETON_SLOTS
        &&& skel_wf::<K>(self.flattened@, 1)
        &&& skel_lo(self.flattened@, 1) == 0
        &&& skel_hi(self.flattened@, 1) == self.n_buckets
        &&& self.n_buckets <= NUM_BUCKETS
    }

    /// The skeleton of the top `LAMBDA` levels of `node`: interior nodes above
    /// that depth become splitters, and every other node becomes the next bucket.
    pub fn from_node<const K: usize>(node: &Node<K>) -> (skel: Skeleton)
        requires
            node.axes_ok(),
        ensures
            skel.wf::<K>(),
            mirrors(*node, skel.flattened@, 1, 0),
            records_sizes(*node, skel.flattened@, 1, 0),
            forall|j: int|
                0 <= j < SKELETON_SLOTS && !node_slot(*node, 1, 0, j) ==> #[trigger] skel.flattened@[j] is Blank,
            node.full(LAMBDA as nat) ==> skel.n_buckets == NUM_BUCKETS,
    {
        let mut flattened: Vec<SkeletonEntry> = Vec::new();
        let mut i: usize = 0;
        while i < SKELETON_SLOTS
            invariant
                0 <= i <= SKELETON_SLOTS,
                flattened@.len() == i,
                forall|c: int| 0 <= c < i ==> #[trigger] flattened@[c] is Blank,
            decreases SKELETON_SLOTS - i,
        {
            flattened.push(SkeletonEntry::Blank);
            i = i + 1;
        }
        let mut bucket_id: usize = 0;
        proof {
            lemma_pow2_values();
        }
        let ghost blank = flattened@;
        from_recurse(node, 0, &mut bucket_id, &mut flattened, 1);
        proof {
            assert forall|j: int| 0 <= j < SKELETON_SLOTS && !node_slot(*node, 1, 0, j) implies #[trigger] flattened@[j] is Blank by {
                assert(flattened@[j] == blank[j]);
            }
        }
        Skeleton { n_buckets: bucket_id, flattened }
    }

    /// Builds the skeleton of the tree that median splitting makes of the
    /// sample `points` to depth `LAMBDA`: its splitters are the sample's medians.
    pub fn build<const K: usize>(points: Vec<[i32; K]>, bbox: BBox<K>) -> (skel: Skeleton)
        requires
            K > 0,
            points@.len() >= pow2((LAMBDA - 1) as nat),
        ensures
            skel.wf::<K>(),
            skel.n_buckets == NUM_BUCKETS,
            exists|layout: Seq<[i32; K]>, tree: Node<K>|
                layout.to_multiset() == points@.to_multiset() && #[trigger] median_shape(
                    tree,
                    layout,
                    Some(LAMBDA),
                    bbox,
                ) && mirrors(tree, skel.flattened@, 1, 0) && records_sizes(tree, skel.flattened@, 1, 0),
    {
        let mut points = points;
        let ghost sample = points@;
        let skel_tree = Node::build_simple(&mut points, Some(LAMBDA), bbox);
        let skel = Self::from_node(&skel_tree);
        proof {
            assert(median_shape(skel_tree, points@, Some(LAMBDA), bbox));
        }
        skel
    }

    /// Number of buckets.
    pub fn num_buckets(&self) -> (n: usize)
        ensures
            n == self.n_buckets,
    {
        self.n_buckets
    }

    /// The bucket that `point` falls into.
    pub fn lookup<const K: usize>(&self, point: [i32; K]) -> (b: usize)
        requires
            self.wf::<K>(),
        ensures
            b == skel_lookup(self.flattened@, 1, point),
            b < self.n_buckets,
    {
        let mut skel_id: usize = 1;
        proof {
            lemma_lookup_range::<K>(self.flattened@, 1, point);
        }
        loop
            invariant
                self.wf::<K>(),
                1 <= skel_id < SKELETON_SLOTS,
                skel_wf::<K>(self.flattened@, skel_id as int),
                skel_lookup(self.flattened@, 1, point) == skel_lookup(
                    self.flattened@,
                    skel_id as int,
                    point,
                ),
                skel_lookup(self.flattened@, 1, point) < self.n_buckets,
            decreases SKELETON_SLOTS - skel_id,
        {
            match self.flattened[skel_id] {
                SkeletonEntry::Bucket(id) => {
                    return id;
                },
                SkeletonEntry::Splitter { splitter, .. } => {
                    if point[splitter.1] >= splitter.0 {
                        skel_id = skel_id * 2 + 1;
                    } else {
                        skel_id = skel_id * 2;
                    }
                },
                SkeletonEntry::Blank => {
                    proof {
                        assert(false);
                    }
                    return 0;
                },
            }
        }
    }

    /// A skeleton of the same shape whose splitters record, for the given
    /// bucket sizes, the total size of their buckets and of their left child's.
    pub fn size_tree<const K: usize>(&self, bucket_sizes: &[usize]) -> (sized: Skeleton)
        requires
            self.wf::<K>(),
            bucket_sizes@.len() >= self.n_buckets,
            range_sum(bucket_sizes@, 0, self.n_buckets as int) <= usize::MAX,
        ensures
            sized.wf::<K>(),
            sized.n_buckets == self.n_buckets,
            shape_eq(self.flattened@, sized.flattened@, 1),
            sizes_ok(sized.flattened@, 1, bucket_sizes@),
            forall|j: int|
                0 <= j < SKELETON_SLOTS && !skel_slot(sized.flattened@, 1, j) ==> #[trigger] sized.flattened@[j] is Blank,
    {
        let mut size_skel: Vec<SkeletonEntry> = Vec::new();
        let mut i: usize = 0;
        while i < SKELETON_SLOTS
            invariant
                0 <= i <= SKELETON_SLOTS,
                size_skel@.len() == i,
                forall|c: int| 0 <= c < i ==> #[trigger] size_skel@[c] is Blank,
            decreases SKELETON_SLOTS - i,
        {
            size_skel.push(SkeletonEntry::Blank);
            i = i + 1;
        }
        let ghost blank = size_skel@;
        size_recurse::<K>(&self.flattened, &mut size_skel, 1, bucket_sizes);
        proof {
            lemma_shape_wf::<K>(self.flattened@, size_skel@, 1);
            assert forall|j: int| 0 <= j < SKELETON_SLOTS && !skel_slot(size_skel@, 1, j) implies #[trigger] size_skel@[j] is Blank by {
                lemma_shape_slots(self.flattened@, size_skel@, 1, j);
                assert(size_skel@[j] == blank[j]);
            }
        }
        Skeleton { n_buckets: self.n_buckets, flattened: size_skel }
    }
}

fn from_recurse<const K: usize>(
    curr: &Node<K>,
    depth: usize,
    bucket_id: &mut usize,
    skel: &mut Vec<SkeletonEntry>,
    skel_id: usize,
)
    requires
        old(skel)@.len() == SKELETON_SLOTS,
        depth <= LAMBDA,
        pow2(depth as nat) <= skel_id < 2 * pow2(depth as nat),
        curr.axes_ok(),
        *old(bucket_id) + pow2((LAMBDA - depth) as nat) <= NUM_BUCKETS,
    ensures
        final(skel)@.len() == SKELETON_SLOTS,
        agree_outside(old(skel)@, final(skel)@, skel_id as int),
        skel_wf::<K>(final(skel)@, skel_id as int),
        skel_lo(final(skel)@, skel_id as int) == *old(bucket_id),
        skel_hi(final(skel)@, skel_id as int) == *final(bucket_id),
        *final(bucket_id) <= *old(bucket_id) + pow2((LAMBDA - depth) as nat),
        curr.full((LAMBDA - depth) as nat) ==> *final(bucket_id) == *old(bucket_id) + pow2(
            (LAMBDA - depth) as nat,
        ),
        mirrors(*curr, final(skel)@, skel_id as int, depth as int),
        records_sizes(*curr, final(skel)@, skel_id as int, depth as int),
        forall|j: int|
            0 <= j < SKELETON_SLOTS && !node_slot(*curr, skel_id as int, depth as int, j) ==> #[trigger] final(skel)@[j]
                == old(skel)@[j],
    decreases curr,
{
    proof {
        lemma_pow2_values();
        lemma_pow2_mono(depth as nat, LAMBDA as nat);
        lemma_pow2_pos((LAMBDA - depth) as nat);
    }
    match curr {
        Node::Interior { size, splitter, left, right, .. } => {
            if depth < LAMBDA {
                proof {
                    lemma_pow2_mono((depth + 1) as nat, LAMBDA as nat);
                    assert(pow2((depth + 1) as nat) == 2 * pow2(depth as nat));
                    assert(pow2((LAMBDA - depth) as nat) == 2 * pow2((LAMBDA - depth - 1) as nat));
                }
                let ghost s0 = skel@;
                skel[skel_id] = SkeletonEntry::Splitter {
                    total: *size,
                    split: left.size(),
                    splitter: *splitter,
                };
                let ghost s1 = skel@;
                from_recurse(left, depth + 1, bucket_id, skel, 2 * skel_id);
                let ghost s2 = skel@;
                from_recurse(right, depth + 1, bucket_id, skel, 2 * skel_id + 1);
                let ghost s3 = skel@;
                proof {
                    let i = skel_id as int;
                    lemma_outside_sibling(s2, s3, i);
                    lemma_agree_wf::<K>(s2, s3, 2 * i);
                    lemma_agree_mirrors(**left, s2, s3, 2 * i, depth + 1);
                    lemma_agree_records(**left, s2, s3, 2 * i, depth + 1);
                    if desc(i, 2 * i) {
                        lemma_desc_ge(i, 2 * i);
                    }
                    if desc(i, 2 * i + 1) {
                        lemma_desc_ge(i, 2 * i + 1);
                    }
                    assert(s3[i] == s1[i]);
                    assert(records_sizes(*curr, s3, i, depth as int));
                    assert forall|j: int| 0 <= j < s0.len() && !#[trigger] desc(j, i) implies s0[j]
                        == s3[j] by {
                        if desc(j, 2 * i) || desc(j, 2 * i + 1) {
                            lemma_desc_child(j, i);
                        }
                        assert(desc(i, i));
                    }
                }
                return;
            }
        },
        Node::Leaf { .. } => {},
    }
    let ghost s0 = skel@;
    skel[skel_id] = SkeletonEntry::Bucket(*bucket_id);
    *bucket_id = *bucket_id + 1;
    proof {
        assert forall|j: int| 0 <= j < s0.len() && !#[trigger] desc(j, skel_id as int) implies s0[j]
            == skel@[j] by {
            assert(desc(skel_id as int, skel_id as int));
        }
    }
}


fn size_recurse<const K: usize>(
    skel: &Vec<SkeletonEntry>,
    size_skel: &mut Vec<SkeletonEntry>,
    skel_id: usize,
    bucket_sizes: &[usize],
) -> (total: usize)
    requires
        skel_wf::<K>(skel@, skel_id as int),
        skel@.len() == SKELETON_SLOTS,
        old(size_skel)@.len() == skel@.len(),
        skel_hi(skel@, skel_id as int) <= bucket_sizes@.len(),
        range_sum(bucket_sizes@, skel_lo(skel@, skel_id as int), skel_hi(skel@, skel_id as int))
            <= usize::MAX,
    ensures
        total == range_sum(bucket_sizes@, skel_lo(skel@, skel_id as int), skel_hi(skel@, skel_id as int)),
        agree_outside(old(size_skel)@, final(size_skel)@, skel_id as int),
        shape_eq(skel@, final(size_skel)@, skel_id as int),
        sizes_ok(final(size_skel)@, skel_id as int, bucket_sizes@),
        forall|j: int|
            0 <= j < SKELETON_SLOTS && !skel_slot(skel@, skel_id as int, j) ==> #[trigger] final(size_skel)@[j]
                == old(size_skel)@[j],
    decreases skel@.len() - skel_id,
{
    let i = skel_id;
    match skel[skel_id] {
        SkeletonEntry::Bucket(id) => {
            proof {
                lemma_lookup_range::<K>(skel@, i as int, arbitrary_point::<K>());
            }
            let size = bucket_sizes[id];
            proof {
                assert(range_sum(bucket_sizes@, id as int, id as int) == 0);
            }
            let ghost s0 = size_skel@;
            size_skel[skel_id] = SkeletonEntry::Bucket(id);
            proof {
                assert forall|j: int| 0 <= j < s0.len() && !#[trigger] desc(j, i as int) implies s0[j]
                    == size_skel@[j] by {
                    assert(desc(i as int, i as int));
                }
            }
            size
        },
        SkeletonEntry::Splitter { splitter, .. } => {
            let ghost bs = bucket_sizes@;
            let ghost s = skel@;
            proof {
                assert(2 * i + 1 < s.len());
                lemma_lookup_range::<K>(s, 2 * i, arbitrary_point::<K>());
                lemma_lookup_range::<K>(s, 2 * i + 1, arbitrary_point::<K>());
                lemma_range_sum_split(bs, skel_lo(s, 2 * i), skel_hi(s, 2 * i), skel_hi(s, 2 * i + 1));
                lemma_range_sum_nonneg(bs, skel_lo(s, 2 * i), skel_hi(s, 2 * i));
                lemma_range_sum_nonneg(bs, skel_lo(s, 2 * i + 1), skel_hi(s, 2 * i + 1));
            }
            let ghost z0 = size_skel@;
            let new_left_size = size_recurse::<K>(skel, size_skel, 2 * skel_id, bucket_sizes);
            let ghost z1 = size_skel@;
            let new_right_size = size_recurse::<K>(skel, size_skel, 2 * skel_id + 1, bucket_sizes);
            let ghost z2 = size_skel@;
            let total = new_left_size + new_right_size;
            size_skel[skel_id] = SkeletonEntry::Splitter { total, split: new_left_size, splitter };
            let ghost z3 = size_skel@;
            proof {
                let ii = i as int;
                lemma_outside_sibling(z1, z2, ii);
                // the left subtree is untouched by the right call and by the final write
                assert(agree(z2, z3, 2 * ii)) by {
                    assert forall|j: int| 0 <= j < z2.len() && #[trigger] desc(j, 2 * ii) implies z2[j]
                        == z3[j] by {
                        if j == ii {
                            lemma_desc_ge(j, 2 * ii);
                        }
                    }
                }
                assert(agree(z2, z3, 2 * ii + 1)) by {
                    assert forall|j: int| 0 <= j < z2.len() && #[trigger] desc(j, 2 * ii + 1) implies z2[j]
                        == z3[j] by {
                        if j == ii {
                            lemma_desc_ge(j, 2 * ii + 1);
                        }
                    }
                }
                lemma_agree_shape(s, z1, z2, 2 * ii);
                lemma_agree_sizes(z1, z2, 2 * ii, bs);
                lemma_agree_shape(s, z2, z3, 2 * ii);
                lemma_agree_sizes(z2, z3, 2 * ii, bs);
                lemma_agree_shape(s, z2, z3, 2 * ii + 1);
                lemma_agree_sizes(z2, z3, 2 * ii + 1, bs);
                lemma_shape_wf::<K>(s, z3, 2 * ii);
                lemma_shape_wf::<K>(s, z3, 2 * ii + 1);
                assert(shape_eq(s, z3, ii));
                lemma_shape_wf::<K>(s, z3, ii);
                assert forall|j: int| 0 <= j < z0.len() && !#[trigger] desc(j, ii) implies z0[j] == z3[j] by {
                    if desc(j, 2 * ii) || desc(j, 2 * ii + 1) {
                        lemma_desc_child(j, ii);
                    }
                    assert(desc(ii, ii));
                }
            }
            total
        },
        SkeletonEntry::Blank => {
            proof {
                assert(false);
            }
            0
        },
    }
}

impl<const K: usize> BucketFn<K> for Skeleton {
    open spec fn spec_bucket(&self, p: [i32; K]) -> int {
        skel_lookup(self.flattened@, 1, p)
    }

    open spec fn bucket_ready(&self) -> bool {
        self.wf::<K>()
    }

    fn bucket(&self, p: &[i32; K]) -> (b: u8) {
        let b = self.lookup(*p);
        b as u8
    }
}

/// Some point, used to instantiate facts that hold for every point.
pub open spec fn arbitrary_point<const K: usize>() -> [i32; K] {
    [0i32; K]
}

} // verus!
