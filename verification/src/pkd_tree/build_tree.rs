use vstd::prelude::*;
use crate::bbox::BBox;
use crate::utils::{kth, split_at_rank};
use crate::rng::random_index;
use crate::parallel::{join, par_tabulate};
use crate::sieve::{Sieve, BucketFn};
use super::{Node, PKDTree, Skeleton, SkeletonEntry, PHI, SIGMA, NUM_BUCKETS, SKELETON_SLOTS, SIMPLE_THRESHOLD, LAMBDA};
use super::skeleton::{mirrors, records_sizes, shape_eq, range_sum, skel_lo, skel_hi, skel_wf, skel_lookup, sizes_ok, lemma_lookup_range, lemma_range_sum_offsets, lemma_shape_wf, lemma_pow2_values};

verus! {

broadcast use vstd::array::group_array_axioms;

/// Two to the power `e`.
pub open spec fn pow2(e: nat) -> nat
    decreases e,
{
    if e == 0 { 1 } else { 2 * pow2((e - 1) as nat) }
}

/// Measure of `build_simple`'s recursion.
pub open spec fn level_measure(levels: Option<usize>) -> int {
    match levels {
        Some(l) => l as int,
        None => 0,
    }
}

/// `build_simple` splits this many points at this level budget.
pub open spec fn simple_splits(n: int, levels: Option<usize>) -> bool {
    match levels {
        Some(l) => l > 0,
        None => n > PHI,
    }
}

/// A level budget of `l > 0` needs at least `2^(l-1)` points, so that every
/// median split has a point to select.
pub open spec fn enough_points(n: int, levels: Option<usize>) -> bool {
    match levels {
        Some(l) => l > 0 ==> n >= pow2((l - 1) as nat),
        None => true,
    }
}

/// The level budget one level down.
pub open spec fn next_levels(levels: Option<usize>) -> Option<usize> {
    match levels {
        Some(l) => Some((l - 1) as usize),
        None => None,
    }
}

/// `s` is split at its middle position along `axis` at coordinate `m`: the
/// points before the middle are at most `m`, those from the middle on at
/// least `m`, and one of the latter lies at `m`; so `m` is the coordinate of
/// rank `s.len() / 2`.
pub open spec fn median_split_at<const K: usize>(s: Seq<[i32; K]>, axis: int, m: i32) -> bool {
    let mid = (s.len() / 2) as int;
    &&& s.len() > 0
    &&& forall|i: int| 0 <= i < mid ==> #[trigger] s[i][axis] <= m
    &&& forall|i: int| mid <= i < s.len() ==> #[trigger] s[i][axis] >= m
    &&& exists|j: int| mid <= j < s.len() && #[trigger] s[j][axis] == m
}

/// The tree that median splitting makes of the points, laid out in `s` as
/// the splitting leaves them, in the box `bbox`: every node records its box,
/// a node is a leaf exactly when the budget is spent (without one: when at
/// most `PHI` points are left; a leaf then keeps its points, with a budget it
/// keeps none), and an interior node over `n` points splits along the widest
/// axis of its box at the `n / 2`-th smallest coordinate, with the first
/// `n / 2` points of its part of `s` on the left and the rest on the right,
/// and gives each side its half of the box.
pub open spec fn median_shape<const K: usize>(
    node: Node<K>,
    s: Seq<[i32; K]>,
    levels: Option<usize>,
    bbox: BBox<K>,
) -> bool
    decreases node,
{
    match node {
        Node::Leaf { bbox: b, points } => {
            &&& b == bbox
            &&& !simple_splits(s.len() as int, levels)
            &&& levels is None ==> points@ == s
            &&& levels is Some ==> points@.len() == 0
        },
        Node::Interior { size, splitter, bbox: b, left, right } => {
            &&& b == bbox
            &&& simple_splits(s.len() as int, levels)
            &&& size == s.len()
            &&& bbox.is_widest_axis(splitter.1 as int)
            &&& median_split_at(s, splitter.1 as int, splitter.0)
            &&& median_shape(*left, s.take((s.len() / 2) as int), next_levels(levels), left.spec_bbox())
            &&& median_shape(*right, s.skip((s.len() / 2) as int), next_levels(levels), right.spec_bbox())
            &&& bbox.is_split(splitter.0, splitter.1 as int, left.spec_bbox(), right.spec_bbox())
        },
    }
}

/// What `build_simple` gives for `pts` at level budget `levels` in `bbox`.
pub open spec fn simple_result<const K: usize>(
    node: Node<K>,
    pts: Seq<[i32; K]>,
    levels: Option<usize>,
    bbox: BBox<K>,
) -> bool {
    &&& node.axes_ok()
    &&& median_shape(node, pts, levels, bbox)
    &&& levels is None ==> node.wf() && node.capped() && node.points() == pts.to_multiset()
    &&& levels matches Some(l) ==> node.full(l as nat)
}

/// `sample` is an oversample of `pts`: `NUM_BUCKETS * SIGMA` draws, each a
/// point of `pts`.
pub open spec fn sample_of<const K: usize>(sample: Seq<[i32; K]>, pts: Seq<[i32; K]>) -> bool {
    &&& sample.len() == NUM_BUCKETS * SIGMA
    &&& forall|i: int| 0 <= i < sample.len() ==> pts.contains(#[trigger] sample[i])
}

/// `tree` is the tree that median splitting makes of `sample` to depth
/// `LAMBDA` in `bbox`, with the sample laid out in `layout`.
pub open spec fn sample_tree<const K: usize>(
    sample: Seq<[i32; K]>,
    layout: Seq<[i32; K]>,
    tree: Node<K>,
    pts: Seq<[i32; K]>,
    bbox: BBox<K>,
) -> bool {
    &&& sample_of(sample, pts)
    &&& layout.to_multiset() == sample.to_multiset()
    &&& median_shape(tree, layout, Some(LAMBDA), bbox)
}

/// Down to depth `LAMBDA`, `node` splits where `tree` does: every interior
/// node of `tree` above that depth is matched by an interior node of `node`
/// with the same splitter.
pub open spec fn splits_like<const K: usize>(node: Node<K>, tree: Node<K>, depth: int) -> bool
    decreases tree,
{
    match tree {
        Node::Interior { splitter, left, right, .. } => depth < LAMBDA ==> {
            &&& node matches Node::Interior { splitter: sp, left: l, right: r, .. }
            &&& sp == splitter
            &&& splits_like(*l, *left, depth + 1)
            &&& splits_like(*r, *right, depth + 1)
        },
        Node::Leaf { .. } => true,
    }
}

/// The top `LAMBDA` levels of `node` split at the medians of an oversample of
/// `pts`.
pub open spec fn sampled_shape<const K: usize>(node: Node<K>, pts: Seq<[i32; K]>, bbox: BBox<K>) -> bool {
    exists|sample: Seq<[i32; K]>, layout: Seq<[i32; K]>, tree: Node<K>|
        #[trigger] sample_tree(sample, layout, tree, pts, bbox) && splits_like(node, tree, 0)
}

/// What `Node::build` makes of the points `before`, leaving them laid out as
/// `after`: a well-formed tree whose leaves hold at most `PHI` points and hold
/// exactly those points, in the order of `after`; median splitting for fewer
/// than `SIMPLE_THRESHOLD` points, and otherwise a tree whose top levels split
/// at the medians of an oversample of the points.
pub open spec fn build_result<const K: usize>(
    node: Node<K>,
    before: Seq<[i32; K]>,
    after: Seq<[i32; K]>,
    bbox: BBox<K>,
) -> bool {
    &&& node.wf()
    &&& node.capped()
    &&& node.points() == before.to_multiset()
    &&& after == node.in_order()
    &&& after.to_multiset() == before.to_multiset()
    &&& before.len() < SIMPLE_THRESHOLD ==> median_shape(node, after, None, bbox)
    &&& before.len() >= SIMPLE_THRESHOLD ==> sampled_shape(node, before, bbox)
}

/// A copy of `v`.
pub(crate) fn copy_points<const K: usize>(v: &Vec<[i32; K]>) -> (c: Vec<[i32; K]>)
    ensures
        c@ == v@,
{
    let mut c: Vec<[i32; K]> = Vec::new();
    let mut i: usize = 0;
    while i < v.len()
        invariant
            0 <= i <= v@.len(),
            c@ == v@.take(i as int),
        decreases v@.len() - i,
    {
        c.push(v[i]);
        i = i + 1;
        proof {
            assert(c@ =~= v@.take(i as int));
        }
    }
    proof {
        assert(v@.take(v@.len() as int) =~= v@);
    }
    c
}

impl<const K: usize> Node<K> {
    /// Builds a balanced tree by splitting at the median along the widest axis
    /// of the box, reordering `points` as it goes. Without a level budget,
    /// leaves hold at most `PHI` points, the tree holds exactly the given
    /// points, and `points` ends up laid out as the leaves from left to right;
    /// with a budget of `l` levels, the tree is complete to depth `l`, its
    /// leaves are left empty, and the points stay in `points`, arranged as the
    /// splits of the tree divide them.
    pub fn build_simple(points: &mut Vec<[i32; K]>, levels: Option<usize>, bbox: BBox<K>) -> (node: Self)
        requires
            simple_splits(old(points)@.len() as int, levels) ==> K > 0,
            enough_points(old(points)@.len() as int, levels),
        ensures
            final(points)@.len() == old(points)@.len(),
            final(points)@.to_multiset() == old(points)@.to_multiset(),
            simple_result(node, final(points)@, levels, bbox),
            levels is None ==> node.in_order() == final(points)@,
        decreases old(points)@.len(), level_measure(levels),
    {
        let n = points.len();
        match levels {
            Some(level) => {
                if level == 0 {
                    return Node::Leaf { bbox, points: Vec::new() };
                }
            },
            None => {
                if n <= PHI {
                    let copy = copy_points(points);
                    proof {
                        points@.to_multiset_ensures();
                    }
                    return Node::Leaf { bbox, points: copy };
                }
            },
        }
        let axis = bbox.widest_axis();
        let mid = n / 2;
        proof {
            if let Some(l) = levels {
                assert(pow2((l - 1) as nat) >= 1) by {
                    lemma_pow2_pos((l - 1) as nat);
                }
            }
        }
        let ghost orig = points@;
        let median = kth(points, mid, axis)[axis];
        let ghost sorted = points@;
        let mut left_points: Vec<[i32; K]> = Vec::new();
        std::mem::swap(&mut left_points, points);
        let right_points = left_points.split_off(mid);
        let (lbbox, rbbox) = bbox.split(median, axis);
        let next_level = match levels {
            Some(l) => Some(l - 1),
            None => None,
        };
        proof {
            if let Some(l) = levels {
                if l > 1 {
                    assert(pow2((l - 1) as nat) == 2 * pow2((l - 2) as nat));
                }
            }
        }
        let ghost lp = left_points@;
        let ghost rp = right_points@;
        let build_left = move || -> (built: (Node<K>, Vec<[i32; K]>))
            requires
                simple_splits(lp.len() as int, next_level) ==> K > 0,
                enough_points(lp.len() as int, next_level),
                left_points@ == lp,
            ensures
                built.1@.len() == lp.len(),
                built.1@.to_multiset() == lp.to_multiset(),
                simple_result(built.0, built.1@, next_level, lbbox),
                next_level is None ==> built.0.in_order() == built.1@,
        {
            let mut v = left_points;
            let node = Self::build_simple(&mut v, next_level, lbbox);
            (node, v)
        };
        let build_right = move || -> (built: (Node<K>, Vec<[i32; K]>))
            requires
                simple_splits(rp.len() as int, next_level) ==> K > 0,
                enough_points(rp.len() as int, next_level),
                right_points@ == rp,
            ensures
                built.1@.len() == rp.len(),
                built.1@.to_multiset() == rp.to_multiset(),
                simple_result(built.0, built.1@, next_level, rbbox),
                next_level is None ==> built.0.in_order() == built.1@,
        {
            let mut v = right_points;
            let node = Self::build_simple(&mut v, next_level, rbbox);
            (node, v)
        };
        let ((left, mut lv), (right, mut rv)) = join(build_left, build_right);
        let ghost lv0 = lv@;
        let ghost rv0 = rv@;
        points.append(&mut lv);
        points.append(&mut rv);
        let node = Node::Interior {
            size: n,
            bbox,
            splitter: (median, axis),
            left: Box::new(left),
            right: Box::new(right),
        };
        proof {
            let fin = points@;
            assert(fin =~= lv0 + rv0);
            assert(sorted =~= lp + rp);
            assert(lp =~= sorted.take(mid as int));
            assert(rp =~= sorted.skip(mid as int));
            vstd::seq_lib::lemma_multiset_commutative(lp, rp);
            vstd::seq_lib::lemma_multiset_commutative(lv0, rv0);
            lp.to_multiset_ensures();
            rp.to_multiset_ensures();
            lv0.to_multiset_ensures();
            rv0.to_multiset_ensures();
            assert(next_level == next_levels(levels));
            assert(fin.len() / 2 == mid);
            assert(fin.take(mid as int) =~= lv0);
            assert(fin.skip(mid as int) =~= rv0);
            assert forall|i: int| 0 <= i < mid implies #[trigger] fin[i][axis as int] <= median by {
                assert(lv0[i] == fin[i]);
                assert(lv0.contains(fin[i]));
                assert(lv0.to_multiset().count(fin[i]) > 0);
                assert(lp.to_multiset().count(fin[i]) > 0);
                assert(lp.contains(fin[i]));
                let c = choose|c: int| 0 <= c < lp.len() && lp[c] == fin[i];
                assert(sorted[c] == fin[i]);
            }
            assert forall|i: int| mid <= i < fin.len() implies #[trigger] fin[i][axis as int] >= median by {
                assert(rv0[i - mid] == fin[i]);
                assert(rv0.contains(fin[i]));
                assert(rv0.to_multiset().count(fin[i]) > 0);
                assert(rp.to_multiset().count(fin[i]) > 0);
                assert(rp.contains(fin[i]));
                let c = choose|c: int| 0 <= c < rp.len() && rp[c] == fin[i];
                assert(sorted[mid + c] == fin[i]);
            }
            assert(rp[0] == sorted[mid as int]);
            assert(rp.contains(sorted[mid as int]));
            assert(rp.to_multiset().count(sorted[mid as int]) > 0);
            assert(rv0.to_multiset().count(sorted[mid as int]) > 0);
            assert(rv0.contains(sorted[mid as int]));
            let j = choose|j: int| 0 <= j < rv0.len() && rv0[j] == sorted[mid as int];
            assert(fin[mid + j] == rv0[j]);
            assert(median_split_at(fin, axis as int, median));
            assert(median_shape(*node->left, fin.take((fin.len() / 2) as int), next_levels(levels), node->left.spec_bbox()));
            assert(median_shape(*node->right, fin.skip((fin.len() / 2) as int), next_levels(levels), node->right.spec_bbox()));
            assert(median_shape(node, fin, levels, bbox));
            assert(fin.to_multiset() =~= orig.to_multiset());
            if levels is None {
                assert forall|p: [i32; K]| #[trigger] left.points().contains(p) implies p[axis as int]
                    <= median by {
                    assert(lv0.contains(p));
                    let c = choose|c: int| 0 <= c < lv0.len() && lv0[c] == p;
                    assert(fin[c] == p);
                }
                assert forall|p: [i32; K]| #[trigger] right.points().contains(p) implies p[axis as int]
                    >= median by {
                    assert(rv0.contains(p));
                    let c = choose|c: int| 0 <= c < rv0.len() && rv0[c] == p;
                    assert(fin[mid + c] == p);
                }
                assert(node.in_order() =~= fin);
            }
        }
        node
    }
}

/// The tree that `build_helper` makes from slot `i` of the size skeleton `s`:
/// each splitter becomes an interior node whose size is the splitter's total,
/// whose left child holds the splitter's split of the points, which splits at
/// the same coordinate and axis, and whose box covers its children's boxes.
pub open spec fn helper_shape<const K: usize>(node: Node<K>, s: Seq<SkeletonEntry>, i: int) -> bool
    decreases node,
{
    match s[i] {
        SkeletonEntry::Splitter { total, split, splitter } => {
            &&& node matches Node::Interior { size, splitter: sp, bbox, left, right }
            &&& size == total
            &&& left.spec_size() == split
            &&& sp == splitter
            &&& bbox.is_merge(left.spec_bbox(), right.spec_bbox())
            &&& helper_shape(*left, s, 2 * i)
            &&& helper_shape(*right, s, 2 * i + 1)
        },
        _ => true,
    }
}

/// What `build_helper` needs of the points of the subtree at slot `i` of the
/// size skeleton `s`: they are the points whose global positions run from
/// `base`, and `off[b]` is the global position where bucket `b` starts.
pub open spec fn helper_ready<const K: usize>(
    pts: Seq<[i32; K]>,
    s: Seq<SkeletonEntry>,
    i: int,
    bs: Seq<usize>,
    off: Seq<usize>,
    base: int,
) -> bool {
    let lo = skel_lo(s, i);
    let hi = skel_hi(s, i);
    &&& s.len() == SKELETON_SLOTS
    &&& skel_wf::<K>(s, i)
    &&& sizes_ok(s, i, bs)
    &&& hi < off.len()
    &&& hi <= bs.len()
    &&& forall|b: int| lo <= b < hi ==> #[trigger] bs[b] == off[b + 1] - off[b]
    &&& off[lo] == base
    &&& off[hi] == base + pts.len()
    &&& forall|a: int, b: int| lo <= a <= b <= hi ==> #[trigger] off[a] <= #[trigger] off[b]
    &&& forall|j: int, b: int|
        0 <= j < pts.len() && lo <= b <= hi ==> (base + j < #[trigger] off[b] <==> skel_lookup(
            s,
            i,
            #[trigger] pts[j],
        ) < b)
}

/// Splitting ready points at a splitter's recorded left size sends exactly
/// the points below the splitting value left, and leaves both parts ready.
pub proof fn lemma_split_ready<const K: usize>(
    pts: Seq<[i32; K]>,
    s: Seq<SkeletonEntry>,
    i: int,
    bs: Seq<usize>,
    off: Seq<usize>,
    base: int,
)
    requires
        helper_ready(pts, s, i, bs, off, base),
        s[i] is Splitter,
    ensures
        s[i] matches SkeletonEntry::Splitter { total, split, splitter } ==> {
            &&& split <= pts.len()
            &&& total == pts.len()
            &&& 2 * i + 1 < SKELETON_SLOTS
            &&& helper_ready(pts.take(split as int), s, 2 * i, bs, off, base)
            &&& helper_ready(pts.skip(split as int), s, 2 * i + 1, bs, off, base + split)
            &&& forall|j: int| 0 <= j < split ==> (#[trigger] pts[j])[splitter.1 as int] < splitter.0
            &&& forall|j: int| split <= j < pts.len() ==> (#[trigger] pts[j])[splitter.1 as int] >= splitter.0
        },
{
    if let SkeletonEntry::Splitter { total, split, splitter } = s[i] {
        let median = splitter.0;
        let axis = splitter.1;
        let lo = skel_lo(s, i);
        let hi = skel_hi(s, i);
        let mid = skel_lo(s, 2 * i + 1);
        assert(2 * i + 1 < s.len());
        lemma_lookup_range::<K>(s, 2 * i, [0i32; K]);
        lemma_lookup_range::<K>(s, 2 * i + 1, [0i32; K]);
        assert(lo == skel_lo(s, 2 * i));
        assert(hi == skel_hi(s, 2 * i + 1));
        lemma_range_sum_offsets(bs, off, skel_lo(s, 2 * i), skel_hi(s, 2 * i));
        lemma_range_sum_offsets(bs, off, lo, hi);
        assert(off[lo] <= off[mid] <= off[hi]);
        assert forall|j: int| 0 <= j < pts.len() implies {
            &&& j < split ==> (#[trigger] pts[j])[axis as int] < median && skel_lookup(s, i, pts[j])
                == skel_lookup(s, 2 * i, pts[j])
            &&& j >= split ==> pts[j][axis as int] >= median && skel_lookup(s, i, pts[j]) == skel_lookup(
                s,
                2 * i + 1,
                pts[j],
            )
        } by {
            lemma_lookup_range::<K>(s, 2 * i, pts[j]);
            lemma_lookup_range::<K>(s, 2 * i + 1, pts[j]);
            assert(base + j < off[mid] <==> skel_lookup(s, i, pts[j]) < mid);
        }
        let lp = pts.take(split as int);
        let rp = pts.skip(split as int);
        assert forall|j: int, b: int|
            0 <= j < lp.len() && skel_lo(s, 2 * i) <= b <= skel_hi(s, 2 * i) implies (base + j
            < #[trigger] off[b] <==> skel_lookup(s, 2 * i, #[trigger] lp[j]) < b) by {
            assert(lp[j] == pts[j]);
            assert(base + j < off[b] <==> skel_lookup(s, i, pts[j]) < b);
        }
        assert forall|j: int, b: int|
            0 <= j < rp.len() && mid <= b <= hi implies (base + split + j < #[trigger] off[b]
            <==> skel_lookup(s, 2 * i + 1, #[trigger] rp[j]) < b) by {
            assert(rp[j] == pts[split + j]);
            assert(base + (split + j) < off[b] <==> skel_lookup(s, i, pts[split + j]) < b);
        }
        assert(helper_ready(lp, s, 2 * i, bs, off, base));
        assert(helper_ready(rp, s, 2 * i + 1, bs, off, base + split));
        assert forall|j: int| 0 <= j < split implies (#[trigger] pts[j])[splitter.1 as int] < splitter.0 by {
        }
        assert forall|j: int| split <= j < pts.len() implies (#[trigger] pts[j])[splitter.1 as int]
            >= splitter.0 by {
        }
    }
}

/// The points of `pts.take(split)` and `pts.skip(split)` together are those of `pts`.
pub proof fn lemma_split_points<const K: usize>(pts: Seq<[i32; K]>, split: int)
    requires
        0 <= split <= pts.len(),
    ensures
        pts.to_multiset() == pts.take(split).to_multiset().add(pts.skip(split).to_multiset()),
        forall|p: [i32; K]| pts.take(split).to_multiset().contains(p) ==> exists|j: int| 0 <= j < split && #[trigger] pts[j] == p,
        forall|p: [i32; K]| pts.skip(split).to_multiset().contains(p) ==> exists|j: int| split <= j < pts.len() && #[trigger] pts[j] == p,
{
    let lp = pts.take(split);
    let rp = pts.skip(split);
    assert(pts =~= lp + rp);
    vstd::seq_lib::lemma_multiset_commutative(lp, rp);
    lp.to_multiset_ensures();
    rp.to_multiset_ensures();
    assert forall|p: [i32; K]| lp.to_multiset().contains(p) implies exists|j: int| 0 <= j < split && #[trigger] pts[j] == p by {
        assert(lp.contains(p));
        let c = choose|c: int| 0 <= c < lp.len() && lp[c] == p;
        assert(pts[c] == p);
    }
    assert forall|p: [i32; K]| rp.to_multiset().contains(p) implies exists|j: int| split <= j < pts.len() && #[trigger] pts[j] == p by {
        assert(rp.contains(p));
        let c = choose|c: int| 0 <= c < rp.len() && rp[c] == p;
        assert(pts[split + c] == p);
    }
}

/// The outcome of sieving points by a skeleton and sizing a skeleton of the
/// same shape by the resulting bucket sizes leaves the points ready for the
/// root slot.
pub proof fn lemma_sieved_ready<const K: usize>(
    pts: Seq<[i32; K]>,
    sk: Seq<SkeletonEntry>,
    s: Seq<SkeletonEntry>,
    bs: Seq<usize>,
    off: Seq<usize>,
    nb: int,
)
    requires
        sk.len() == SKELETON_SLOTS,
        skel_wf::<K>(sk, 1),
        skel_lo(sk, 1) == 0,
        skel_hi(sk, 1) == nb,
        shape_eq(sk, s, 1),
        sizes_ok(s, 1, bs),
        off.len() == nb + 1,
        bs.len() == nb,
        forall|b: int| 0 <= b <= nb ==> off[b] <= pts.len(),
        forall|b: int, j: int|
            0 <= b <= nb && 0 <= j < pts.len() ==> (j < #[trigger] off[b] <==> skel_lookup(sk, 1, #[trigger] pts[j])
                < b),
        forall|b: int| 0 <= b < nb ==> #[trigger] bs[b] == off[b + 1] - off[b],
    ensures
        helper_ready(pts, s, 1, bs, off, 0),
        range_sum(bs, 0, nb) == pts.len(),
{
    let n = pts.len();
    lemma_shape_wf::<K>(sk, s, 1);
    assert forall|j: int| 0 <= j < n implies 0 <= skel_lookup(sk, 1, #[trigger] pts[j]) < nb by {
        lemma_lookup_range::<K>(sk, 1, pts[j]);
    }
    if off[0] > 0 {
        assert(skel_lookup(sk, 1, pts[0]) < 0);
    }
    if off[nb] < n {
        let j = off[nb] as int;
        assert(skel_lookup(sk, 1, pts[j]) < nb);
    }
    assert forall|a: int, b: int| 0 <= a <= b <= nb implies #[trigger] off[a] <= #[trigger] off[b] by {
        if off[a] > off[b] {
            let j = off[b] as int;
            assert(skel_lookup(sk, 1, pts[j]) < a);
        }
    }
    assert forall|j: int, b: int| 0 <= j < pts.len() && 0 <= b <= nb implies (0 + j < #[trigger] off[b]
        <==> skel_lookup(s, 1, #[trigger] pts[j]) < b) by {
        assert(skel_lookup(sk, 1, pts[j]) == skel_lookup(s, 1, pts[j]));
    }
    lemma_range_sum_offsets(bs, off, 0, nb);
}

impl<const K: usize> Node<K> {
    /// Builds the tree for the points of the subtree at slot `skel_id` of the
    /// size skeleton: splitters split the points at their recorded left size,
    /// and each bucket's points are built recursively; a bucket that still
    /// holds all `whole` points of the enclosing build is built by median
    /// splitting instead.
    fn build_helper(
        points: Vec<[i32; K]>,
        size_skel: &Vec<SkeletonEntry>,
        skel_id: usize,
        bbox: BBox<K>,
        whole: usize,
        Ghost(bs): Ghost<Seq<usize>>,
        Ghost(off): Ghost<Seq<usize>>,
        Ghost(base): Ghost<int>,
    ) -> (node: Self)
        requires
            K > 0,
            points@.len() <= whole,
            helper_ready(points@, size_skel@, skel_id as int, bs, off, base),
        ensures
            node.wf(),
            node.capped(),
            node.points() == points@.to_multiset(),
            helper_shape(node, size_skel@, skel_id as int),
            size_skel@[skel_id as int] is Bucket && points@.len() < whole ==> build_result(
                node,
                points@,
                node.in_order(),
                bbox,
            ),
            size_skel@[skel_id as int] is Bucket && points@.len() >= whole ==> median_shape(
                node,
                node.in_order(),
                None,
                bbox,
            ),
        decreases whole, 0nat, SKELETON_SLOTS - skel_id,
    {
        let ghost s = size_skel@;
        let ghost i = skel_id as int;
        let ghost pts = points@;
        match size_skel[skel_id] {
            SkeletonEntry::Bucket(_) => {
                let mut points = points;
                if points.len() < whole {
                    Self::build(&mut points, bbox)
                } else {
                    let node = Self::build_simple(&mut points, None, bbox);
                    proof {
                        node.lemma_in_order_points();
                    }
                    node
                }
            },
            SkeletonEntry::Splitter { total, split, splitter } => {
                let median = splitter.0;
                let axis = splitter.1;
                proof {
                    lemma_split_ready(pts, s, i, bs, off, base);
                }
                let mut l_points = points;
                let r_points = l_points.split_off(split);
                let (lbbox, rbbox) = bbox.split(median, axis);
                proof {
                    assert(l_points@ =~= pts.take(split as int));
                    assert(r_points@ =~= pts.skip(split as int));
                }
                let ghost lp = pts.take(split as int);
                let ghost rp = pts.skip(split as int);
                let build_left = move || -> (built: Node<K>)
                    requires
                        K > 0,
                        l_points@ == lp,
                        lp.len() <= whole,
                        helper_ready(lp, s, 2 * i, bs, off, base),
                        size_skel@ == s,
                        skel_id == i,
                    ensures
                        built.wf(),
                        built.capped(),
                        built.points() == lp.to_multiset(),
                        helper_shape(built, s, 2 * i),
                {
                    Self::build_helper(
                        l_points,
                        size_skel,
                        2 * skel_id,
                        lbbox,
                        whole,
                        Ghost(bs),
                        Ghost(off),
                        Ghost(base),
                    )
                };
                let build_right = move || -> (built: Node<K>)
                    requires
                        K > 0,
                        r_points@ == rp,
                        rp.len() <= whole,
                        helper_ready(rp, s, 2 * i + 1, bs, off, base + split),
                        size_skel@ == s,
                        skel_id == i,
                    ensures
                        built.wf(),
                        built.capped(),
                        built.points() == rp.to_multiset(),
                        helper_shape(built, s, 2 * i + 1),
                {
                    Self::build_helper(
                        r_points,
                        size_skel,
                        2 * skel_id + 1,
                        rbbox,
                        whole,
                        Ghost(bs),
                        Ghost(off),
                        Ghost(base + split),
                    )
                };
                let (left, right) = join(build_left, build_right);
                proof {
                    lemma_split_points(pts, split as int);
                    pts.take(split as int).to_multiset_ensures();
                    pts.skip(split as int).to_multiset_ensures();
                    assert(total == pts.len());
                    assert forall|p: [i32; K]| #[trigger] left.points().contains(p) implies p[axis as int]
                        <= median by {
                        let j = choose|j: int| 0 <= j < split && #[trigger] pts[j] == p;
                    }
                    assert forall|p: [i32; K]| #[trigger] right.points().contains(p) implies p[axis as int]
                        >= median by {
                        let j = choose|j: int| split <= j < pts.len() && #[trigger] pts[j] == p;
                    }
                }
                let lsize = left.size();
                let node = Node::Interior {
                    size: total,
                    splitter: (median, axis),
                    bbox: BBox::merge(left.bbox(), right.bbox()),
                    left: Box::new(left),
                    right: Box::new(right),
                };
                proof {
                    assert(lsize == split);
                    assert(helper_shape(*node->left, s, 2 * i));
                    assert(helper_shape(*node->right, s, 2 * i + 1));
                }
                node
            },
            SkeletonEntry::Blank => {
                proof {
                    assert(false);
                }
                Node::default()
            },
        }
    }

    /// Builds a tree over `points`. Small inputs are built by median
    /// splitting; larger ones are routed through a skeleton built from a
    /// random sample: the points are put in bucket order, the skeleton records
    /// each bucket's size, and each bucket is built on its own. `points` is
    /// left laid out as the leaves of the tree from left to right.
    pub fn build(points: &mut Vec<[i32; K]>, bbox: BBox<K>) -> (node: Self)
        requires
            old(points)@.len() > PHI ==> K > 0,
        ensures
            build_result(node, old(points)@, final(points)@, bbox),
        decreases old(points)@.len(), 1nat, 0nat,
    {
        let n = points.len();
        let ghost before = points@;
        if n < SIMPLE_THRESHOLD {
            let node = Self::build_simple(points, None, bbox);
            proof {
                node.lemma_in_order_points();
            }
            return node;
        }
        // oversample the points
        let source: &Vec<[i32; K]> = points;
        let draw = |_c: usize| -> (p: [i32; K])
            requires
                n == source@.len(),
                n > 0,
            ensures
                source@.contains(p),
        {
            let r = random_index(n);
            let p = source[r];
            assert(source@[r as int] == p);
            p
        };
        let sampled = par_tabulate(NUM_BUCKETS * SIGMA, draw);
        proof {
            assert forall|i: int| 0 <= i < sampled@.len() implies before.contains(#[trigger] sampled@[i]) by {
                assert(draw.ensures((i as usize,), sampled@[i]));
            }
        }
        proof {
            lemma_pow2_values();
        }
        let ghost sample = sampled@;
        let skeleton = Skeleton::build(sampled, bbox);
        let ghost (layout, tree) = choose|layout: Seq<[i32; K]>, tree: Node<K>|
            layout.to_multiset() == sample.to_multiset() && median_shape(tree, layout, Some(LAMBDA), bbox)
                && mirrors(tree, skeleton.flattened@, 1, 0) && records_sizes(tree, skeleton.flattened@, 1, 0);
        // put the points in bucket order
        let ghost orig = points@;
        let (offsets, bucket_sizes) = points.sieve(NUM_BUCKETS, &skeleton);
        let ghost pts = points@;
        let ghost off = offsets@;
        let ghost bs = bucket_sizes@;
        let ghost sk = skeleton.flattened@;
        proof {
            assert forall|b: int, j: int| 0 <= b <= NUM_BUCKETS && 0 <= j < pts.len() implies (j
                < #[trigger] off[b] <==> skel_lookup(sk, 1, #[trigger] pts[j]) < b) by {
                assert(j < off[b] <==> skeleton.spec_bucket(points.elems()[j]) < b);
            }
            assert forall|j: int| 0 <= j < pts.len() implies 0 <= skel_lookup(sk, 1, #[trigger] pts[j]) by {
                lemma_lookup_range::<K>(sk, 1, pts[j]);
            }
            lemma_range_sum_offsets(bs, off, 0, NUM_BUCKETS as int);
            if off[0] > 0 {
                assert(skel_lookup(sk, 1, pts[0]) < 0);
            }
        }
        let size_skel = skeleton.size_tree::<K>(bucket_sizes.as_slice());
        proof {
            lemma_sieved_ready(pts, sk, size_skel.flattened@, bs, off, NUM_BUCKETS as int);
        }
        let mut owned: Vec<[i32; K]> = Vec::new();
        std::mem::swap(&mut owned, points);
        let node = Self::build_helper(
            owned,
            &size_skel.flattened,
            1,
            bbox,
            n,
            Ghost(bs),
            Ghost(off),
            Ghost(0),
        );
        node.flatten(points);
        proof {
            assert(points@ =~= node.in_order());
            node.lemma_in_order_points();
            lemma_splits_from_helper(tree, sk, size_skel.flattened@, node, 1, 0);
            assert(sample_tree(sample, layout, tree, before, bbox));
        }
        node
    }
}

/// A tree built from a size skeleton splits where the tree that the
/// skeleton mirrors does.
proof fn lemma_splits_from_helper<const K: usize>(
    tree: Node<K>,
    sk: Seq<SkeletonEntry>,
    ss: Seq<SkeletonEntry>,
    node: Node<K>,
    i: int,
    depth: int,
)
    requires
        mirrors(tree, sk, i, depth),
        shape_eq(sk, ss, i),
        helper_shape(node, ss, i),
    ensures
        splits_like(node, tree, depth),
    decreases tree,
{
    if let Node::Interior { left, right, .. } = tree {
        if depth < LAMBDA {
            if let Node::Interior { left: l, right: r, .. } = node {
                lemma_splits_from_helper(*left, sk, ss, *l, 2 * i, depth + 1);
                lemma_splits_from_helper(*right, sk, ss, *r, 2 * i + 1, depth + 1);
            }
        }
    }
}

pub proof fn lemma_pow2_pos(e: nat)
    ensures
        pow2(e) >= 1,
    decreases e,
{
    if e > 0 {
        lemma_pow2_pos((e - 1) as nat);
    }
}

impl<const K: usize> PKDTree<K> {
    /// Builds a tree over `points`, through sampled skeletons when there are
    /// many, within the points' bounding box.
    pub fn build(points: Vec<[i32; K]>) -> (tree: Self)
        requires
            points@.len() > PHI ==> K > 0,
        ensures
            tree.wf(),
            tree.spec_points() == points@.to_multiset(),
            exists|b: BBox<K>|
                b.covers_tightly(points@) && #[trigger] build_result(tree.0, points@, tree.0.in_order(), b),
            points@.len() < SIMPLE_THRESHOLD ==> tree.spec_bbox().covers_tightly(points@),
    {
        let bbox = BBox::build(points.as_slice());
        let mut points = points;
        let ghost before = points@;
        let node = Node::build(&mut points, bbox);
        proof {
            assert(build_result(node, before, node.in_order(), bbox));
        }
        PKDTree(node)
    }

    /// Builds a tree over `points` without a skeleton, splitting at medians
    /// within the points' bounding box.
    pub fn build_simple(points: Vec<[i32; K]>) -> (tree: Self)
        requires
            points@.len() > PHI ==> K > 0,
        ensures
            tree.wf(),
            tree.spec_points() == points@.to_multiset(),
            tree.spec_bbox().covers_tightly(points@),
            median_shape(tree.0, tree.0.in_order(), None, tree.spec_bbox()),
    {
        let bbox = BBox::build(points.as_slice());
        let mut points = points;
        let node = Node::build_simple(&mut points, None, bbox);
        PKDTree(node)
    }
}

} // verus!
