use vstd::prelude::*;
use crate::bbox::{BBox, min_coord, max_coord, spec_min, spec_max};
use crate::sieve::{Sieve, BucketFn};
use crate::parallel::join;
use super::{Node, PKDTree, Skeleton, SkeletonEntry, PHI, SIMPLE_THRESHOLD, ALPHA_NUM, ALPHA_DEN, LAMBDA};
use super::skeleton::{mirrors, skel_lookup, skel_hi, lemma_lookup_range, lemma_shape_mirrors, lemma_shape_wf, lemma_range_sum_offsets, arbitrary_point};
use super::build_tree::{helper_ready, lemma_split_ready, lemma_split_points, lemma_sieved_ready, median_shape, build_result, copy_points};
use vstd::multiset::Multiset;

verus! {

broadcast use vstd::array::group_array_axioms;

/// After an insertion, `a` of `b` points lie left of a splitter. The split
/// stays when the left share differs from one half by at most
/// `ALPHA_NUM / ALPHA_DEN`; with no points at all it is rebuilt.
pub open spec fn balanced(a: int, b: int) -> bool {
    &&& b > 0
    &&& (2 * a - b) * ALPHA_DEN <= 2 * ALPHA_NUM * b
    &&& (b - 2 * a) * ALPHA_DEN <= 2 * ALPHA_NUM * b
}

/// Decides `balanced(a, b)` without overflow.
pub fn is_balanced(a: usize, b: usize) -> (r: bool)
    ensures
        r == balanced(a as int, b as int),
{
    let a2: i128 = 2 * (a as i128);
    let bb: i128 = b as i128;
    let num: i128 = ALPHA_NUM as i128;
    let den: i128 = ALPHA_DEN as i128;
    assert(num == 3 && den == 10);
    let bound: i128 = 2 * num * bb;
    b > 0 && (a2 - bb) * den <= bound && (bb - a2) * den <= bound
}

/// The points of `ms` below `m` along `axis`.
pub open spec fn side_below<const K: usize>(ms: Multiset<[i32; K]>, axis: int, m: i32) -> Multiset<[i32; K]> {
    ms.filter(|p: [i32; K]| p[axis] < m)
}

/// The points of `ms` at or above `m` along `axis`.
pub open spec fn side_above<const K: usize>(ms: Multiset<[i32; K]>, axis: int, m: i32) -> Multiset<[i32; K]> {
    ms.filter(|p: [i32; K]| p[axis] >= m)
}

/// `node` is what `Node::build` makes of the points `pts` in `bbox`, laid out
/// as the node's leaves.
pub open spec fn rebuilt<const K: usize>(node: Node<K>, pts: Seq<[i32; K]>, bbox: BBox<K>) -> bool {
    build_result(node, pts, node.in_order(), bbox)
}

/// What inserting `new` into a leaf gives: the leaf keeps its box and takes
/// the new points after its own while it holds at most `PHI` of them, and is
/// otherwise rebuilt in its own box, by median splitting when `by_median`
/// holds and by `Node::build` otherwise.
pub open spec fn leaf_insert<const K: usize>(old: Node<K>, new: Seq<[i32; K]>, node: Node<K>, by_median: bool) -> bool {
    old matches Node::Leaf { bbox: lb, points: ps } ==> if ps@.len() + new.len() <= PHI {
        &&& node matches Node::Leaf { bbox: b, points: q }
        &&& b == lb
        &&& q@ == ps@ + new
    } else if by_median {
        &&& node.points() == (ps@ + new).to_multiset()
        &&& median_shape(node, node.in_order(), None, lb)
    } else {
        rebuilt(node, ps@ + new, lb)
    }
}

/// What inserting `new` into `old` without a skeleton gives within `bbox`.
/// A leaf is handled by `leaf_insert`. At an interior node splitting at `m`
/// along `a`, the new points below `m` go left and the others right when the
/// left share of the result stays balanced; the node then keeps its
/// splitter and box. Otherwise it is rebuilt from all its points and the
/// new ones in `bbox`.
pub open spec fn simple_insert<const K: usize>(
    old: Node<K>,
    new: Seq<[i32; K]>,
    node: Node<K>,
    bbox: BBox<K>,
) -> bool {
    &&& leaf_insert(old, new, node, true)
    &&& old matches Node::Interior { size, splitter, bbox: nb, left, right } ==> {
        let lo = side_below(new.to_multiset(), splitter.1 as int, splitter.0);
        let hi = side_above(new.to_multiset(), splitter.1 as int, splitter.0);
        if balanced((lo.len() + left.points().len()) as int, (new.len() + size) as int) {
            &&& node matches Node::Interior { size: s2, splitter: sp2, bbox: b2, left: l2, right: r2 }
            &&& s2 == size + new.len()
            &&& sp2 == splitter
            &&& b2 == nb
            &&& l2.points() == left.points().add(lo)
            &&& r2.points() == right.points().add(hi)
        } else {
            exists|all: Seq<[i32; K]>|
                all.to_multiset() == old.points().add(new.to_multiset()) && #[trigger] rebuilt(node, all, bbox)
        }
    }
}

/// What inserting `new` into an interior node `old` through the skeleton of
/// its own top levels gives at the root: the new points below the root's
/// splitter go left and the others right when the left share stays balanced,
/// the root keeping its splitter and box; otherwise the node is rebuilt from
/// all its points and the new ones in `bbox`.
pub open spec fn root_insert<const K: usize>(
    old: Node<K>,
    new: Seq<[i32; K]>,
    node: Node<K>,
    bbox: BBox<K>,
) -> bool {
    old matches Node::Interior { size, splitter, bbox: nb, left, right } ==> {
        let lo = side_below(new.to_multiset(), splitter.1 as int, splitter.0);
        let hi = side_above(new.to_multiset(), splitter.1 as int, splitter.0);
        if balanced((lo.len() + left.points().len()) as int, (new.len() + size) as int) {
            &&& node matches Node::Interior { size: s2, splitter: sp2, bbox: b2, left: l2, right: r2 }
            &&& s2 == size + new.len()
            &&& sp2 == splitter
            &&& b2 == nb
            &&& l2.points() == left.points().add(lo)
            &&& r2.points() == right.points().add(hi)
        } else {
            exists|all: Seq<[i32; K]>|
                all.to_multiset() == old.points().add(new.to_multiset()) && #[trigger] rebuilt(node, all, bbox)
        }
    }
}

/// What `Node::batch_insert` does with `new` at the root of `old` within
/// `bbox`: a leaf is handled by `leaf_insert` with rebuilds by `Node::build`,
/// a small interior node as by `simple_insert`, and a large one as by
/// `root_insert`.
pub open spec fn insert_result<const K: usize>(
    old: Node<K>,
    new: Seq<[i32; K]>,
    node: Node<K>,
    bbox: BBox<K>,
) -> bool {
    &&& leaf_insert(old, new, node, false)
    &&& old is Interior && old.spec_size() < SIMPLE_THRESHOLD ==> simple_insert(old, new, node, bbox)
    &&& old is Interior && old.spec_size() >= SIMPLE_THRESHOLD ==> root_insert(old, new, node, bbox)
}

proof fn lemma_median_in_order<const K: usize>(node: Node<K>, s: Seq<[i32; K]>, bbox: BBox<K>)
    requires
        median_shape(node, s, None, bbox),
    ensures
        node.in_order() == s,
    decreases node,
{
    if let Node::Interior { left, right, .. } = node {
        let mid = (s.len() / 2) as int;
        lemma_median_in_order(*left, s.take(mid), left.spec_bbox());
        lemma_median_in_order(*right, s.skip(mid), right.spec_bbox());
        assert(s =~= s.take(mid) + s.skip(mid));
    }
}

/// Flattening a tree made by median splitting gives back its points as the
/// splitting laid them out: `flatten` appends exactly the buffer that
/// `build_simple` left behind.
pub proof fn law_flatten_round_trip<const K: usize>(
    node: Node<K>,
    laid_out: Seq<[i32; K]>,
    bbox: BBox<K>,
    dest_before: Seq<[i32; K]>,
    dest_after: Seq<[i32; K]>,
)
    requires
        median_shape(node, laid_out, None, bbox),
        dest_after == dest_before + node.in_order(),
    ensures
        dest_after == dest_before + laid_out,
{
    lemma_median_in_order(node, laid_out, bbox);
}

/// A sequence whose points below `m` along `axis` come first splits there
/// into the points below `m` and the others.
proof fn lemma_split_sides<const K: usize>(s: Seq<[i32; K]>, k: int, axis: int, m: i32)
    requires
        0 <= k <= s.len(),
        forall|j: int| 0 <= j < k ==> #[trigger] s[j][axis] < m,
        forall|j: int| k <= j < s.len() ==> #[trigger] s[j][axis] >= m,
    ensures
        s.take(k).to_multiset() =~= side_below(s.to_multiset(), axis, m),
        s.skip(k).to_multiset() =~= side_above(s.to_multiset(), axis, m),
{
    broadcast use vstd::multiset::group_multiset_axioms;

    let t = s.take(k);
    let u = s.skip(k);
    t.to_multiset_ensures();
    u.to_multiset_ensures();
    assert(s =~= t + u);
    vstd::seq_lib::lemma_multiset_commutative(t, u);
    assert forall|p: [i32; K]| #[trigger] t.to_multiset().count(p) == side_below(s.to_multiset(), axis, m).count(p) by {
        if t.to_multiset().count(p) > 0 {
            let c = choose|c: int| 0 <= c < t.len() && t[c] == p;
            assert(s[c] == p);
        }
        if u.to_multiset().count(p) > 0 {
            let c = choose|c: int| 0 <= c < u.len() && u[c] == p;
            assert(s[k + c] == p);
        }
    }
    assert forall|p: [i32; K]| #[trigger] u.to_multiset().count(p) == side_above(s.to_multiset(), axis, m).count(p) by {
        if t.to_multiset().count(p) > 0 {
            let c = choose|c: int| 0 <= c < t.len() && t[c] == p;
            assert(s[c] == p);
        }
        if u.to_multiset().count(p) > 0 {
            let c = choose|c: int| 0 <= c < u.len() && u[c] == p;
            assert(s[k + c] == p);
        }
    }
}

/// `b` covers the points `pts` and the box `old`: along each axis it runs
/// from the smaller to the larger of their extremes.
pub open spec fn merged_box<const K: usize>(b: BBox<K>, pts: Seq<[i32; K]>, old: BBox<K>) -> bool {
    forall|i: int|
        0 <= i < K ==> b.mins[i] == spec_min(min_coord(pts, i), old.mins[i] as int) && b.maxs[i]
            == spec_max(max_coord(pts, i), old.maxs[i] as int)
}

impl<const K: usize> Node<K> {
    /// The points of the subtree from left to right.
    pub open spec fn in_order(self) -> Seq<[i32; K]>
        decreases self,
    {
        match self {
            Node::Leaf { points, .. } => points@,
            Node::Interior { left, right, .. } => left.in_order() + right.in_order(),
        }
    }

    pub proof fn lemma_in_order_points(self)
        ensures
            self.in_order().to_multiset() == self.points(),
        decreases self,
    {
        match self {
            Node::Leaf { .. } => {},
            Node::Interior { left, right, .. } => {
                left.lemma_in_order_points();
                right.lemma_in_order_points();
                vstd::seq_lib::lemma_multiset_commutative(left.in_order(), right.in_order());
            },
        }
    }

    /// Appends the points of the subtree, from left to right, to `dest`.
    pub fn flatten(&self, dest: &mut Vec<[i32; K]>)
        ensures
            final(dest)@ == old(dest)@ + self.in_order(),
        decreases self,
    {
        match self {
            Node::Leaf { points, .. } => {
                let ghost start = dest@;
                let mut i: usize = 0;
                while i < points.len()
                    invariant
                        0 <= i <= points@.len(),
                        dest@ == start + points@.take(i as int),
                    decreases points@.len() - i,
                {
                    dest.push(points[i]);
                    i = i + 1;
                    proof {
                        assert(points@.take(i as int) =~= points@.take(i - 1).push(points@[i - 1]));
                    }
                }
                proof {
                    assert(points@.take(points@.len() as int) =~= points@);
                }
            },
            Node::Interior { left, right, .. } => {
                let ghost start = dest@;
                left.flatten(dest);
                right.flatten(dest);
                proof {
                    assert(dest@ =~= start + (left.in_order() + right.in_order()));
                }
            },
        }
    }

    /// Inserts `new_points` without a skeleton. A leaf takes them and is
    /// rebuilt by median splitting once it holds more than `PHI` points; an
    /// interior node sends the points below its splitter left and the others
    /// right when the result stays balanced, and is otherwise rebuilt from all
    /// its points and the new ones.
    pub fn batch_insert_simple(self, new_points: &Vec<[i32; K]>, bbox: BBox<K>) -> (node: Self)
        requires
            self.wf(),
            self.capped(),
            self.points().len() + new_points@.len() <= usize::MAX,
            self.points().len() + new_points@.len() > PHI ==> K > 0,
        ensures
            node.wf(),
            node.capped(),
            node.points() == self.points().add(new_points@.to_multiset()),
            simple_insert(self, new_points@, node, bbox),
        decreases self,
    {
        let new_points = copy_points(new_points);
        let ghost old_points = self.points();
        match self {
            Node::Leaf { bbox: leaf_bbox, points } => {
                let mut points = points;
                let mut new_points = new_points;
                let ghost np = new_points@;
                let ghost op = points@;
                points.append(&mut new_points);
                proof {
                    vstd::seq_lib::lemma_multiset_commutative(op, np);
                    points@.to_multiset_ensures();
                    op.to_multiset_ensures();
                    np.to_multiset_ensures();
                }
                proof {
                    assert(points@ =~= op + np);
                }
                if points.len() > PHI {
                    let rebuilt_leaf = Self::build_simple(&mut points, None, leaf_bbox);
                    proof {
                        rebuilt_leaf.lemma_in_order_points();
                    }
                    rebuilt_leaf
                } else {
                    Node::Leaf { bbox: leaf_bbox, points }
                }
            },
            Node::Interior { size, splitter, bbox: node_bbox, left, right } => {
                let total = new_points.len();
                let median = splitter.0;
                let axis = splitter.1;
                // partition the new points by the splitter
                let mut lo_pts: Vec<[i32; K]> = Vec::new();
                let mut hi_pts: Vec<[i32; K]> = Vec::new();
                let mut i: usize = 0;
                proof {
                    assert(new_points@.take(0) =~= Seq::<[i32; K]>::empty());
                    new_points@.take(0).to_multiset_ensures();
                    lo_pts@.to_multiset_ensures();
                    hi_pts@.to_multiset_ensures();
                    assert(new_points@.take(0).to_multiset() =~= lo_pts@.to_multiset().add(hi_pts@.to_multiset()));
                }
                while i < new_points.len()
                    invariant
                        0 <= i <= new_points@.len(),
                        axis < K,
                        new_points@.take(i as int).to_multiset() == lo_pts@.to_multiset().add(
                            hi_pts@.to_multiset(),
                        ),
                        lo_pts@.len() + hi_pts@.len() == i,
                        forall|j: int| 0 <= j < lo_pts@.len() ==> (#[trigger] lo_pts@[j])[axis as int] < median,
                        forall|j: int| 0 <= j < hi_pts@.len() ==> (#[trigger] hi_pts@[j])[axis as int] >= median,
                    decreases new_points@.len() - i,
                {
                    let p = new_points[i];
                    let ghost t = new_points@.take(i as int);
                    proof {
                        assert(new_points@.take(i + 1) =~= t.push(p));
                        t.to_multiset_ensures();
                        lo_pts@.to_multiset_ensures();
                        hi_pts@.to_multiset_ensures();
                    }
                    if p[axis] < median {
                        lo_pts.push(p);
                    } else {
                        hi_pts.push(p);
                    }
                    i = i + 1;
                }
                proof {
                    assert(new_points@.take(new_points@.len() as int) =~= new_points@);
                    lo_pts@.to_multiset_ensures();
                    hi_pts@.to_multiset_ensures();
                    new_points@.to_multiset_ensures();
                    let nm = new_points@.to_multiset();
                    assert(lo_pts@.to_multiset() =~= side_below(nm, axis as int, median)) by {
                        assert forall|p: [i32; K]| #[trigger] lo_pts@.to_multiset().count(p) == side_below(nm, axis as int, median).count(p) by {
                            if lo_pts@.to_multiset().count(p) > 0 {
                                assert(lo_pts@.contains(p));
                            }
                            if hi_pts@.to_multiset().count(p) > 0 {
                                assert(hi_pts@.contains(p));
                            }
                        }
                    }
                    assert(hi_pts@.to_multiset() =~= side_above(nm, axis as int, median)) by {
                        assert forall|p: [i32; K]| #[trigger] hi_pts@.to_multiset().count(p) == side_above(nm, axis as int, median).count(p) by {
                            if lo_pts@.to_multiset().count(p) > 0 {
                                assert(lo_pts@.contains(p));
                            }
                            if hi_pts@.to_multiset().count(p) > 0 {
                                assert(hi_pts@.contains(p));
                            }
                        }
                    }
                }
                let split = lo_pts.len();
                let left_size = left.size();
                if is_balanced(split + left_size, total + size) {
                    let (lbbox, rbbox) = bbox.split(median, axis);
                    let ghost lp = lo_pts@;
                    let ghost hp = hi_pts@;
                    let ghost lold = left.points();
                    let ghost rold = right.points();
                    let insert_left = move || -> (built: Node<K>)
                        requires
                            K > 0,
                            left.wf(),
                            left.capped(),
                            left.points() == lold,
                            lo_pts@ == lp,
                            lold.len() + lp.len() <= usize::MAX,
                        ensures
                            built.wf(),
                            built.capped(),
                            built.points() == lold.add(lp.to_multiset()),
                    { (*left).batch_insert_simple(&lo_pts, lbbox) };
                    let insert_right = move || -> (built: Node<K>)
                        requires
                            K > 0,
                            right.wf(),
                            right.capped(),
                            right.points() == rold,
                            hi_pts@ == hp,
                            rold.len() + hp.len() <= usize::MAX,
                        ensures
                            built.wf(),
                            built.capped(),
                            built.points() == rold.add(hp.to_multiset()),
                    { (*right).batch_insert_simple(&hi_pts, rbbox) };
                    proof {
                        lp.to_multiset_ensures();
                        hp.to_multiset_ensures();
                    }
                    let (new_left, new_right) = join(insert_left, insert_right);
                    proof {
                        lp.to_multiset_ensures();
                        hp.to_multiset_ensures();
                        assert forall|p: [i32; K]| #[trigger] new_left.points().contains(p) implies p[axis as int]
                            <= median by {
                            if !left.points().contains(p) {
                                assert(lp.contains(p));
                            }
                        }
                        assert forall|p: [i32; K]| #[trigger] new_right.points().contains(p) implies p[axis as int]
                            >= median by {
                            if !right.points().contains(p) {
                                assert(hp.contains(p));
                            }
                        }
                        assert(new_left.points().add(new_right.points()) =~= old_points.add(new_points@.to_multiset()));
                    }
                    return Node::Interior {
                        size: size + total,
                        splitter,
                        bbox: node_bbox,
                        left: Box::new(new_left),
                        right: Box::new(new_right),
                    };
                }
                // rebuild from the old and the new points
                let mut all_points: Vec<[i32; K]> = Vec::new();
                left.flatten(&mut all_points);
                right.flatten(&mut all_points);
                let ghost flat = all_points@;
                let ghost lp = lo_pts@;
                let ghost hp = hi_pts@;
                all_points.append(&mut lo_pts);
                all_points.append(&mut hi_pts);
                proof {
                    left.lemma_in_order_points();
                    right.lemma_in_order_points();
                    assert(flat =~= left.in_order() + right.in_order());
                    vstd::seq_lib::lemma_multiset_commutative(left.in_order(), right.in_order());
                    vstd::seq_lib::lemma_multiset_commutative(flat, lp);
                    vstd::seq_lib::lemma_multiset_commutative(flat + lp, hp);
                    assert(all_points@ =~= flat + lp + hp);
                    all_points@.to_multiset_ensures();
                    assert(all_points@.to_multiset() =~= old_points.add(new_points@.to_multiset()));
                }
                let ghost all = all_points@;
                let rebuilt_node = Self::build(&mut all_points, bbox);
                proof {
                    assert(rebuilt(rebuilt_node, all, bbox));
                }
                rebuilt_node
            },
        }
    }
}

impl<const K: usize> Node<K> {
    /// Inserts the new points of the subtree at slot `skel_id` of a size
    /// skeleton of this node's top levels: at a bucket the points are inserted
    /// into the node; at a splitter they are split at the recorded left size
    /// when the result stays balanced, and the node is otherwise rebuilt from
    /// all its points and the new ones.
    fn batch_insert_helper(
        self,
        new_points: Vec<[i32; K]>,
        size_skel: &Vec<SkeletonEntry>,
        skel_id: usize,
        bbox: BBox<K>,
        Ghost(bs): Ghost<Seq<usize>>,
        Ghost(off): Ghost<Seq<usize>>,
        Ghost(base): Ghost<int>,
        Ghost(depth): Ghost<int>,
    ) -> (node: Self)
        requires
            K > 0,
            self.wf(),
            self.points().len() + new_points@.len() <= usize::MAX,
            helper_ready(new_points@, size_skel@, skel_id as int, bs, off, base),
            mirrors(self, size_skel@, skel_id as int, depth),
            skel_id == 1 ==> size_skel@[1] is Splitter,
            self.capped(),
        ensures
            node.wf(),
            node.capped(),
            node.points() == self.points().add(new_points@.to_multiset()),
            size_skel@[skel_id as int] matches SkeletonEntry::Splitter { total, split, .. } ==> (
            self matches Node::Interior { size, splitter, bbox: nb, left, right } ==> if balanced(
                (split + left.points().len()) as int,
                (total + size) as int,
            ) {
                &&& node matches Node::Interior { size: s2, splitter: sp2, bbox: b2, left: l2, right: r2 }
                &&& s2 == size + total
                &&& sp2 == splitter
                &&& b2 == nb
                &&& l2.points() == left.points().add(new_points@.take(split as int).to_multiset())
                &&& r2.points() == right.points().add(new_points@.skip(split as int).to_multiset())
            } else {
                rebuilt(node, self.in_order() + new_points@, bbox)
            }),
        decreases self, (if skel_id == 1 { 1nat } else { 3nat }),
    {
        let ghost s = size_skel@;
        let ghost i = skel_id as int;
        let ghost pts = new_points@;
        let ghost me = self;
        let ghost old_points = self.points();
        match size_skel[skel_id] {
            SkeletonEntry::Bucket(_) => self.batch_insert(&new_points, bbox),
            SkeletonEntry::Splitter { total, split, .. } => {
                proof {
                    lemma_split_ready(pts, s, i, bs, off, base);
                }
                match self {
                    Node::Interior { size, splitter, bbox: node_bbox, left, right } => {
                        let median = splitter.0;
                        let axis = splitter.1;
                        let left_size = left.size();
                        if is_balanced(split + left_size, total + size) {
                            let mut lo_pts = new_points;
                            let hi_pts = lo_pts.split_off(split);
                            let (lbbox, rbbox) = bbox.split(median, axis);
                            proof {
                                assert(lo_pts@ =~= pts.take(split as int));
                                assert(hi_pts@ =~= pts.skip(split as int));
                                lemma_split_points(pts, split as int);
                                lo_pts@.to_multiset_ensures();
                                hi_pts@.to_multiset_ensures();
                            }
                            let ghost lp = pts.take(split as int);
                            let ghost hp = pts.skip(split as int);
                            let ghost lold = left.points();
                            let ghost rold = right.points();
                            let insert_left = move || -> (built: Node<K>)
                                requires
                                    K > 0,
                                    left.wf(),
                                    left.capped(),
                                    left.points() == lold,
                                    lo_pts@ == lp,
                                    lold.len() + lp.len() <= usize::MAX,
                                    helper_ready(lp, s, 2 * i, bs, off, base),
                                    mirrors(*left, s, 2 * i, depth + 1),
                                    size_skel@ == s,
                                    skel_id == i,
                                ensures
                                    built.wf(),
                                    built.capped(),
                                    built.points() == lold.add(lp.to_multiset()),
                            {
                                (*left).batch_insert_helper(
                                    lo_pts,
                                    size_skel,
                                    2 * skel_id,
                                    lbbox,
                                    Ghost(bs),
                                    Ghost(off),
                                    Ghost(base),
                                    Ghost(depth + 1),
                                )
                            };
                            let insert_right = move || -> (built: Node<K>)
                                requires
                                    K > 0,
                                    right.wf(),
                                    right.capped(),
                                    right.points() == rold,
                                    hi_pts@ == hp,
                                    rold.len() + hp.len() <= usize::MAX,
                                    helper_ready(hp, s, 2 * i + 1, bs, off, base + split),
                                    mirrors(*right, s, 2 * i + 1, depth + 1),
                                    size_skel@ == s,
                                    skel_id == i,
                                ensures
                                    built.wf(),
                                    built.capped(),
                                    built.points() == rold.add(hp.to_multiset()),
                            {
                                (*right).batch_insert_helper(
                                    hi_pts,
                                    size_skel,
                                    2 * skel_id + 1,
                                    rbbox,
                                    Ghost(bs),
                                    Ghost(off),
                                    Ghost(base + split),
                                    Ghost(depth + 1),
                                )
                            };
                            let (new_left, new_right) = join(insert_left, insert_right);
                            proof {
                                assert forall|p: [i32; K]| #[trigger] new_left.points().contains(p)
                                    implies p[axis as int] <= median by {
                                    if !left.points().contains(p) {
                                        let j = choose|j: int| 0 <= j < split && #[trigger] pts[j] == p;
                                    }
                                }
                                assert forall|p: [i32; K]| #[trigger] new_right.points().contains(p)
                                    implies p[axis as int] >= median by {
                                    if !right.points().contains(p) {
                                        let j = choose|j: int| split <= j < pts.len() && #[trigger] pts[j] == p;
                                    }
                                }
                                assert(new_left.points().add(new_right.points()) =~= old_points.add(
                                    pts.to_multiset(),
                                ));
                            }
                            return Node::Interior {
                                size: size + total,
                                splitter,
                                bbox: node_bbox,
                                left: Box::new(new_left),
                                right: Box::new(new_right),
                            };
                        }
                        // rebuild from the old and the new points
                        let mut new_points = new_points;
                        let mut all_points: Vec<[i32; K]> = Vec::new();
                        left.flatten(&mut all_points);
                        right.flatten(&mut all_points);
                        let ghost flat = all_points@;
                        all_points.append(&mut new_points);
                        proof {
                            left.lemma_in_order_points();
                            right.lemma_in_order_points();
                            assert(flat =~= left.in_order() + right.in_order());
                            vstd::seq_lib::lemma_multiset_commutative(left.in_order(), right.in_order());
                            vstd::seq_lib::lemma_multiset_commutative(flat, pts);
                            all_points@.to_multiset_ensures();
                            pts.to_multiset_ensures();
                            assert(all_points@ =~= me.in_order() + pts) by {
                                assert(all_points@ =~= flat + pts);
                            }
                        }
                        Self::build(&mut all_points, bbox)
                    },
                    Node::Leaf { .. } => {
                        proof {
                            assert(false);
                        }
                        Node::default()
                    },
                }
            },
            SkeletonEntry::Blank => {
                proof {
                    assert(false);
                }
                Node::default()
            },
        }
    }

    /// Inserts `new_points`. A leaf takes them and is rebuilt once it holds
    /// more than `PHI` points; a small interior node uses `batch_insert_simple`;
    /// a large one routes the points through the skeleton of its own top
    /// levels and inserts each bucket's points where that bucket sits.
    pub fn batch_insert(self, new_points: &Vec<[i32; K]>, bbox: BBox<K>) -> (node: Self)
        requires
            self.wf(),
            self.capped(),
            self.points().len() + new_points@.len() <= usize::MAX,
            self.points().len() + new_points@.len() > PHI ==> K > 0,
        ensures
            node.wf(),
            node.capped(),
            node.points() == self.points().add(new_points@.to_multiset()),
            insert_result(self, new_points@, node, bbox),
        decreases self, 2nat,
    {
        let new_points = copy_points(new_points);
        let ghost old_points = self.points();
        let size = self.size();
        match self {
            Node::Leaf { bbox: leaf_bbox, points } => {
                let mut points = points;
                let mut new_points = new_points;
                let ghost np = new_points@;
                let ghost op = points@;
                points.append(&mut new_points);
                proof {
                    vstd::seq_lib::lemma_multiset_commutative(op, np);
                    points@.to_multiset_ensures();
                    op.to_multiset_ensures();
                    np.to_multiset_ensures();
                }
                proof {
                    assert(points@ =~= op + np);
                }
                if points.len() > PHI {
                    Self::build(&mut points, leaf_bbox)
                } else {
                    Node::Leaf { bbox: leaf_bbox, points }
                }
            },
            node => {
                if size < SIMPLE_THRESHOLD {
                    return node.batch_insert_simple(&new_points, bbox);
                }
                proof {
                    node.lemma_wf_axes();
                }
                let skeleton = Skeleton::from_node(&node);
                let ghost orig_new = new_points@;
                let ghost me = node;
                let mut new_points = new_points;
                let (offsets, bucket_sizes) = new_points.sieve(skeleton.num_buckets(), &skeleton);
                let ghost pts = new_points@;
                let ghost off = offsets@;
                let ghost bs = bucket_sizes@;
                let ghost sk = skeleton.flattened@;
                let ghost nb = skeleton.n_buckets as int;
                proof {
                    assert forall|b: int, j: int| 0 <= b <= nb && 0 <= j < pts.len() implies (j
                        < #[trigger] off[b] <==> skel_lookup(sk, 1, #[trigger] pts[j]) < b) by {
                        assert(j < off[b] <==> skeleton.spec_bucket(new_points.elems()[j]) < b);
                    }
                    assert forall|j: int| 0 <= j < pts.len() implies 0 <= skel_lookup(sk, 1, #[trigger] pts[j]) by {
                        lemma_lookup_range::<K>(sk, 1, pts[j]);
                    }
                    super::skeleton::lemma_range_sum_offsets(bs, off, 0, nb);
                    if pts.len() > 0 && off[0] > 0 {
                        assert(skel_lookup(sk, 1, pts[0]) < 0);
                    }
                    pts.to_multiset_ensures();
                }
                let size_skel = skeleton.size_tree::<K>(bucket_sizes.as_slice());
                proof {
                    lemma_sieved_ready(pts, sk, size_skel.flattened@, bs, off, nb);
                    lemma_shape_mirrors(node, sk, size_skel.flattened@, 1, 0);
                    assert(size_skel.flattened@[1] is Splitter);
                }
                let ghost ss = size_skel.flattened@;
                let result = node.batch_insert_helper(
                    new_points,
                    &size_skel.flattened,
                    1,
                    bbox,
                    Ghost(bs),
                    Ghost(off),
                    Ghost(0),
                    Ghost(0),
                );
                proof {
                    if let Node::Interior { splitter, left, .. } = me {
                        let m = splitter.0;
                        let a = splitter.1 as int;
                        let h = skel_hi(sk, 2);
                        assert(sk[1] matches SkeletonEntry::Splitter { splitter: sp, .. } && sp == splitter);
                        lemma_shape_wf::<K>(sk, ss, 1);
                        lemma_shape_wf::<K>(sk, ss, 2);
                        lemma_lookup_range::<K>(sk, 2, arbitrary_point::<K>());
                        lemma_lookup_range::<K>(sk, 3, arbitrary_point::<K>());
                        assert(skel_hi(sk, 1) == skel_hi(sk, 3));
                        assert(h <= nb);
                        lemma_range_sum_offsets(bs, off, 0, h);
                        assert forall|j: int| 0 <= j < pts.len() implies (#[trigger] pts[j])[a] < m
                            <==> j < off[h] by {
                            lemma_lookup_range::<K>(sk, 2, pts[j]);
                            lemma_lookup_range::<K>(sk, 3, pts[j]);
                        }
                        assert(off[h] <= pts.len()) by {
                            if off[h] > pts.len() {
                                assert(false);
                            }
                        }
                        lemma_split_sides(pts, off[h] as int, a, m);
                        pts.take(off[h] as int).to_multiset_ensures();
                        assert(pts.to_multiset() == orig_new.to_multiset());
                    }
                }
                result
            },
        }
    }
}

impl<const K: usize> PKDTree<K> {
    /// Inserts `points` through skeletons, within a box that covers the
    /// tree's box and the new points.
    pub fn batch_insert(&mut self, points: Vec<[i32; K]>)
        requires
            old(self).wf(),
            old(self).spec_points().len() + points@.len() <= usize::MAX,
            old(self).spec_points().len() + points@.len() > PHI ==> K > 0,
        ensures
            final(self).wf(),
            final(self).spec_points() == old(self).spec_points().add(points@.to_multiset()),
            exists|b: BBox<K>|
                #[trigger] merged_box(b, points@, old(self).spec_bbox()) && insert_result(
                    old(self).0,
                    points@,
                    final(self).0,
                    b,
                ),
    {
        let bbox = BBox::merge(BBox::build(points.as_slice()), self.bbox());
        let mut root = Node::default();
        std::mem::swap(&mut self.0, &mut root);
        let ghost pts = points@;
        self.0 = root.batch_insert(&points, bbox);
        proof {
            assert(merged_box(bbox, pts, old(self).spec_bbox()));
        }
    }

    /// Inserts `points` without skeletons, within a box that covers the
    /// tree's box and the new points.
    pub fn batch_insert_simple(&mut self, points: Vec<[i32; K]>)
        requires
            old(self).wf(),
            old(self).spec_points().len() + points@.len() <= usize::MAX,
            old(self).spec_points().len() + points@.len() > PHI ==> K > 0,
        ensures
            final(self).wf(),
            final(self).spec_points() == old(self).spec_points().add(points@.to_multiset()),
            exists|b: BBox<K>|
                #[trigger] merged_box(b, points@, old(self).spec_bbox()) && simple_insert(
                    old(self).0,
                    points@,
                    final(self).0,
                    b,
                ),
    {
        let bbox = BBox::merge(BBox::build(points.as_slice()), self.bbox());
        let mut root = Node::default();
        std::mem::swap(&mut self.0, &mut root);
        let ghost pts = points@;
        self.0 = root.batch_insert_simple(&points, bbox);
        proof {
            assert(merged_box(bbox, pts, old(self).spec_bbox()));
        }
    }
}

} // verus!
