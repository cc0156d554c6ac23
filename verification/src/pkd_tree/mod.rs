//! The parallel kd-tree: its nodes, its skeleton (the top levels of a tree,
//! flattened in heap order) and the public tree type.

pub mod batch_insert;
pub mod build_tree;
pub mod nearest_neighbors;
pub mod skeleton;

use vstd::prelude::*;
use vstd::multiset::Multiset;
use crate::bbox::BBox;

verus! {

/// Number of levels in a tree skeleton.
pub const LAMBDA: usize = 6;

/// Largest number of points a leaf keeps before it is split.
pub const PHI: usize = 32;

/// Oversampling rate used when a skeleton is built from a sample.
pub const SIGMA: usize = 32;

/// Number of buckets of a complete skeleton (2 to the power `LAMBDA`).
pub const NUM_BUCKETS: usize = 64;

/// Number of heap slots of a flattened skeleton (2 to the power `LAMBDA + 1`).
pub const SKELETON_SLOTS: usize = 128;

/// Below this many points, trees are built and extended without a skeleton.
pub const SIMPLE_THRESHOLD: usize = SIGMA * NUM_BUCKETS;

/// Imbalance limit: a split is balanced when the left share differs from one
/// half by at most `ALPHA_NUM / ALPHA_DEN`.
pub const ALPHA_NUM: usize = 3;

pub const ALPHA_DEN: usize = 10;

/// A node of the tree: a leaf holding points, or an interior node that splits
/// space at `splitter.0` along axis `splitter.1`.
#[derive(Debug)]
pub enum Node<const K: usize> {
    Leaf { bbox: BBox<K>, points: Vec<[i32; K]> },
    Interior {
        size: usize,
        splitter: (i32, usize),
        bbox: BBox<K>,
        left: Box<Node<K>>,
        right: Box<Node<K>>,
    },
}

impl<const K: usize> Node<K> {
    /// The points stored in the subtree.
    pub open spec fn points(self) -> Multiset<[i32; K]>
        decreases self,
    {
        match self {
            Node::Leaf { points, .. } => points@.to_multiset(),
            Node::Interior { left, right, .. } => left.points().add(right.points()),
        }
    }

    /// Every interior node records its point count and separates its points:
    /// those on the left are at most the splitter, those on the right at least.
    pub open spec fn wf(self) -> bool
        decreases self,
    {
        match self {
            Node::Leaf { .. } => true,
            Node::Interior { size, splitter, left, right, .. } => {
                &&& splitter.1 < K
                &&& size == left.points().len() + right.points().len()
                &&& forall|p: [i32; K]| #[trigger]
                    left.points().contains(p) ==> p[splitter.1 as int] <= splitter.0
                &&& forall|p: [i32; K]| #[trigger]
                    right.points().contains(p) ==> p[splitter.1 as int] >= splitter.0
                &&& left.wf()
                &&& right.wf()
            },
        }
    }

    /// Every leaf of the subtree holds at most `PHI` points.
    pub open spec fn capped(self) -> bool
        decreases self,
    {
        match self {
            Node::Leaf { points, .. } => points.len() <= PHI,
            Node::Interior { left, right, .. } => left.capped() && right.capped(),
        }
    }

    pub open spec fn is_empty_leaf(self) -> bool {
        match self {
            Node::Leaf { points, .. } => points.len() == 0,
            _ => false,
        }
    }

    pub open spec fn spec_bbox(self) -> BBox<K> {
        match self {
            Node::Leaf { bbox, .. } => bbox,
            Node::Interior { bbox, .. } => bbox,
        }
    }

    /// Every interior node splits along an existing axis.
    pub open spec fn axes_ok(self) -> bool
        decreases self,
    {
        match self {
            Node::Leaf { .. } => true,
            Node::Interior { splitter, left, right, .. } => splitter.1 < K && left.axes_ok()
                && right.axes_ok(),
        }
    }

    pub proof fn lemma_wf_axes(self)
        requires
            self.wf(),
        ensures
            self.axes_ok(),
        decreases self,
    {
        if let Node::Interior { left, right, .. } = self {
            left.lemma_wf_axes();
            right.lemma_wf_axes();
        }
    }

    /// The tree is complete with interior nodes down to depth `levels` and
    /// leaves there.
    pub open spec fn full(self, levels: nat) -> bool
        decreases self,
    {
        match self {
            Node::Leaf { .. } => levels == 0,
            Node::Interior { left, right, .. } => levels > 0 && left.full((levels - 1) as nat)
                && right.full((levels - 1) as nat),
        }
    }

    /// The point count recorded at this node.
    pub open spec fn spec_size(self) -> int {
        match self {
            Node::Leaf { points, .. } => points.len() as int,
            Node::Interior { size, .. } => size as int,
        }
    }

    /// Number of points in the subtree.
    pub fn size(&self) -> (n: usize)
        ensures
            n == self.spec_size(),
            self.wf() ==> n == self.points().len(),
    {
        match self {
            Node::Leaf { points, .. } => {
                proof {
                    points@.to_multiset_ensures();
                }
                points.len()
            },
            Node::Interior { size, .. } => *size,
        }
    }

    /// The bounding box recorded at this node.
    pub fn bbox(&self) -> (b: BBox<K>)
        ensures
            b == self.spec_bbox(),
    {
        match self {
            Node::Leaf { bbox, .. } => *bbox,
            Node::Interior { bbox, .. } => *bbox,
        }
    }
}

impl<const K: usize> Default for Node<K> {
    fn default() -> (n: Self)
        ensures
            n.wf(),
            n.is_empty_leaf(),
            n.points() =~= Multiset::empty(),
            forall|i: int|
                0 <= i < K ==> n.spec_bbox().mins[i] == i32::MIN && n.spec_bbox().maxs[i]
                    == i32::MAX,
    {
        let points: Vec<[i32; K]> = Vec::new();
        proof {
            points@.to_multiset_ensures();
        }
        Node::Leaf { bbox: BBox::unbounded(), points }
    }
}

/// A slot of a flattened skeleton.
#[derive(Debug, Clone, Copy)]
pub enum SkeletonEntry {
    Blank,
    Bucket(usize),
    Splitter { total: usize, split: usize, splitter: (i32, usize) },
}

impl Default for SkeletonEntry {
    fn default() -> (e: Self)
        ensures
            e is Blank,
    {
        SkeletonEntry::Blank
    }
}

/// The first `LAMBDA` levels of a tree, flattened in heap order (the root in
/// slot 1, the children of slot `i` in slots `2i` and `2i + 1`); its leaves
/// are buckets numbered from left to right.
#[derive(Debug, Clone)]
pub struct Skeleton {
    pub n_buckets: usize,
    pub flattened: Vec<SkeletonEntry>,
}

/// A parallel kd-tree over points with `K` integer coordinates.
#[derive(Debug)]
pub struct PKDTree<const K: usize>(pub Node<K>);

impl<const K: usize> PKDTree<K> {
    /// The points held by the tree.
    pub open spec fn spec_points(&self) -> Multiset<[i32; K]> {
        self.0.points()
    }

    /// The tree's nodes are well formed and every leaf holds at most `PHI` points.
    pub open spec fn wf(&self) -> bool {
        self.0.wf() && self.0.capped()
    }

    /// The tree is a single leaf without points.
    pub open spec fn is_empty_leaf(&self) -> bool {
        self.0.is_empty_leaf()
    }

    pub open spec fn spec_bbox(&self) -> BBox<K> {
        self.0.spec_bbox()
    }

    /// The bounding box recorded at the root.
    pub fn bbox(&self) -> (b: BBox<K>)
        ensures
            b == self.spec_bbox(),
    {
        self.0.bbox()
    }
}

} // verus!
