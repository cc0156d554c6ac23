//! The interface shared by the kd-trees: batch construction, batch insertion
//! and batch nearest-neighbour queries.

use vstd::prelude::*;
use vstd::multiset::Multiset;
use crate::point::sq_dist;
use crate::pkd_tree::{PKDTree, PHI};
use crate::pkd_tree::nearest_neighbors::{is_knn, law_knn_unique, ranks_before, neighbor_le, neighbor_points, lemma_knn_complete, law_complete_answers_agree};

verus! {

/// No point of `pool` lies on a line through `q` parallel to an axis: every
/// point differs from `q` in at least two coordinates. (A point of `pool`
/// equal to `q` lies on such a line.)
pub open spec fn no_aligned<const K: usize>(pool: Multiset<[i32; K]>, q: [i32; K]) -> bool {
    forall|p: [i32; K], a: int|
        #![trigger pool.count(p), p[a]]
        pool.count(p) > 0 && 0 <= a < K ==> sq_dist(p, q) != (p[a] - q[a]) * (p[a] - q[a])
}

/// `found` answers a `num`-nearest-neighbour query for `q` among `pool`:
/// distances ascend and are exact, its points are taken from `pool`, it is
/// not empty when there is something to find, and no point of `pool` is
/// nearer to `q` than its first entry. When no point of `pool` lies on a
/// line through `q` parallel to an axis, it is moreover complete: it has at
/// least `min(num, |pool|)` entries, and no point of `pool` left out is
/// nearer to `q` than its last entry.
pub open spec fn nearest_answer<const K: usize>(
    found: Seq<(u128, [i32; K])>,
    pool: Multiset<[i32; K]>,
    q: [i32; K],
    num: nat,
) -> bool {
    &&& forall|a: int, b: int| 0 <= a <= b < found.len() ==> (#[trigger] found[a]).0 <= (#[trigger] found[b]).0
    &&& forall|a: int| 0 <= a < found.len() ==> (#[trigger] found[a]).0 == sq_dist(found[a].1, q)
    &&& neighbor_points(found).subset_of(pool)
    &&& pool.len() > 0 && num > 0 ==> found.len() > 0
    &&& forall|p: [i32; K]| pool.count(p) > 0 && found.len() > 0 ==> sq_dist(p, q) >= found[0].0
    &&& no_aligned(pool, q) ==> found.len() >= (if num <= pool.len() { num } else { pool.len() })
    &&& no_aligned(pool, q) ==> forall|p: [i32; K]|
        pool.count(p) > #[trigger] neighbor_points(found).count(p) ==> found.len() > 0 && sq_dist(p, q)
            >= found.last().0
}

/// An exact answer to a `num`-nearest-neighbour query is an answer.
pub proof fn lemma_knn_answers<const K: usize>(
    found: Seq<(u128, [i32; K])>,
    pool: Multiset<[i32; K]>,
    q: [i32; K],
    num: nat,
)
    requires
        is_knn(found, pool, q, num),
    ensures
        nearest_answer(found, pool, q, num),
{
    let pts = found.map_values(|e: (u128, [i32; K])| e.1);
    pts.to_multiset_ensures();
    assert forall|p: [i32; K]| pool.count(p) > 0 && found.len() > 0 implies sq_dist(p, q)
        >= found[0].0 by {
        if neighbor_points(found).count(p) > 0 {
            assert(pts.contains(p));
            let i = choose|i: int| 0 <= i < pts.len() && pts[i] == p;
            assert(found[i].1 == p);
            assert(neighbor_le(found[0], found[i]));
        } else {
            assert(ranks_before(found.last(), sq_dist(p, q), p));
            assert(neighbor_le(found[0], found[found.len() - 1]));
        }
    }
    lemma_knn_complete(found, pool, q, num);
}

/// When no point lies on a line through the query parallel to an axis, an
/// answer agrees with the exact `num`-nearest answer: it has at least as many
/// entries, and its first entries are at the exact answer's distances.
pub proof fn law_answer_matches_exact<const K: usize>(
    found: Seq<(u128, [i32; K])>,
    exact: Seq<(u128, [i32; K])>,
    pool: Multiset<[i32; K]>,
    q: [i32; K],
    num: nat,
)
    requires
        nearest_answer(found, pool, q, num),
        is_knn(exact, pool, q, num),
        no_aligned(pool, q),
    ensures
        found.len() >= exact.len(),
        forall|j: int| 0 <= j < exact.len() ==> (#[trigger] found[j]).0 == exact[j].0,
{
    lemma_knn_complete(exact, pool, q, num);
    law_complete_answers_agree(found, exact, pool, q);
}

/// The naive tree and the skeleton tree answer alike: holding the same
/// points, their exact answers to a query are equal, and have `min(num, n)`
/// entries for `n` points.
pub proof fn law_simple_matches_pkd<const K: usize>(
    simple: SimplePKDTree<K>,
    pkd: PKDTree<K>,
    q: [i32; K],
    num: nat,
    from_simple: Seq<(u128, [i32; K])>,
    from_pkd: Seq<(u128, [i32; K])>,
)
    requires
        simple.spec_points() == pkd.spec_points(),
        is_knn(from_simple, BatchParKDTree::spec_points(&simple), q, num),
        is_knn(from_pkd, PKDTree::spec_points(&pkd), q, num),
    ensures
        from_simple == from_pkd,
        from_simple.len() == (if num <= pkd.spec_points().len() { num } else { pkd.spec_points().len() }),
{
    law_knn_unique(from_simple, from_pkd, pkd.spec_points(), q, num);
}

/// Any two answers to the same query over the same points agree on the
/// distance of the nearest point.
pub proof fn law_nearest_distance_agrees<const K: usize>(
    f1: Seq<(u128, [i32; K])>,
    f2: Seq<(u128, [i32; K])>,
    pool: Multiset<[i32; K]>,
    q: [i32; K],
    num: nat,
)
    requires
        nearest_answer(f1, pool, q, num),
        nearest_answer(f2, pool, q, num),
        f1.len() > 0,
        f2.len() > 0,
    ensures
        f1[0].0 == f2[0].0,
{
    lemma_first_in_pool(f1, pool);
    lemma_first_in_pool(f2, pool);
}

proof fn lemma_first_in_pool<const K: usize>(f: Seq<(u128, [i32; K])>, pool: Multiset<[i32; K]>)
    requires
        neighbor_points(f).subset_of(pool),
        f.len() > 0,
    ensures
        pool.count(f[0].1) > 0,
{
    let m = f.map_values(|e: (u128, [i32; K])| e.1);
    m.to_multiset_ensures();
    assert(m[0] == f[0].1);
}

/// A kd-tree over points with `K` integer coordinates, built and extended in batches.
pub trait BatchParKDTree<const K: usize>: Sized {
    /// The points held by the tree.
    spec fn spec_points(&self) -> Multiset<[i32; K]>;

    /// The tree's internal invariant holds.
    spec fn well_formed(&self) -> bool;

    /// The tree can answer a query for `q`.
    spec fn can_answer(&self, q: [i32; K]) -> bool;

    /// A tree holding exactly `points`.
    fn build(points: Vec<[i32; K]>) -> (tree: Self)
        requires
            points@.len() > PHI ==> K > 0,
        ensures
            tree.well_formed(),
            tree.spec_points() == points@.to_multiset(),
    ;

    /// Adds `points` to the tree.
    fn batch_insert(&mut self, points: Vec<[i32; K]>)
        requires
            old(self).well_formed(),
            old(self).spec_points().len() + points@.len() <= usize::MAX,
            old(self).spec_points().len() + points@.len() > PHI ==> K > 0,
        ensures
            final(self).well_formed(),
            final(self).spec_points() == old(self).spec_points().add(points@.to_multiset()),
    ;

    /// For each query point, its nearest neighbours among the tree's points,
    /// as (squared distance, point) pairs by ascending distance.
    fn batch_nearests(&self, points: &[[i32; K]], num: usize) -> (found: Vec<Vec<(u128, [i32; K])>>)
        requires
            self.well_formed(),
            num > 0,
            forall|i: int| 0 <= i < points@.len() ==> self.can_answer(#[trigger] points@[i]),
        ensures
            found@.len() == points@.len(),
            forall|i: int|
                0 <= i < points@.len() ==> nearest_answer(
                    (#[trigger] found@[i])@,
                    self.spec_points(),
                    points@[i],
                    num as nat,
                ),
    ;
}

impl<const K: usize> BatchParKDTree<K> for PKDTree<K> {
    open spec fn spec_points(&self) -> Multiset<[i32; K]> {
        PKDTree::spec_points(self)
    }

    open spec fn well_formed(&self) -> bool {
        self.wf()
    }

    open spec fn can_answer(&self, q: [i32; K]) -> bool {
        true
    }

    /// Builds the tree through sampled skeletons.
    fn build(points: Vec<[i32; K]>) -> (tree: Self) {
        PKDTree::build(points)
    }

    /// Inserts through skeletons, within a box that covers the tree's box and
    /// the new points.
    fn batch_insert(&mut self, points: Vec<[i32; K]>) {
        PKDTree::batch_insert(self, points);
    }

    fn batch_nearests(&self, points: &[[i32; K]], num: usize) -> (found: Vec<Vec<(u128, [i32; K])>>)
        ensures
            forall|i: int|
                0 <= i < points@.len() ==> is_knn(
                    (#[trigger] found@[i])@,
                    PKDTree::spec_points(self),
                    points@[i],
                    num as nat,
                ),
    {
        let found = PKDTree::batch_nearests(self, points, num);
        proof {
            assert forall|i: int| 0 <= i < points@.len() implies nearest_answer(
                (#[trigger] found@[i])@,
                PKDTree::spec_points(self),
                points@[i],
                num as nat,
            ) by {
                lemma_knn_answers(found@[i]@, PKDTree::spec_points(self), points@[i], num as nat);
            }
        }
        found
    }
}

/// A parallel kd-tree that is built by median splitting and extended without
/// skeletons.
#[derive(Debug)]
pub struct SimplePKDTree<const K: usize>(pub PKDTree<K>);

impl<const K: usize> BatchParKDTree<K> for SimplePKDTree<K> {
    open spec fn spec_points(&self) -> Multiset<[i32; K]> {
        self.0.spec_points()
    }

    open spec fn well_formed(&self) -> bool {
        self.0.wf()
    }

    open spec fn can_answer(&self, q: [i32; K]) -> bool {
        true
    }

    fn build(points: Vec<[i32; K]>) -> (tree: Self) {
        SimplePKDTree(PKDTree::build_simple(points))
    }

    fn batch_insert(&mut self, points: Vec<[i32; K]>) {
        self.0.batch_insert_simple(points);
    }

    fn batch_nearests(&self, points: &[[i32; K]], num: usize) -> (found: Vec<Vec<(u128, [i32; K])>>)
        ensures
            forall|i: int|
                0 <= i < points@.len() ==> is_knn(
                    (#[trigger] found@[i])@,
                    self.0.spec_points(),
                    points@[i],
                    num as nat,
                ),
    {
        let found = self.0.batch_nearests(points, num);
        proof {
            assert forall|i: int| 0 <= i < points@.len() implies nearest_answer(
                (#[trigger] found@[i])@,
                self.0.spec_points(),
                points@[i],
                num as nat,
            ) by {
                lemma_knn_answers(found@[i]@, self.0.spec_points(), points@[i], num as nat);
            }
        }
        found
    }
}

/// A tree extended by a batch holds the points of a tree built from all the
/// points at once, so the two answer every query alike.
pub proof fn law_insert_as_rebuild<const K: usize, T: BatchParKDTree<K>>(
    first: Seq<[i32; K]>,
    second: Seq<[i32; K]>,
    built: T,
    extended: T,
    rebuilt: T,
    q: [i32; K],
    num: nat,
    found_extended: Seq<(u128, [i32; K])>,
    found_rebuilt: Seq<(u128, [i32; K])>,
)
    requires
        built.spec_points() == first.to_multiset(),
        extended.spec_points() == built.spec_points().add(second.to_multiset()),
        rebuilt.spec_points() == (first + second).to_multiset(),
        is_knn(found_extended, extended.spec_points(), q, num),
        is_knn(found_rebuilt, rebuilt.spec_points(), q, num),
    ensures
        extended.spec_points() == rebuilt.spec_points(),
        found_extended == found_rebuilt,
{
    vstd::seq_lib::lemma_multiset_commutative(first, second);
    law_knn_unique(found_extended, found_rebuilt, rebuilt.spec_points(), q, num);
}

} // verus!
