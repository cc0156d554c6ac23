//! Batch kd-trees backed by the `kd_tree` crate, one per dimension, behind the
//! same interface as the PKD tree. Insertion rebuilds the tree from all points.

use vstd::prelude::*;
use vstd::multiset::Multiset;
use crate::point::sq_dist;
use crate::pkd_tree::nearest_neighbors::neighbor_points;
use crate::batch_par_kd_tree_trait::{BatchParKDTree, nearest_answer, no_aligned};
use crate::parallel::par_map;

verus! {

/// A two-dimensional tree of the `kd_tree` crate.
#[verifier::external_body]
pub struct LibKDTree2 {
    tree: kd_tree::KdTree<[i32; 2]>,
}

/// The points held by a two-dimensional tree of the `kd_tree` crate.
pub uninterp spec fn kd2_items(tree: LibKDTree2) -> Multiset<[i32; 2]>;

/// Builds a tree with `kd_tree::KdTreeN::par_build`, which reorders `points`
/// in place into kd order and keeps them. Claimed: the tree holds exactly `points`.
#[verifier::external_body]
fn kd2_par_build(points: Vec<[i32; 2]>) -> (tree: LibKDTree2)
    ensures
        kd2_items(tree) == points@.to_multiset(),
{
    LibKDTree2 { tree: kd_tree::KdTree::par_build(points) }
}

/// Copies the tree's points out with `to_vec` on the slice that the tree
/// dereferences to. Claimed: the copy holds exactly the tree's points.
#[verifier::external_body]
fn kd2_to_vec(tree: &LibKDTree2) -> (points: Vec<[i32; 2]>)
    ensures
        points@.to_multiset() == kd2_items(*tree),
{
    tree.tree.to_vec()
}

/// Queries the tree with `kd_tree::KdSliceN::nearests`, keeping for each found
/// item its squared distance and the item. Claimed, as its source shows when no
/// squared distance leaves `i32`: distances ascend and are exact, the items are
/// taken from the tree, there is one when the tree and `num` are not empty and
/// none when `num` is zero, and no point of the tree is nearer than the first.
/// The search fills a buffer up to the capacity that the allocator gave for
/// `num` items, so it may return more than `num`. Before the buffer is full it
/// skips a subtree only when the farthest item so far is exactly as far as the
/// splitting plane, which needs that item, kept at that subtree's root, to
/// differ from the query in its splitting coordinate alone. So when no point of
/// the tree lies on a line through the query parallel to an axis, also
/// claimed: at least `min(num, n)` items come back, and no point of the tree
/// left out is nearer than the last one. Otherwise how many come back is left
/// unsaid: the answer may hold fewer than the `num` nearest points.
#[verifier::external_body]
fn kd2_nearests(tree: &LibKDTree2, query: &[i32; 2], num: usize) -> (found: Vec<(u128, [i32; 2])>)
    requires
        forall|p: [i32; 2]| kd2_items(*tree).count(p) > 0 ==> sq_dist(p, *query) <= i32::MAX,
    ensures
        forall|a: int, b: int|
            0 <= a <= b < found@.len() ==> (#[trigger] found@[a]).0 <= (#[trigger] found@[b]).0,
        forall|a: int| 0 <= a < found@.len() ==> (#[trigger] found@[a]).0 == sq_dist(found@[a].1, *query),
        neighbor_points(found@).subset_of(kd2_items(*tree)),
        num == 0 ==> found@.len() == 0,
        num > 0 && kd2_items(*tree).len() > 0 ==> found@.len() > 0,
        forall|p: [i32; 2]|
            kd2_items(*tree).count(p) > 0 && found@.len() > 0 ==> sq_dist(p, *query) >= found@[0].0,
        no_aligned(kd2_items(*tree), *query) ==> found@.len() >= (if num <= kd2_items(*tree).len() {
            num as nat
        } else {
            kd2_items(*tree).len()
        }),
        no_aligned(kd2_items(*tree), *query) ==> forall|p: [i32; 2]|
            kd2_items(*tree).count(p) > #[trigger] neighbor_points(found@).count(p) ==> found@.len() > 0
                && sq_dist(p, *query) >= found@.last().0,
{
    tree.tree.nearests(query, num).iter().map(|info| (info.squared_distance as u128, *info.item)).collect()
}

impl BatchParKDTree<2> for LibKDTree2 {
    open spec fn spec_points(&self) -> Multiset<[i32; 2]> {
        kd2_items(*self)
    }

    open spec fn well_formed(&self) -> bool {
        true
    }

    /// No squared distance from `q` to a point of the tree leaves `i32`.
    open spec fn can_answer(&self, q: [i32; 2]) -> bool {
        forall|p: [i32; 2]| kd2_items(*self).count(p) > 0 ==> sq_dist(p, q) <= i32::MAX
    }

    fn build(points: Vec<[i32; 2]>) -> (tree: Self) {
        kd2_par_build(points)
    }

    /// Rebuilds the tree from its points and the new ones.
    fn batch_insert(&mut self, points: Vec<[i32; 2]>) {
        let mut all = kd2_to_vec(self);
        let mut new_points = points;
        let ghost old_all = all@;
        all.append(&mut new_points);
        proof {
            vstd::seq_lib::lemma_multiset_commutative(old_all, points@);
        }
        *self = kd2_par_build(all);
    }

    fn batch_nearests(&self, points: &[[i32; 2]], num: usize) -> (found: Vec<Vec<(u128, [i32; 2])>>) {
        let query = |p: &[i32; 2]| -> (r: Vec<(u128, [i32; 2])>)
            requires
                self.can_answer(*p),
                num > 0,
            ensures
                nearest_answer(r@, kd2_items(*self), *p, num as nat),
            { kd2_nearests(self, p, num) };
        par_map(points, query)
    }
}

/// A three-dimensional tree of the `kd_tree` crate.
#[verifier::external_body]
pub struct LibKDTree3 {
    tree: kd_tree::KdTree<[i32; 3]>,
}

/// The points held by a three-dimensional tree of the `kd_tree` crate.
pub uninterp spec fn kd3_items(tree: LibKDTree3) -> Multiset<[i32; 3]>;

/// Builds a tree with `kd_tree::KdTreeN::par_build`, which reorders `points`
/// in place into kd order and keeps them. Claimed: the tree holds exactly `points`.
#[verifier::external_body]
fn kd3_par_build(points: Vec<[i32; 3]>) -> (tree: LibKDTree3)
    ensures
        kd3_items(tree) == points@.to_multiset(),
{
    LibKDTree3 { tree: kd_tree::KdTree::par_build(points) }
}

/// Copies the tree's points out with `to_vec` on the slice that the tree
/// dereferences to. Claimed: the copy holds exactly the tree's points.
#[verifier::external_body]
fn kd3_to_vec(tree: &LibKDTree3) -> (points: Vec<[i32; 3]>)
    ensures
        points@.to_multiset() == kd3_items(*tree),
{
    tree.tree.to_vec()
}

/// Queries the tree with `kd_tree::KdSliceN::nearests`, keeping for each found
/// item its squared distance and the item. Claimed, as its source shows when no
/// squared distance leaves `i32`: distances ascend and are exact, the items are
/// taken from the tree, there is one when the tree and `num` are not empty and
/// none when `num` is zero, and no point of the tree is nearer than the first.
/// The search fills a buffer up to the capacity that the allocator gave for
/// `num` items, so it may return more than `num`. Before the buffer is full it
/// skips a subtree only when the farthest item so far is exactly as far as the
/// splitting plane, which needs that item, kept at that subtree's root, to
/// differ from the query in its splitting coordinate alone. So when no point of
/// the tree lies on a line through the query parallel to an axis, also
/// claimed: at least `min(num, n)` items come back, and no point of the tree
/// left out is nearer than the last one. Otherwise how many come back is left
/// unsaid: the answer may hold fewer than the `num` nearest points.
#[verifier::external_body]
fn kd3_nearests(tree: &LibKDTree3, query: &[i32; 3], num: usize) -> (found: Vec<(u128, [i32; 3])>)
    requires
        forall|p: [i32; 3]| kd3_items(*tree).count(p) > 0 ==> sq_dist(p, *query) <= i32::MAX,
    ensures
        forall|a: int, b: int|
            0 <= a <= b < found@.len() ==> (#[trigger] found@[a]).0 <= (#[trigger] found@[b]).0,
        forall|a: int| 0 <= a < found@.len() ==> (#[trigger] found@[a]).0 == sq_dist(found@[a].1, *query),
        neighbor_points(found@).subset_of(kd3_items(*tree)),
        num == 0 ==> found@.len() == 0,
        num > 0 && kd3_items(*tree).len() > 0 ==> found@.len() > 0,
        forall|p: [i32; 3]|
            kd3_items(*tree).count(p) > 0 && found@.len() > 0 ==> sq_dist(p, *query) >= found@[0].0,
        no_aligned(kd3_items(*tree), *query) ==> found@.len() >= (if num <= kd3_items(*tree).len() {
            num as nat
        } else {
            kd3_items(*tree).len()
        }),
        no_aligned(kd3_items(*tree), *query) ==> forall|p: [i32; 3]|
            kd3_items(*tree).count(p) > #[trigger] neighbor_points(found@).count(p) ==> found@.len() > 0
                && sq_dist(p, *query) >= found@.last().0,
{
    tree.tree.nearests(query, num).iter().map(|info| (info.squared_distance as u128, *info.item)).collect()
}

impl BatchParKDTree<3> for LibKDTree3 {
    open spec fn spec_points(&self) -> Multiset<[i32; 3]> {
        kd3_items(*self)
    }

    open spec fn well_formed(&self) -> bool {
        true
    }

    /// No squared distance from `q` to a point of the tree leaves `i32`.
    open spec fn can_answer(&self, q: [i32; 3]) -> bool {
        forall|p: [i32; 3]| kd3_items(*self).count(p) > 0 ==> sq_dist(p, q) <= i32::MAX
    }

    fn build(points: Vec<[i32; 3]>) -> (tree: Self) {
        kd3_par_build(points)
    }

    /// Rebuilds the tree from its points and the new ones.
    fn batch_insert(&mut self, points: Vec<[i32; 3]>) {
        let mut all = kd3_to_vec(self);
        let mut new_points = points;
        let ghost old_all = all@;
        all.append(&mut new_points);
        proof {
            vstd::seq_lib::lemma_multiset_commutative(old_all, points@);
        }
        *self = kd3_par_build(all);
    }

    fn batch_nearests(&self, points: &[[i32; 3]], num: usize) -> (found: Vec<Vec<(u128, [i32; 3])>>) {
        let query = |p: &[i32; 3]| -> (r: Vec<(u128, [i32; 3])>)
            requires
                self.can_answer(*p),
                num > 0,
            ensures
                nearest_answer(r@, kd3_items(*self), *p, num as nat),
            { kd3_nearests(self, p, num) };
        par_map(points, query)
    }
}

/// A five-dimensional tree of the `kd_tree` crate.
#[verifier::external_body]
pub struct LibKDTree5 {
    tree: kd_tree::KdTree<[i32; 5]>,
}

/// The points held by a five-dimensional tree of the `kd_tree` crate.
pub uninterp spec fn kd5_items(tree: LibKDTree5) -> Multiset<[i32; 5]>;

/// Builds a tree with `kd_tree::KdTreeN::par_build`, which reorders `points`
/// in place into kd order and keeps them. Claimed: the tree holds exactly `points`.
#[verifier::external_body]
fn kd5_par_build(points: Vec<[i32; 5]>) -> (tree: LibKDTree5)
    ensures
        kd5_items(tree) == points@.to_multiset(),
{
    LibKDTree5 { tree: kd_tree::KdTree::par_build(points) }
}

/// Copies the tree's points out with `to_vec` on the slice that the tree
/// dereferences to. Claimed: the copy holds exactly the tree's points.
#[verifier::external_body]
fn kd5_to_vec(tree: &LibKDTree5) -> (points: Vec<[i32; 5]>)
    ensures
        points@.to_multiset() == kd5_items(*tree),
{
    tree.tree.to_vec()
}

/// Queries the tree with `kd_tree::KdSliceN::nearests`, keeping for each found
/// item its squared distance and the item. Claimed, as its source shows when no
/// squared distance leaves `i32`: distances ascend and are exact, the items are
/// taken from the tree, there is one when the tree and `num` are not empty and
/// none when `num` is zero, and no point of the tree is nearer than the first.
/// The search fills a buffer up to the capacity that the allocator gave for
/// `num` items, so it may return more than `num`. Before the buffer is full it
/// skips a subtree only when the farthest item so far is exactly as far as the
/// splitting plane, which needs that item, kept at that subtree's root, to
/// differ from the query in its splitting coordinate alone. So when no point of
/// the tree lies on a line through the query parallel to an axis, also
/// claimed: at least `min(num, n)` items come back, and no point of the tree
/// left out is nearer than the last one. Otherwise how many come back is left
/// unsaid: the answer may hold fewer than the `num` nearest points.
#[verifier::external_body]
fn kd5_nearests(tree: &LibKDTree5, query: &[i32; 5], num: usize) -> (found: Vec<(u128, [i32; 5])>)
    requires
        forall|p: [i32; 5]| kd5_items(*tree).count(p) > 0 ==> sq_dist(p, *query) <= i32::MAX,
    ensures
        forall|a: int, b: int|
            0 <= a <= b < found@.len() ==> (#[trigger] found@[a]).0 <= (#[trigger] found@[b]).0,
        forall|a: int| 0 <= a < found@.len() ==> (#[trigger] found@[a]).0 == sq_dist(found@[a].1, *query),
        neighbor_points(found@).subset_of(kd5_items(*tree)),
        num == 0 ==> found@.len() == 0,
        num > 0 && kd5_items(*tree).len() > 0 ==> found@.len() > 0,
        forall|p: [i32; 5]|
            kd5_items(*tree).count(p) > 0 && found@.len() > 0 ==> sq_dist(p, *query) >= found@[0].0,
        no_aligned(kd5_items(*tree), *query) ==> found@.len() >= (if num <= kd5_items(*tree).len() {
            num as nat
        } else {
            kd5_items(*tree).len()
        }),
        no_aligned(kd5_items(*tree), *query) ==> forall|p: [i32; 5]|
            kd5_items(*tree).count(p) > #[trigger] neighbor_points(found@).count(p) ==> found@.len() > 0
                && sq_dist(p, *query) >= found@.last().0,
{
    tree.tree.nearests(query, num).iter().map(|info| (info.squared_distance as u128, *info.item)).collect()
}

impl BatchParKDTree<5> for LibKDTree5 {
    open spec fn spec_points(&self) -> Multiset<[i32; 5]> {
        kd5_items(*self)
    }

    open spec fn well_formed(&self) -> bool {
        true
    }

    /// No squared distance from `q` to a point of the tree leaves `i32`.
    open spec fn can_answer(&self, q: [i32; 5]) -> bool {
        forall|p: [i32; 5]| kd5_items(*self).count(p) > 0 ==> sq_dist(p, q) <= i32::MAX
    }

    fn build(points: Vec<[i32; 5]>) -> (tree: Self) {
        kd5_par_build(points)
    }

    /// Rebuilds the tree from its points and the new ones.
    fn batch_insert(&mut self, points: Vec<[i32; 5]>) {
        let mut all = kd5_to_vec(self);
        let mut new_points = points;
        let ghost old_all = all@;
        all.append(&mut new_points);
        proof {
            vstd::seq_lib::lemma_multiset_commutative(old_all, points@);
        }
        *self = kd5_par_build(all);
    }

    fn batch_nearests(&self, points: &[[i32; 5]], num: usize) -> (found: Vec<Vec<(u128, [i32; 5])>>) {
        let query = |p: &[i32; 5]| -> (r: Vec<(u128, [i32; 5])>)
            requires
                self.can_answer(*p),
                num > 0,
            ensures
                nearest_answer(r@, kd5_items(*self), *p, num as nat),
            { kd5_nearests(self, p, num) };
        par_map(points, query)
    }
}

/// A nine-dimensional tree of the `kd_tree` crate.
#[verifier::external_body]
pub struct LibKDTree9 {
    tree: kd_tree::KdTree<[i32; 9]>,
}

/// The points held by a nine-dimensional tree of the `kd_tree` crate.
pub uninterp spec fn kd9_items(tree: LibKDTree9) -> Multiset<[i32; 9]>;

/// Builds a tree with `kd_tree::KdTreeN::par_build`, which reorders `points`
/// in place into kd order and keeps them. Claimed: the tree holds exactly `points`.
#[verifier::external_body]
fn kd9_par_build(points: Vec<[i32; 9]>) -> (tree: LibKDTree9)
    ensures
        kd9_items(tree) == points@.to_multiset(),
{
    LibKDTree9 { tree: kd_tree::KdTree::par_build(points) }
}

/// Copies the tree's points out with `to_vec` on the slice that the tree
/// dereferences to. Claimed: the copy holds exactly the tree's points.
#[verifier::external_body]
fn kd9_to_vec(tree: &LibKDTree9) -> (points: Vec<[i32; 9]>)
    ensures
        points@.to_multiset() == kd9_items(*tree),
{
    tree.tree.to_vec()
}

/// Queries the tree with `kd_tree::KdSliceN::nearests`, keeping for each found
/// item its squared distance and the item. Claimed, as its source shows when no
/// squared distance leaves `i32`: distances ascend and are exact, the items are
/// taken from the tree, there is one when the tree and `num` are not empty and
/// none when `num` is zero, and no point of the tree is nearer than the first.
/// The search fills a buffer up to the capacity that the allocator gave for
/// `num` items, so it may return more than `num`. Before the buffer is full it
/// skips a subtree only when the farthest item so far is exactly as far as the
/// splitting plane, which needs that item, kept at that subtree's root, to
/// differ from the query in its splitting coordinate alone. So when no point of
/// the tree lies on a line through the query parallel to an axis, also
/// claimed: at least `min(num, n)` items come back, and no point of the tree
/// left out is nearer than the last one. Otherwise how many come back is left
/// unsaid: the answer may hold fewer than the `num` nearest points.
#[verifier::external_body]
fn kd9_nearests(tree: &LibKDTree9, query: &[i32; 9], num: usize) -> (found: Vec<(u128, [i32; 9])>)
    requires
        forall|p: [i32; 9]| kd9_items(*tree).count(p) > 0 ==> sq_dist(p, *query) <= i32::MAX,
    ensures
        forall|a: int, b: int|
            0 <= a <= b < found@.len() ==> (#[trigger] found@[a]).0 <= (#[trigger] found@[b]).0,
        forall|a: int| 0 <= a < found@.len() ==> (#[trigger] found@[a]).0 == sq_dist(found@[a].1, *query),
        neighbor_points(found@).subset_of(kd9_items(*tree)),
        num == 0 ==> found@.len() == 0,
        num > 0 && kd9_items(*tree).len() > 0 ==> found@.len() > 0,
        forall|p: [i32; 9]|
            kd9_items(*tree).count(p) > 0 && found@.len() > 0 ==> sq_dist(p, *query) >= found@[0].0,
        no_aligned(kd9_items(*tree), *query) ==> found@.len() >= (if num <= kd9_items(*tree).len() {
            num as nat
        } else {
            kd9_items(*tree).len()
        }),
        no_aligned(kd9_items(*tree), *query) ==> forall|p: [i32; 9]|
            kd9_items(*tree).count(p) > #[trigger] neighbor_points(found@).count(p) ==> found@.len() > 0
                && sq_dist(p, *query) >= found@.last().0,
{
    tree.tree.nearests(query, num).iter().map(|info| (info.squared_distance as u128, *info.item)).collect()
}

impl BatchParKDTree<9> for LibKDTree9 {
    open spec fn spec_points(&self) -> Multiset<[i32; 9]> {
        kd9_items(*self)
    }

    open spec fn well_formed(&self) -> bool {
        true
    }

    /// No squared distance from `q` to a point of the tree leaves `i32`.
    open spec fn can_answer(&self, q: [i32; 9]) -> bool {
        forall|p: [i32; 9]| kd9_items(*self).count(p) > 0 ==> sq_dist(p, q) <= i32::MAX
    }

    fn build(points: Vec<[i32; 9]>) -> (tree: Self) {
        kd9_par_build(points)
    }

    /// Rebuilds the tree from its points and the new ones.
    fn batch_insert(&mut self, points: Vec<[i32; 9]>) {
        let mut all = kd9_to_vec(self);
        let mut new_points = points;
        let ghost old_all = all@;
        all.append(&mut new_points);
        proof {
            vstd::seq_lib::lemma_multiset_commutative(old_all, points@);
        }
        *self = kd9_par_build(all);
    }

    fn batch_nearests(&self, points: &[[i32; 9]], num: usize) -> (found: Vec<Vec<(u128, [i32; 9])>>) {
        let query = |p: &[i32; 9]| -> (r: Vec<(u128, [i32; 9])>)
            requires
                self.can_answer(*p),
                num > 0,
            ensures
                nearest_answer(r@, kd9_items(*self), *p, num as nat),
            { kd9_nearests(self, p, num) };
        par_map(points, query)
    }
}

} // verus!
