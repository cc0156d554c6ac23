use vstd::prelude::*;
use crate::parallel::join;

verus! {

broadcast use vstd::array::group_array_axioms;

/// An axis-aligned box: per-axis lower and upper bounds.
#[derive(Debug, Clone, Copy)]
pub struct BBox<const K: usize> {
    pub mins: [i32; K],
    pub maxs: [i32; K],
}

/// Smallest `axis` coordinate among `ps` (`i32::MAX` when `ps` is empty).
pub open spec fn min_coord<const K: usize>(ps: Seq<[i32; K]>, axis: int) -> int
    decreases ps.len(),
{
    if ps.len() == 0 {
        i32::MAX as int
    } else {
        let rest = min_coord(ps.drop_last(), axis);
        let c = ps.last()[axis] as int;
        if c < rest { c } else { rest }
    }
}

/// Largest `axis` coordinate among `ps` (`i32::MIN` when `ps` is empty).
pub open spec fn max_coord<const K: usize>(ps: Seq<[i32; K]>, axis: int) -> int
    decreases ps.len(),
{
    if ps.len() == 0 {
        i32::MIN as int
    } else {
        let rest = max_coord(ps.drop_last(), axis);
        let c = ps.last()[axis] as int;
        if c > rest { c } else { rest }
    }
}

pub open spec fn spec_min(a: int, b: int) -> int {
    if a <= b { a } else { b }
}

pub open spec fn spec_max(a: int, b: int) -> int {
    if a >= b { a } else { b }
}

impl<const K: usize> BBox<K> {
    /// Extent of the box along `axis`.
    pub open spec fn width(self, axis: int) -> int {
        self.maxs[axis] - self.mins[axis]
    }

    /// `axis` is an axis along which the box is widest, and no later axis is
    /// as wide.
    pub open spec fn is_widest_axis(self, axis: int) -> bool {
        &&& 0 <= axis < K
        &&& forall|i: int| 0 <= i < K ==> self.width(i) <= self.width(axis)
        &&& forall|i: int| axis < i < K ==> self.width(i) < self.width(axis)
    }

    /// `lo` and `hi` are the parts of the box below and above `coord` along `axis`.
    pub open spec fn is_split(self, coord: i32, axis: int, lo: Self, hi: Self) -> bool {
        &&& lo.mins == self.mins
        &&& lo.maxs@ == self.maxs@.update(axis, coord)
        &&& hi.mins@ == self.mins@.update(axis, coord)
        &&& hi.maxs == self.maxs
    }

    /// The box is the smallest one that covers both `b1` and `b2`.
    pub open spec fn is_merge(self, b1: Self, b2: Self) -> bool {
        forall|i: int|
            0 <= i < K ==> self.mins[i] == spec_min(b1.mins[i] as int, b2.mins[i] as int)
                && self.maxs[i] == spec_max(b1.maxs[i] as int, b2.maxs[i] as int)
    }

    /// The box is the bounding box of `ps`: along each axis it runs from the
    /// smallest to the largest coordinate of the points.
    pub open spec fn covers_tightly(self, ps: Seq<[i32; K]>) -> bool {
        forall|i: int| 0 <= i < K ==> self.mins[i] == min_coord(ps, i) && self.maxs[i] == max_coord(ps, i)
    }

    /// The box that covers the whole coordinate space.
    pub fn unbounded() -> (b: Self)
        ensures
            forall|i: int| 0 <= i < K ==> b.mins[i] == i32::MIN && b.maxs[i] == i32::MAX,
    {
        BBox { mins: [i32::MIN; K], maxs: [i32::MAX; K] }
    }

    /// The tightest box around `points`; an empty input gives the inverted box
    /// (`mins` all `i32::MAX`, `maxs` all `i32::MIN`).
    pub fn build(points: &[[i32; K]]) -> (b: Self)
        ensures
            b.covers_tightly(points@),
    {
        let find_mins = move || -> (m: [i32; K])
            ensures
                forall|i: int| 0 <= i < K ==> m[i] == min_coord(points@, i),
            { Self::coord_mins(points) };
        let find_maxs = move || -> (m: [i32; K])
            ensures
                forall|i: int| 0 <= i < K ==> m[i] == max_coord(points@, i),
            { Self::coord_maxs(points) };
        let (mins, maxs) = join(find_mins, find_maxs);
        BBox { mins, maxs }
    }

    /// The smallest coordinate of the points along each axis.
    fn coord_mins(points: &[[i32; K]]) -> (mins: [i32; K])
        ensures
            forall|i: int| 0 <= i < K ==> mins[i] == min_coord(points@, i),
    {
        let mut mins = [i32::MAX; K];
        let mut j: usize = 0;
        while j < points.len()
            invariant
                0 <= j <= points@.len(),
                forall|i: int| 0 <= i < K ==> mins[i] == min_coord(points@.take(j as int), i),
            decreases points@.len() - j,
        {
            let p = points[j];
            let mut i: usize = 0;
            let ghost old_mins = mins;
            while i < K
                invariant
                    0 <= i <= K,
                    j < points@.len(),
                    p == points@[j as int],
                    forall|a: int| 0 <= a < i ==> mins[a] == spec_min(p[a] as int, old_mins[a] as int),
                    forall|a: int| i <= a < K ==> mins[a] == old_mins[a],
                decreases K - i,
            {
                if p[i] < mins[i] {
                    mins[i] = p[i];
                }
                i = i + 1;
            }
            proof {
                let s = points@.take(j as int + 1);
                assert(s.drop_last() =~= points@.take(j as int));
                assert(s.last() == p);
            }
            j = j + 1;
        }
        proof {
            assert(points@.take(points@.len() as int) =~= points@);
        }
        mins
    }

    /// The largest coordinate of the points along each axis.
    fn coord_maxs(points: &[[i32; K]]) -> (maxs: [i32; K])
        ensures
            forall|i: int| 0 <= i < K ==> maxs[i] == max_coord(points@, i),
    {
        let mut maxs = [i32::MIN; K];
        let mut j: usize = 0;
        while j < points.len()
            invariant
                0 <= j <= points@.len(),
                forall|i: int| 0 <= i < K ==> maxs[i] == max_coord(points@.take(j as int), i),
            decreases points@.len() - j,
        {
            let p = points[j];
            let mut i: usize = 0;
            let ghost old_maxs = maxs;
            while i < K
                invariant
                    0 <= i <= K,
                    j < points@.len(),
                    p == points@[j as int],
                    forall|a: int| 0 <= a < i ==> maxs[a] == spec_max(p[a] as int, old_maxs[a] as int),
                    forall|a: int| i <= a < K ==> maxs[a] == old_maxs[a],
                decreases K - i,
            {
                if p[i] > maxs[i] {
                    maxs[i] = p[i];
                }
                i = i + 1;
            }
            proof {
                let s = points@.take(j as int + 1);
                assert(s.drop_last() =~= points@.take(j as int));
                assert(s.last() == p);
            }
            j = j + 1;
        }
        proof {
            assert(points@.take(points@.len() as int) =~= points@);
        }
        maxs
    }

    /// The axis along which the box is widest; among equally wide axes, the last.
    pub fn widest_axis(&self) -> (axis: usize)
        requires
            K > 0,
        ensures
            self.is_widest_axis(axis as int),
    {
        let mut best: usize = 0;
        let mut best_width: i64 = self.maxs[0] as i64 - self.mins[0] as i64;
        let mut i: usize = 1;
        while i < K
            invariant
                1 <= i <= K,
                best < i,
                best_width == self.width(best as int),
                forall|a: int| 0 <= a < i ==> self.width(a) <= self.width(best as int),
                forall|a: int| best < a < i ==> self.width(a) < self.width(best as int),
            decreases K - i,
        {
            let w: i64 = self.maxs[i] as i64 - self.mins[i] as i64;
            if w >= best_width {
                best = i;
                best_width = w;
            }
            i = i + 1;
        }
        best
    }

    /// Cuts the box at `coord` along `axis` into a lower and an upper part.
    pub fn split(&self, coord: i32, axis: usize) -> (r: (Self, Self))
        requires
            axis < K,
        ensures
            self.is_split(coord, axis as int, r.0, r.1),
    {
        let mut left = *self;
        let mut right = *self;
        left.maxs[axis] = coord;
        right.mins[axis] = coord;
        (left, right)
    }

    /// The smallest box that covers both boxes.
    pub fn merge(b1: Self, b2: Self) -> (b: Self)
        ensures
            b.is_merge(b1, b2),
    {
        let mut mins = b1.mins;
        let mut maxs = b1.maxs;
        let mut i: usize = 0;
        while i < K
            invariant
                0 <= i <= K,
                forall|a: int|
                    0 <= a < i ==> mins[a] == spec_min(b1.mins[a] as int, b2.mins[a] as int)
                        && maxs[a] == spec_max(b1.maxs[a] as int, b2.maxs[a] as int),
                forall|a: int| i <= a < K ==> mins[a] == b1.mins[a] && maxs[a] == b1.maxs[a],
            decreases K - i,
        {
            if b2.mins[i] < mins[i] {
                mins[i] = b2.mins[i];
            }
            if b2.maxs[i] > maxs[i] {
                maxs[i] = b2.maxs[i];
            }
            i = i + 1;
        }
        BBox { mins, maxs }
    }
}

impl<const K: usize> Default for BBox<K> {
    fn default() -> (b: Self)
        ensures
            forall|i: int| 0 <= i < K ==> b.mins[i] == i32::MIN && b.maxs[i] == i32::MAX,
    {
        Self::unbounded()
    }
}

} // verus!
