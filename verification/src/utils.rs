//! Selection of the k-th smallest point along an axis, and splitting a
//! sequence into consecutive pieces.

use vstd::prelude::*;
use crate::sieve::{BucketFn, Sieve, buckets_ascend};
use crate::rng::random_index;
use crate::parallel::par_tabulate;
use crate::std_order::{select_nth_by_axis, sort_by_axis};
use crate::prefix::{prefix_sums, seq_sum};

verus! {

broadcast use vstd::array::group_array_axioms;

/// Inputs up to this size are handed straight to the standard selection.
pub const SMALL_SELECT: usize = 1000;

/// Number of pivots drawn for one round of sample selection.
pub const SAMPLE_SIZE: usize = 31;

/// Oversampling rate of sample selection.
pub const OVER_RATE: usize = 8;

/// Number of buckets of one round of sample selection.
pub const BUCKET_COUNT: usize = 32;

/// Number of points in `s` whose `axis` coordinate is at most `v`.
pub open spec fn count_le<const K: usize>(s: Seq<[i32; K]>, axis: int, v: int) -> nat
    decreases s.len(),
{
    if s.len() == 0 {
        0
    } else {
        count_le(s.drop_last(), axis, v) + (if s.last()[axis] <= v { 1nat } else { 0nat })
    }
}

/// Number of points in `s` whose `axis` coordinate is below `v`.
pub open spec fn count_lt<const K: usize>(s: Seq<[i32; K]>, axis: int, v: int) -> nat
    decreases s.len(),
{
    if s.len() == 0 {
        0
    } else {
        count_lt(s.drop_last(), axis, v) + (if s.last()[axis] < v { 1nat } else { 0nat })
    }
}

/// The `axis` coordinates of `s` ascend.
pub open spec fn sorted_on<const K: usize>(s: Seq<[i32; K]>, axis: int) -> bool {
    forall|a: int, b: int| 0 <= a <= b < s.len() ==> #[trigger] s[a][axis] <= #[trigger] s[b][axis]
}

/// `s` is split at position `k`: nothing before it is above it and nothing
/// after it is below it, along `axis`.
pub open spec fn split_at_rank<const K: usize>(s: Seq<[i32; K]>, k: int, axis: int) -> bool {
    &&& forall|i: int| 0 <= i < k ==> #[trigger] s[i][axis] <= s[k][axis]
    &&& forall|i: int| k < i < s.len() ==> #[trigger] s[i][axis] >= s[k][axis]
}

proof fn lemma_count_le_mono<const K: usize>(s: Seq<[i32; K]>, axis: int, v1: int, v2: int)
    requires
        v1 <= v2,
    ensures
        count_le(s, axis, v1) <= count_le(s, axis, v2),
    decreases s.len(),
{
    if s.len() > 0 {
        lemma_count_le_mono(s.drop_last(), axis, v1, v2);
    }
}

proof fn lemma_count_le_sorted<const K: usize>(s: Seq<[i32; K]>, axis: int, v: int, m: int)
    requires
        0 <= m <= s.len(),
        forall|i: int| 0 <= i < m ==> #[trigger] s[i][axis] <= v,
        forall|i: int| m <= i < s.len() ==> #[trigger] s[i][axis] > v,
    ensures
        count_le(s, axis, v) == m,
    decreases s.len(),
{
    if s.len() > 0 {
        let t = s.drop_last();
        if m == s.len() {
            lemma_count_le_sorted(t, axis, v, m - 1);
        } else {
            lemma_count_le_sorted(t, axis, v, m);
        }
    }
}

/// Buckets of one selection round: a point's bucket is the number of pivots
/// whose `axis` coordinate is at most its own.
pub struct PivotBuckets<const K: usize> {
    pub pivots: Vec<[i32; K]>,
    pub axis: usize,
}

impl<const K: usize> BucketFn<K> for PivotBuckets<K> {
    open spec fn spec_bucket(&self, p: [i32; K]) -> int {
        count_le(self.pivots@, self.axis as int, p[self.axis as int] as int) as int
    }

    open spec fn bucket_ready(&self) -> bool {
        &&& self.axis < K
        &&& self.pivots@.len() < 256
        &&& sorted_on(self.pivots@, self.axis as int)
    }

    fn bucket(&self, p: &[i32; K]) -> (b: u8) {
        let v = p[self.axis];
        let mut lo: usize = 0;
        let mut hi: usize = self.pivots.len();
        while lo < hi
            invariant
                self.bucket_ready(),
                0 <= lo <= hi <= self.pivots@.len(),
                v == p[self.axis as int],
                forall|i: int| 0 <= i < lo ==> #[trigger] self.pivots@[i][self.axis as int] <= v,
                forall|i: int|
                    hi <= i < self.pivots@.len() ==> #[trigger] self.pivots@[i][self.axis as int] > v,
            decreases hi - lo,
        {
            let mid = lo + (hi - lo) / 2;
            if self.pivots[mid][self.axis] <= v {
                lo = mid + 1;
            } else {
                hi = mid;
            }
        }
        proof {
            lemma_count_le_sorted(self.pivots@, self.axis as int, v as int, lo as int);
        }
        lo as u8
    }
}

/// The first position of the ascending `v` holding a value above `bound`.
pub fn partition_point_le(v: &Vec<usize>, bound: usize) -> (m: usize)
    requires
        forall|a: int, b: int| 0 <= a <= b < v@.len() ==> #[trigger] v@[a] <= #[trigger] v@[b],
    ensures
        m <= v@.len(),
        forall|i: int| 0 <= i < m ==> #[trigger] v@[i] <= bound,
        forall|i: int| m <= i < v@.len() ==> #[trigger] v@[i] > bound,
{
    let mut lo: usize = 0;
    let mut hi: usize = v.len();
    while lo < hi
        invariant
            0 <= lo <= hi <= v@.len(),
            forall|a: int, b: int| 0 <= a <= b < v@.len() ==> #[trigger] v@[a] <= #[trigger] v@[b],
            forall|i: int| 0 <= i < lo ==> #[trigger] v@[i] <= bound,
            forall|i: int| hi <= i < v@.len() ==> #[trigger] v@[i] > bound,
        decreases hi - lo,
    {
        let mid = lo + (hi - lo) / 2;
        if v[mid] <= bound {
            lo = mid + 1;
        } else {
            hi = mid;
        }
    }
    lo
}

/// Draws the pivots of one selection round: `SAMPLE_SIZE * OVER_RATE` points
/// at random, sorted along `axis`, of which every `OVER_RATE`-th is kept.
fn draw_pivots<const K: usize>(elems: &Vec<[i32; K]>, axis: usize) -> (pivots: Vec<[i32; K]>)
    requires
        elems@.len() > 0,
        axis < K,
    ensures
        pivots@.len() == SAMPLE_SIZE,
        sorted_on(pivots@, axis as int),
{
    let n = elems.len();
    let draw = |_c: usize| -> (p: [i32; K])
        requires
            n == elems@.len(),
            n > 0,
        { elems[random_index(n)] };
    let mut sampled = par_tabulate(SAMPLE_SIZE * OVER_RATE, draw);
    sort_by_axis(&mut sampled, axis);
    let mut pivots: Vec<[i32; K]> = Vec::new();
    let mut i: usize = 0;
    while i < SAMPLE_SIZE
        invariant
            sampled@.len() == SAMPLE_SIZE * OVER_RATE,
            forall|a: int, b: int|
                0 <= a <= b < sampled@.len() ==> sampled@[a][axis as int] <= sampled@[b][axis as int],
            0 <= i <= SAMPLE_SIZE,
            pivots@.len() == i,
            forall|a: int| 0 <= a < i ==> #[trigger] pivots@[a] == sampled@[a * OVER_RATE],
        decreases SAMPLE_SIZE - i,
    {
        pivots.push(sampled[i * OVER_RATE]);
        i = i + 1;
    }
    proof {
        assert forall|a: int, b: int| 0 <= a <= b < pivots@.len() implies #[trigger] pivots@[a][axis as int]
            <= #[trigger] pivots@[b][axis as int] by {
            assert(pivots@[a] == sampled@[a * OVER_RATE]);
            assert(pivots@[b] == sampled@[b * OVER_RATE]);
        }
    }
    pivots
}

/// Puts the `k`-th smallest point along `axis` at position `k`, with no point
/// above it before it and no point below it after it, and returns it.
///
/// Large inputs are split into buckets around randomly drawn pivots and only
/// the bucket holding position `k` is searched further; when every point falls
/// into that one bucket, the standard selection finishes the search.
pub fn kth<const K: usize>(elems: &mut Vec<[i32; K]>, k: usize, axis: usize) -> (r: [i32; K])
    requires
        k < old(elems)@.len(),
        axis < K,
    ensures
        final(elems)@.len() == old(elems)@.len(),
        final(elems)@.to_multiset() == old(elems)@.to_multiset(),
        final(elems)@[k as int] == r,
        split_at_rank(final(elems)@, k as int, axis as int),
    decreases old(elems)@.len(),
{
    let n = elems.len();
    if n <= SMALL_SELECT {
        select_nth_by_axis(elems, k, axis);
        return elems[k];
    }
    let pivots = draw_pivots(elems, axis);
    let buckets = PivotBuckets { pivots, axis };
    let ghost before = elems@;
    let (borders, _sizes) = elems.sieve(BUCKET_COUNT, &buckets);
    let ghost s = elems@;
    let ghost bk = buckets.spec_bucket(s[k as int]);
    proof {
        assert(bk <= SAMPLE_SIZE) by {
            lemma_count_le_bound(buckets.pivots@, axis as int, s[k as int][axis as int] as int);
        }
        assert forall|a: int, b: int| 0 <= a <= b < borders@.len() implies #[trigger] borders@[a]
            <= #[trigger] borders@[b] by {
            if borders@[a] > borders@[b] {
                let c = borders@[b] as int;
                assert(buckets.spec_bucket(s[c]) < a);
            }
        }
    }
    let in_bucket_id = partition_point_le(&borders, k);
    proof {
        assert(borders@[0] <= k) by {
            if borders@[0] > k {
                assert(buckets.spec_bucket(s[k as int]) < 0);
            }
        }
        if in_bucket_id as int <= bk {
            assert(borders@[in_bucket_id as int] > k);
        }
        if in_bucket_id as int > bk + 1 {
            assert(borders@[bk + 1] <= k);
        }
    }
    let lo = borders[in_bucket_id - 1];
    let hi = borders[in_bucket_id];
    proof {
        assert forall|c: int| 0 <= c < n implies (lo <= c < hi <==> buckets.spec_bucket(#[trigger] s[c]) == bk) by {
        }
    }
    if hi - lo == n {
        select_nth_by_axis(elems, k, axis);
        return elems[k];
    }
    let mut middle = elems.split_off(lo);
    let mut rest = middle.split_off(hi - lo);
    let ghost low = elems@;
    let ghost mid0 = middle@;
    let ghost high = rest@;
    let r = kth(&mut middle, k - lo, axis);
    let ghost mid1 = middle@;
    elems.append(&mut middle);
    elems.append(&mut rest);
    proof {
        assert(s =~= low + mid0 + high);
        assert(elems@ =~= low + mid1 + high);
        vstd::seq_lib::lemma_multiset_commutative(low, mid0);
        vstd::seq_lib::lemma_multiset_commutative(low + mid0, high);
        vstd::seq_lib::lemma_multiset_commutative(low, mid1);
        vstd::seq_lib::lemma_multiset_commutative(low + mid1, high);
        mid0.to_multiset_ensures();
        mid1.to_multiset_ensures();
        // every point of the searched bucket lies in bucket `bk`
        assert forall|x: [i32; K]| mid1.contains(x) implies buckets.spec_bucket(x) == bk by {
            assert(mid1.to_multiset().count(x) > 0);
            assert(mid0.contains(x));
            let c = choose|c: int| 0 <= c < mid0.len() && mid0[c] == x;
            assert(s[lo + c] == x);
        }
        assert(mid1.contains(r)) by {
            assert(mid1[k - lo] == r);
        }
        let rv = r[axis as int] as int;
        assert forall|i: int| 0 <= i < k implies #[trigger] elems@[i][axis as int] <= rv by {
            if i < lo {
                assert(elems@[i] == s[i]);
                assert(buckets.spec_bucket(s[i]) < bk);
                if s[i][axis as int] > rv {
                    lemma_count_le_mono(buckets.pivots@, axis as int, rv, s[i][axis as int] as int);
                }
            } else {
                assert(elems@[i] == mid1[i - lo]);
            }
        }
        assert forall|i: int| k < i < elems@.len() implies #[trigger] elems@[i][axis as int] >= rv by {
            if i >= hi {
                assert(elems@[i] == s[i]);
                assert(buckets.spec_bucket(s[i]) > bk);
                if s[i][axis as int] < rv {
                    lemma_count_le_mono(buckets.pivots@, axis as int, s[i][axis as int] as int, rv);
                }
            } else {
                assert(elems@[i] == mid1[i - lo]);
            }
        }
        assert(elems@[k as int] == mid1[k - lo]);
    }
    r
}

/// Number of points of `s` satisfying `f`.
pub open spec fn count_by<const K: usize>(s: Seq<[i32; K]>, f: spec_fn([i32; K]) -> bool) -> nat
    decreases s.len(),
{
    if s.len() == 0 {
        0
    } else {
        count_by(s.drop_last(), f) + (if f(s.last()) { 1nat } else { 0nat })
    }
}

proof fn lemma_count_by_ext<const K: usize>(s: Seq<[i32; K]>, f: spec_fn([i32; K]) -> bool, g: spec_fn([i32; K]) -> bool)
    requires
        forall|i: int| 0 <= i < s.len() ==> f(#[trigger] s[i]) == g(s[i]),
    ensures
        count_by(s, f) == count_by(s, g),
    decreases s.len(),
{
    if s.len() > 0 {
        lemma_count_by_ext(s.drop_last(), f, g);
    }
}

proof fn lemma_count_by_le<const K: usize>(s: Seq<[i32; K]>, f: spec_fn([i32; K]) -> bool)
    ensures
        count_by(s, f) <= s.len(),
    decreases s.len(),
{
    if s.len() > 0 {
        lemma_count_by_le(s.drop_last(), f);
    }
}

proof fn lemma_count_by_all<const K: usize>(s: Seq<[i32; K]>, f: spec_fn([i32; K]) -> bool)
    requires
        forall|i: int| 0 <= i < s.len() ==> f(#[trigger] s[i]),
    ensures
        count_by(s, f) == s.len(),
    decreases s.len(),
{
    if s.len() > 0 {
        lemma_count_by_all(s.drop_last(), f);
    }
}

proof fn lemma_count_lt_by<const K: usize>(s: Seq<[i32; K]>, axis: int, v: int)
    ensures
        count_lt(s, axis, v) == count_by(s, |x: [i32; K]| x[axis] < v),
        count_le(s, axis, v) == count_by(s, |x: [i32; K]| x[axis] <= v),
    decreases s.len(),
{
    if s.len() > 0 {
        lemma_count_lt_by(s.drop_last(), axis, v);
    }
}

proof fn lemma_count_by_perm<const K: usize>(s1: Seq<[i32; K]>, s2: Seq<[i32; K]>, f: spec_fn([i32; K]) -> bool)
    requires
        s1.to_multiset() == s2.to_multiset(),
    ensures
        count_by(s1, f) == count_by(s2, f),
    decreases s1.len(),
{
    s1.to_multiset_ensures();
    s2.to_multiset_ensures();
    if s1.len() > 0 {
        let n = s1.len() - 1;
        let x = s1[n];
        assert(s1.to_multiset().count(x) > 0);
        assert(s2.contains(x));
        let i = choose|i: int| 0 <= i < s2.len() && s2[i] == x;
        let s1r = s1.remove(n);
        let s2r = s2.remove(i);
        assert(s1r.to_multiset() =~= s2r.to_multiset());
        lemma_count_by_perm(s1r, s2r, f);
        assert(s1r =~= s1.drop_last());
        lemma_count_by_remove(s2, i, f);
    }
}

proof fn lemma_count_by_remove<const K: usize>(s: Seq<[i32; K]>, i: int, f: spec_fn([i32; K]) -> bool)
    requires
        0 <= i < s.len(),
    ensures
        count_by(s, f) == count_by(s.remove(i), f) + (if f(s[i]) { 1nat } else { 0nat }),
    decreases s.len(),
{
    if i < s.len() - 1 {
        lemma_count_by_remove(s.drop_last(), i, f);
        assert(s.remove(i).drop_last() =~= s.drop_last().remove(i));
    } else {
        assert(s.remove(i) =~= s.drop_last());
    }
}

proof fn lemma_count_by_none<const K: usize>(s: Seq<[i32; K]>)
    ensures
        count_by(s, |x: [i32; K]| false) == 0,
    decreases s.len(),
{
    if s.len() > 0 {
        lemma_count_by_none(s.drop_last());
    }
}

proof fn lemma_count_by_add<const K: usize>(a: Seq<[i32; K]>, b: Seq<[i32; K]>, f: spec_fn([i32; K]) -> bool)
    ensures
        count_by(a + b, f) == count_by(a, f) + count_by(b, f),
    decreases b.len(),
{
    if b.len() > 0 {
        lemma_count_by_add(a, b.drop_last(), f);
        assert((a + b).drop_last() =~= a + b.drop_last());
    } else {
        assert(a + b =~= a);
    }
}

/// The element at position `k` of a reordering of `s` that is split at `k`
/// has rank `k` in `s`.
proof fn lemma_rank_of_split<const K: usize>(t: Seq<[i32; K]>, s: Seq<[i32; K]>, k: int, axis: int)
    requires
        t.to_multiset() == s.to_multiset(),
        0 <= k < t.len(),
        split_at_rank(t, k, axis),
    ensures
        s.contains(t[k]),
        count_lt(s, axis, t[k][axis] as int) <= k,
        k < count_le(s, axis, t[k][axis] as int),
{
    let v = t[k][axis] as int;
    t.to_multiset_ensures();
    s.to_multiset_ensures();
    assert(t.contains(t[k]));
    assert(t.to_multiset().count(t[k]) > 0);
    let lt = |x: [i32; K]| x[axis] < v;
    let le = |x: [i32; K]| x[axis] <= v;
    lemma_count_lt_by(s, axis, v);
    lemma_count_by_perm(s, t, lt);
    lemma_count_by_perm(s, t, le);
    let pre = t.take(k);
    let post = t.skip(k);
    assert(t =~= pre + post);
    lemma_count_by_add(pre, post, lt);
    lemma_count_by_le(pre, lt);
    lemma_count_by_ext(post, lt, |x: [i32; K]| false);
    lemma_count_by_none(post);
    let pre1 = t.take(k + 1);
    let post1 = t.skip(k + 1);
    assert(t =~= pre1 + post1);
    lemma_count_by_add(pre1, post1, le);
    lemma_count_by_all(pre1, le);
}

/// Number of points of `s` in bucket `d`.
pub open spec fn count_in_bucket<const K: usize>(s: Seq<[i32; K]>, pb: PivotBuckets<K>, d: int) -> nat
    decreases s.len(),
{
    if s.len() == 0 {
        0
    } else {
        count_in_bucket(s.drop_last(), pb, d) + (if pb.spec_bucket(s.last()) == d { 1nat } else { 0nat })
    }
}

/// Number of points of `s` in buckets below `c`.
pub open spec fn count_below_bucket<const K: usize>(s: Seq<[i32; K]>, pb: PivotBuckets<K>, c: int) -> nat
    decreases s.len(),
{
    if s.len() == 0 {
        0
    } else {
        count_below_bucket(s.drop_last(), pb, c) + (if pb.spec_bucket(s.last()) < c { 1nat } else { 0nat })
    }
}

/// The points of `s` in bucket `d`, in order.
pub open spec fn in_bucket<const K: usize>(s: Seq<[i32; K]>, pb: PivotBuckets<K>, d: int) -> Seq<[i32; K]>
    decreases s.len(),
{
    if s.len() == 0 {
        Seq::empty()
    } else if pb.spec_bucket(s.last()) == d {
        in_bucket(s.drop_last(), pb, d).push(s.last())
    } else {
        in_bucket(s.drop_last(), pb, d)
    }
}

proof fn lemma_count_below_bucket_step<const K: usize>(s: Seq<[i32; K]>, pb: PivotBuckets<K>, c: int)
    ensures
        count_below_bucket(s, pb, c + 1) == count_below_bucket(s, pb, c) + count_in_bucket(s, pb, c),
    decreases s.len(),
{
    if s.len() > 0 {
        lemma_count_below_bucket_step(s.drop_last(), pb, c);
    }
}

proof fn lemma_count_below_bucket_zero<const K: usize>(s: Seq<[i32; K]>, pb: PivotBuckets<K>)
    ensures
        count_below_bucket(s, pb, 0) == 0,
    decreases s.len(),
{
    if s.len() > 0 {
        lemma_count_below_bucket_zero(s.drop_last(), pb);
    }
}

proof fn lemma_count_below_bucket_all<const K: usize>(s: Seq<[i32; K]>, pb: PivotBuckets<K>, c: int)
    requires
        forall|x: [i32; K]| #[trigger] pb.spec_bucket(x) < c,
    ensures
        count_below_bucket(s, pb, c) == s.len(),
    decreases s.len(),
{
    if s.len() > 0 {
        lemma_count_below_bucket_all(s.drop_last(), pb, c);
    }
}

proof fn lemma_count_in_bucket_le<const K: usize>(s: Seq<[i32; K]>, pb: PivotBuckets<K>, d: int)
    ensures
        count_in_bucket(s, pb, d) <= s.len(),
    decreases s.len(),
{
    if s.len() > 0 {
        lemma_count_in_bucket_le(s.drop_last(), pb, d);
    }
}

proof fn lemma_in_bucket<const K: usize>(s: Seq<[i32; K]>, pb: PivotBuckets<K>, d: int)
    ensures
        in_bucket(s, pb, d).len() == count_in_bucket(s, pb, d),
        forall|j: int|
            0 <= j < in_bucket(s, pb, d).len() ==> pb.spec_bucket(#[trigger] in_bucket(s, pb, d)[j]) == d
                && s.contains(in_bucket(s, pb, d)[j]),
    decreases s.len(),
{
    if s.len() > 0 {
        let t = s.drop_last();
        lemma_in_bucket(t, pb, d);
        let fs = in_bucket(s, pb, d);
        let ft = in_bucket(t, pb, d);
        assert forall|j: int| 0 <= j < fs.len() implies pb.spec_bucket(#[trigger] fs[j]) == d && s.contains(fs[j]) by {
            if pb.spec_bucket(s.last()) == d && j == fs.len() - 1 {
                assert(fs == ft.push(s.last()));
                assert(s[s.len() - 1] == fs[j]);
            } else {
                if pb.spec_bucket(s.last()) == d {
                    assert(fs == ft.push(s.last()));
                } else {
                    assert(fs == ft);
                }
                assert(ft[j] == fs[j]);
                assert(t.contains(ft[j]));
                let k = choose|k: int| 0 <= k < t.len() && t[k] == ft[j];
                assert(t[k] == s[k]);
            }
        }
    } else {
        assert(in_bucket(s, pb, d) =~= Seq::<[i32; K]>::empty());
    }
}

/// When lower buckets lie below `v` and higher buckets above it, the rank of
/// `v` in `s` is the number of points in lower buckets plus its rank within
/// bucket `d`.
proof fn lemma_rank_in_bucket<const K: usize>(s: Seq<[i32; K]>, pb: PivotBuckets<K>, d: int, v: int)
    requires
        forall|i: int|
            0 <= i < s.len() ==> (pb.spec_bucket(#[trigger] s[i]) < d ==> s[i][pb.axis as int] < v) && (
            pb.spec_bucket(s[i]) > d ==> s[i][pb.axis as int] > v),
    ensures
        count_lt(s, pb.axis as int, v) == count_below_bucket(s, pb, d) + count_lt(
            in_bucket(s, pb, d),
            pb.axis as int,
            v,
        ),
        count_le(s, pb.axis as int, v) == count_below_bucket(s, pb, d) + count_le(
            in_bucket(s, pb, d),
            pb.axis as int,
            v,
        ),
    decreases s.len(),
{
    if s.len() > 0 {
        let t = s.drop_last();
        assert forall|i: int| 0 <= i < t.len() implies (pb.spec_bucket(#[trigger] t[i]) < d ==> t[i][pb.axis as int] < v)
            && (pb.spec_bucket(t[i]) > d ==> t[i][pb.axis as int] > v) by {
            assert(t[i] == s[i]);
        }
        lemma_rank_in_bucket(t, pb, d, v);
        assert(s.last() == s[s.len() - 1]);
        if pb.spec_bucket(s.last()) == d {
            assert(in_bucket(s, pb, d).drop_last() =~= in_bucket(t, pb, d));
        }
    }
}

/// The histogram sums up to bucket `c` count the points in buckets below `c`.
proof fn lemma_hist_sums<const K: usize>(s: Seq<[i32; K]>, hist: Seq<usize>, pb: PivotBuckets<K>, c: int)
    requires
        0 <= c <= hist.len(),
        forall|d: int| 0 <= d < hist.len() ==> #[trigger] hist[d] == count_in_bucket(s, pb, d),
    ensures
        seq_sum(hist, c) == count_below_bucket(s, pb, c),
    decreases c,
{
    if c == 0 {
        lemma_count_below_bucket_zero(s, pb);
    } else {
        lemma_hist_sums(s, hist, pb, c - 1);
        lemma_count_below_bucket_step(s, pb, c - 1);
    }
}

proof fn lemma_seq_sum_mono(s: Seq<usize>, a: int, b: int)
    requires
        0 <= a <= b <= s.len(),
    ensures
        seq_sum(s, a) <= seq_sum(s, b),
    decreases b,
{
    if b > a {
        lemma_seq_sum_mono(s, a, b - 1);
    }
}

/// The `k`-th smallest point along `axis`, without reordering `elems`: the
/// result is one of the points, fewer than `k + 1` points lie below it and
/// more than `k` lie at or below it along `axis`.
///
/// Large inputs are split into buckets around randomly drawn pivots and only
/// the points of the bucket holding rank `k` are searched further; when every
/// point falls into that one bucket, the standard selection finishes the search.
pub fn kth_only<const K: usize>(elems: &Vec<[i32; K]>, k: usize, axis: usize) -> (r: [i32; K])
    requires
        k < elems@.len(),
        axis < K,
    ensures
        elems@.contains(r),
        count_lt(elems@, axis as int, r[axis as int] as int) <= k,
        k < count_le(elems@, axis as int, r[axis as int] as int),
    decreases elems@.len(),
{
    let n = elems.len();
    if n <= SMALL_SELECT {
        return select_in_copy(elems, k, axis);
    }
    let pivots = draw_pivots(elems, axis);
    let buckets = PivotBuckets { pivots, axis };
    // the bucket of every point
    let mut bucket_of: Vec<usize> = Vec::new();
    let mut j: usize = 0;
    while j < n
        invariant
            0 <= j <= n,
            n == elems@.len(),
            buckets.bucket_ready(),
            bucket_of@.len() == j,
            forall|a: int| 0 <= a < j ==> #[trigger] bucket_of@[a] == buckets.spec_bucket(elems@[a]),
        decreases n - j,
    {
        let b = buckets.bucket(&elems[j]);
        bucket_of.push(b as usize);
        j = j + 1;
    }
    // histogram of the buckets
    let mut histogram: Vec<usize> = Vec::new();
    let mut c: usize = 0;
    while c < BUCKET_COUNT
        invariant
            0 <= c <= BUCKET_COUNT,
            histogram@.len() == c,
            forall|d: int| 0 <= d < c ==> histogram@[d] == 0,
        decreases BUCKET_COUNT - c,
    {
        histogram.push(0);
        c = c + 1;
    }
    proof {
        assert forall|x: [i32; K]| #[trigger] buckets.spec_bucket(x) <= SAMPLE_SIZE by {
            lemma_count_le_bound(buckets.pivots@, axis as int, x[axis as int] as int);
        }
    }
    let mut j: usize = 0;
    while j < n
        invariant
            0 <= j <= n,
            n == elems@.len(),
            bucket_of@.len() == n,
            histogram@.len() == BUCKET_COUNT,
            forall|a: int| 0 <= a < n ==> #[trigger] bucket_of@[a] == buckets.spec_bucket(elems@[a]),
            forall|x: [i32; K]| #[trigger] buckets.spec_bucket(x) <= SAMPLE_SIZE,
            forall|d: int|
                0 <= d < BUCKET_COUNT ==> #[trigger] histogram@[d] == count_in_bucket(
                    elems@.take(j as int),
                    buckets,
                    d,
                ),
        decreases n - j,
    {
        let b = bucket_of[j];
        proof {
            assert(elems@.take(j + 1).drop_last() =~= elems@.take(j as int));
            lemma_count_in_bucket_le(elems@.take(j as int), buckets, b as int);
        }
        histogram.set(b, histogram[b] + 1);
        j = j + 1;
    }
    proof {
        assert(elems@.take(n as int) =~= elems@);
        lemma_hist_sums(elems@, histogram@, buckets, BUCKET_COUNT as int);
        lemma_count_below_bucket_all(elems@, buckets, BUCKET_COUNT as int);
    }
    let ghost hist = histogram@;
    // where each bucket ends
    let offsets = prefix_sums(histogram);
    proof {
        assert forall|a: int, b: int| 0 <= a <= b < offsets@.len() implies #[trigger] offsets@[a]
            <= #[trigger] offsets@[b] by {
            lemma_seq_sum_mono(hist, a + 1, b + 1);
        }
    }
    let in_bucket_id = partition_point_le(&offsets, k);
    let ghost b = in_bucket_id as int;
    proof {
        lemma_hist_sums(elems@, hist, buckets, BUCKET_COUNT as int);
        assert(offsets@[SAMPLE_SIZE as int] == n);
        assert(b < BUCKET_COUNT);
        lemma_hist_sums(elems@, hist, buckets, b + 1);
        lemma_hist_sums(elems@, hist, buckets, b);
        lemma_count_below_bucket_step(elems@, buckets, b);
        if b > 0 {
            assert(offsets@[b - 1] == seq_sum(hist, b));
        }
    }
    let inner_k = if in_bucket_id == 0 {
        k
    } else {
        k - offsets[in_bucket_id - 1]
    };
    // the points of that bucket
    let mut inner_elems: Vec<[i32; K]> = Vec::new();
    let mut j: usize = 0;
    while j < n
        invariant
            0 <= j <= n,
            n == elems@.len(),
            bucket_of@.len() == n,
            in_bucket_id == b,
            forall|a: int| 0 <= a < n ==> #[trigger] bucket_of@[a] == buckets.spec_bucket(elems@[a]),
            inner_elems@ == in_bucket(elems@.take(j as int), buckets, b),
        decreases n - j,
    {
        proof {
            assert(elems@.take(j + 1).drop_last() =~= elems@.take(j as int));
        }
        if bucket_of[j] == in_bucket_id {
            inner_elems.push(elems[j]);
        }
        j = j + 1;
    }
    proof {
        assert(elems@.take(n as int) =~= elems@);
        lemma_in_bucket(elems@, buckets, b);
        lemma_count_in_bucket_le(elems@, buckets, b);
        assert(offsets@[b] == seq_sum(hist, b + 1));
        assert(offsets@[b] == count_below_bucket(elems@, buckets, b + 1));
        assert(offsets@[b] > k);
        assert(k >= count_below_bucket(elems@, buckets, b));
        assert(inner_k == k - count_below_bucket(elems@, buckets, b));
        assert(inner_k < inner_elems@.len());
    }
    if inner_elems.len() == n {
        return select_in_copy(elems, k, axis);
    }
    let r = kth_only(&inner_elems, inner_k, axis);
    proof {
        let inner = inner_elems@;
        let v = r[axis as int] as int;
        assert(inner.contains(r));
        let j0 = choose|j0: int| 0 <= j0 < inner.len() && inner[j0] == r;
        assert(buckets.spec_bucket(inner[j0]) == b);
        assert(elems@.contains(inner[j0]));
        // along the axis, lower buckets lie below the result and higher ones above it
        assert forall|i: int| 0 <= i < elems@.len() implies (buckets.spec_bucket(#[trigger] elems@[i]) < b
            ==> elems@[i][axis as int] < v) && (buckets.spec_bucket(elems@[i]) > b ==> elems@[i][axis as int] > v) by {
            if elems@[i][axis as int] >= v {
                lemma_count_le_mono(buckets.pivots@, axis as int, v, elems@[i][axis as int] as int);
            }
            if elems@[i][axis as int] <= v {
                lemma_count_le_mono(buckets.pivots@, axis as int, elems@[i][axis as int] as int, v);
            }
        }
        lemma_rank_in_bucket(elems@, buckets, b, v);
    }
    r
}

/// The `k`-th smallest point along `axis`, by the standard selection on a copy.
fn select_in_copy<const K: usize>(elems: &Vec<[i32; K]>, k: usize, axis: usize) -> (r: [i32; K])
    requires
        k < elems@.len(),
        axis < K,
    ensures
        elems@.contains(r),
        count_lt(elems@, axis as int, r[axis as int] as int) <= k,
        k < count_le(elems@, axis as int, r[axis as int] as int),
{
    let n = elems.len();
    let mut copy: Vec<[i32; K]> = Vec::new();
    let mut j: usize = 0;
    while j < n
        invariant
            0 <= j <= n,
            n == elems@.len(),
            copy@ == elems@.take(j as int),
        decreases n - j,
    {
        copy.push(elems[j]);
        j = j + 1;
        proof {
            assert(elems@.take(j as int) =~= elems@.take(j - 1).push(elems@[j - 1]));
        }
    }
    proof {
        assert(elems@.take(n as int) =~= elems@);
    }
    select_nth_by_axis(&mut copy, k, axis);
    let r = copy[k];
    proof {
        lemma_rank_of_split(copy@, elems@, k as int, axis as int);
    }
    r
}

proof fn lemma_count_le_bound<const K: usize>(s: Seq<[i32; K]>, axis: int, v: int)
    ensures
        count_le(s, axis, v) <= s.len(),
    decreases s.len(),
{
    if s.len() > 0 {
        lemma_count_le_bound(s.drop_last(), axis, v);
    }
}

proof fn lemma_count_le_below_lt<const K: usize>(s: Seq<[i32; K]>, axis: int, v1: int, v2: int)
    requires
        v1 < v2,
    ensures
        count_le(s, axis, v1) <= count_lt(s, axis, v2),
    decreases s.len(),
{
    if s.len() > 0 {
        lemma_count_le_below_lt(s.drop_last(), axis, v1, v2);
    }
}

/// Selection in place and selection on a copy find the same coordinate: the
/// point that `kth` leaves at rank `k` and the point that `kth_only` returns
/// for the same points, rank and axis lie at the `k`-th smallest `axis`
/// coordinate.
pub proof fn law_kth_agrees<const K: usize>(
    elems: Seq<[i32; K]>,
    after: Seq<[i32; K]>,
    k: int,
    axis: int,
    in_place: [i32; K],
    on_copy: [i32; K],
)
    requires
        0 <= k < elems.len(),
        0 <= axis < K,
        after.len() == elems.len(),
        after.to_multiset() == elems.to_multiset(),
        after[k] == in_place,
        split_at_rank(after, k, axis),
        elems.contains(on_copy),
        count_lt(elems, axis, on_copy[axis] as int) <= k,
        k < count_le(elems, axis, on_copy[axis] as int),
    ensures
        in_place[axis] == on_copy[axis],
{
    lemma_rank_of_split(after, elems, k, axis);
    let v1 = in_place[axis] as int;
    let v2 = on_copy[axis] as int;
    if v1 < v2 {
        lemma_count_le_below_lt(elems, axis, v1, v2);
    } else if v2 < v1 {
        lemma_count_le_below_lt(elems, axis, v2, v1);
    }
}

/// Splits `items` at the positions `split_idxs`, taken relative to the first
/// of them: piece `j` holds the items from `split_idxs[j] - split_idxs[0]` up to
/// `split_idxs[j + 1] - split_idxs[0]`. Items past the last position are dropped.
pub fn split_multi_mut<T>(items: Vec<T>, split_idxs: &[usize]) -> (parts: Vec<Vec<T>>)
    requires
        forall|a: int, b: int| 0 <= a <= b < split_idxs@.len() ==> split_idxs@[a] <= split_idxs@[b],
        split_idxs@.len() > 0 ==> split_idxs@.last() - split_idxs@[0] <= items@.len(),
    ensures
        parts@.len() == if split_idxs@.len() == 0 { 0 } else { split_idxs@.len() - 1 },
        forall|j: int|
            0 <= j < parts@.len() ==> (#[trigger] parts@[j])@ == items@.subrange(
                split_idxs@[j] - split_idxs@[0],
                split_idxs@[j + 1] - split_idxs@[0],
            ),
{
    let mut parts: Vec<Vec<T>> = Vec::new();
    if split_idxs.len() == 0 {
        return parts;
    }
    let first = split_idxs[0];
    let mut rest = items;
    let mut j: usize = 0;
    while j < split_idxs.len() - 1
        invariant
            forall|a: int, b: int| 0 <= a <= b < split_idxs@.len() ==> split_idxs@[a] <= split_idxs@[b],
            split_idxs@.len() > 0,
            split_idxs@.last() - split_idxs@[0] <= items@.len(),
            first == split_idxs@[0],
            0 <= j < split_idxs@.len(),
            parts@.len() == j,
            rest@ == items@.subrange(split_idxs@[j as int] - first, items@.len() as int),
            forall|a: int|
                0 <= a < j ==> (#[trigger] parts@[a])@ == items@.subrange(
                    split_idxs@[a] - first,
                    split_idxs@[a + 1] - first,
                ),
        decreases split_idxs@.len() - j,
    {
        let width = split_idxs[j + 1] - split_idxs[j];
        let tail = rest.split_off(width);
        parts.push(rest);
        rest = tail;
        j = j + 1;
    }
    parts
}

} // verus!
