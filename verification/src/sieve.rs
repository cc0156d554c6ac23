//! Bucketing: reordering points so that bucket numbers ascend, and the
//! offsets at which each bucket starts.

use vstd::prelude::*;
use crate::radix::radix_sort_keys;
use crate::parallel::par_tabulate;
use crate::prefix::{prefix_sums, seq_sum};

verus! {

/// A way of assigning each point a bucket number.
pub trait BucketFn<const K: usize> {
    /// The bucket of `p`.
    spec fn spec_bucket(&self, p: [i32; K]) -> int;

    /// The bucket function may be evaluated.
    spec fn bucket_ready(&self) -> bool;

    fn bucket(&self, p: &[i32; K]) -> (b: u8)
        requires
            self.bucket_ready(),
        ensures
            b as int == self.spec_bucket(*p),
    ;
}

/// The buckets of `s` ascend.
pub open spec fn buckets_ascend<const K: usize, B: BucketFn<K>>(s: Seq<[i32; K]>, f: &B) -> bool {
    forall|a: int, b: int|
        0 <= a <= b < s.len() ==> f.spec_bucket(#[trigger] s[a]) <= f.spec_bucket(#[trigger] s[b])
}

/// Equal multisets stay equal under a map.
pub proof fn lemma_map_multiset<A, C>(s1: Seq<A>, s2: Seq<A>, f: spec_fn(A) -> C)
    requires
        s1.to_multiset() == s2.to_multiset(),
    ensures
        s1.map_values(f).to_multiset() == s2.map_values(f).to_multiset(),
    decreases s1.len(),
{
    s1.to_multiset_ensures();
    s2.to_multiset_ensures();
    if s1.len() == 0 {
        assert(s2.len() == 0);
        assert(s1.map_values(f) =~= s2.map_values(f));
    } else {
        let n = s1.len() - 1;
        let x = s1[n];
        assert(s1.to_multiset().count(x) > 0);
        assert(s2.contains(x));
        let i = choose|i: int| 0 <= i < s2.len() && s2[i] == x;
        let s1r = s1.remove(n);
        let s2r = s2.remove(i);
        assert(s1r.to_multiset() =~= s2r.to_multiset());
        lemma_map_multiset(s1r, s2r, f);
        let m1 = s1.map_values(f);
        let m2 = s2.map_values(f);
        m1.to_multiset_ensures();
        m2.to_multiset_ensures();
        assert(m1.remove(n) =~= s1r.map_values(f));
        assert(m2.remove(i) =~= s2r.map_values(f));
        assert(m1[n] == f(x));
        assert(m2[i] == f(x));
        assert(m1.to_multiset().count(f(x)) > 0);
        assert(m2.to_multiset().count(f(x)) > 0);
        assert(m1.to_multiset() =~= m2.to_multiset()) by {
            assert forall|y: C| m1.to_multiset().count(y) == m2.to_multiset().count(y) by {
                assert(m1.remove(n).to_multiset().count(y) == m2.remove(i).to_multiset().count(y));
            }
        }
    }
}

proof fn lemma_key_fields(b: u128, i: u128)
    requires
        b < 256,
        i < 0x1_0000_0000_0000_0000,
    ensures
        ((b << 64u128) | i) >> 64u128 == b,
        (((b << 64u128) | i) as u64) as u128 == i,
{
    assert(((b << 64u128) | i) >> 64u128 == b) by (bit_vector)
        requires
            b < 256,
            i < 0x1_0000_0000_0000_0000,
    ;
    assert((((b << 64u128) | i) as u64) as u128 == i) by (bit_vector)
        requires
            b < 256,
            i < 0x1_0000_0000_0000_0000,
    ;
}

proof fn lemma_shift_mono(a: u128, c: u128)
    requires
        a <= c,
    ensures
        a >> 64u128 <= c >> 64u128,
{
    assert(a >> 64u128 <= c >> 64u128) by (bit_vector)
        requires
            a <= c,
    ;
}

/// Number of positions before `n` holding bucket `b`.
pub open spec fn count_eq(bs: Seq<u8>, b: int, n: int) -> int
    decreases n,
{
    if n <= 0 {
        0
    } else {
        count_eq(bs, b, n - 1) + (if bs[n - 1] == b { 1int } else { 0int })
    }
}

/// Number of positions before `n` holding a bucket below `b`.
pub open spec fn count_below(bs: Seq<u8>, b: int, n: int) -> int
    decreases n,
{
    if n <= 0 {
        0
    } else {
        count_below(bs, b, n - 1) + (if bs[n - 1] < b { 1int } else { 0int })
    }
}

proof fn lemma_count_eq_mono(bs: Seq<u8>, b: int, m: int, n: int)
    requires
        0 <= m <= n,
    ensures
        0 <= count_eq(bs, b, m) <= count_eq(bs, b, n),
    decreases n,
{
    if n > m {
        lemma_count_eq_mono(bs, b, m, n - 1);
    } else if n > 0 {
        lemma_count_eq_mono(bs, b, 0, n - 1);
    }
}

proof fn lemma_count_eq_bound(bs: Seq<u8>, b: int, n: int)
    requires
        0 <= n,
    ensures
        count_eq(bs, b, n) <= n,
    decreases n,
{
    if n > 0 {
        lemma_count_eq_bound(bs, b, n - 1);
    }
}

proof fn lemma_count_below_step(bs: Seq<u8>, b: int, n: int)
    requires
        0 <= n,
    ensures
        count_below(bs, b + 1, n) == count_below(bs, b, n) + count_eq(bs, b, n),
        count_below(bs, b, n) <= count_below(bs, b + 1, n),
    decreases n,
{
    if n > 0 {
        lemma_count_below_step(bs, b, n - 1);
    }
    lemma_count_eq_mono(bs, b, 0, n);
}

proof fn lemma_count_below_mono(bs: Seq<u8>, a: int, b: int, n: int)
    requires
        a <= b,
        0 <= n,
    ensures
        count_below(bs, a, n) <= count_below(bs, b, n),
    decreases b - a,
{
    if b > a {
        lemma_count_below_mono(bs, a, b - 1, n);
        lemma_count_below_step(bs, b - 1, n);
    }
}

proof fn lemma_count_below_all(bs: Seq<u8>, b: int, n: int)
    requires
        0 <= n <= bs.len(),
        forall|i: int| 0 <= i < n ==> bs[i] < b,
    ensures
        count_below(bs, b, n) == n,
    decreases n,
{
    if n > 0 {
        lemma_count_below_all(bs, b, n - 1);
    }
}

/// Number of `true` flags before position `n`.
spec fn count_true(fl: Seq<bool>, n: int) -> int
    decreases n,
{
    if n <= 0 {
        0
    } else {
        count_true(fl, n - 1) + (if fl[n - 1] { 1int } else { 0int })
    }
}

proof fn lemma_count_true_multiset(fl: Seq<bool>, n: int)
    requires
        0 <= n <= fl.len(),
    ensures
        fl.take(n).to_multiset().count(true) == count_true(fl, n),
    decreases n,
{
    broadcast use vstd::multiset::group_multiset_axioms;

    if n == 0 {
        assert(fl.take(0) =~= Seq::<bool>::empty());
        fl.take(0).to_multiset_ensures();
    } else {
        lemma_count_true_multiset(fl, n - 1);
        assert(fl.take(n) =~= fl.take(n - 1).push(fl[n - 1]));
        vstd::seq_lib::to_multiset_build(fl.take(n - 1), fl[n - 1]);
    }
}

proof fn lemma_count_true_prefix(fl: Seq<bool>, m: int, n: int)
    requires
        0 <= n <= fl.len(),
        0 <= m <= fl.len(),
        forall|j: int| 0 <= j < fl.len() ==> (fl[j] <==> j < m),
    ensures
        count_true(fl, n) == if n <= m { n } else { m },
    decreases n,
{
    if n > 0 {
        lemma_count_true_prefix(fl, m, n - 1);
    }
}

proof fn lemma_count_true_buckets(fl: Seq<bool>, bs: Seq<u8>, b: int, n: int)
    requires
        0 <= n <= fl.len(),
        fl.len() == bs.len(),
        forall|j: int| 0 <= j < fl.len() ==> (fl[j] <==> bs[j] < b),
    ensures
        count_true(fl, n) == count_below(bs, b, n),
    decreases n,
{
    if n > 0 {
        lemma_count_true_buckets(fl, bs, b, n - 1);
    }
}

/// Sieving and counting sort place bucket borders alike: when `buckets[i]` is
/// the bucket of `elems[i]`, the offset that `sieve` returns for bucket `b` is
/// the number of points in lower buckets, which is what `my_sieve` returns
/// for `b`.
pub proof fn law_sieve_offsets_agree<const K: usize, B: BucketFn<K>>(
    elems: Seq<[i32; K]>,
    buckets: Seq<u8>,
    f: &B,
    sieved: Seq<[i32; K]>,
    offset: int,
    b: int,
)
    requires
        buckets.len() == elems.len(),
        forall|i: int| 0 <= i < elems.len() ==> buckets[i] == f.spec_bucket(#[trigger] elems[i]),
        sieved.to_multiset() == elems.to_multiset(),
        0 <= offset <= sieved.len(),
        forall|j: int| 0 <= j < sieved.len() ==> (j < offset <==> f.spec_bucket(#[trigger] sieved[j]) < b),
    ensures
        offset == count_below(buckets, b, elems.len() as int),
{
    let g = |p: [i32; K]| f.spec_bucket(p) < b;
    let fs = sieved.map_values(g);
    let fe = elems.map_values(g);
    lemma_map_multiset(sieved, elems, g);
    sieved.to_multiset_ensures();
    elems.to_multiset_ensures();
    assert(fs.take(fs.len() as int) =~= fs);
    assert(fe.take(fe.len() as int) =~= fe);
    lemma_count_true_multiset(fs, fs.len() as int);
    lemma_count_true_multiset(fe, fe.len() as int);
    lemma_count_true_prefix(fs, offset, fs.len() as int);
    lemma_count_true_buckets(fe, buckets, b, fe.len() as int);
}

/// Where a stable counting sort by bucket puts position `i`: after all
/// positions of lower buckets and after the earlier positions of its own.
pub open spec fn stable_slot(bs: Seq<u8>, i: int) -> int {
    count_below(bs, bs[i] as int, bs.len() as int) + count_eq(bs, bs[i] as int, i)
}

/// Counting sort of `elems` by their buckets, `buckets[i]` being the bucket
/// of `elems[i]`, all below `B`. Returns the start of each bucket `0..=B` and
/// the points in bucket order, each bucket keeping the input order.
pub fn my_sieve<const K: usize, const B: usize>(elems: &[[i32; K]], buckets: &[u8]) -> (r: (
    Vec<usize>,
    Vec<[i32; K]>,
))
    requires
        buckets@.len() == elems@.len(),
        B < usize::MAX,
        forall|i: int| 0 <= i < buckets@.len() ==> (#[trigger] buckets@[i]) < B,
    ensures
        r.0@.len() == B + 1,
        forall|b: int| 0 <= b <= B ==> #[trigger] r.0@[b] == count_below(buckets@, b, elems@.len() as int),
        r.1@.len() == elems@.len(),
        forall|i: int|
            0 <= i < elems@.len() ==> r.1@[stable_slot(buckets@, i)] == #[trigger] elems@[i],
{
    let n = elems.len();
    let ghost bs = buckets@;
    // histogram of the buckets
    let mut counters: Vec<usize> = Vec::new();
    let mut b: usize = 0;
    while b < B
        invariant
            0 <= b <= B,
            counters@.len() == b,
            forall|c: int| 0 <= c < b ==> counters@[c] == 0,
        decreases B - b,
    {
        counters.push(0);
        b = b + 1;
    }
    let mut i: usize = 0;
    while i < n
        invariant
            0 <= i <= n,
            n == elems@.len(),
            bs == buckets@,
            bs.len() == n,
            counters@.len() == B,
            forall|x: int| 0 <= x < n ==> (#[trigger] bs[x]) < B,
            forall|c: int| 0 <= c < B ==> #[trigger] counters@[c] == count_eq(bs, c, i as int),
        decreases n - i,
    {
        let bk = buckets[i] as usize;
        proof {
            lemma_count_eq_mono(bs, bk as int, i as int, n as int);
            lemma_count_eq_mono(bs, bk as int, i + 1, n as int);
            lemma_count_eq_bound(bs, bk as int, n as int);
        }
        counters.set(bk, counters[bk] + 1);
        i = i + 1;
    }
    // offsets of the buckets
    let mut shifted: Vec<usize> = Vec::new();
    shifted.push(0);
    proof {
        lemma_count_below_zero(bs, n as int);
        assert(seq_sum(shifted@, 0) == 0);
    }
    let mut c: usize = 0;
    while c < B
        invariant
            0 <= c <= B,
            shifted@.len() == c + 1,
            shifted@[0] == 0,
            counters@.len() == B,
            forall|x: int| 0 <= x < c ==> #[trigger] shifted@[x + 1] == counters@[x],
            seq_sum(shifted@, c + 1) == count_below(bs, c as int, n as int),
            forall|x: int| 0 <= x < B ==> #[trigger] counters@[x] == count_eq(bs, x, n as int),
        decreases B - c,
    {
        proof {
            lemma_count_below_step(bs, c as int, n as int);
            assert(seq_sum(shifted@.push(counters@[c as int]), c + 1) == seq_sum(shifted@, c + 1)) by {
                lemma_seq_sum_prefix(shifted@, shifted@.push(counters@[c as int]), c + 1);
            }
        }
        shifted.push(counters[c]);
        c = c + 1;
    }
    proof {
        lemma_count_below_all(bs, B as int, n as int);
        assert forall|x: int| 0 <= x <= B implies seq_sum(shifted@, x + 1) == count_below(bs, x, n as int) by {
            lemma_seq_sum_shifted(shifted@, counters@, bs, n as int, x);
        }
    }
    let bucket_offsets = prefix_sums(shifted);
    // place every point
    let mut new_elems: Vec<[i32; K]> = Vec::new();
    let mut j: usize = 0;
    while j < n
        invariant
            0 <= j <= n,
            n == elems@.len(),
            new_elems@.len() == j,
        decreases n - j,
    {
        new_elems.push(elems[j]);
        j = j + 1;
    }
    let mut curr: Vec<usize> = Vec::new();
    let mut b: usize = 0;
    while b < B
        invariant
            0 <= b <= B,
            curr@.len() == b,
            forall|x: int| 0 <= x < b ==> curr@[x] == 0,
        decreases B - b,
    {
        curr.push(0);
        b = b + 1;
    }
    let mut i: usize = 0;
    while i < n
        invariant
            0 <= i <= n,
            n == elems@.len(),
            bs == buckets@,
            bs.len() == n,
            new_elems@.len() == n,
            curr@.len() == B,
            bucket_offsets@.len() == B + 1,
            forall|x: int| 0 <= x < n ==> (#[trigger] bs[x]) < B,
            forall|x: int| 0 <= x <= B ==> #[trigger] bucket_offsets@[x] == count_below(bs, x, n as int),
            count_below(bs, B as int, n as int) == n,
            forall|c: int| 0 <= c < B ==> #[trigger] curr@[c] == count_eq(bs, c, i as int),
            forall|x: int| 0 <= x < i ==> new_elems@[stable_slot(bs, x)] == #[trigger] elems@[x],
        decreases n - i,
    {
        let bk = buckets[i] as usize;
        let ghost bki = bk as int;
        proof {
            lemma_count_eq_mono(bs, bki, i as int, n as int);
            lemma_count_eq_mono(bs, bki, i + 1, n as int);
            lemma_count_below_step(bs, bki, n as int);
            lemma_count_below_mono(bs, bki + 1, B as int, n as int);
        }
        let pos = bucket_offsets[bk] + curr[bk];
        let ghost before = new_elems@;
        new_elems.set(pos, elems[i]);
        curr.set(bk, curr[bk] + 1);
        proof {
            assert(pos == stable_slot(bs, i as int));
            assert(count_eq(bs, bki, i + 1) == count_eq(bs, bki, i as int) + 1);
            assert forall|x: int| 0 <= x < i + 1 implies new_elems@[stable_slot(bs, x)] == #[trigger] elems@[x] by {
                if x < i {
                    let bx = bs[x] as int;
                    assert(count_eq(bs, bx, x + 1) == count_eq(bs, bx, x) + 1);
                    lemma_count_eq_mono(bs, bx, x + 1, i as int);
                    lemma_count_eq_mono(bs, bx, x + 1, n as int);
                    let nn = n as int;
                    if bx < bki {
                        lemma_count_below_step(bs, bx, nn);
                        lemma_count_below_mono(bs, bx + 1, bki, nn);
                        assert(stable_slot(bs, x) == count_below(bs, bx, nn) + count_eq(bs, bx, x));
                        assert(count_eq(bs, bx, x) < count_eq(bs, bx, nn));
                        assert(stable_slot(bs, x) < count_below(bs, bx + 1, nn));
                        assert(stable_slot(bs, x) < pos);
                    } else if bx > bki {
                        lemma_count_below_step(bs, bki, nn);
                        lemma_count_below_mono(bs, bki + 1, bx, nn);
                        assert(count_eq(bs, bki, i as int) < count_eq(bs, bki, nn));
                        assert(pos < count_below(bs, bki + 1, nn));
                        assert(stable_slot(bs, x) == count_below(bs, bx, nn) + count_eq(bs, bx, x));
                        lemma_count_eq_mono(bs, bx, 0, x);
                        assert(stable_slot(bs, x) > pos);
                    } else {
                        assert(count_eq(bs, bx, x) < count_eq(bs, bx, i as int));
                        assert(stable_slot(bs, x) < pos);
                    }
                    assert(stable_slot(bs, x) != pos);
                    lemma_count_below_step(bs, bx, nn);
                    lemma_count_below_mono(bs, bx + 1, B as int, nn);
                    lemma_count_below_nonneg(bs, bx, nn);
                    lemma_count_eq_mono(bs, bx, 0, x);
                    assert(0 <= stable_slot(bs, x) < nn);
                    assert(new_elems@[stable_slot(bs, x)] == before[stable_slot(bs, x)]);
                } else {
                    assert(new_elems@[pos as int] == elems@[i as int]);
                }
            }
        }
        i = i + 1;
    }
    (bucket_offsets, new_elems)
}

proof fn lemma_seq_sum_prefix(s: Seq<usize>, t: Seq<usize>, n: int)
    requires
        0 <= n <= s.len(),
        n <= t.len(),
        forall|x: int| 0 <= x < n ==> s[x] == t[x],
    ensures
        seq_sum(s, n) == seq_sum(t, n),
    decreases n,
{
    if n > 0 {
        lemma_seq_sum_prefix(s, t, n - 1);
    }
}

proof fn lemma_seq_sum_shifted(shifted: Seq<usize>, counters: Seq<usize>, bs: Seq<u8>, n: int, x: int)
    requires
        0 <= n,
        counters.len() >= x,
        shifted.len() == counters.len() + 1,
        shifted[0] == 0,
        0 <= x <= counters.len(),
        forall|y: int| 0 <= y < counters.len() ==> #[trigger] shifted[y + 1] == counters[y],
        forall|y: int| 0 <= y < counters.len() ==> #[trigger] counters[y] == count_eq(bs, y, n),
    ensures
        seq_sum(shifted, x + 1) == count_below(bs, x, n),
    decreases x,
{
    if x == 0 {
        assert(seq_sum(shifted, 0) == 0);
        lemma_count_below_zero(bs, n);
    } else {
        lemma_seq_sum_shifted(shifted, counters, bs, n, x - 1);
        lemma_count_below_step(bs, x - 1, n);
        assert(shifted[x] == counters[x - 1]);
    }
}

proof fn lemma_count_below_nonneg(bs: Seq<u8>, b: int, n: int)
    ensures
        count_below(bs, b, n) >= 0,
    decreases n,
{
    if n > 0 {
        lemma_count_below_nonneg(bs, b, n - 1);
    }
}

proof fn lemma_count_below_zero(bs: Seq<u8>, n: int)
    ensures
        count_below(bs, 0, n) == 0,
    decreases n,
{
    if n > 0 {
        lemma_count_below_zero(bs, n - 1);
    }
}

/// Reorders a sequence of points by bucket.
pub trait Sieve<const K: usize> {
    /// The points, in order.
    spec fn elems(&self) -> Seq<[i32; K]>;

    /// Puts the points in ascending bucket order and returns the start of each
    /// bucket `0..=num_buckets` (the number of points in lower buckets) and
    /// the size of each bucket `0..num_buckets`.
    fn sieve<B: BucketFn<K> + Sync>(&mut self, num_buckets: usize, get_bucket: &B) -> (r: (
        Vec<usize>,
        Vec<usize>,
    ))
        requires
            get_bucket.bucket_ready(),
            num_buckets < usize::MAX,
        ensures
            final(self).elems().len() == old(self).elems().len(),
            final(self).elems().to_multiset() == old(self).elems().to_multiset(),
            buckets_ascend(final(self).elems(), get_bucket),
            r.0@.len() == num_buckets + 1,
            forall|b: int| 0 <= b <= num_buckets ==> r.0@[b] <= final(self).elems().len(),
            forall|b: int, j: int|
                0 <= b <= num_buckets && 0 <= j < final(self).elems().len() ==> (j < r.0@[b]
                    <==> get_bucket.spec_bucket(final(self).elems()[j]) < b),
            r.1@.len() == num_buckets,
            forall|b: int| 0 <= b < num_buckets ==> r.1@[b] == r.0@[b + 1] - r.0@[b],
    ;
}

impl<const K: usize> Sieve<K> for Vec<[i32; K]> {
    open spec fn elems(&self) -> Seq<[i32; K]> {
        self@
    }

    fn sieve<B: BucketFn<K> + Sync>(&mut self, num_buckets: usize, get_bucket: &B) -> (r: (
        Vec<usize>,
        Vec<usize>,
    )) {
        let n = self.len();
        let ghost orig = self@;
        // tag every point with its bucket (high bits) and its position (low bits)
        let elems: &Vec<[i32; K]> = self;
        let tag = |i: usize| -> (key: u128)
            requires
                i < elems@.len(),
                get_bucket.bucket_ready(),
            ensures
                key == (((get_bucket.spec_bucket(elems@[i as int]) as u128) << 64u128) | (i as u128)),
                0 <= get_bucket.spec_bucket(elems@[i as int]) < 256,
        {
            let b = get_bucket.bucket(&elems[i]);
            ((b as u128) << 64u128) | (i as u128)
        };
        let mut keys = par_tabulate(n, tag);
        proof {
            assert forall|a: int| 0 <= a < n implies #[trigger] keys@[a] == (((get_bucket.spec_bucket(orig[a]) as u128)
                << 64u128) | (a as u128)) by {
                assert(tag.ensures((a as usize,), keys@[a]));
            }
            assert forall|a: int| 0 <= a < n implies 0 <= get_bucket.spec_bucket(#[trigger] orig[a]) < 256 by {
                assert(tag.ensures((a as usize,), keys@[a]));
            }
        }
        let ghost keys0 = keys@;
        radix_sort_keys(&mut keys);
        let ghost sorted_keys = keys@;
        let ghost g = |k: u128| orig[((k as u64) as usize) as int];
        proof {
            keys0.to_multiset_ensures();
            sorted_keys.to_multiset_ensures();
            assert forall|a: int| 0 <= a < n implies {
                &&& (#[trigger] sorted_keys[a]) >> 64u128 == get_bucket.spec_bucket(
                    orig[((sorted_keys[a] as u64) as usize) as int],
                )
                &&& ((sorted_keys[a] as u64) as usize) < n
            } by {
                assert(sorted_keys.to_multiset().count(sorted_keys[a]) > 0);
                assert(keys0.contains(sorted_keys[a]));
                let i0 = choose|i0: int| 0 <= i0 < n && keys0[i0] == sorted_keys[a];
                lemma_key_fields(get_bucket.spec_bucket(orig[i0]) as u128, i0 as u128);
            }
            assert(keys0.map_values(g) =~= orig) by {
                assert forall|a: int| 0 <= a < n implies keys0.map_values(g)[a] == orig[a] by {
                    lemma_key_fields(get_bucket.spec_bucket(orig[a]) as u128, a as u128);
                }
            }
            lemma_map_multiset(sorted_keys, keys0, g);
        }
        let source: &Vec<[i32; K]> = self;
        let key_ref: &Vec<u128> = &keys;
        let untag = |j: usize| -> (p: [i32; K])
            requires
                j < key_ref@.len(),
                forall|a: int|
                    0 <= a < key_ref@.len() ==> ((#[trigger] key_ref@[a] as u64) as usize) < source@.len(),
            ensures
                p == source@[((key_ref@[j as int] as u64) as usize) as int],
        { source[(key_ref[j] as u64) as usize] };
        let sorted = par_tabulate(n, untag);
        proof {
            assert forall|a: int| 0 <= a < n implies #[trigger] sorted@[a] == sorted_keys.map_values(g)[a] by {
                assert(untag.ensures((a as usize,), sorted@[a]));
            }
            assert(sorted@ =~= sorted_keys.map_values(g));
        }
        *self = sorted;
        proof {
            assert(self@ =~= sorted_keys.map_values(g));
            assert forall|a: int, b: int| 0 <= a <= b < n implies get_bucket.spec_bucket(
                #[trigger] self@[a],
            ) <= get_bucket.spec_bucket(#[trigger] self@[b]) by {
                lemma_shift_mono(sorted_keys[a], sorted_keys[b]);
                assert(self@[a] == g(sorted_keys[a]));
                assert(self@[b] == g(sorted_keys[b]));
            }
        }
        // the start of every bucket
        let mut offsets: Vec<usize> = Vec::new();
        let mut id: usize = 0;
        while id <= num_buckets
            invariant
                num_buckets < usize::MAX,
                0 <= id <= num_buckets + 1,
                n == self@.len(),
                keys@ == sorted_keys,
                sorted_keys.len() == n,
                forall|a: int| 0 <= a < n ==> (#[trigger] sorted_keys[a]) >> 64u128 == get_bucket.spec_bucket(self@[a]),
                buckets_ascend(self@, get_bucket),
                offsets@.len() == id,
                forall|b: int| 0 <= b < id ==> offsets@[b] <= n,
                forall|b: int, c: int|
                    0 <= b < id && 0 <= c < n ==> (c < offsets@[b] <==> get_bucket.spec_bucket(
                        self@[c],
                    ) < b),
            decreases num_buckets + 1 - id,
        {
            let mut lo: usize = 0;
            let mut hi: usize = n;
            while lo < hi
                invariant
                    0 <= lo <= hi <= n,
                    n == self@.len(),
                    keys@ == sorted_keys,
                    sorted_keys.len() == n,
                    forall|a: int| 0 <= a < n ==> (#[trigger] sorted_keys[a]) >> 64u128 == get_bucket.spec_bucket(self@[a]),
                    buckets_ascend(self@, get_bucket),
                    forall|c: int| 0 <= c < lo ==> get_bucket.spec_bucket(#[trigger] self@[c]) < id,
                    forall|c: int| hi <= c < n ==> get_bucket.spec_bucket(#[trigger] self@[c]) >= id,
                decreases hi - lo,
            {
                let mid = lo + (hi - lo) / 2;
                if (keys[mid] >> 64u128) < (id as u128) {
                    lo = mid + 1;
                } else {
                    hi = mid;
                }
            }
            offsets.push(lo);
            id = id + 1;
        }
        let mut sizes: Vec<usize> = Vec::new();
        let mut b: usize = 0;
        while b < num_buckets
            invariant
                0 <= b <= num_buckets,
                offsets@.len() == num_buckets + 1,
                n == self@.len(),
                forall|x: int| 0 <= x <= num_buckets ==> offsets@[x] <= n,
                forall|x: int, c: int|
                    0 <= x <= num_buckets && 0 <= c < n ==> (c < offsets@[x] <==> get_bucket.spec_bucket(
                        self@[c],
                    ) < x),
                sizes@.len() == b,
                forall|x: int| 0 <= x < b ==> sizes@[x] == offsets@[x + 1] - offsets@[x],
            decreases num_buckets - b,
        {
            proof {
                if offsets@[b as int] > offsets@[b + 1] {
                    let c = offsets@[b + 1] as int;
                    assert(get_bucket.spec_bucket(self@[c]) < b);
                }
            }
            sizes.push(offsets[b + 1] - offsets[b]);
            b = b + 1;
        }
        (offsets, sizes)
    }
}

} // verus!
