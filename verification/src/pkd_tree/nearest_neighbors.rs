use vstd::prelude::*;
use vstd::multiset::Multiset;
use crate::point::{sq_dist, sq_dist_upto, lex_le, lemma_lex_order, squared_distance, lex_less_eq};
use super::{Node, PKDTree};
use crate::parallel::par_map;

verus! {

broadcast use vstd::array::group_array_axioms;

/// `a` ranks no later than `b`: by squared distance, then lexicographically by point.
pub open spec fn neighbor_le<const K: usize>(a: (u128, [i32; K]), b: (u128, [i32; K])) -> bool {
    a.0 < b.0 || (a.0 == b.0 && lex_le(a.1, b.1))
}

pub open spec fn sorted_neighbors<const K: usize>(s: Seq<(u128, [i32; K])>) -> bool {
    forall|i: int, j: int| 0 <= i <= j < s.len() ==> neighbor_le(#[trigger] s[i], #[trigger] s[j])
}

/// The points of a list of (distance, point) pairs.
pub open spec fn neighbor_points<const K: usize>(s: Seq<(u128, [i32; K])>) -> Multiset<[i32; K]> {
    s.map_values(|e: (u128, [i32; K])| e.1).to_multiset()
}

/// `found` answers a query for the `num` nearest neighbours of `q` among `pool`:
/// it is sorted by (distance, point), every distance is exact, its points are
/// taken from `pool`, it has `min(num, |pool|)` entries, and every point of
/// `pool` left out ranks, by distance and then by point, no earlier than the
/// last entry. Together these fix the answer: it is the `num` first points of
/// `pool` in that order.
pub open spec fn is_knn<const K: usize>(
    found: Seq<(u128, [i32; K])>,
    pool: Multiset<[i32; K]>,
    q: [i32; K],
    num: nat,
) -> bool {
    &&& sorted_neighbors(found)
    &&& forall|i: int| 0 <= i < found.len() ==> (#[trigger] found[i]).0 == sq_dist(found[i].1, q)
    &&& neighbor_points(found).subset_of(pool)
    &&& found.len() == (if num <= pool.len() { num } else { pool.len() })
    &&& forall|p: [i32; K]|
        pool.count(p) > #[trigger] neighbor_points(found).count(p) ==> found.len() > 0
            && ranks_before(found.last(), sq_dist(p, q), p)
}

/// The entry `e` ranks no later than the point `p` at distance `d`.
pub open spec fn ranks_before<const K: usize>(e: (u128, [i32; K]), d: int, p: [i32; K]) -> bool {
    e.0 < d || (e.0 == d && lex_le(e.1, p))
}

proof fn lemma_ranks_trans<const K: usize>(a: (u128, [i32; K]), b: (u128, [i32; K]), d: int, p: [i32; K])
    requires
        neighbor_le(a, b),
        ranks_before(b, d, p),
    ensures
        ranks_before(a, d, p),
{
    lemma_lex_order(a.1, b.1, p);
}

proof fn lemma_neighbor_order<const K: usize>(
    a: (u128, [i32; K]),
    b: (u128, [i32; K]),
    c: (u128, [i32; K]),
)
    ensures
        neighbor_le(a, b) || neighbor_le(b, a),
        neighbor_le(a, b) && neighbor_le(b, c) ==> neighbor_le(a, c),
        neighbor_le(a, a),
{
    lemma_lex_order(a.1, b.1, c.1);
    lemma_lex_order(b.1, a.1, c.1);
}

proof fn lemma_points_insert<const K: usize>(s: Seq<(u128, [i32; K])>, j: int, e: (u128, [i32; K]))
    requires
        0 <= j <= s.len(),
    ensures
        neighbor_points(s.insert(j, e)) =~= neighbor_points(s).insert(e.1),
{
    let f = |x: (u128, [i32; K])| x.1;
    let s2 = s.insert(j, e);
    assert(s2.remove(j) =~= s);
    let m2 = s2.map_values(f);
    assert(m2.remove(j) =~= s.map_values(f));
    m2.to_multiset_ensures();
    assert(m2[j] == e.1);
    assert(m2.to_multiset().count(e.1) > 0);
}

proof fn lemma_points_remove<const K: usize>(s: Seq<(u128, [i32; K])>, j: int)
    requires
        0 <= j < s.len(),
    ensures
        neighbor_points(s.remove(j)) =~= neighbor_points(s).remove(s[j].1),
        neighbor_points(s).count(s[j].1) > 0,
{
    let f = |x: (u128, [i32; K])| x.1;
    let m = s.map_values(f);
    assert(m.remove(j) =~= s.remove(j).map_values(f));
    m.to_multiset_ensures();
    assert(m[j] == s[j].1);
}

proof fn lemma_points_len<const K: usize>(s: Seq<(u128, [i32; K])>)
    ensures
        neighbor_points(s).len() == s.len(),
{
    s.map_values(|x: (u128, [i32; K])| x.1).to_multiset_ensures();
}

proof fn lemma_contains_point<const K: usize>(s: Seq<(u128, [i32; K])>, i: int)
    requires
        0 <= i < s.len(),
    ensures
        neighbor_points(s).count(s[i].1) > 0,
{
    let m = s.map_values(|x: (u128, [i32; K])| x.1);
    m.to_multiset_ensures();
    assert(m[i] == s[i].1);
}

/// A sub-multiset as large as the whole is the whole.
proof fn lemma_subset_full<V>(small: Multiset<V>, big: Multiset<V>)
    requires
        small.subset_of(big),
        small.len() == big.len(),
    ensures
        forall|x: V| big.count(x) <= small.count(x),
{
    broadcast use vstd::multiset::group_multiset_axioms;

    let d = big.sub(small);
    assert(d.len() == 0);
    vstd::multiset::lemma_multiset_empty_len(d);
    assert forall|x: V| big.count(x) <= small.count(x) by {
        assert(d.count(x) == 0);
    }
}

/// Adds one point of the pool to the candidate list.
proof fn lemma_knn_step<const K: usize>(
    h: Seq<(u128, [i32; K])>,
    h2: Seq<(u128, [i32; K])>,
    pool: Multiset<[i32; K]>,
    q: [i32; K],
    num: nat,
    e: (u128, [i32; K]),
    j: int,
)
    requires
        is_knn(h, pool, q, num),
        num > 0,
        e.0 == sq_dist(e.1, q),
        0 <= j <= h.len(),
        h.len() < num || !neighbor_le(h.last(), e) ==> sorted_neighbors(h.insert(j, e)),
        h.len() < num ==> h2 == h.insert(j, e),
        h.len() >= num && !neighbor_le(h.last(), e) ==> h2 == h.insert(j, e).drop_last(),
        h.len() >= num && neighbor_le(h.last(), e) ==> h2 == h,
    ensures
        is_knn(h2, pool.insert(e.1), q, num),
{
    broadcast use vstd::multiset::group_multiset_axioms;

    let pool2 = pool.insert(e.1);
    let h1 = h.insert(j, e);
    lemma_points_insert(h, j, e);
    lemma_points_len(h);
    if h.len() < num {
        lemma_subset_full(neighbor_points(h), pool);
        assert forall|i: int| 0 <= i < h2.len() implies (#[trigger] h2[i]).0 == sq_dist(
            h2[i].1,
            q,
        ) by {
            if i < j {
                assert(h2[i] == h[i]);
            } else if i > j {
                assert(h2[i] == h[i - 1]);
            }
        }
    } else if !neighbor_le(h.last(), e) {
        let m = h.last();
        let n = h.len() as int;
        assert(h1[n] == m) by {
            if j == n {
                assert(h1[n - 1] == m);
                assert(neighbor_le(h1[n - 1], h1[n]));
            }
        }
        assert(h2 =~= h1.remove(n));
        lemma_points_remove(h1, n);
        lemma_contains_point(h, n - 1);
        assert(neighbor_le(h1[n - 1], h1[n]));
        assert forall|i: int| 0 <= i < h2.len() implies (#[trigger] h2[i]).0 == sq_dist(
            h2[i].1,
            q,
        ) by {
            if i < j {
                assert(h2[i] == h[i]);
            } else if i > j {
                assert(h2[i] == h[i - 1]);
            }
        }
        assert forall|p: [i32; K]| pool2.count(p) > #[trigger] neighbor_points(h2).count(
            p,
        ) implies h2.len() > 0 && ranks_before(h2.last(), sq_dist(p, q), p) by {
            assert(h2.last() == h1[n - 1]);
            if pool.count(p) > neighbor_points(h).count(p) {
                lemma_ranks_trans(h2.last(), m, sq_dist(p, q), p);
            } else {
                assert(p == m.1);
            }
        }
    } else {
        lemma_contains_point(h, h.len() - 1);
        assert forall|p: [i32; K]| pool2.count(p) > #[trigger] neighbor_points(h2).count(
            p,
        ) implies h2.len() > 0 && ranks_before(h2.last(), sq_dist(p, q), p) by {
            if pool.count(p) > neighbor_points(h).count(p) {
            } else {
                assert(p == e.1);
            }
        }
    }
}

/// Points all farther than the last candidate of a full list change nothing.
proof fn lemma_knn_skip<const K: usize>(
    h: Seq<(u128, [i32; K])>,
    pool: Multiset<[i32; K]>,
    extra: Multiset<[i32; K]>,
    q: [i32; K],
    num: nat,
)
    requires
        is_knn(h, pool, q, num),
        h.len() >= num,
        h.len() > 0,
        forall|p: [i32; K]| #[trigger] extra.contains(p) ==> sq_dist(p, q) > h.last().0,
    ensures
        is_knn(h, pool.add(extra), q, num),
{
    broadcast use vstd::multiset::group_multiset_axioms;

    assert forall|p: [i32; K]| pool.add(extra).count(p) > #[trigger] neighbor_points(h).count(
        p,
    ) implies h.len() > 0 && ranks_before(h.last(), sq_dist(p, q), p) by {
        if pool.count(p) > neighbor_points(h).count(p) {
        } else {
            assert(extra.contains(p));
        }
    }
}

proof fn lemma_sq_dist_term<const K: usize>(p: [i32; K], q: [i32; K], n: int, a: int)
    requires
        0 <= a < n,
    ensures
        sq_dist_upto(p, q, n) >= (p[a] - q[a]) * (p[a] - q[a]),
    decreases n,
{
    assert((p[n - 1] - q[n - 1]) * (p[n - 1] - q[n - 1]) >= 0) by (nonlinear_arith);
    if a < n - 1 {
        lemma_sq_dist_term(p, q, n - 1, a);
        lemma_sq_dist_nonneg(p, q, n - 1);
    } else {
        lemma_sq_dist_nonneg(p, q, n - 1);
    }
}

proof fn lemma_sq_dist_nonneg<const K: usize>(p: [i32; K], q: [i32; K], n: int)
    ensures
        sq_dist_upto(p, q, n) >= 0,
    decreases n,
{
    if n > 0 {
        assert((p[n - 1] - q[n - 1]) * (p[n - 1] - q[n - 1]) >= 0) by (nonlinear_arith);
        lemma_sq_dist_nonneg(p, q, n - 1);
    }
}

/// A point whose `axis` coordinate is at least `d` away from the query's is
/// at squared distance at least `d * d`.
proof fn lemma_axis_gap<const K: usize>(p: [i32; K], q: [i32; K], axis: int, d: int)
    requires
        0 <= axis < K,
        0 <= d,
        p[axis] - q[axis] >= d || q[axis] - p[axis] >= d,
    ensures
        sq_dist(p, q) >= d * d,
{
    lemma_sq_dist_term(p, q, K as int, axis);
    let x = p[axis] - q[axis];
    assert(x * x >= d * d) by (nonlinear_arith)
        requires
            0 <= d,
            x >= d || -x >= d,
    ;
}

/// The points of a concatenation are the points of both parts.
proof fn lemma_points_concat<const K: usize>(a: Seq<(u128, [i32; K])>, b: Seq<(u128, [i32; K])>)
    ensures
        neighbor_points(a + b) =~= neighbor_points(a).add(neighbor_points(b)),
{
    let f = |e: (u128, [i32; K])| e.1;
    assert((a + b).map_values(f) =~= a.map_values(f) + b.map_values(f));
    vstd::seq_lib::lemma_multiset_commutative(a.map_values(f), b.map_values(f));
}

/// A point of the list is at the distance of one of its entries.
proof fn lemma_point_entry<const K: usize>(s: Seq<(u128, [i32; K])>, p: [i32; K]) -> (i: int)
    requires
        neighbor_points(s).count(p) > 0,
    ensures
        0 <= i < s.len(),
        s[i].1 == p,
{
    let m = s.map_values(|e: (u128, [i32; K])| e.1);
    m.to_multiset_ensures();
    assert(m.contains(p));
    choose|i: int| 0 <= i < m.len() && m[i] == p
}

/// With equal entries before position `i`, the second answer's entry at `i`
/// ranks no later than the first's.
proof fn lemma_knn_not_earlier<const K: usize>(
    f1: Seq<(u128, [i32; K])>,
    f2: Seq<(u128, [i32; K])>,
    pool: Multiset<[i32; K]>,
    q: [i32; K],
    num: nat,
    i: int,
)
    requires
        is_knn(f1, pool, q, num),
        is_knn(f2, pool, q, num),
        0 <= i < f1.len(),
        forall|j: int| 0 <= j < i ==> #[trigger] f1[j] == f2[j],
    ensures
        neighbor_le(f2[i], f1[i]),
{
    broadcast use vstd::multiset::group_multiset_axioms;

    if !neighbor_le(f2[i], f1[i]) {
        lemma_neighbor_order(f1[i], f2[i], f1[i]);
        let pre1 = f1.take(i + 1);
        let pre2 = f2.take(i);
        let a = neighbor_points(pre1);
        let c = neighbor_points(pre2);
        lemma_points_len(pre1);
        lemma_points_len(pre2);
        if a.subset_of(c) {
            assert(c.sub(a).len() == c.len() - a.len());
        }
        let p = choose|p: [i32; K]| a.count(p) > c.count(p);
        assert(a.count(p) > c.count(p));
        let k1 = lemma_point_entry(pre1, p);
        let e = f1[k1];
        assert(e == pre1[k1]);
        assert(neighbor_le(e, f1[i]));
        assert(f1 =~= pre1 + f1.skip(i + 1));
        lemma_points_concat(pre1, f1.skip(i + 1));
        assert(f2 =~= pre2 + f2.skip(i));
        lemma_points_concat(pre2, f2.skip(i));
        if neighbor_points(f2.skip(i)).count(p) > 0 {
            let k2 = lemma_point_entry(f2.skip(i), p);
            assert(f2.skip(i)[k2] == f2[i + k2]);
            assert(neighbor_le(f2[i], f2[i + k2]));
            assert(f2[i + k2] == e);
            lemma_neighbor_order(f2[i], e, f1[i]);
        }
        assert(pool.count(p) > neighbor_points(f2).count(p));
        let last = f2[f2.len() - 1];
        assert(neighbor_le(f2[i], last));
        assert(ranks_before(last, sq_dist(p, q), p));
        assert(neighbor_le(last, e));
        lemma_neighbor_order(f2[i], last, e);
        lemma_neighbor_order(f2[i], e, f1[i]);
    }
}

/// Entries that rank no later than each other are equal.
proof fn lemma_neighbor_antisym<const K: usize>(a: (u128, [i32; K]), b: (u128, [i32; K]))
    requires
        neighbor_le(a, b),
        neighbor_le(b, a),
    ensures
        a == b,
{
    lemma_lex_order(a.1, b.1, a.1);
}

/// The first `n` entries of two exact answers agree.
proof fn lemma_knn_prefix<const K: usize>(
    f1: Seq<(u128, [i32; K])>,
    f2: Seq<(u128, [i32; K])>,
    pool: Multiset<[i32; K]>,
    q: [i32; K],
    num: nat,
    n: int,
)
    requires
        is_knn(f1, pool, q, num),
        is_knn(f2, pool, q, num),
        0 <= n <= f1.len(),
    ensures
        forall|j: int| 0 <= j < n ==> #[trigger] f1[j] == f2[j],
    decreases n,
{
    if n > 0 {
        lemma_knn_prefix(f1, f2, pool, q, num, n - 1);
        lemma_knn_not_earlier(f1, f2, pool, q, num, n - 1);
        lemma_knn_not_earlier(f2, f1, pool, q, num, n - 1);
        lemma_neighbor_antisym(f1[n - 1], f2[n - 1]);
    }
}

/// A nearest-neighbour answer depends on the points alone: any two exact
/// answers for the same points, query and count are equal, whatever tree
/// produced them, and so are the answers of one tree to the same query.
pub proof fn law_knn_unique<const K: usize>(
    f1: Seq<(u128, [i32; K])>,
    f2: Seq<(u128, [i32; K])>,
    pool: Multiset<[i32; K]>,
    q: [i32; K],
    num: nat,
)
    requires
        is_knn(f1, pool, q, num),
        is_knn(f2, pool, q, num),
    ensures
        f1 == f2,
{
    lemma_knn_prefix(f1, f2, pool, q, num, f1.len() as int);
    assert(f1 =~= f2);
}

/// `found` is a complete answer for `q` among `pool` as far as it goes: its
/// distances ascend and are exact, its points are taken from `pool`, and no
/// point of `pool` left out is nearer to `q` than its last entry.
pub open spec fn complete_answer<const K: usize>(
    found: Seq<(u128, [i32; K])>,
    pool: Multiset<[i32; K]>,
    q: [i32; K],
) -> bool {
    &&& forall|a: int, b: int| 0 <= a <= b < found.len() ==> (#[trigger] found[a]).0 <= (#[trigger] found[b]).0
    &&& forall|a: int| 0 <= a < found.len() ==> (#[trigger] found[a]).0 == sq_dist(found[a].1, q)
    &&& neighbor_points(found).subset_of(pool)
    &&& forall|p: [i32; K]|
        pool.count(p) > #[trigger] neighbor_points(found).count(p) ==> found.len() > 0 && sq_dist(p, q)
            >= found.last().0
}

/// An exact answer is complete.
pub proof fn lemma_knn_complete<const K: usize>(
    found: Seq<(u128, [i32; K])>,
    pool: Multiset<[i32; K]>,
    q: [i32; K],
    num: nat,
)
    requires
        is_knn(found, pool, q, num),
    ensures
        complete_answer(found, pool, q),
{
    assert forall|a: int, b: int| 0 <= a <= b < found.len() implies (#[trigger] found[a]).0
        <= (#[trigger] found[b]).0 by {
        assert(neighbor_le(found[a], found[b]));
    }
    assert forall|p: [i32; K]| pool.count(p) > #[trigger] neighbor_points(found).count(p) implies found.len()
        > 0 && sq_dist(p, q) >= found.last().0 by {
        assert(ranks_before(found.last(), sq_dist(p, q), p));
    }
}

proof fn lemma_complete_not_nearer<const K: usize>(
    f1: Seq<(u128, [i32; K])>,
    f2: Seq<(u128, [i32; K])>,
    pool: Multiset<[i32; K]>,
    q: [i32; K],
    i: int,
)
    requires
        complete_answer(f1, pool, q),
        complete_answer(f2, pool, q),
        0 <= i < f1.len(),
        i < f2.len(),
        forall|j: int| 0 <= j < i ==> (#[trigger] f1[j]).0 == f2[j].0,
    ensures
        f1[i].0 >= f2[i].0,
{
    broadcast use vstd::multiset::group_multiset_axioms;

    if f1[i].0 < f2[i].0 {
        let pre1 = f1.take(i + 1);
        let pre2 = f2.take(i);
        let a = neighbor_points(pre1);
        let c = neighbor_points(pre2);
        lemma_points_len(pre1);
        lemma_points_len(pre2);
        if a.subset_of(c) {
            assert(c.sub(a).len() == c.len() - a.len());
        }
        let p = choose|p: [i32; K]| a.count(p) > c.count(p);
        assert(a.count(p) > c.count(p));
        let k1 = lemma_point_entry(pre1, p);
        assert(f1[k1] == pre1[k1]);
        assert(f1[k1].0 <= f1[i].0);
        assert(sq_dist(p, q) < f2[i].0);
        assert(f1 =~= pre1 + f1.skip(i + 1));
        lemma_points_concat(pre1, f1.skip(i + 1));
        assert(f2 =~= pre2 + f2.skip(i));
        lemma_points_concat(pre2, f2.skip(i));
        if neighbor_points(f2.skip(i)).count(p) > 0 {
            let k2 = lemma_point_entry(f2.skip(i), p);
            assert(f2.skip(i)[k2] == f2[i + k2]);
            assert(f2[i].0 <= f2[i + k2].0);
        }
        assert(pool.count(p) > neighbor_points(f2).count(p));
        assert(f2[i].0 <= f2[f2.len() - 1].0);
    }
}

proof fn lemma_complete_prefix<const K: usize>(
    f1: Seq<(u128, [i32; K])>,
    f2: Seq<(u128, [i32; K])>,
    pool: Multiset<[i32; K]>,
    q: [i32; K],
    n: int,
)
    requires
        complete_answer(f1, pool, q),
        complete_answer(f2, pool, q),
        0 <= n <= f1.len(),
        n <= f2.len(),
    ensures
        forall|j: int| 0 <= j < n ==> (#[trigger] f1[j]).0 == f2[j].0,
    decreases n,
{
    if n > 0 {
        lemma_complete_prefix(f1, f2, pool, q, n - 1);
        lemma_complete_not_nearer(f1, f2, pool, q, n - 1);
        lemma_complete_not_nearer(f2, f1, pool, q, n - 1);
    }
}

/// Two complete answers for the same points and query list the same
/// distances for as many entries as both have.
pub proof fn law_complete_answers_agree<const K: usize>(
    f1: Seq<(u128, [i32; K])>,
    f2: Seq<(u128, [i32; K])>,
    pool: Multiset<[i32; K]>,
    q: [i32; K],
)
    requires
        complete_answer(f1, pool, q),
        complete_answer(f2, pool, q),
    ensures
        forall|j: int| 0 <= j < f1.len() && j < f2.len() ==> (#[trigger] f1[j]).0 == f2[j].0,
{
    let n = if f1.len() <= f2.len() { f1.len() as int } else { f2.len() as int };
    lemma_complete_prefix(f1, f2, pool, q, n);
}

/// Inserts `e` into the sorted candidate list, after every entry that ranks
/// no later than `e`.
fn insert_sorted<const K: usize>(heap: &mut Vec<(u128, [i32; K])>, e: (u128, [i32; K])) -> (j: usize)
    requires
        sorted_neighbors(old(heap)@),
    ensures
        j <= old(heap)@.len(),
        final(heap)@ == old(heap)@.insert(j as int, e),
        sorted_neighbors(final(heap)@),
{
    let mut j: usize = 0;
    while j < heap.len()
        invariant
            0 <= j <= heap@.len(),
            heap@ == old(heap)@,
            forall|i: int| 0 <= i < j ==> neighbor_le(#[trigger] heap@[i], e),
        ensures
            0 <= j <= heap@.len(),
            heap@ == old(heap)@,
            forall|i: int| 0 <= i < j ==> neighbor_le(#[trigger] heap@[i], e),
            j < heap@.len() ==> !neighbor_le(heap@[j as int], e),
        decreases heap@.len() - j,
    {
        let x = heap[j];
        let le = x.0 < e.0 || (x.0 == e.0 && lex_less_eq(&x.1, &e.1));
        if !le {
            break;
        }
        j = j + 1;
    }
    let ghost h = heap@;
    heap.insert(j, e);
    proof {
        assert forall|a: int, b: int| 0 <= a <= b < heap@.len() implies neighbor_le(
            #[trigger] heap@[a],
            #[trigger] heap@[b],
        ) by {
            if j < h.len() {
                lemma_neighbor_order(h[j as int], e, h[j as int]);
                assert(neighbor_le(e, h[j as int]));
            }
            if a < j && b == j {
            } else if a < j && b > j {
                lemma_neighbor_order(h[a], e, h[b - 1]);
                if j < h.len() {
                    lemma_neighbor_order(e, h[j as int], h[b - 1]);
                }
            } else if a == j && b > j {
                lemma_neighbor_order(e, h[j as int], h[b - 1]);
            } else if a == j && b == j {
                lemma_neighbor_order(e, e, e);
            } else if a > j {
            }
        }
    }
    j
}

impl<const K: usize> Node<K> {
    /// Offers every point of the subtree to the candidate list `heap` of the
    /// `num` nearest neighbours of `point`, skipping a subtree when the list is
    /// full and its farthest entry is closer than the splitting plane.
    pub fn nearests(
        &self,
        point: &[i32; K],
        num: usize,
        heap: &mut Vec<(u128, [i32; K])>,
        Ghost(seen): Ghost<Multiset<[i32; K]>>,
    )
        requires
            self.wf(),
            is_knn(old(heap)@, seen, *point, num as nat),
            num > 0 || self.is_empty_leaf(),
        ensures
            is_knn(final(heap)@, seen.add(self.points()), *point, num as nat),
        decreases self,
    {
        match self {
            Node::Leaf { points, .. } => {
                let mut i: usize = 0;
                proof {
                    assert(points@.take(0) =~= Seq::<[i32; K]>::empty());
                    points@.take(0).to_multiset_ensures();
                    assert(seen.add(points@.take(0).to_multiset()) =~= seen);
                }
                while i < points.len()
                    invariant
                        0 <= i <= points@.len(),
                        num > 0 || points@.len() == 0,
                        is_knn(heap@, seen.add(points@.take(i as int).to_multiset()), *point, num as nat),
                    decreases points@.len() - i,
                {
                    let p = points[i];
                    let sqdist = squared_distance(&p, point);
                    let ghost h = heap@;
                    let ghost pool = seen.add(points@.take(i as int).to_multiset());
                    proof {
                        lemma_points_len(h);
                    }
                    if heap.len() < num {
                        let j = insert_sorted(heap, (sqdist, p));
                        proof {
                            lemma_knn_step(h, heap@, pool, *point, num as nat, (sqdist, p), j as int);
                        }
                    } else {
                        let last = heap[heap.len() - 1];
                        if sqdist < last.0 || (sqdist == last.0 && !lex_less_eq(&last.1, &p)) {
                            let j = insert_sorted(heap, (sqdist, p));
                            let ghost h1 = heap@;
                            heap.pop();
                            proof {
                                assert(heap@ =~= h1.drop_last());
                                lemma_knn_step(h, heap@, pool, *point, num as nat, (sqdist, p), j as int);
                            }
                        } else {
                            proof {
                                lemma_knn_step(h, heap@, pool, *point, num as nat, (sqdist, p), 0);
                            }
                        }
                    }
                    proof {
                        let t = points@.take(i as int + 1);
                        assert(t =~= points@.take(i as int).push(p));
                        points@.take(i as int).to_multiset_ensures();
                        assert(seen.add(t.to_multiset()) =~= pool.insert(p));
                    }
                    i = i + 1;
                }
                proof {
                    assert(points@.take(points@.len() as int) =~= points@);
                }
            },
            Node::Interior { splitter, left, right, .. } => {
                let median = splitter.0;
                let axis = splitter.1;
                let go_left = point[axis] < median;
                let gap: u64 = if go_left {
                    (median as i64 - point[axis] as i64) as u64
                } else {
                    (point[axis] as i64 - median as i64) as u64
                };
                let (look_first, look_next) = if go_left {
                    (left, right)
                } else {
                    (right, left)
                };
                look_first.nearests(point, num, heap, Ghost(seen));
                let ghost seen1 = seen.add(look_first.points());
                proof {
                    lemma_points_len(heap@);
                }
                if heap.len() >= num {
                    let far = heap[heap.len() - 1].0;
                    let g: u128 = gap as u128;
                    assert(g * g <= 0xffff_ffff_ffff_ffff_ffff_ffff_ffff_ffffu128) by (nonlinear_arith)
                        requires
                            g <= 0xffff_ffff_ffff_ffffu128,
                    ;
                    if far < g * g {
                        proof {
                            assert forall|p: [i32; K]| #[trigger]
                                look_next.points().contains(p) implies sq_dist(p, *point)
                                > heap@.last().0 by {
                                lemma_axis_gap(p, *point, axis as int, gap as int);
                            }
                            lemma_knn_skip(heap@, seen1, look_next.points(), *point, num as nat);
                            assert(seen1.add(look_next.points()) =~= seen.add(self.points()));
                        }
                        return;
                    }
                }
                look_next.nearests(point, num, heap, Ghost(seen1));
                proof {
                    assert(seen1.add(look_next.points()) =~= seen.add(self.points()));
                }
            },
        }
    }
}

impl<const K: usize> PKDTree<K> {
    /// The `num` nearest neighbours of `point` among the tree's points, as
    /// (squared distance, point) pairs sorted by distance, then by point;
    /// among points at the same distance the lower ones in point order are kept.
    pub fn nearests(&self, point: &[i32; K], num: usize) -> (found: Vec<(u128, [i32; K])>)
        requires
            self.wf(),
            num > 0 || self.is_empty_leaf(),
        ensures
            is_knn(found@, self.spec_points(), *point, num as nat),
    {
        let mut heap: Vec<(u128, [i32; K])> = Vec::with_capacity(num);
        proof {
            lemma_points_len(heap@);
            assert(heap@ =~= Seq::<(u128, [i32; K])>::empty());
            heap@.map_values(|e: (u128, [i32; K])| e.1).to_multiset_ensures();
            assert(neighbor_points(heap@) =~= Multiset::empty()) by {
                vstd::multiset::lemma_multiset_empty_len(neighbor_points(heap@));
            }
        }
        self.0.nearests(point, num, &mut heap, Ghost(Multiset::empty()));
        proof {
            assert(Multiset::<[i32; K]>::empty().add(self.0.points()) =~= self.0.points());
        }
        heap
    }

    /// `nearests` for each query point, answered in parallel: entry `i` is the
    /// exact answer for `points[i]`, which `law_knn_unique` shows is what
    /// `nearests` returns for it.
    pub fn batch_nearests(&self, points: &[[i32; K]], num: usize) -> (found: Vec<
        Vec<(u128, [i32; K])>,
    >)
        requires
            self.wf(),
            num > 0 || self.is_empty_leaf(),
        ensures
            found@.len() == points@.len(),
            forall|i: int|
                0 <= i < points@.len() ==> is_knn(
                    (#[trigger] found@[i])@,
                    self.spec_points(),
                    points@[i],
                    num as nat,
                ),
    {
        let query = |p: &[i32; K]| -> (r: Vec<(u128, [i32; K])>)
            requires
                self.wf(),
                num > 0 || self.is_empty_leaf(),
            ensures
                is_knn(r@, self.spec_points(), *p, num as nat),
            { self.nearests(p, num) };
        let found = par_map(points, query);
        found
    }
}

} // verus!
