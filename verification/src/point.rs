use vstd::prelude::*;

verus! {

broadcast use vstd::array::group_array_axioms;

/// Sum of squared coordinate differences over the first `n` axes.
pub open spec fn sq_dist_upto<const K: usize>(p: [i32; K], q: [i32; K], n: int) -> int
    decreases n,
{
    if n <= 0 {
        0
    } else {
        sq_dist_upto(p, q, n - 1) + (p[n - 1] - q[n - 1]) * (p[n - 1] - q[n - 1])
    }
}

/// Squared Euclidean distance between two points.
pub open spec fn sq_dist<const K: usize>(p: [i32; K], q: [i32; K]) -> int {
    sq_dist_upto(p, q, K as int)
}

/// Lexicographic `<=` on two coordinate sequences of equal length, from axis `i` on.
pub open spec fn lex_le_from(a: Seq<i32>, b: Seq<i32>, i: int) -> bool
    decreases a.len() - i,
{
    if i >= a.len() || i < 0 {
        true
    } else if a[i] < b[i] {
        true
    } else if a[i] > b[i] {
        false
    } else {
        lex_le_from(a, b, i + 1)
    }
}

/// Lexicographic `<=` on points.
pub open spec fn lex_le<const K: usize>(a: [i32; K], b: [i32; K]) -> bool {
    lex_le_from(a@, b@, 0)
}

proof fn lemma_lex_from_total(a: Seq<i32>, b: Seq<i32>, i: int)
    requires
        a.len() == b.len(),
    ensures
        lex_le_from(a, b, i) || lex_le_from(b, a, i),
        (lex_le_from(a, b, i) && lex_le_from(b, a, i)) ==> (forall|j: int|
            i <= j < a.len() && 0 <= i ==> a[j] == b[j]),
    decreases a.len() - i,
{
    if i >= a.len() || i < 0 {
    } else if a[i] != b[i] {
    } else {
        lemma_lex_from_total(a, b, i + 1);
        if lex_le_from(a, b, i) && lex_le_from(b, a, i) {
            assert forall|j: int| i <= j < a.len() && 0 <= i implies a[j] == b[j] by {
                if j > i {
                }
            }
        }
    }
}

proof fn lemma_lex_from_trans(a: Seq<i32>, b: Seq<i32>, c: Seq<i32>, i: int)
    requires
        a.len() == b.len(),
        b.len() == c.len(),
        lex_le_from(a, b, i),
        lex_le_from(b, c, i),
    ensures
        lex_le_from(a, c, i),
    decreases a.len() - i,
{
    if i >= a.len() || i < 0 {
    } else if a[i] == b[i] && b[i] == c[i] {
        lemma_lex_from_trans(a, b, c, i + 1);
    }
}

/// Lexicographic order on points is total, transitive and antisymmetric.
pub proof fn lemma_lex_order<const K: usize>(a: [i32; K], b: [i32; K], c: [i32; K])
    ensures
        lex_le(a, b) || lex_le(b, a),
        lex_le(a, b) && lex_le(b, c) ==> lex_le(a, c),
        lex_le(a, b) && lex_le(b, a) ==> a == b,
        lex_le(a, a),
{
    lemma_lex_from_total(a@, b@, 0);
    lemma_lex_from_total(a@, a@, 0);
    if lex_le(a, b) && lex_le(b, c) {
        lemma_lex_from_trans(a@, b@, c@, 0);
    }
    if lex_le(a, b) && lex_le(b, a) {
        assert(a@ =~= b@);
        assert(a =~= b);
    }
}

/// Squared Euclidean distance between `p` and `q`, computed without overflow.
pub fn squared_distance<const K: usize>(p: &[i32; K], q: &[i32; K]) -> (d: u128)
    ensures
        d == sq_dist(*p, *q),
{
    let mut acc: u128 = 0;
    let mut i: usize = 0;
    while i < K
        invariant
            0 <= i <= K,
            acc == sq_dist_upto(*p, *q, i as int),
            acc <= (i as int) * 0x1_0000_0000_0000_0000int,
        decreases K - i,
    {
        let diff: i128 = p[i] as i128 - q[i] as i128;
        assert(diff * diff < 0x1_0000_0000_0000_0000int) by (nonlinear_arith)
            requires
                -0xffff_ffffint <= diff <= 0xffff_ffffint,
        ;
        assert(diff * diff >= 0) by (nonlinear_arith);
        let sq: u128 = (diff * diff) as u128;
        acc = acc + sq;
        i = i + 1;
    }
    acc
}

/// Lexicographic comparison of two points: `true` when `a <= b`.
pub fn lex_less_eq<const K: usize>(a: &[i32; K], b: &[i32; K]) -> (r: bool)
    ensures
        r == lex_le(*a, *b),
{
    let mut i: usize = 0;
    while i < K
        invariant
            0 <= i <= K,
            forall|j: int| 0 <= j < i ==> a[j] == b[j],
            lex_le(*a, *b) == lex_le_from(a@, b@, i as int),
        decreases K - i,
    {
        if a[i] < b[i] {
            return true;
        }
        if a[i] > b[i] {
            return false;
        }
        i = i + 1;
    }
    true
}

} // verus!
