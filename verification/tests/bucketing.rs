use pkdtree::prefix::add_counts;
use pkdtree::sieve::{my_sieve, BucketFn, Sieve};
use pkdtree::utils::PivotBuckets;

#[test]
fn my_sieve_is_a_stable_counting_sort() {
    let elems = vec![[10, 0], [11, 0], [12, 0], [13, 0], [14, 0]];
    let buckets = vec![2u8, 0, 1, 0, 2];
    let (offsets, sorted) = my_sieve::<2, 3>(&elems, &buckets);
    assert_eq!(offsets, vec![0, 2, 3, 5]);
    assert_eq!(sorted, vec![[11, 0], [13, 0], [12, 0], [10, 0], [14, 0]]);
}

#[test]
fn my_sieve_with_empty_buckets() {
    let elems = vec![[1], [2]];
    let buckets = vec![3u8, 3];
    let (offsets, sorted) = my_sieve::<1, 5>(&elems, &buckets);
    assert_eq!(offsets, vec![0, 0, 0, 0, 2, 2]);
    assert_eq!(sorted, vec![[1], [2]]);
}

#[test]
fn pivot_buckets_count_pivots_at_most() {
    let f = PivotBuckets { pivots: vec![[0, 10], [0, 20], [0, 20], [0, 30]], axis: 1 };
    assert_eq!(f.bucket(&[5, 5]), 0);
    assert_eq!(f.bucket(&[5, 10]), 1);
    assert_eq!(f.bucket(&[5, 25]), 3);
    assert_eq!(f.bucket(&[5, 99]), 4);
}

#[test]
fn sieve_orders_points_by_bucket() {
    let f = PivotBuckets { pivots: vec![[10, 0], [20, 0]], axis: 0 };
    let mut pts: Vec<[i32; 2]> = vec![[25, 1], [5, 2], [15, 3], [10, 4], [30, 5], [0, 6]];
    let mut orig = pts.clone();
    let (offsets, sizes) = pts.sieve(3, &f);
    assert_eq!(offsets, vec![0, 2, 4, 6]);
    assert_eq!(sizes, vec![2, 2, 2]);
    let buckets: Vec<u8> = pts.iter().map(|p| f.bucket(p)).collect();
    assert_eq!(buckets, vec![0, 0, 1, 1, 2, 2]);
    let mut now = pts.clone();
    now.sort();
    orig.sort();
    assert_eq!(now, orig);
}

#[test]
fn sieve_counts_points_beyond_the_last_bucket() {
    let f = PivotBuckets { pivots: vec![[10, 0], [20, 0]], axis: 0 };
    let mut pts: Vec<[i32; 2]> = vec![[25, 1], [5, 2], [30, 3]];
    let (offsets, sizes) = pts.sieve(2, &f);
    assert_eq!(offsets, vec![0, 1, 1]);
    assert_eq!(sizes, vec![1, 0]);
    assert_eq!(pts[0], [5, 2]);
}

#[test]
fn add_counts_adds() {
    assert_eq!(add_counts(&3, &4), 7);
    assert_eq!(add_counts(&0, &0), 0);
}

#[test]
fn sieve_and_my_sieve_agree_on_offsets() {
    let f = PivotBuckets { pivots: vec![[-50, 0], [0, 0], [0, 0], [75, 0]], axis: 0 };
    let mut state: u64 = 5;
    let mut pts: Vec<[i32; 2]> = Vec::new();
    for i in 0..400 {
        state = state.wrapping_mul(6364136223846793005).wrapping_add(1442695040888963407);
        pts.push([((state >> 33) % 301) as i32 - 150, i]);
    }
    let buckets: Vec<u8> = pts.iter().map(|p| f.bucket(p)).collect();
    let (counted, _) = my_sieve::<2, 5>(&pts, &buckets);
    let mut sieved = pts.clone();
    let (offsets, _) = sieved.sieve(5, &f);
    assert_eq!(counted, offsets);
}
