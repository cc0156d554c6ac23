use pkdtree::utils::{kth, kth_only, partition_point_le, split_multi_mut};

fn pseudo_random_points<const K: usize>(n: usize, seed: u64, range: i32) -> Vec<[i32; K]> {
    let mut state = seed;
    let mut out = Vec::with_capacity(n);
    for _ in 0..n {
        let mut p = [0i32; K];
        for c in p.iter_mut() {
            state = state.wrapping_mul(6364136223846793005).wrapping_add(1442695040888963407);
            *c = ((state >> 33) % (2 * range as u64 + 1)) as i32 - range;
        }
        out.push(p);
    }
    out
}

fn sorted_on(points: &[[i32; 2]], axis: usize) -> Vec<i32> {
    let mut v: Vec<i32> = points.iter().map(|p| p[axis]).collect();
    v.sort();
    v
}

fn same_multiset(a: &[[i32; 2]], b: &[[i32; 2]]) -> bool {
    let mut x = a.to_vec();
    let mut y = b.to_vec();
    x.sort();
    y.sort();
    x == y
}

#[test]
fn kth_small_input() {
    let mut v = vec![[5, 0], [1, 1], [9, 2], [3, 3], [7, 4]];
    let orig = v.clone();
    let r = kth(&mut v, 2, 0);
    assert_eq!(r[0], 5);
    assert_eq!(v[2], r);
    assert!(v[..2].iter().all(|p| p[0] <= 5));
    assert!(v[3..].iter().all(|p| p[0] >= 5));
    assert!(same_multiset(&v, &orig));
}

#[test]
fn kth_large_input_by_sampling() {
    let mut v = pseudo_random_points::<2>(20000, 7, 1000);
    let orig = v.clone();
    let want = sorted_on(&orig, 1);
    for &k in &[0usize, 1, 4321, 10000, 19999] {
        let r = kth(&mut v, k, 1);
        assert_eq!(r[1], want[k]);
        assert_eq!(v[k], r);
        assert!(v[..k].iter().all(|p| p[1] <= r[1]));
        assert!(v[k + 1..].iter().all(|p| p[1] >= r[1]));
        assert!(same_multiset(&v, &orig));
    }
}

#[test]
fn kth_with_all_coordinates_equal() {
    let mut v = vec![[4, 4]; 5000];
    let r = kth(&mut v, 2500, 0);
    assert_eq!(r, [4, 4]);
    assert_eq!(v.len(), 5000);
}

#[test]
fn kth_only_leaves_input_alone() {
    let v = pseudo_random_points::<2>(12000, 3, 50);
    let want = sorted_on(&v, 0);
    let copy = v.clone();
    for &k in &[0usize, 17, 6000, 11999] {
        let r = kth_only(&v, k, 0);
        assert_eq!(r[0], want[k]);
    }
    assert_eq!(v, copy);
}

#[test]
fn kth_only_small_input() {
    let v = vec![[2, 9], [2, 1], [0, 5]];
    assert_eq!(kth_only(&v, 0, 1), [2, 1]);
    assert_eq!(kth_only(&v, 2, 1), [2, 9]);
}

#[test]
fn split_multi_mut_pieces() {
    let items: Vec<u32> = (0..10).collect();
    let parts = split_multi_mut(items, &[2, 5, 5, 9]);
    assert_eq!(parts.len(), 3);
    assert_eq!(parts[0], vec![0, 1, 2]);
    assert_eq!(parts[1], Vec::<u32>::new());
    assert_eq!(parts[2], vec![3, 4, 5, 6]);
}

#[test]
fn split_multi_mut_without_positions() {
    let parts = split_multi_mut(vec![1u8, 2, 3], &[]);
    assert!(parts.is_empty());
    let parts = split_multi_mut(vec![1u8, 2, 3], &[4]);
    assert!(parts.is_empty());
}

#[test]
fn partition_point_of_ascending_values() {
    let v = vec![0usize, 2, 2, 5, 9];
    assert_eq!(partition_point_le(&v, 2), 3);
    assert_eq!(partition_point_le(&v, 0), 1);
    assert_eq!(partition_point_le(&v, 100), 5);
    assert_eq!(partition_point_le(&Vec::new(), 1), 0);
}

#[test]
fn kth_and_kth_only_agree() {
    let v = pseudo_random_points::<2>(9000, 99, 40);
    for &k in &[0usize, 3000, 8999] {
        let mut w = v.clone();
        let in_place = kth(&mut w, k, 1);
        let on_copy = kth_only(&v, k, 1);
        assert_eq!(in_place[1], on_copy[1]);
    }
}
