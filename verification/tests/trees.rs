use pkdtree::batch_par_kd_tree_trait::{BatchParKDTree, SimplePKDTree};
use pkdtree::bbox::BBox;
use pkdtree::lib_kd_tree::{LibKDTree2, LibKDTree3, LibKDTree5, LibKDTree9};
use pkdtree::pkd_tree::batch_insert::is_balanced;
use pkdtree::pkd_tree::{Node, PKDTree, Skeleton, SkeletonEntry, LAMBDA, NUM_BUCKETS};

fn pseudo_random_points<const K: usize>(n: usize, seed: u64, range: i32) -> Vec<[i32; K]> {
    let mut state = seed;
    let mut out = Vec::with_capacity(n);
    for _ in 0..n {
        let mut p = [0i32; K];
        for c in p.iter_mut() {
            state = state.wrapping_mul(6364136223846793005).wrapping_add(1442695040888963407);
            *c = ((state >> 33) % (2 * range as u64 + 1)) as i32 - range;
        }
        out.push(p);
    }
    out
}

fn sq(p: &[i32], q: &[i32]) -> u128 {
    p.iter().zip(q.iter()).map(|(a, b)| ((*a as i64 - *b as i64) * (*a as i64 - *b as i64)) as u128).sum()
}

/// The `num` smallest squared distances from `q`, by brute force.
fn brute_distances<const K: usize>(points: &[[i32; K]], q: &[i32; K], num: usize) -> Vec<u128> {
    let mut d: Vec<u128> = points.iter().map(|p| sq(p, q)).collect();
    d.sort();
    d.truncate(num);
    d
}

fn check_answers<const K: usize>(found: &[(u128, [i32; K])], points: &[[i32; K]], q: &[i32; K], num: usize) {
    let want = brute_distances(points, q, num);
    let got: Vec<u128> = found.iter().map(|e| e.0).collect();
    assert_eq!(got, want);
    for e in found {
        assert_eq!(e.0, sq(&e.1, q));
        assert!(points.contains(&e.1));
    }
}

fn all_points<const K: usize>(tree: &PKDTree<K>, n: usize) -> Vec<[i32; K]> {
    let mut pts: Vec<[i32; K]> = tree.nearests(&[0; K], n).into_iter().map(|e| e.1).collect();
    pts.sort();
    pts
}

#[test]
fn build_small_tree_keeps_points() {
    let pts = vec![[1, 2], [3, 4], [-5, 6]];
    let tree = PKDTree::build(pts.clone());
    let mut want = pts.clone();
    want.sort();
    assert_eq!(all_points(&tree, 3), want);
}

#[test]
fn build_empty_tree_answers_nothing() {
    let tree: PKDTree<3> = PKDTree::build(Vec::new());
    assert!(tree.nearests(&[0, 0, 0], 5).is_empty());
    assert!(tree.nearests(&[0, 0, 0], 0).is_empty());
}

#[test]
fn build_large_tree_through_skeleton() {
    let pts = pseudo_random_points::<3>(6000, 11, 10_000);
    let tree = PKDTree::build(pts.clone());
    let mut want = pts.clone();
    want.sort();
    assert_eq!(all_points(&tree, 6000), want);
    for q in pseudo_random_points::<3>(20, 5, 12_000) {
        check_answers(&tree.nearests(&q, 10), &pts, &q, 10);
    }
}

#[test]
fn build_tree_of_identical_points() {
    let pts = vec![[7, 7]; 5000];
    let tree = PKDTree::build(pts.clone());
    let found = tree.nearests(&[0, 0], 3);
    assert_eq!(found, vec![(98, [7, 7]); 3]);
}

#[test]
fn nearests_ties_come_in_point_order() {
    let pts = vec![[1, 0], [0, 1], [-1, 0], [0, -1], [5, 5]];
    let tree = PKDTree::build(pts);
    let found = tree.nearests(&[0, 0], 4);
    assert_eq!(found, vec![(1, [-1, 0]), (1, [0, -1]), (1, [0, 1]), (1, [1, 0])]);
}

#[test]
fn nearests_asks_for_more_than_there_is() {
    let pts = vec![[1, 1], [2, 2]];
    let tree = PKDTree::build(pts);
    let found = tree.nearests(&[0, 0], 10);
    assert_eq!(found, vec![(2, [1, 1]), (8, [2, 2])]);
}

#[test]
fn batch_nearests_answers_each_query() {
    let pts = pseudo_random_points::<2>(3000, 21, 500);
    let tree = PKDTree::build(pts.clone());
    let queries = pseudo_random_points::<2>(50, 22, 600);
    let found = tree.batch_nearests(&queries, 7);
    assert_eq!(found.len(), queries.len());
    for (f, q) in found.iter().zip(queries.iter()) {
        check_answers(f, &pts, q, 7);
    }
}

#[test]
fn batch_insert_small_and_large() {
    let first = pseudo_random_points::<2>(100, 31, 1000);
    let second = pseudo_random_points::<2>(5000, 32, 1000);
    let third = pseudo_random_points::<2>(10, 33, 5000);
    let mut tree = PKDTree::build(first.clone());
    tree.batch_insert(second.clone());
    tree.batch_insert(third.clone());
    let mut all = first.clone();
    all.extend_from_slice(&second);
    all.extend_from_slice(&third);
    let mut want = all.clone();
    want.sort();
    assert_eq!(all_points(&tree, all.len()), want);
    for q in pseudo_random_points::<2>(20, 34, 6000) {
        check_answers(&tree.nearests(&q, 5), &all, &q, 5);
    }
}

#[test]
fn batch_insert_nothing_changes_nothing() {
    let pts = pseudo_random_points::<2>(300, 41, 100);
    let mut tree = PKDTree::build(pts.clone());
    tree.batch_insert(Vec::new());
    let mut want = pts.clone();
    want.sort();
    assert_eq!(all_points(&tree, 300), want);
}

#[test]
fn simple_tree_builds_and_inserts() {
    let first = pseudo_random_points::<3>(4000, 51, 800);
    let second = pseudo_random_points::<3>(3000, 52, 800);
    let mut tree = PKDTree::build_simple(first.clone());
    tree.batch_insert_simple(second.clone());
    let mut all = first.clone();
    all.extend_from_slice(&second);
    let mut want = all.clone();
    want.sort();
    assert_eq!(all_points(&tree, all.len()), want);
    for q in pseudo_random_points::<3>(10, 53, 900) {
        check_answers(&tree.nearests(&q, 12), &all, &q, 12);
    }
}

#[test]
fn extended_tree_answers_as_a_rebuilt_one() {
    let first = pseudo_random_points::<2>(2500, 61, 300);
    let second = pseudo_random_points::<2>(2500, 62, 300);
    let mut extended = PKDTree::build(first.clone());
    extended.batch_insert(second.clone());
    let mut all = first.clone();
    all.extend_from_slice(&second);
    let rebuilt = PKDTree::build(all.clone());
    let simple = <SimplePKDTree<2> as BatchParKDTree<2>>::build(all.clone());
    let queries = pseudo_random_points::<2>(30, 63, 350);
    let a = extended.batch_nearests(&queries, 9);
    let b = rebuilt.batch_nearests(&queries, 9);
    let c = BatchParKDTree::batch_nearests(&simple, &queries, 9);
    for i in 0..queries.len() {
        assert_eq!(a[i], b[i]);
        assert_eq!(a[i], c[i]);
    }
}

#[test]
fn balance_test_values() {
    assert!(is_balanced(5, 10));
    assert!(is_balanced(2, 10));
    assert!(is_balanced(8, 10));
    assert!(!is_balanced(1, 10));
    assert!(!is_balanced(9, 10));
    assert!(!is_balanced(0, 0));
    assert!(is_balanced(0, 1) == false);
}

#[test]
fn node_flatten_lists_every_point() {
    let pts = pseudo_random_points::<2>(700, 71, 100);
    let mut laid = pts.clone();
    let node = Node::build(&mut laid, BBox::unbounded());
    let mut flat = Vec::new();
    node.flatten(&mut flat);
    assert_eq!(flat, laid);
    assert_eq!(node.size(), 700);
    let mut out = vec![[9, 9]];
    node.flatten(&mut out);
    assert_eq!(out.len(), 701);
    assert_eq!(out[0], [9, 9]);
    let mut got = out[1..].to_vec();
    got.sort();
    let mut want = pts.clone();
    want.sort();
    assert_eq!(got, want);
}

#[test]
fn node_default_is_an_empty_leaf() {
    let node: Node<2> = Node::default();
    assert_eq!(node.size(), 0);
    assert_eq!(node.bbox().mins, [i32::MIN, i32::MIN]);
}

#[test]
fn node_batch_insert_keeps_sizes() {
    let pts = pseudo_random_points::<2>(500, 81, 100);
    let more = pseudo_random_points::<2>(4000, 82, 100);
    let mut pts = pts;
    let node = Node::build(&mut pts, BBox::unbounded());
    let node = node.batch_insert(&more, BBox::unbounded());
    assert_eq!(node.size(), 4500);
    let node = node.batch_insert_simple(&vec![[0, 0]; 3], BBox::unbounded());
    assert_eq!(node.size(), 4503);
}

#[test]
fn skeleton_buckets_follow_the_points() {
    let pts: Vec<[i32; 1]> = (0..1000).map(|i| [i]).collect();
    let skel = Skeleton::build(pts, BBox::unbounded());
    assert_eq!(skel.num_buckets(), NUM_BUCKETS);
    assert_eq!(skel.lookup([-5]), 0);
    assert_eq!(skel.lookup([5000]), NUM_BUCKETS - 1);
    let mut last = 0;
    for i in 0..1000 {
        let b = skel.lookup([i]);
        assert!(b >= last);
        assert!(b < NUM_BUCKETS);
        last = b;
    }
}

#[test]
fn skeleton_of_a_full_node() {
    let pts = pseudo_random_points::<2>(640, 91, 1000);
    let mut pts = pts;
    let node = Node::build_simple(&mut pts, Some(LAMBDA), BBox::unbounded());
    let skel = Skeleton::from_node(&node);
    assert_eq!(skel.num_buckets(), NUM_BUCKETS);
    let sizes: Vec<usize> = (0..NUM_BUCKETS).collect();
    let sized = skel.size_tree::<2>(&sizes);
    assert_eq!(sized.num_buckets(), NUM_BUCKETS);
    for p in pseudo_random_points::<2>(100, 92, 1200) {
        assert_eq!(sized.lookup(p), skel.lookup(p));
    }
    match sized.flattened[1] {
        SkeletonEntry::Splitter { total, .. } => assert_eq!(total, (0..NUM_BUCKETS).sum::<usize>()),
        _ => panic!("the root of a sized skeleton splits"),
    }
}

#[test]
fn library_trees_build_insert_and_answer() {
    let first = pseudo_random_points::<2>(1000, 101, 1000);
    let second = pseudo_random_points::<2>(500, 102, 1000);
    let mut tree = LibKDTree2::build(first.clone());
    tree.batch_insert(second.clone());
    let mut all = first.clone();
    all.extend_from_slice(&second);
    let pkd = PKDTree::build(all.clone());
    let queries = pseudo_random_points::<2>(40, 103, 1200);
    let found = tree.batch_nearests(&queries, 6);
    let exact = pkd.batch_nearests(&queries, 6);
    assert_eq!(found.len(), queries.len());
    for i in 0..queries.len() {
        let f = &found[i];
        assert!(!f.is_empty());
        for w in f.windows(2) {
            assert!(w[0].0 <= w[1].0);
        }
        for e in f {
            assert_eq!(e.0, sq(&e.1, &queries[i]));
            assert!(all.contains(&e.1));
        }
        assert_eq!(f[0].0, exact[i][0].0);
    }
}

#[test]
fn library_trees_of_other_dimensions() {
    let p3 = pseudo_random_points::<3>(300, 111, 100);
    let t3 = LibKDTree3::build(p3.clone());
    let f3 = t3.batch_nearests(&[[0, 0, 0]], 4);
    assert_eq!(f3[0][0].0, brute_distances(&p3, &[0, 0, 0], 1)[0]);
    let p5 = pseudo_random_points::<5>(300, 112, 100);
    let t5 = LibKDTree5::build(p5.clone());
    let f5 = t5.batch_nearests(&[[1, 2, 3, 4, 5]], 4);
    assert_eq!(f5[0][0].0, brute_distances(&p5, &[1, 2, 3, 4, 5], 1)[0]);
    let p9 = pseudo_random_points::<9>(300, 113, 100);
    let t9 = LibKDTree9::build(p9.clone());
    let f9 = t9.batch_nearests(&[[0; 9]], 4);
    assert_eq!(f9[0][0].0, brute_distances(&p9, &[0; 9], 1)[0]);
}

#[test]
fn library_tree_of_no_points() {
    let t = LibKDTree2::build(Vec::new());
    let f = t.batch_nearests(&[[3, 4]], 2);
    assert_eq!(f.len(), 1);
    assert!(f[0].is_empty());
}

fn check_median_shape<const K: usize>(node: &Node<K>, levels: Option<usize>) -> usize {
    match node {
        Node::Leaf { points, .. } => {
            match levels {
                None => assert!(points.len() <= pkdtree::pkd_tree::PHI),
                Some(l) => {
                    assert_eq!(l, 0);
                    assert!(points.is_empty());
                }
            }
            points.len()
        }
        Node::Interior { size, splitter, bbox, left, right } => {
            assert_eq!(splitter.1, bbox.widest_axis());
            let (lo, hi) = bbox.split(splitter.0, splitter.1);
            assert_eq!(left.bbox().maxs, lo.maxs);
            assert_eq!(right.bbox().mins, hi.mins);
            let next = levels.map(|l| l - 1);
            let l = check_median_shape(left, next);
            let r = check_median_shape(right, next);
            if levels.is_none() {
                assert_eq!(l + r, *size);
                assert_eq!(l, size / 2);
                assert!(*size > pkdtree::pkd_tree::PHI);
            }
            l + r
        }
    }
}

fn leaves_capped<const K: usize>(node: &Node<K>) -> bool {
    match node {
        Node::Leaf { points, .. } => points.len() <= pkdtree::pkd_tree::PHI,
        Node::Interior { left, right, .. } => leaves_capped(left) && leaves_capped(right),
    }
}

#[test]
fn median_splitting_shape() {
    let pts = pseudo_random_points::<3>(1500, 201, 5000);
    let tree = PKDTree::build_simple(pts.clone());
    check_median_shape(&tree.0, None);
    let b = BBox::build(&pts);
    assert_eq!(tree.bbox().mins, b.mins);
    assert_eq!(tree.bbox().maxs, b.maxs);
}

#[test]
fn median_splitting_with_a_level_budget() {
    let mut pts: Vec<[i32; 1]> = vec![[3], [1], [4], [2]];
    pts.reverse();
    let mut buf: Vec<[i32; 1]> = vec![[3], [1], [4], [2]];
    let node = Node::build_simple(&mut buf, Some(1), BBox::build(&pts));
    assert_eq!(buf[2], [3]);
    assert_eq!(buf[3], [4]);
    let mut front = buf[..2].to_vec();
    front.sort();
    assert_eq!(front, vec![[1], [2]]);
    match &node {
        Node::Interior { size, splitter, left, right, .. } => {
            assert_eq!(*size, 4);
            assert_eq!(*splitter, (3, 0));
            assert_eq!(left.size(), 0);
            assert_eq!(right.size(), 0);
            assert_eq!(left.bbox().maxs, [3]);
            assert_eq!(right.bbox().mins, [3]);
        }
        _ => panic!("a budget of one level splits once"),
    }
}

#[test]
fn every_leaf_stays_small() {
    let mut tree = PKDTree::build(pseudo_random_points::<2>(7000, 211, 3000));
    assert!(leaves_capped(&tree.0));
    tree.batch_insert(pseudo_random_points::<2>(3000, 212, 3000));
    assert!(leaves_capped(&tree.0));
    tree.batch_insert_simple(pseudo_random_points::<2>(100, 213, 3000));
    assert!(leaves_capped(&tree.0));
}

#[test]
fn skeleton_of_a_two_leaf_node() {
    let node = Node::Interior {
        size: 3,
        splitter: (2, 0),
        bbox: BBox::build(&[[1], [3]]),
        left: Box::new(Node::Leaf { bbox: BBox::build(&[[1]]), points: vec![[1]] }),
        right: Box::new(Node::Leaf { bbox: BBox::build(&[[2], [3]]), points: vec![[2], [3]] }),
    };
    let s = Skeleton::from_node(&node);
    assert_eq!(s.n_buckets, 2);
    assert_eq!(s.flattened.len(), 128);
    assert!(matches!(s.flattened[1], SkeletonEntry::Splitter { total: 3, split: 1, splitter: (2, 0) }));
    assert!(matches!(s.flattened[2], SkeletonEntry::Bucket(0)));
    assert!(matches!(s.flattened[3], SkeletonEntry::Bucket(1)));
    for (j, e) in s.flattened.iter().enumerate() {
        if j > 3 || j == 0 {
            assert!(matches!(e, SkeletonEntry::Blank));
        }
    }
    let r = s.size_tree::<1>(&[5, 7]);
    assert!(matches!(r.flattened[1], SkeletonEntry::Splitter { total: 12, split: 5, splitter: (2, 0) }));
    assert!(matches!(r.flattened[2], SkeletonEntry::Bucket(0)));
    assert!(matches!(r.flattened[3], SkeletonEntry::Bucket(1)));
    for (j, e) in r.flattened.iter().enumerate() {
        if j > 3 || j == 0 {
            assert!(matches!(e, SkeletonEntry::Blank));
        }
    }
}

#[test]
fn balanced_insert_keeps_the_splitter() {
    let pts: Vec<[i32; 1]> = (0..100).map(|i| [i]).collect();
    let mut pts = pts;
    let node = Node::build_simple(&mut pts, None, BBox::unbounded());
    let (m, a) = match &node {
        Node::Interior { splitter, .. } => *splitter,
        _ => panic!("a hundred points are split"),
    };
    let node = node.batch_insert_simple(&vec![[10], [90]], BBox::unbounded());
    match &node {
        Node::Interior { size, splitter, left, right, .. } => {
            assert_eq!(*size, 102);
            assert_eq!(*splitter, (m, a));
            assert_eq!(left.size(), 51);
            assert_eq!(right.size(), 51);
        }
        _ => panic!("the root stays a split"),
    }
}

#[test]
fn unbalanced_insert_rebuilds_at_the_median() {
    let pts: Vec<[i32; 1]> = (0..100).map(|i| [i]).collect();
    let mut pts = pts;
    let node = Node::build_simple(&mut pts, None, BBox::unbounded());
    let node = node.batch_insert_simple(&vec![[-1]; 200], BBox::unbounded());
    match &node {
        Node::Interior { size, splitter, left, .. } => {
            assert_eq!(*size, 300);
            assert_eq!(*splitter, (-1, 0));
            assert_eq!(left.size(), 150);
        }
        _ => panic!("three hundred points are split"),
    }
    assert!(leaves_capped(&node));
}

#[test]
fn leaf_insert_appends_or_rebuilds() {
    let leaf: Node<1> = Node::Leaf { bbox: BBox::unbounded(), points: vec![[5]] };
    let leaf = leaf.batch_insert_simple(&vec![[7], [6]], BBox::unbounded());
    match &leaf {
        Node::Leaf { points, .. } => assert_eq!(points, &vec![[5], [7], [6]]),
        _ => panic!("three points fit in a leaf"),
    }
    let grown = leaf.batch_insert(&vec![[0]; 40], BBox::unbounded());
    assert!(matches!(grown, Node::Interior { size: 43, .. }));
}

#[test]
fn batch_answers_are_the_single_answers() {
    let pts = vec![[1, 0], [0, 1], [-1, 0], [0, -1], [2, 2], [2, 2]];
    let tree = PKDTree::build(pts);
    let queries = vec![[0, 0], [2, 2], [1, 1]];
    let batch = tree.batch_nearests(&queries, 2);
    for (i, q) in queries.iter().enumerate() {
        assert_eq!(batch[i], tree.nearests(q, 2));
    }
    assert_eq!(batch[0], vec![(1, [-1, 0]), (1, [0, -1])]);
}

#[test]
fn median_splitting_lays_out_the_buffer_as_the_leaves() {
    let mut pts = pseudo_random_points::<2>(500, 301, 1000);
    let orig = pts.clone();
    let node = Node::build_simple(&mut pts, None, BBox::unbounded());
    let mut flat = Vec::new();
    node.flatten(&mut flat);
    assert_eq!(flat, pts);
    let mut a = pts.clone();
    let mut b = orig.clone();
    a.sort();
    b.sort();
    assert_eq!(a, b);
}

#[test]
fn unbalanced_root_is_rebuilt_at_the_tree_level() {
    let mut t = PKDTree::build_simple((0..33).map(|i| [i]).collect::<Vec<[i32; 1]>>());
    assert!(matches!(t.0, Node::Interior { splitter: (16, 0), .. }));
    t.batch_insert_simple((100..150).map(|i| [i]).collect());
    match &t.0 {
        Node::Interior { size, splitter, .. } => {
            assert_eq!(*size, 83);
            assert_eq!(*splitter, (108, 0));
        }
        _ => panic!("eighty-three points are split"),
    }
}

#[test]
fn sizing_twice_gives_the_same_skeleton() {
    let pts: Vec<[i32; 1]> = (0..500).map(|i| [i]).collect();
    let skel = Skeleton::build(pts, BBox::unbounded());
    let sizes: Vec<usize> = (0..NUM_BUCKETS).map(|b| 3 * b + 1).collect();
    let once = skel.size_tree::<1>(&sizes);
    let twice = once.size_tree::<1>(&sizes);
    assert_eq!(format!("{:?}", once.flattened), format!("{:?}", twice.flattened));
}
