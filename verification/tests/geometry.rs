use pkdtree::bbox::BBox;
use pkdtree::point::{lex_less_eq, squared_distance};

#[test]
fn unbounded_box_covers_everything() {
    let b: BBox<3> = BBox::unbounded();
    assert_eq!(b.mins, [i32::MIN; 3]);
    assert_eq!(b.maxs, [i32::MAX; 3]);
    let d: BBox<3> = BBox::default();
    assert_eq!(d.mins, b.mins);
    assert_eq!(d.maxs, b.maxs);
}

#[test]
fn box_of_points_is_tight() {
    let points = vec![[3, -7], [10, 2], [-4, 5]];
    let b = BBox::build(&points);
    assert_eq!(b.mins, [-4, -7]);
    assert_eq!(b.maxs, [10, 5]);
}

#[test]
fn box_of_no_points_is_inverted() {
    let points: Vec<[i32; 2]> = Vec::new();
    let b = BBox::build(&points);
    assert_eq!(b.mins, [i32::MAX, i32::MAX]);
    assert_eq!(b.maxs, [i32::MIN, i32::MIN]);
}

#[test]
fn widest_axis_picks_the_widest() {
    let b = BBox { mins: [0, 0, 0], maxs: [5, 9, 3] };
    assert_eq!(b.widest_axis(), 1);
}

#[test]
fn widest_axis_prefers_the_last_of_equals() {
    let b = BBox { mins: [0, -2, 0], maxs: [4, 2, 4] };
    assert_eq!(b.widest_axis(), 2);
}

#[test]
fn widest_axis_of_unbounded_box_does_not_overflow() {
    let b: BBox<2> = BBox::unbounded();
    assert_eq!(b.widest_axis(), 1);
}

#[test]
fn split_cuts_one_axis() {
    let b = BBox { mins: [0, 0], maxs: [10, 20] };
    let (lo, hi) = b.split(7, 1);
    assert_eq!(lo.mins, [0, 0]);
    assert_eq!(lo.maxs, [10, 7]);
    assert_eq!(hi.mins, [0, 7]);
    assert_eq!(hi.maxs, [10, 20]);
}

#[test]
fn merge_covers_both_boxes() {
    let a = BBox { mins: [0, 5], maxs: [3, 9] };
    let b = BBox { mins: [-2, 6], maxs: [1, 12] };
    let m = BBox::merge(a, b);
    assert_eq!(m.mins, [-2, 5]);
    assert_eq!(m.maxs, [3, 12]);
}

#[test]
fn squared_distance_exact_value() {
    assert_eq!(squared_distance(&[1, 2], &[4, 6]), 25);
    assert_eq!(squared_distance(&[7, 7, 7], &[7, 7, 7]), 0);
}

#[test]
fn squared_distance_of_extreme_coordinates() {
    let far = squared_distance(&[i32::MIN, i32::MIN], &[i32::MAX, i32::MAX]);
    let side: u128 = (i32::MAX as i64 - i32::MIN as i64) as u128;
    assert_eq!(far, 2 * side * side);
}

#[test]
fn lexicographic_order_of_points() {
    assert!(lex_less_eq(&[1, 5], &[2, 0]));
    assert!(lex_less_eq(&[1, 5], &[1, 5]));
    assert!(!lex_less_eq(&[1, 6], &[1, 5]));
    assert!(lex_less_eq(&[-3, 9, 9], &[-3, 9, 10]));
}
