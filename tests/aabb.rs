use rstar_aabb::AABB;

#[test]
fn inside_point_scenario() {
    let a = AABB::from_corners([0, 0], [10, 10]);
    let q = [5, 5];
    assert!(a.contains_point(&q));
    assert_eq!(a.distance_2(&q), 0);
    assert_eq!(a.min_point(&q), [5, 5]);
    assert_eq!(a.center(), [5, 5]);
    assert_eq!(a.area(), 100);
    assert_eq!(a.margin_value(), 20);
}

#[test]
fn outside_point_scenario() {
    let a = AABB::from_corners([0, 0], [10, 10]);
    let q = [12, 4];
    assert!(!a.contains_point(&q));
    assert_eq!(a.min_point(&q), [10, 4]);
    assert_eq!(a.distance_2(&q), 4);
}

#[test]
fn overlapping_boxes_scenario() {
    let a = AABB::from_corners([0, 0], [4, 4]);
    let b = AABB::from_corners([3, 3], [6, 6]);
    assert!(a.intersects(&b));
    assert_eq!(a.intersection_area(&b), 1);
    let m = a.merged(&b);
    assert_eq!(m, AABB::from_corners([0, 0], [6, 6]));
    assert_eq!(m.area(), 36);
}

#[test]
fn disjoint_boxes_scenario() {
    let a = AABB::from_corners([0, 0], [1, 1]);
    let b = AABB::from_corners([2, 2], [3, 3]);
    assert!(!a.intersects(&b));
    assert!(!b.intersects(&a));
    assert_eq!(a.intersection_area(&b), 0);
    assert_eq!(a.merged(&b).area(), 9);
}

#[test]
fn empty_box_scenario() {
    let e = AABB::<2>::new_empty();
    assert_eq!(e.area(), 0);
    assert_eq!(e.margin_value(), 0);
    assert!(!e.contains_point(&[0, 0]));
    assert!(!e.contains_point(&[i64::MAX, i64::MIN]));
    assert!(!e.intersects(&e));
    let a = AABB::from_corners([-3, 7], [4, 9]);
    assert_eq!(a.merged(&e), a);
    assert_eq!(e.merged(&a), a);
    assert!(a.contains_envelope(&e));
}

#[test]
fn empty_box_corners() {
    let e = AABB::<3>::new_empty();
    assert_eq!(e.lower(), [i64::MAX; 3]);
    assert_eq!(e.upper(), [i64::MIN; 3]);
}

#[test]
fn min_max_dist_scenario() {
    let a = AABB::from_corners([0, 0], [2, 2]);
    let q = [-1, -1];
    assert_eq!(a.distance_2(&q), 2);
    // The faces lie at offsets 1 (near) and 3 (far) in each dimension, so the
    // nearest far corner is at squared distance 1 + 9.
    assert_eq!(a.min_max_dist_2(&q), 10);
}

#[test]
fn min_max_dist_takes_nearer_face_by_magnitude() {
    let a = AABB::from_corners([0, 0], [2, 2]);
    // Both offsets are negative here: the nearer face is the upper one.
    assert_eq!(a.min_max_dist_2(&[3, 3]), 10);
    assert_eq!(a.distance_2(&[3, 3]), 2);
}

#[test]
fn min_max_dist_inside_and_zero_dims() {
    let a = AABB::from_corners([0, 0, 0], [4, 2, 6]);
    // near offsets (-1, -1, -1) from (1, 1, 1); far ones (3, 1, 5)
    assert_eq!(a.min_max_dist_2(&[1, 1, 1]), 3);
    let z = AABB::<0>::from_point([]);
    assert_eq!(z.min_max_dist_2(&[]), 0);
    assert_eq!(z.area(), 1);
}

#[test]
fn point_box_holds_its_point() {
    let p = [3, -8, 12];
    let a = AABB::from_point(p);
    assert!(a.contains_point(&p));
    assert_eq!(a.distance_2(&p), 0);
    assert_eq!(a.area(), 0);
    assert_eq!(a.margin_value(), 0);
    assert_eq!(a.lower(), p);
    assert_eq!(a.upper(), p);
    assert_eq!(a.center(), p);
}

#[test]
fn corners_in_either_order() {
    let p = [5, -1];
    let q = [-2, 4];
    let a = AABB::from_corners(p, q);
    assert_eq!(a, AABB::from_corners(q, p));
    assert_eq!(a.lower(), [-2, -1]);
    assert_eq!(a.upper(), [5, 4]);
}

#[test]
fn distance_bounds_on_values() {
    let a = AABB::from_corners([1, 2], [5, 9]);
    for q in [[0, 0], [3, 3], [7, 11], [-4, 5], [5, 9]] {
        let d = a.distance_2(&q);
        assert!(d >= 0);
        assert!(a.min_max_dist_2(&q) >= d);
        if a.contains_point(&q) {
            assert_eq!(d, 0);
        }
    }
}

#[test]
fn merge_contains_both() {
    let a = AABB::from_corners([0, 5], [3, 6]);
    let b = AABB::from_corners([-2, 1], [1, 2]);
    let m = a.merged(&b);
    assert!(m.contains_envelope(&a));
    assert!(m.contains_envelope(&b));
    assert_eq!(m, AABB::from_corners([-2, 1], [3, 6]));
    let mut c = a;
    c.merge(&b);
    assert_eq!(c, m);
}

#[test]
fn contains_envelope_implies_intersects() {
    let a = AABB::from_corners([0, 0], [10, 10]);
    let b = AABB::from_corners([2, 3], [4, 5]);
    assert!(a.contains_envelope(&b));
    assert!(!b.contains_envelope(&a));
    assert!(a.intersects(&b));
    assert!(b.intersects(&a));
    assert!(a.contains_envelope(&a));
}

#[test]
fn touching_boxes_intersect() {
    let a = AABB::from_corners([0, 0], [1, 1]);
    let b = AABB::from_corners([1, 1], [2, 2]);
    assert!(a.intersects(&b));
    assert_eq!(a.intersection_area(&b), 0);
}

#[test]
fn intersection_area_bounded_by_areas() {
    let a = AABB::from_corners([0, 0], [5, 3]);
    let b = AABB::from_corners([2, -1], [9, 2]);
    let i = a.intersection_area(&b);
    assert_eq!(i, 6);
    assert!(i <= a.area().min(b.area()));
}

#[test]
fn margin_and_area_in_three_dims() {
    let a = AABB::from_corners([0, 0, 0], [2, 3, 4]);
    assert_eq!(a.area(), 24);
    assert_eq!(a.margin_value(), 9);
}

#[test]
fn wide_coordinates_do_not_overflow() {
    let a = AABB::from_corners([i64::MIN, 0], [i64::MAX, 1]);
    assert_eq!(a.area(), (i64::MAX as i128) - (i64::MIN as i128));
    assert_eq!(a.center(), [0, 0]);
    let b = AABB::from_corners([i64::MIN], [i64::MIN]);
    assert_eq!(b.distance_2(&[0]), (i64::MIN as i128) * (i64::MIN as i128));
}

#[test]
fn center_rounds_toward_zero() {
    let a = AABB::from_corners([-3, 1], [0, 4]);
    assert_eq!(a.center(), [-1, 2]);
}

#[test]
fn from_points_is_tightest_box() {
    let pts = [[3, 1], [-1, 4], [2, -2]];
    let a = AABB::from_points(&pts);
    for p in pts.iter() {
        assert!(a.contains_point(p));
    }
    assert_eq!(a.lower(), [-1, -2]);
    assert_eq!(a.upper(), [3, 4]);
    assert_eq!(a, AABB::from_corners([-1, -2], [3, 4]));
}

#[test]
fn from_no_points_is_empty() {
    let pts: [[i64; 2]; 0] = [];
    assert_eq!(AABB::from_points(&pts), AABB::<2>::new_empty());
}

#[test]
fn sort_envelopes_orders_by_axis() {
    let mut xs = vec![
        AABB::from_corners([5, 0], [6, 1]),
        AABB::from_corners([1, 9], [2, 10]),
        AABB::from_corners([3, 4], [4, 5]),
        AABB::from_corners([1, 2], [7, 3]),
    ];
    let original = xs.clone();
    AABB::sort_envelopes(0, &mut xs);
    let keys: Vec<i64> = xs.iter().map(|b| b.lower()[0]).collect();
    assert_eq!(keys, vec![1, 1, 3, 5]);
    // equal keys keep their order
    assert_eq!(xs[0], original[1]);
    assert_eq!(xs[1], original[3]);
    AABB::sort_envelopes(1, &mut xs);
    let keys: Vec<i64> = xs.iter().map(|b| b.lower()[1]).collect();
    assert_eq!(keys, vec![0, 2, 4, 9]);
}

#[test]
fn sort_envelopes_empty_and_single() {
    let mut xs: Vec<AABB<2>> = vec![];
    AABB::sort_envelopes(1, &mut xs);
    assert!(xs.is_empty());
    let mut ys = vec![AABB::from_point([1, 2])];
    AABB::sort_envelopes(0, &mut ys);
    assert_eq!(ys, vec![AABB::from_point([1, 2])]);
}

#[test]
fn empty_box_meets_only_the_full_range_box() {
    let e = AABB::<1>::new_empty();
    let full = AABB::from_corners([i64::MIN], [i64::MAX]);
    assert!(e.intersects(&full));
    assert!(!e.intersects(&AABB::from_corners([i64::MIN], [0])));
    assert!(!e.intersects(&AABB::from_point([0])));
}

#[test]
fn ordering_of_boxes_is_lexicographic() {
    let a = AABB::from_corners([0, 0], [1, 1]);
    let b = AABB::from_corners([0, 1], [1, 1]);
    assert!(a < b);
}
