use geom_kernel::{intersect_of_segment_and_plane, is_segment_and_quad_intersect,
    is_two_quads_intersect, Point3, SegmentPlaneIntersect, Vector3, SCALE, SMALL_NUM};

fn p(x: i64, y: i64, z: i64) -> Point3 {
    Point3 { x, y, z }
}

fn units(x: i64, y: i64, z: i64) -> Point3 {
    Point3 { x: x * SCALE, y: y * SCALE, z: z * SCALE }
}

fn up() -> Vector3 {
    Vector3 { x: 0, y: 0, z: SCALE }
}

fn unit_square() -> Vec<Point3> {
    vec![units(0, 0, 0), units(1, 0, 0), units(1, 1, 0), units(0, 1, 0)]
}

#[test]
fn segment_through_plane_intersects_at_origin() {
    let r = intersect_of_segment_and_plane(units(0, 0, -1), units(0, 0, 1), units(0, 0, 0), up());
    assert_eq!(r, SegmentPlaneIntersect::Intersection(units(0, 0, 0)));
}

#[test]
fn segment_in_plane_lies_in() {
    let r = intersect_of_segment_and_plane(units(0, 0, 0), units(1, 0, 0), units(0, 0, 0), up());
    assert_eq!(r, SegmentPlaneIntersect::LiesIn);
    let r = intersect_of_segment_and_plane(units(3, 4, 0), units(-1, 2, 0), units(9, 9, 0), up());
    assert_eq!(r, SegmentPlaneIntersect::LiesIn);
}

#[test]
fn segment_beside_plane_is_parallel() {
    let r = intersect_of_segment_and_plane(units(0, 0, 1), units(1, 0, 1), units(0, 0, 0), up());
    assert_eq!(r, SegmentPlaneIntersect::Parallel);
    let r = intersect_of_segment_and_plane(p(0, 0, 1), p(SCALE, 0, 1), units(0, 0, 0), up());
    assert_eq!(r, SegmentPlaneIntersect::Parallel);
}

#[test]
fn segment_on_one_side_does_not_intersect() {
    let r = intersect_of_segment_and_plane(units(0, 0, 1), units(0, 0, 2), units(0, 0, 0), up());
    assert_eq!(r, SegmentPlaneIntersect::NoIntersection);
    let r = intersect_of_segment_and_plane(units(0, 0, -2), units(0, 0, -1), units(0, 0, 0), up());
    assert_eq!(r, SegmentPlaneIntersect::NoIntersection);
}

#[test]
fn segment_ending_in_plane_intersects_at_its_end() {
    let r = intersect_of_segment_and_plane(units(2, 3, 0), units(2, 3, 5), units(0, 0, 0), up());
    assert_eq!(r, SegmentPlaneIntersect::Intersection(units(2, 3, 0)));
    let r = intersect_of_segment_and_plane(units(2, 3, -5), units(2, 3, 0), units(0, 0, 0), up());
    assert_eq!(r, SegmentPlaneIntersect::Intersection(units(2, 3, 0)));
}

#[test]
fn oblique_segment_intersection_point() {
    let r = intersect_of_segment_and_plane(units(0, 0, -1), units(3, 3, 2), units(0, 0, 0), up());
    assert_eq!(r, SegmentPlaneIntersect::Intersection(units(1, 1, 0)));
    let down = Vector3 { x: 0, y: 0, z: -SCALE };
    let r = intersect_of_segment_and_plane(units(3, 3, 2), units(0, 0, -1), units(0, 0, 0), down);
    assert_eq!(r, SegmentPlaneIntersect::Intersection(units(1, 1, 0)));
}

#[test]
fn intersection_point_is_rounded_to_nearest() {
    // one seventh of the way from (1,0,-1) to (2,1,6)
    let r = intersect_of_segment_and_plane(units(1, 0, -1), units(2, 1, 6), units(0, 0, 0), up());
    assert_eq!(r, SegmentPlaneIntersect::Intersection(p(1_142_857, 142_857, 0)));
}

#[test]
fn near_parallel_threshold_is_a_hundred_millionth() {
    assert_eq!(SMALL_NUM, 10_000);
    // normal . u = 9_999: parallel
    let n = Vector3 { x: 0, y: 0, z: 1 };
    let r = intersect_of_segment_and_plane(p(0, 0, -5_000), p(0, 0, 4_999), units(0, 0, 0), n);
    assert_eq!(r, SegmentPlaneIntersect::Parallel);
    // normal . u = 10_000: crossing
    let r = intersect_of_segment_and_plane(p(0, 0, -5_000), p(0, 0, 5_000), units(0, 0, 0), n);
    assert_eq!(r, SegmentPlaneIntersect::Intersection(p(0, 0, 0)));
    // a zero normal meets nothing but lies in everything
    let zero = Vector3 { x: 0, y: 0, z: 0 };
    let r = intersect_of_segment_and_plane(units(0, 0, 1), units(0, 0, 2), units(0, 0, 0), zero);
    assert_eq!(r, SegmentPlaneIntersect::LiesIn);
}

#[test]
fn segment_through_quad_intersects() {
    let q = unit_square();
    assert!(is_segment_and_quad_intersect(p(500_000, 500_000, -SCALE), p(500_000, 500_000, SCALE), &q));
    assert!(is_segment_and_quad_intersect(p(500_000, 500_000, SCALE), p(500_000, 500_000, -SCALE), &q));
    assert!(is_segment_and_quad_intersect(units(0, 0, -1), units(1, 1, 1), &q));
}

#[test]
fn segment_beside_quad_misses() {
    let q = unit_square();
    assert!(!is_segment_and_quad_intersect(units(2, 2, -1), units(2, 2, 1), &q));
    assert!(!is_segment_and_quad_intersect(units(-1, 0, -1), units(-1, 0, 1), &q));
}

#[test]
fn quad_border_is_inside() {
    let q = unit_square();
    assert!(is_segment_and_quad_intersect(units(1, 1, -1), units(1, 1, 1), &q));
    assert!(is_segment_and_quad_intersect(units(0, 0, -1), units(0, 0, 1), &q));
    assert!(!is_segment_and_quad_intersect(p(1_000_001, SCALE, -SCALE), p(1_000_001, SCALE, SCALE), &q));
    assert!(!is_segment_and_quad_intersect(p(-1, 0, -SCALE), p(-1, 0, SCALE), &q));
}

#[test]
fn segment_parallel_to_quad_misses() {
    let q = unit_square();
    assert!(!is_segment_and_quad_intersect(units(0, 0, 1), units(1, 0, 1), &q));
    assert!(!is_segment_and_quad_intersect(units(0, 0, 0), units(1, 1, 0), &q));
    assert!(!is_segment_and_quad_intersect(units(0, 0, 1), units(0, 0, 1), &q));
}

#[test]
fn line_is_not_cut_off_at_the_segment_ends() {
    let q = unit_square();
    assert!(is_segment_and_quad_intersect(p(500_000, 500_000, SCALE), p(500_000, 500_000, 2 * SCALE), &q));
}

#[test]
fn only_the_first_three_corners_shape_the_quad() {
    let mut q = unit_square();
    q[3] = units(40, -40, 40);
    assert!(is_segment_and_quad_intersect(p(500_000, 500_000, -SCALE), p(500_000, 500_000, SCALE), &q));
    let triangle = vec![units(0, 0, 0), units(1, 0, 0), units(1, 1, 0)];
    assert!(is_segment_and_quad_intersect(p(100_000, 900_000, -SCALE), p(100_000, 900_000, SCALE), &triangle));
}

#[test]
fn crossing_quads_intersect() {
    let a = unit_square();
    let b = vec![p(500_000, -SCALE, -SCALE), p(500_000, SCALE, -SCALE), p(500_000, SCALE, SCALE), p(500_000, -SCALE, SCALE)];
    assert!(is_two_quads_intersect(&a, &b));
    assert!(is_two_quads_intersect(&b, &a));
}

#[test]
fn distant_quads_do_not_intersect() {
    let a = unit_square();
    let b = vec![units(5, 5, 5), units(6, 5, 5), units(6, 6, 5), units(5, 6, 5)];
    assert!(!is_two_quads_intersect(&a, &b));
    assert!(!is_two_quads_intersect(&b, &a));
}

#[test]
fn flat_quad_does_not_intersect_itself() {
    let a = unit_square();
    assert!(!is_two_quads_intersect(&a, &a));
    let tilted = vec![units(0, 0, 0), units(2, 0, 2), units(2, 3, 2), units(0, 3, 0)];
    assert!(!is_two_quads_intersect(&tilted, &tilted));
}

#[test]
fn bent_quad_intersects_itself() {
    let bent = vec![units(0, 0, 0), units(1, 0, 0), units(1, 1, 0), units(0, 1, 1)];
    assert!(is_two_quads_intersect(&bent, &bent));
}

#[test]
fn empty_polygons_do_not_intersect() {
    let none: Vec<Point3> = Vec::new();
    assert!(!is_two_quads_intersect(&none, &none));
}

#[test]
fn enclosed_quad_without_edge_crossing_is_not_found() {
    let outer = vec![units(0, 0, 0), units(10, 0, 0), units(10, 10, 0), units(0, 10, 0)];
    let inner = vec![units(4, 4, 0), units(6, 4, 0), units(6, 6, 0), units(4, 6, 0)];
    assert!(!is_two_quads_intersect(&outer, &inner));
}
