use geom_kernel::{angle360, is_point_on_segment, norm, point_in_triangle, point_side_on_plane,
    Point3, PointSide, Vector3, SCALE};

fn p(x: i64, y: i64, z: i64) -> Point3 {
    Point3 { x, y, z }
}

fn units(x: i64, y: i64, z: i64) -> Point3 {
    Point3 { x: x * SCALE, y: y * SCALE, z: z * SCALE }
}

fn v(x: i64, y: i64, z: i64) -> Vector3 {
    Vector3 { x, y, z }
}

fn dot(a: Vector3, b: (i64, i64, i64)) -> i128 {
    a.x as i128 * b.0 as i128 + a.y as i128 * b.1 as i128 + a.z as i128 * b.2 as i128
}

#[test]
fn normal_is_perpendicular_to_both_edges() {
    let p1 = units(0, 0, 0);
    let p2 = units(1, 2, 3);
    let p3 = units(-2, 1, 0);
    let n = norm(p1, p2, p3);
    assert_eq!(n, v(-358_569, -717_137, 597_614));
    let e1 = (p2.x - p1.x, p2.y - p1.y, p2.z - p1.z);
    let e2 = (p3.x - p1.x, p3.y - p1.y, p3.z - p1.z);
    // within half a coordinate unit per axis of the edge
    assert!(2 * dot(n, e1).abs() <= 6 * SCALE as i128);
    assert!(2 * dot(n, e2).abs() <= 3 * SCALE as i128);
}

#[test]
fn centroid_is_in_triangle() {
    let a = units(0, 0, 0);
    let b = units(3, 0, 0);
    let c = units(0, 3, 0);
    assert!(point_in_triangle(a, b, c, units(1, 1, 0)));
    let a = units(1, -2, 4);
    let b = units(7, 1, -2);
    let c = units(-2, 4, 1);
    assert!(point_in_triangle(a, b, c, units(2, 1, 1)));
}

#[test]
fn point_outside_hull_is_not_in_triangle() {
    assert!(!point_in_triangle(units(0, 0, 0), units(1, 0, 0), units(0, 1, 0), units(2, 2, 0)));
}

#[test]
fn triangle_boundary_is_accepted() {
    let a = units(0, 0, 0);
    let b = units(1, 0, 0);
    let c = units(0, 1, 0);
    assert!(point_in_triangle(a, b, c, a));
    assert!(point_in_triangle(a, b, c, b));
    assert!(point_in_triangle(a, b, c, c));
    assert!(point_in_triangle(a, b, c, p(500_000, 500_000, 0)));
    assert!(point_in_triangle(a, b, c, p(500_000, 0, 0)));
    assert!(point_in_triangle(a, b, c, p(0, 250_000, 0)));
}

#[test]
fn one_unit_past_an_edge_is_outside() {
    let a = units(0, 0, 0);
    let b = units(1, 0, 0);
    let c = units(0, 1, 0);
    assert!(!point_in_triangle(a, b, c, p(500_001, 500_000, 0)));
    assert!(!point_in_triangle(a, b, c, p(-1, 500_000, 0)));
    assert!(!point_in_triangle(a, b, c, p(500_000, -1, 0)));
    assert!(!point_in_triangle(a, b, c, p(-100_000, 500_000, 0)));
}

#[test]
fn triangle_without_area_holds_no_point() {
    assert!(!point_in_triangle(units(0, 0, 0), units(1, 0, 0), units(2, 0, 0), units(1, 0, 0)));
    assert!(!point_in_triangle(units(1, 1, 1), units(1, 1, 1), units(1, 1, 1), units(1, 1, 1)));
}

#[test]
fn side_is_the_sign_of_the_dot_product() {
    let origin = units(0, 0, 0);
    let up = v(0, 0, SCALE);
    assert_eq!(point_side_on_plane(units(0, 0, 1), origin, up), PointSide::Front);
    assert_eq!(point_side_on_plane(units(5, -3, -1), origin, up), PointSide::Back);
    assert_eq!(point_side_on_plane(units(5, -3, 0), origin, up), PointSide::Coincident);
}

#[test]
fn only_exact_zero_is_coincident() {
    let origin = units(0, 0, 0);
    let up = v(0, 0, SCALE);
    assert_eq!(point_side_on_plane(p(0, 0, 1), origin, up), PointSide::Front);
    assert_eq!(point_side_on_plane(p(0, 0, -1), origin, up), PointSide::Back);
    assert_eq!(point_side_on_plane(p(7, 7, 0), origin, v(0, 0, 0)), PointSide::Coincident);
    // oblique plane x + y = 2
    let n = v(707_107, 707_107, 0);
    assert_eq!(point_side_on_plane(units(1, 1, 9), units(2, 0, 0), n), PointSide::Coincident);
    assert_eq!(point_side_on_plane(units(1, 2, 0), units(2, 0, 0), n), PointSide::Front);
}

#[test]
fn midpoint_is_on_segment() {
    assert!(is_point_on_segment(p(500_000, 0, 0), units(0, 0, 0), units(1, 0, 0)));
    assert!(is_point_on_segment(units(1, 2, 3), units(0, 0, 0), units(2, 4, 6)));
}

#[test]
fn segment_ends_are_excluded() {
    assert!(!is_point_on_segment(units(0, 0, 0), units(0, 0, 0), units(1, 0, 0)));
    assert!(!is_point_on_segment(units(1, 0, 0), units(0, 0, 0), units(1, 0, 0)));
    assert!(is_point_on_segment(p(1, 0, 0), units(0, 0, 0), units(1, 0, 0)));
    assert!(is_point_on_segment(p(999_999, 0, 0), units(0, 0, 0), units(1, 0, 0)));
    assert!(!is_point_on_segment(units(2, 0, 0), units(0, 0, 0), units(1, 0, 0)));
    assert!(!is_point_on_segment(units(-1, 0, 0), units(0, 0, 0), units(1, 0, 0)));
}

#[test]
fn point_on_segment_distance_tolerance() {
    // ten coordinate units, a hundred-thousandth of a unit of length, is still on
    assert!(is_point_on_segment(p(500_000, 10, 0), units(0, 0, 0), units(1, 0, 0)));
    assert!(!is_point_on_segment(p(500_000, 11, 0), units(0, 0, 0), units(1, 0, 0)));
    assert!(is_point_on_segment(p(500_000, -6, 8), units(0, 0, 0), units(1, 0, 0)));
    assert!(!is_point_on_segment(p(500_000, -8, 8), units(0, 0, 0), units(1, 0, 0)));
}

#[test]
fn degenerate_segment_holds_no_point() {
    assert!(!is_point_on_segment(units(1, 1, 1), units(1, 1, 1), units(1, 1, 1)));
}

#[test]
fn angle_of_a_direction_with_itself_is_the_given_angle() {
    let x = v(SCALE, 0, 0);
    assert_eq!(angle360(0, x, x, v(0, 0, SCALE)), 0);
    assert_eq!(angle360(0, x, x, v(0, 0, -SCALE)), 0);
    let d = v(600_000, 0, 800_000);
    assert_eq!(angle360(0, d, d, v(123, -456, 789)), 0);
}

#[test]
fn angle_adds_half_a_turn_against_the_reference() {
    let x = v(SCALE, 0, 0);
    let y = v(0, SCALE, 0);
    let up = v(0, 0, SCALE);
    let down = v(0, 0, -SCALE);
    // x cross y is up
    assert_eq!(angle360(90_000_000, x, y, up), 90_000_000);
    assert_eq!(angle360(90_000_000, x, y, down), 270_000_000);
    assert_eq!(angle360(90_000_000, y, x, up), 270_000_000);
    assert_eq!(angle360(90_000_000, y, x, down), 90_000_000);
    // a reference in the plane of rotation decides nothing
    assert_eq!(angle360(90_000_000, x, y, x), 90_000_000);
}

#[test]
fn angle_stays_within_a_full_turn() {
    let x = v(SCALE, 0, 0);
    let back = v(-SCALE, 0, 0);
    assert_eq!(angle360(180_000_000, x, back, v(0, 0, SCALE)), 180_000_000);
    let nearly_back = v(-SCALE, 1, 0);
    assert_eq!(angle360(179_999_943, x, nearly_back, v(0, 0, -SCALE)), 359_999_943);
    assert_eq!(angle360(179_999_943, x, nearly_back, v(0, 0, SCALE)), 179_999_943);
}
