use geom_kernel::base_plane::{heaviest_three, percent_of, samples_are_readable};
use geom_kernel::{calculate_deform_position, make_quad, pick_base_plane_norm, world_perp, Point3,
    Vector3, LIMIT, SCALE, UNDEFINED};

fn p(x: i64, y: i64, z: i64) -> Point3 {
    Point3 { x, y, z }
}

fn units(x: i64, y: i64, z: i64) -> Point3 {
    Point3 { x: x * SCALE, y: y * SCALE, z: z * SCALE }
}

fn v(x: i64, y: i64, z: i64) -> Vector3 {
    Vector3 { x, y, z }
}

fn axis(x: i64, y: i64, z: i64) -> Vector3 {
    Vector3 { x: x * SCALE, y: y * SCALE, z: z * SCALE }
}

fn undefined_vector() -> Vector3 {
    Vector3 { x: UNDEFINED, y: UNDEFINED, z: UNDEFINED }
}

#[test]
fn two_orthogonal_directions_give_their_cross_product() {
    let r = pick_base_plane_norm(
        vec![axis(1, 0, 0), axis(0, 1, 0)],
        vec![units(0, 0, 0), units(1, 0, 0)],
        vec![SCALE, SCALE],
    );
    assert_eq!(r, Some(axis(0, 0, 1)));
}

#[test]
fn two_nearly_identical_directions_give_none() {
    let r = pick_base_plane_norm(
        vec![axis(1, 0, 0), v(999_999, 1_000, 0)],
        vec![units(0, 0, 0), units(1, 0, 0)],
        vec![SCALE, SCALE],
    );
    assert_eq!(r, None);
    let r = pick_base_plane_norm(
        vec![axis(1, 0, 0), axis(-1, 0, 0)],
        vec![units(0, 0, 0), units(1, 0, 0)],
        vec![SCALE, SCALE],
    );
    assert_eq!(r, None);
}

#[test]
fn fewer_than_two_samples_give_none() {
    assert_eq!(pick_base_plane_norm(Vec::new(), Vec::new(), Vec::new()), None);
    assert_eq!(pick_base_plane_norm(vec![axis(1, 0, 0)], vec![units(0, 0, 0)], vec![SCALE]), None);
}

#[test]
fn separation_threshold_is_cosine_of_fifteen_degrees() {
    // dot product 0.965999 of a unit: apart enough
    let r = pick_base_plane_norm(
        vec![axis(1, 0, 0), v(965_999, 258_562, 0)],
        Vec::new(),
        Vec::new(),
    );
    assert_eq!(r, Some(axis(0, 0, 1)));
    // dot product 0.966 of a unit: too close
    let r = pick_base_plane_norm(
        vec![axis(1, 0, 0), v(966_000, 258_562, 0)],
        Vec::new(),
        Vec::new(),
    );
    assert_eq!(r, None);
    let r = pick_base_plane_norm(
        vec![axis(1, 0, 0), v(-966_000, 258_562, 0)],
        Vec::new(),
        Vec::new(),
    );
    assert_eq!(r, None);
    let r = pick_base_plane_norm(
        vec![axis(1, 0, 0), v(-965_999, 258_562, 0)],
        Vec::new(),
        Vec::new(),
    );
    assert_eq!(r, Some(axis(0, 0, 1)));
}

#[test]
fn three_samples_use_the_triangle_of_positions() {
    let r = pick_base_plane_norm(
        vec![axis(1, 0, 0), axis(1, 0, 0), axis(1, 0, 0)],
        vec![units(0, 0, 0), units(0, 1, 0), units(0, 0, 1)],
        vec![SCALE, SCALE, SCALE],
    );
    assert_eq!(r, Some(axis(1, 0, 0)));
}

#[test]
fn three_samples_on_a_line_fall_back_to_directions() {
    let line = vec![units(0, 0, 0), units(1, 1, 1), units(2, 2, 2)];
    let r = pick_base_plane_norm(
        vec![axis(1, 0, 0), axis(0, 1, 0), axis(0, 0, 1)],
        line.clone(),
        vec![SCALE, SCALE, SCALE],
    );
    assert_eq!(r, Some(axis(0, 0, 1)));
    // first pair parallel: second pair decides
    let r = pick_base_plane_norm(
        vec![axis(0, 1, 0), axis(0, 1, 0), axis(0, 0, 1)],
        line.clone(),
        vec![SCALE, SCALE, SCALE],
    );
    assert_eq!(r, Some(axis(1, 0, 0)));
    // no pair apart: none
    let r = pick_base_plane_norm(
        vec![axis(0, 1, 0), axis(0, -1, 0), v(0, -999_999, 1_000)],
        line.clone(),
        vec![SCALE, SCALE, SCALE],
    );
    assert_eq!(r, None);
    let r = pick_base_plane_norm(
        vec![axis(1, 0, 0), axis(1, 0, 0), axis(1, 0, 0)],
        line,
        vec![SCALE, SCALE, SCALE],
    );
    assert_eq!(r, None);
}

#[test]
fn third_and_first_direction_are_tried_last() {
    let line = vec![units(0, 0, 0), units(1, 1, 1), units(2, 2, 2)];
    // 0-1 too close, 1-2 too close, 2-0 apart by 20 degrees
    let d0 = axis(1, 0, 0);
    let d1 = v(984_808, 173_648, 0);
    let d2 = v(939_693, 342_020, 0);
    let r = pick_base_plane_norm(vec![d0, d1, d2], line, vec![SCALE, SCALE, SCALE]);
    assert_eq!(r, Some(axis(0, 0, -1)));
}

#[test]
fn more_than_three_samples_keep_the_three_heaviest() {
    // the light sample would bend the triangle out of the xy plane
    let directs = vec![axis(1, 0, 0), axis(1, 0, 0), axis(1, 0, 0), axis(1, 0, 0)];
    let positions = vec![units(0, 0, 0), units(5, 5, 5), units(1, 0, 0), units(0, 1, 0)];
    let weights = vec![300_000, 100_000, 300_000, 300_000];
    let r = pick_base_plane_norm(directs, positions, weights);
    assert_eq!(r, Some(axis(0, 0, 1)));
}

#[test]
fn heaviest_samples_are_taken_in_order_of_weight() {
    // order by weight is 3, 1, 0: triangle (p3, p1, p0)
    let directs = vec![axis(1, 0, 0), axis(1, 0, 0), axis(1, 0, 0), axis(1, 0, 0)];
    let positions = vec![units(0, 1, 0), units(1, 0, 0), units(5, 5, 5), units(0, 0, 0)];
    let weights = vec![200_000, 300_000, 100_000, 400_000];
    let r = pick_base_plane_norm(directs, positions, weights);
    assert_eq!(r, Some(axis(0, 0, 1)));
}

#[test]
fn weights_are_compared_as_whole_percentages() {
    assert_eq!(percent_of(509_999), 50);
    assert_eq!(percent_of(510_000), 51);
    assert_eq!(percent_of(9_999), 0);
    assert_eq!(percent_of(SCALE), 100);
    assert_eq!(percent_of(-5), 0);
    assert_eq!(percent_of(0), 0);
    // 0.509999 and 0.500000 are both 50 percent: input order decides
    assert_eq!(heaviest_three(&vec![500_000, 509_999, 100_000, 505_000]), (0, 1, 3));
    assert_eq!(heaviest_three(&vec![500_000, 510_000, 100_000, 505_000]), (1, 0, 3));
}

#[test]
fn heaviest_three_is_a_stable_descending_order() {
    assert_eq!(heaviest_three(&vec![SCALE, SCALE, SCALE]), (0, 1, 2));
    assert_eq!(heaviest_three(&vec![100_000, 200_000, 300_000]), (2, 1, 0));
    assert_eq!(heaviest_three(&vec![100_000, 300_000, 200_000, 300_000, 50_000]), (1, 3, 2));
    assert_eq!(heaviest_three(&vec![-1, -2, 10_000, 0]), (2, 0, 1));
    assert_eq!(heaviest_three(&vec![0, 0, 0, 0, 900_000]), (4, 0, 1));
}

#[test]
fn zero_directions_give_a_normal_without_value() {
    let r = pick_base_plane_norm(vec![axis(0, 0, 0), axis(0, 1, 0)], Vec::new(), Vec::new());
    assert_eq!(r, Some(undefined_vector()));
}

#[test]
fn world_perp_near_the_first_axis_crosses_with_the_second() {
    assert_eq!(world_perp(axis(1, 0, 0)), axis(0, 0, 1));
    assert_eq!(world_perp(axis(-1, 0, 0)), axis(0, 0, -1));
    assert_eq!(world_perp(v(800_000, 0, 600_000)), v(-600_000, 0, 800_000));
    assert_eq!(world_perp(v(707_001, 707_000, 5)), v(-5, 0, 707_001));
}

#[test]
fn world_perp_elsewhere_crosses_with_the_first_axis() {
    assert_eq!(world_perp(axis(0, 1, 0)), axis(0, 0, -1));
    assert_eq!(world_perp(axis(0, 0, 1)), axis(0, 1, 0));
    assert_eq!(world_perp(v(707_000, 707_000, 5)), v(0, 5, -707_000));
    assert_eq!(world_perp(v(-707_000, 1, 2)), v(0, 2, -1));
    assert_eq!(world_perp(axis(0, 0, 0)), axis(0, 0, 0));
}

#[test]
fn quad_across_the_third_axis() {
    let q = make_quad(units(0, 0, 0), axis(0, 0, 1), SCALE, axis(0, 0, 1));
    assert_eq!(q, vec![units(1, -1, 1), units(-1, -1, 1), units(-1, 1, 1), units(1, 1, 1)]);
}

#[test]
fn quad_with_base_normal_across_the_direction() {
    let q = make_quad(units(1, 2, 3), axis(0, 0, 1), 2 * SCALE, axis(1, 0, 0));
    assert_eq!(q, vec![units(3, 4, 5), units(3, 0, 5), units(-1, 0, 5), units(-1, 4, 5)]);
}

#[test]
fn quad_base_normal_is_turned_towards_the_direction() {
    let forth = make_quad(units(0, 0, 0), axis(0, 0, 2), SCALE, axis(0, 0, 3));
    let back = make_quad(units(0, 0, 0), axis(0, 0, 2), SCALE, axis(0, 0, -3));
    assert_eq!(forth, back);
    assert_eq!(forth, vec![units(1, -1, 2), units(-1, -1, 2), units(-1, 1, 2), units(1, 1, 2)]);
}

#[test]
fn quad_along_a_diagonal() {
    let q = make_quad(units(0, 0, 0), axis(1, 1, 0), SCALE / 2, axis(0, 1, 0));
    assert_eq!(
        q,
        vec![
            p(853_554, 146_446, 500_000),
            p(146_446, 853_554, 500_000),
            p(146_446, 853_554, -500_000),
            p(853_554, 146_446, -500_000),
        ]
    );
}

#[test]
fn quad_centroid_is_position_plus_direction_times_radius() {
    let position = p(1_234_567, -7_654_321, 42);
    let direct = v(600_000, 0, 800_000);
    let radius = 3 * SCALE;
    let q = make_quad(position, direct, radius, v(0, 1_000_000, 0));
    assert_eq!(q.len(), 4);
    let sum_x: i64 = q.iter().map(|c| c.x).sum();
    let sum_y: i64 = q.iter().map(|c| c.y).sum();
    let sum_z: i64 = q.iter().map(|c| c.z).sum();
    assert_eq!(sum_x, 4 * (1_234_567 + 1_800_000));
    assert_eq!(sum_y, 4 * (-7_654_321));
    assert_eq!(sum_z, 4 * (42 + 2_400_000));
}

#[test]
fn quad_corners_are_equidistant_from_the_centre() {
    let position = p(1_234_567, -7_654_321, 42);
    let direct = v(600_000, 0, 800_000);
    let radius = 3 * SCALE;
    let q = make_quad(position, direct, radius, v(0, 1_000_000, 0));
    let centre = (1_234_567 + 1_800_000_i64, -7_654_321_i64, 42 + 2_400_000_i64);
    let expected = 2.0 * (radius as f64) * (radius as f64);
    for corner in q.iter() {
        let dx = (corner.x - centre.0) as f64;
        let dy = (corner.y - centre.1) as f64;
        let dz = (corner.z - centre.2) as f64;
        let d2 = dx * dx + dy * dy + dz * dz;
        assert!((d2 - expected).abs() <= expected * 1e-5);
    }
}

#[test]
fn quad_of_a_zero_direction_has_no_value() {
    let nothing = Point3 { x: UNDEFINED, y: UNDEFINED, z: UNDEFINED };
    let q = make_quad(units(1, 1, 1), axis(0, 0, 0), SCALE, axis(0, 0, 1));
    assert_eq!(q, vec![nothing, nothing, nothing, nothing]);
    let q = make_quad(units(1, 1, 1), axis(0, 0, 1), SCALE, axis(0, 0, 0));
    assert_eq!(q, vec![nothing, nothing, nothing, nothing]);
}

#[test]
fn quad_of_radius_zero_is_one_point() {
    let q = make_quad(units(1, 2, 3), axis(0, 1, 0), 0, axis(0, 0, 1));
    assert_eq!(q, vec![units(1, 2, 3), units(1, 2, 3), units(1, 2, 3), units(1, 2, 3)]);
}

#[test]
fn deformation_scales_the_part_along_the_normal() {
    let r = calculate_deform_position(units(1, 1, 1), axis(1, 1, 0), axis(1, 0, 0), 2 * SCALE);
    assert_eq!(r, units(2, 1, 1));
    let r = calculate_deform_position(units(0, 0, 0), axis(1, 2, 3), axis(1, 1, 1), SCALE / 2);
    assert_eq!(r, units(-1, -1, -1));
    let r = calculate_deform_position(units(0, 0, 0), axis(1, 2, 3), axis(0, 0, -2), 0);
    assert_eq!(r, units(0, 0, -3));
}

#[test]
fn deformation_does_not_depend_on_the_sense_of_the_normal() {
    let forth = calculate_deform_position(units(1, 1, 1), axis(1, 1, 0), axis(1, 0, 0), 2 * SCALE);
    let back = calculate_deform_position(units(1, 1, 1), axis(1, 1, 0), axis(-1, 0, 0), 2 * SCALE);
    assert_eq!(forth, back);
    let forth = calculate_deform_position(p(5, 6, 7), v(123, -456, 789), v(3, 1, -2), 1_700_000);
    let back = calculate_deform_position(p(5, 6, 7), v(123, -456, 789), v(-3, -1, 2), 1_700_000);
    assert_eq!(forth, back);
}

#[test]
fn deformation_by_one_moves_nothing() {
    let r = calculate_deform_position(p(5, 6, 7), v(123, -456, 789), v(3, 1, -2), SCALE);
    assert_eq!(r, p(5, 6, 7));
}

#[test]
fn deformation_across_the_normal_moves_nothing() {
    let r = calculate_deform_position(units(1, 1, 1), axis(0, 1, 0), axis(1, 0, 0), 5 * SCALE);
    assert_eq!(r, units(1, 1, 1));
}

#[test]
fn deformation_along_a_zero_normal_has_no_value() {
    let r = calculate_deform_position(units(1, 1, 1), axis(0, 1, 0), axis(0, 0, 0), 5 * SCALE);
    assert_eq!(r, Point3 { x: UNDEFINED, y: UNDEFINED, z: UNDEFINED });
}

#[test]
fn normal_of_a_small_triangle_of_positions_is_of_unit_length() {
    let r = pick_base_plane_norm(
        vec![axis(1, 0, 0), axis(0, 1, 0), axis(0, 0, 1)],
        vec![p(0, 0, 0), p(1, -1, 0), p(0, 1, -1)],
        vec![SCALE, SCALE, SCALE],
    );
    assert_eq!(r, Some(v(577_350, 577_350, 577_350)));
}

#[test]
fn only_what_is_read_has_to_be_in_range() {
    let far = p(LIMIT + 1, 0, 0);
    let wild = v(i64::MAX, i64::MIN, 7);
    // two samples: no position is read
    let r = pick_base_plane_norm(vec![axis(1, 0, 0), axis(0, 1, 0)], vec![far], Vec::new());
    assert_eq!(r, Some(axis(0, 0, 1)));
    // fewer than two: nothing is read
    assert_eq!(pick_base_plane_norm(vec![wild], vec![far], vec![1]), None);
    // a triangle with area: no direction is read
    let r = pick_base_plane_norm(
        vec![wild, wild, wild],
        vec![units(0, 0, 0), units(1, 0, 0), units(0, 1, 0)],
        Vec::new(),
    );
    assert_eq!(r, Some(axis(0, 0, 1)));
    // positions on a line, first two directions apart: the third is not read
    let r = pick_base_plane_norm(
        vec![axis(1, 0, 0), axis(0, 1, 0), wild],
        vec![units(0, 0, 0), units(1, 1, 1), units(2, 2, 2)],
        Vec::new(),
    );
    assert_eq!(r, Some(axis(0, 0, 1)));
    // four samples: the lightest is not read, and there may be more weights than samples
    let r = pick_base_plane_norm(
        vec![wild, wild, wild, wild],
        vec![units(0, 0, 0), far, units(1, 0, 0), units(0, 1, 0)],
        vec![300_000, 100_000, 300_000, 300_000, 0, 0],
    );
    assert_eq!(r, Some(axis(0, 0, 1)));
}

#[test]
fn readable_samples_are_told_from_others() {
    let far = p(LIMIT + 1, 0, 0);
    let wild = v(i64::MAX, i64::MIN, 7);
    let line = vec![units(0, 0, 0), units(1, 1, 1), units(2, 2, 2)];
    let flat = vec![units(0, 0, 0), units(1, 0, 0), units(0, 1, 0)];
    let none: Vec<i64> = Vec::new();
    assert!(samples_are_readable(&vec![wild], &vec![far], &none));
    assert!(samples_are_readable(&vec![axis(1, 0, 0), axis(0, 1, 0)], &vec![far], &none));
    assert!(!samples_are_readable(&vec![axis(1, 0, 0), wild], &vec![far], &none));
    assert!(samples_are_readable(&vec![wild, wild, wild], &flat, &none));
    assert!(!samples_are_readable(&vec![wild, wild, wild], &line, &none));
    assert!(!samples_are_readable(&vec![wild, wild, wild], &vec![units(0, 0, 0), far, units(1, 0, 0)], &none));
    assert!(!samples_are_readable(&vec![wild, wild, wild], &vec![units(0, 0, 0)], &none));
    assert!(samples_are_readable(&vec![axis(1, 0, 0), axis(0, 1, 0), wild], &line, &none));
    assert!(!samples_are_readable(&vec![axis(1, 0, 0), axis(1, 0, 0), wild], &line, &none));
    assert!(samples_are_readable(&vec![axis(1, 0, 0), axis(1, 0, 0), axis(0, 1, 0)], &line, &none));
    let four = vec![wild, wild, wild, wild];
    let places = vec![units(0, 0, 0), far, units(1, 0, 0), units(0, 1, 0)];
    assert!(samples_are_readable(&four, &places, &vec![300_000, 100_000, 300_000, 300_000]));
    assert!(!samples_are_readable(&four, &places, &vec![300_000, 400_000, 300_000, 300_000]));
    assert!(!samples_are_readable(&four, &places, &vec![300_000, 100_000]));
    assert!(!samples_are_readable(&four, &places, &vec![0, 0, 0, 0, 900_000]));
}

#[test]
fn quad_does_not_depend_on_the_sense_of_the_base_normal() {
    // the direction is not across the base normal, though its unit vector rounds to one that is
    let direct = v(3_000_000, 1, 0);
    let forth = make_quad(units(0, 0, 0), direct, SCALE, axis(0, 1, 0));
    let back = make_quad(units(0, 0, 0), direct, SCALE, axis(0, -1, 0));
    assert_eq!(forth, back);
    assert_eq!(
        forth,
        vec![
            p(3_000_000, -999_999, -1_000_000),
            p(3_000_000, -999_999, 1_000_000),
            p(3_000_000, 1_000_001, 1_000_000),
            p(3_000_000, 1_000_001, -1_000_000),
        ]
    );
    let forth = make_quad(p(5, 6, 7), v(123_456, -654_321, 77), 2 * SCALE, v(-3, 40, 9_000));
    let back = make_quad(p(5, 6, 7), v(123_456, -654_321, 77), 2 * SCALE, v(3, -40, -9_000));
    assert_eq!(forth, back);
}

#[test]
fn quad_of_a_short_direction() {
    // a direction of a few coordinate units is brought to unit length all the same
    let q = make_quad(units(0, 0, 0), v(1, 1, 1), SCALE, axis(0, 0, 1));
    assert_eq!(
        q,
        vec![
            p(-298_858, 1_115_356, -816_496),
            p(1_115_356, -298_858, -816_496),
            p(298_860, -1_115_354, 816_498),
            p(-1_115_354, 298_860, 816_498),
        ]
    );
}

#[test]
fn quad_is_a_square_of_side_twice_the_radius() {
    let radius = 3 * SCALE;
    let q = make_quad(p(1_234_567, -7_654_321, 42), v(600_000, 0, 800_000), radius, v(0, 7, 0));
    let edge = |a: Point3, b: Point3| ((b.x - a.x) as f64, (b.y - a.y) as f64, (b.z - a.z) as f64);
    let e1 = edge(q[0], q[1]);
    let e2 = edge(q[0], q[3]);
    assert_eq!(edge(q[3], q[2]), e1);
    assert_eq!(edge(q[1], q[2]), e2);
    let side2 = 4.0 * (radius as f64) * (radius as f64);
    assert!((e1.0 * e1.0 + e1.1 * e1.1 + e1.2 * e1.2 - side2).abs() <= side2 * 1e-5);
    assert!((e2.0 * e2.0 + e2.1 * e2.1 + e2.2 * e2.2 - side2).abs() <= side2 * 1e-5);
    assert!((e1.0 * e2.0 + e1.1 * e2.1 + e1.2 * e2.2).abs() <= side2 * 1e-5);
}
