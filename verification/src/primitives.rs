//! Triangle normals, approximate equality and the validity check for normals.

use crate::arith::{abs, isqrt, lemma_isqrt_exists, lemma_isqrt_zero};
use crate::vector::{gain, lemma_cross_perpendicular, lemma_cross_swap, lemma_dot_swap,
    lemma_dot_times, lemma_gain, lemma_norm2_nonneg, lemma_norm2_zero, lemma_rounded_dot,
    lemma_unit_length, lemma_unit_neg, lemma_unit_points_along, Point3, Vec3, Vector3, SCALE, UNDEFINED};
use vstd::prelude::*;

verus! {

/// Largest difference per axis, in coordinate units, between two vectors
/// that count as approximately equal: one hundredth of a unit of length.
pub const TOLERANCE: i64 = 10_000;

/// The normal of the triangle `p1 p2 p3`, before it is brought to unit length.
pub open spec fn triangle_cross(p1: Vec3, p2: Vec3, p3: Vec3) -> Vec3 {
    p2.minus(p1).cross(p3.minus(p1))
}

/// The unit normal of the triangle `p1 p2 p3`: the cross product of its edges
/// `p2 - p1` and `p3 - p1`, brought to length `SCALE` up to rounding. Where
/// the three points lie on one line no component of the result has a value.
/// Elsewhere the result is of unit length and points the way of the cross
/// product.
pub fn norm(p1: Point3, p2: Point3, p3: Point3) -> (n: Vector3)
    requires
        p1.in_range(),
        p2.in_range(),
        p3.in_range(),
    ensures
        n@ == triangle_cross(p1@, p2@, p3@).unit(),
        n@.defined() <==> triangle_cross(p1@, p2@, p3@) != Vec3::zero(),
        n@.defined() ==> n@.within(SCALE as int),
        n@.defined() ==> SCALE * SCALE - 3 * SCALE <= n@.norm2() <= SCALE * SCALE + 5 * SCALE,
        n@.defined() ==> n@.dot(triangle_cross(p1@, p2@, p3@)) > 0,
{
    proof {
        if triangle_cross(p1@, p2@, p3@) != Vec3::zero() {
            lemma_unit_length(triangle_cross(p1@, p2@, p3@));
            lemma_unit_points_along(triangle_cross(p1@, p2@, p3@));
        }
    }
    let side1 = p2.minus(&p1);
    let side2 = p3.minus(&p1);
    let perp = side1.cross(&side2);
    perp.unit()
}

/// Two vectors agree within `TOLERANCE` on every axis.
pub open spec fn close(a: Vec3, b: Vec3) -> bool {
    &&& abs(a.x - b.x) <= TOLERANCE
    &&& abs(a.y - b.y) <= TOLERANCE
    &&& abs(a.z - b.z) <= TOLERANCE
}

/// Whether two vectors differ by at most one hundredth of a unit on every
/// axis. A vector with a component that has no value is close to nothing.
pub fn almost_eq(v1: Vector3, v2: Vector3) -> (r: bool)
    ensures
        r == (v1@.defined() && v2@.defined() && close(v1@, v2@)),
{
    if !is_valid_norm(v1) || !is_valid_norm(v2) {
        return false;
    }
    let t: i128 = TOLERANCE as i128;
    let dx: i128 = v1.x as i128 - v2.x as i128;
    let dy: i128 = v1.y as i128 - v2.y as i128;
    let dz: i128 = v1.z as i128 - v2.z as i128;
    -t <= dx && dx <= t && -t <= dy && dy <= t && -t <= dz && dz <= t
}

/// Whether every component of a normal has a value. The zero vector passes.
pub fn is_valid_norm(norm: Vector3) -> (r: bool)
    ensures
        r == norm@.defined(),
{
    norm.x != UNDEFINED && norm.y != UNDEFINED && norm.z != UNDEFINED
}

/// Rounding a vector to unit length keeps it perpendicular to whatever the
/// vector itself is perpendicular to, up to half a coordinate unit per axis:
/// `2 * |unit(c) . e| <= |e.x| + |e.y| + |e.z|`.
pub proof fn lemma_unit_keeps_perpendicular(c: Vec3, e: Vec3)
    requires
        c != Vec3::zero(),
        c.dot(e) == 0,
    ensures
        2 * abs(c.unit().dot(e)) <= e.norm1(),
{
    lemma_gain(c);
    let k = gain(c.norm2());
    let b = c.times(k);
    lemma_dot_swap(b, e);
    lemma_dot_times(e, c, k);
    lemma_dot_swap(e, c);
    assert(b.dot(e) == 0);
    lemma_norm2_nonneg(b);
    lemma_norm2_zero(b);
    lemma_isqrt_zero(b.norm2());
    lemma_isqrt_exists(b.norm2());
    let m = isqrt(b.norm2());
    let t = c.unit().dot(e);
    lemma_rounded_dot(b.times(SCALE as int), m, e);
    lemma_dot_swap(b.times(SCALE as int), e);
    lemma_dot_times(e, b, SCALE as int);
    lemma_dot_swap(e, b);
    assert(b.times(SCALE as int).dot(e) == 0);
    assert(2 * abs(t) <= e.norm1()) by (nonlinear_arith)
        requires
            m > 0,
            2 * abs(m * t) <= m * e.norm1(),
            abs(m * t) == if m * t < 0 {
                -(m * t)
            } else {
                m * t
            },
            abs(t) == if t < 0 {
                -t
            } else {
                t
            },
    ;
}

/// The normal of a triangle that is not degenerate is perpendicular to both
/// edges it was computed from, up to half a coordinate unit per axis of the
/// edge.
pub proof fn lemma_norm_perpendicular_to_edges(p1: Vec3, p2: Vec3, p3: Vec3)
    requires
        triangle_cross(p1, p2, p3) != Vec3::zero(),
    ensures
        2 * abs(triangle_cross(p1, p2, p3).unit().dot(p2.minus(p1))) <= p2.minus(p1).norm1(),
        2 * abs(triangle_cross(p1, p2, p3).unit().dot(p3.minus(p1))) <= p3.minus(p1).norm1(),
{
    let e1 = p2.minus(p1);
    let e2 = p3.minus(p1);
    lemma_cross_perpendicular(e1, e2);
    lemma_unit_keeps_perpendicular(e1.cross(e2), e1);
    lemma_unit_keeps_perpendicular(e1.cross(e2), e2);
}

/// Walking round a triangle that is not degenerate the other way turns its
/// normal round.
pub proof fn lemma_norm_of_reversed_triangle(p1: Vec3, p2: Vec3, p3: Vec3)
    requires
        triangle_cross(p1, p2, p3) != Vec3::zero(),
    ensures
        triangle_cross(p1, p3, p2).unit() == triangle_cross(p1, p2, p3).unit().neg(),
{
    lemma_cross_swap(p2.minus(p1), p3.minus(p1));
    lemma_unit_neg(triangle_cross(p1, p2, p3));
}

} // verus!
