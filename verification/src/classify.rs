//! Classification of a point against a triangle, a plane and a segment, and
//! the full-turn angle between two directions.

use crate::arith::product_le;
use crate::vector::{lemma_cross_self, lemma_cross_swap, lemma_dot_times, lemma_dot_within,
    lemma_neg_norm2, lemma_norm2_nonneg, lemma_norm2_zero, Point3, Vec3, Vector3, SPAN};
use vstd::prelude::*;

verus! {

/// Half a turn in fixed-point degrees.
pub const HALF_TURN: i64 = 180_000_000;

/// Largest distance, in coordinate units, between a point that counts as on
/// a segment and the line through the segment: a hundred-thousandth of a unit
/// of length.
pub const NEAR: i128 = 10;

/// `NEAR` squared.
pub const NEAR_SQUARED: i128 = 100;

/// `sqrt(a) + sqrt(b) <= sqrt(c)` for integers that are not negative, decided
/// without a square root: squaring twice gives `a + b <= c` together with
/// `4 a b <= (c - a - b)^2`.
pub open spec fn roots_sum_le(a: int, b: int, c: int) -> bool {
    c - a - b >= 0 && 4 * a * b <= (c - a - b) * (c - a - b)
}

/// The point `p` passes the barycentric test against the triangle `a b c`.
///
/// With `u = b - a`, `v = c - a` and `w = p - a`, the point is turned away
/// where `v x w` opposes `v x u` or `u x w` opposes `u x v`. Otherwise the
/// coordinates `r = |v x w| / |u x v|` and `t = |u x w| / |u x v|` are taken,
/// and the point passes if `r + t <= 1`. A triangle without area holds no
/// point.
pub open spec fn in_triangle(a: Vec3, b: Vec3, c: Vec3, p: Vec3) -> bool {
    let u = b.minus(a);
    let v = c.minus(a);
    let w = p.minus(a);
    &&& v.cross(w).dot(v.cross(u)) >= 0
    &&& u.cross(w).dot(u.cross(v)) >= 0
    &&& u.cross(v).norm2() > 0
    &&& roots_sum_le(v.cross(w).norm2(), u.cross(w).norm2(), u.cross(v).norm2())
}

/// Whether a point in the plane of a triangle lies in the triangle, edges and
/// corners included. Nothing checks that the point is in the plane.
pub fn point_in_triangle(a: Point3, b: Point3, c: Point3, p: Point3) -> (r: bool)
    requires
        a.in_range(),
        b.in_range(),
        c.in_range(),
        p.in_range(),
    ensures
        r == in_triangle(a@, b@, c@, p@),
{
    let u = b.minus(&a);
    let v = c.minus(&a);
    let w = p.minus(&a);
    let v_cross_w = v.cross(&w);
    let v_cross_u = v.cross(&u);
    if v_cross_w.dot(&v_cross_u) < 0 {
        return false;
    }
    let u_cross_w = u.cross(&w);
    let u_cross_v = u.cross(&v);
    if u_cross_w.dot(&u_cross_v) < 0 {
        return false;
    }
    let denom: i128 = u_cross_v.norm2();
    if denom == 0 {
        return false;
    }
    let r2: i128 = v_cross_w.norm2();
    let t2: i128 = u_cross_w.norm2();
    let rest: i128 = denom - r2 - t2;
    if rest < 0 {
        return false;
    }
    proof {
        assert(4 * r2 * t2 == (4 * r2) * t2) by (nonlinear_arith);
    }
    product_le(4 * (r2 as u128), t2 as u128, rest as u128, rest as u128)
}

/// The side of an oriented plane on which a point lies.
#[derive(Clone, Copy, Debug, PartialEq, Eq, Structural)]
pub enum PointSide {
    /// On the side the normal points to.
    Front,
    /// On the side the normal points away from.
    Back,
    /// In the plane.
    Coincident,
}

/// The side of the plane through `on_plane` with normal `n` on which `pt`
/// lies: the sign of `(pt - on_plane) . n`.
pub open spec fn side_of(pt: Vec3, on_plane: Vec3, n: Vec3) -> PointSide {
    let d = pt.minus(on_plane).dot(n);
    if d > 0 {
        PointSide::Front
    } else if d < 0 {
        PointSide::Back
    } else {
        PointSide::Coincident
    }
}

/// Classifies a point against an oriented plane. Only a point exactly in the
/// plane is coincident.
pub fn point_side_on_plane(pt: Point3, pt_on_plane: Point3, norm: Vector3) -> (r: PointSide)
    requires
        pt.in_range(),
        pt_on_plane.in_range(),
        norm.in_range(),
    ensures
        r == side_of(pt@, pt_on_plane@, norm@),
{
    let line = pt.minus(&pt_on_plane);
    let dot: i128 = line.dot(&norm.widen());
    if dot > 0 {
        PointSide::Front
    } else if dot < 0 {
        PointSide::Back
    } else {
        PointSide::Coincident
    }
}

/// The point `p` projects strictly between the ends `b` and `e` of a segment
/// and lies within `NEAR` of the line through them.
///
/// With `v = e - b` and `w = p - b` the projection parameter is
/// `(w . v) / (v . v)`, and the squared distance from the line is
/// `|w x v|^2 / (v . v)`.
pub open spec fn on_segment(p: Vec3, b: Vec3, e: Vec3) -> bool {
    let v = e.minus(b);
    let w = p.minus(b);
    &&& 0 < w.dot(v) < v.dot(v)
    &&& w.cross(v).norm2() <= NEAR_SQUARED * v.dot(v)
}

/// Whether a point lies on a segment, its two ends excluded.
pub fn is_point_on_segment(point: Point3, seg_begin: Point3, seg_end: Point3) -> (r: bool)
    requires
        point.in_range(),
        seg_begin.in_range(),
        seg_end.in_range(),
    ensures
        r == on_segment(point@, seg_begin@, seg_end@),
{
    let v = seg_end.minus(&seg_begin);
    let w = point.minus(&seg_begin);
    proof {
        lemma_dot_within(w@, v@, SPAN as int, SPAN as int);
        lemma_dot_within(v@, v@, SPAN as int, SPAN as int);
        assert(SPAN * SPAN == 1_000_000_000_000_000_000) by (nonlinear_arith)
            requires
                SPAN == 1_000_000_000,
        ;
    }
    let w_dot_v: i128 = w.dot(&v);
    if w_dot_v <= 0 {
        return false;
    }
    let v_dot_v: i128 = v.dot(&v);
    if v_dot_v <= w_dot_v {
        return false;
    }
    let dist2: i128 = w.cross(&v).norm2();
    dist2 <= NEAR_SQUARED * v_dot_v
}

/// The angle from `a` to `b` over a full turn, given the angle between them
/// over half a turn: half a turn is added where `a x b` opposes the reference
/// direction.
pub open spec fn full_turn_angle(angle: int, a: Vec3, b: Vec3, direct: Vec3) -> int {
    if a.cross(b).dot(direct) < 0 {
        HALF_TURN + angle
    } else {
        angle
    }
}

/// The angle between two unit directions over a full turn, in fixed-point
/// degrees.
///
/// `angle` is the angle between `a` and `b` over half a turn, the arc cosine
/// of their dot product in fixed-point degrees, which the caller supplies.
/// `direct` tells the two senses of rotation apart.
pub fn angle360(angle: i64, a: Vector3, b: Vector3, direct: Vector3) -> (r: i64)
    requires
        0 <= angle <= HALF_TURN,
        a.in_range(),
        b.in_range(),
        direct.in_range(),
    ensures
        r == full_turn_angle(angle as int, a@, b@, direct@),
        0 <= r <= 2 * HALF_TURN,
        angle < HALF_TURN ==> r < 2 * HALF_TURN,
{
    let c = a.widen().cross(&b.widen());
    if c.dot(&direct.widen()) < 0 {
        HALF_TURN + angle
    } else {
        angle
    }
}

/// For squares, `roots_sum_le` is the comparison of the roots.
pub proof fn lemma_roots_sum_le_of_squares(x: int, y: int, z: int)
    requires
        x >= 0,
        y >= 0,
        z >= 0,
    ensures
        roots_sum_le(x * x, y * y, z * z) <==> x + y <= z,
{
    let a = x * x;
    let b = y * y;
    let c = z * z;
    let p = x * y;
    let s = x + y;
    assert(s * s == a + 2 * p + b) by (nonlinear_arith)
        requires
            s == x + y,
            a == x * x,
            b == y * y,
            p == x * y,
    ;
    assert(4 * a * b == (2 * p) * (2 * p)) by (nonlinear_arith)
        requires
            a == x * x,
            b == y * y,
            p == x * y,
    ;
    assert(p >= 0) by (nonlinear_arith)
        requires
            p == x * y,
            x >= 0,
            y >= 0,
    ;
    let r = c - a - b;
    // r >= 0 and (2p)^2 <= r^2  <==>  2p <= r  <==>  s^2 <= z^2  <==>  s <= z
    assert((r >= 0 && (2 * p) * (2 * p) <= r * r) <==> 2 * p <= r) by (nonlinear_arith)
        requires
            p >= 0,
    ;
    assert(s * s <= z * z <==> s <= z) by (nonlinear_arith)
        requires
            s >= 0,
            z >= 0,
    ;
}

/// One component of `v x (3 w) = v x u` where `3 w = u + v`.
proof fn lemma_det_third(vy: int, vz: int, wy: int, wz: int, uy: int, uz: int)
    requires
        3 * wy == uy + vy,
        3 * wz == uz + vz,
    ensures
        (vy * wz - vz * wy) * 3 == vy * uz - vz * uy,
{
    assert((vy * wz - vz * wy) * 3 == vy * (3 * wz) - vz * (3 * wy)) by (nonlinear_arith);
    assert(vy * (uz + vz) == vy * uz + vy * vz) by (nonlinear_arith);
    assert(vz * (uy + vy) == vz * uy + vy * vz) by (nonlinear_arith);
}

/// Where `3 w = u + v`, three times `v x w` is `v x u`.
proof fn lemma_cross_with_third(v: Vec3, w: Vec3, u: Vec3)
    requires
        w.times(3) == u.plus(v),
    ensures
        v.cross(w).times(3) == v.cross(u),
{
    lemma_det_third(v.y, v.z, w.y, w.z, u.y, u.z);
    lemma_det_third(v.z, v.x, w.z, w.x, u.z, u.x);
    lemma_det_third(v.x, v.y, w.x, w.y, u.x, u.y);
}

/// The centroid of a triangle that has area lies in the triangle.
///
/// The centroid is given as the point `g` with `3 g = a + b + c`, so that it
/// has coordinates of its own.
pub proof fn lemma_centroid_in_triangle(a: Vec3, b: Vec3, c: Vec3, g: Vec3)
    requires
        g.times(3) == a.plus(b).plus(c),
        b.minus(a).cross(c.minus(a)) != Vec3::zero(),
    ensures
        in_triangle(a, b, c, g),
{
    let u = b.minus(a);
    let v = c.minus(a);
    let w = g.minus(a);
    assert(w.times(3) == u.plus(v));
    assert(w.times(3) == v.plus(u));
    let vw = v.cross(w);
    let uw = u.cross(w);
    let uv = u.cross(v);
    let vu = v.cross(u);
    lemma_cross_with_third(v, w, u);
    lemma_cross_with_third(u, w, v);
    assert(vw.times(3) == vu);
    assert(uw.times(3) == uv);
    lemma_dot_times(vw, vw, 3);
    lemma_dot_times(uw, uw, 3);
    lemma_norm2_nonneg(vw);
    lemma_norm2_nonneg(uw);
    assert(vw.dot(vu) == 3 * vw.norm2());
    assert(uw.dot(uv) == 3 * uw.norm2());
    lemma_norm2_zero(uv);
    lemma_norm2_nonneg(uv);
    lemma_cross_swap(u, v);
    lemma_neg_norm2(uv);
    assert(vu.norm2() == uv.norm2());
    lemma_norm2_of_triple(vw);
    lemma_norm2_of_triple(uw);
    let t = vw.norm2();
    assert(uv.norm2() == 9 * t);
    assert(uw.norm2() == t);
    assert(4 * t * t <= (7 * t) * (7 * t)) by (nonlinear_arith)
        requires
            t >= 0,
    ;
}

/// Three times a vector has nine times its squared length.
proof fn lemma_norm2_of_triple(v: Vec3)
    ensures
        v.times(3).norm2() == 9 * v.norm2(),
{
    assert((v.x * 3) * (v.x * 3) == 9 * (v.x * v.x)) by (nonlinear_arith);
    assert((v.y * 3) * (v.y * 3) == 9 * (v.y * v.y)) by (nonlinear_arith);
    assert((v.z * 3) * (v.z * 3) == 9 * (v.z * v.z)) by (nonlinear_arith);
}

/// Every corner of a triangle that has area lies in the triangle.
pub proof fn lemma_corners_in_triangle(a: Vec3, b: Vec3, c: Vec3)
    requires
        b.minus(a).cross(c.minus(a)) != Vec3::zero(),
    ensures
        in_triangle(a, b, c, a),
        in_triangle(a, b, c, b),
        in_triangle(a, b, c, c),
{
    let u = b.minus(a);
    let v = c.minus(a);
    let uv = u.cross(v);
    lemma_norm2_zero(uv);
    lemma_norm2_nonneg(uv);
    lemma_cross_swap(u, v);
    lemma_neg_norm2(uv);
    lemma_cross_self(u);
    lemma_cross_self(v);
    let z = Vec3::zero();
    // the corner a: w is zero
    assert(a.minus(a) == z);
    assert(v.cross(z) == z && u.cross(z) == z) by {
        assert(v.y * 0 - v.z * 0 == 0 && v.z * 0 - v.x * 0 == 0 && v.x * 0 - v.y * 0 == 0);
        assert(u.y * 0 - u.z * 0 == 0 && u.z * 0 - u.x * 0 == 0 && u.x * 0 - u.y * 0 == 0);
    }
    lemma_dot_zero(v.cross(u));
    lemma_dot_zero(uv);
    assert(z.norm2() == 0);
    let n = uv.norm2();
    assert(4 * 0 * 0 <= n * n) by (nonlinear_arith);
    assert(4 * n * 0 == 0 && 4 * 0 * n == 0) by (nonlinear_arith);
    assert((n - n - 0) * (n - n - 0) == 0 && (n - 0 - n) * (n - 0 - n) == 0) by (nonlinear_arith);
    assert(in_triangle(a, b, c, a));
    // the corner b: w is u
    assert(v.cross(u).dot(v.cross(u)) == v.cross(u).norm2());
    lemma_norm2_nonneg(v.cross(u));
    assert(in_triangle(a, b, c, b));
    // the corner c: w is v
    assert(uv.dot(uv) == uv.norm2());
    assert(in_triangle(a, b, c, c));
}

/// The dot product of the zero vector with any vector is zero.
proof fn lemma_dot_zero(v: Vec3)
    ensures
        Vec3::zero().dot(v) == 0,
{
}

/// The angle from a direction to itself over a full turn is the angle over
/// half a turn that was given, whatever the reference direction.
pub proof fn lemma_angle_to_itself(angle: int, v: Vec3, direct: Vec3)
    ensures
        full_turn_angle(angle, v, v, direct) == angle,
{
    lemma_cross_self(v);
    lemma_dot_zero(direct);
}

/// An angle over a full turn lies between nothing and a full turn, and
/// reaches a full turn only from exactly half a turn.
pub proof fn lemma_angle_in_full_turn(angle: int, a: Vec3, b: Vec3, direct: Vec3)
    requires
        0 <= angle <= HALF_TURN,
    ensures
        0 <= full_turn_angle(angle, a, b, direct) <= 2 * HALF_TURN,
        angle < HALF_TURN ==> full_turn_angle(angle, a, b, direct) < 2 * HALF_TURN,
{
}

} // verus!
