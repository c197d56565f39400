//! Intersection of a segment with a plane and with a quad, and of two quads.

use crate::arith::{abs, div_round, div_round_exec, lemma_div_round_bound, lemma_div_round_exact,
    sum_of_products_is_nonneg};
use crate::vector::{lemma_cross_perpendicular, lemma_dot_minus, lemma_dot_plus, lemma_dot_swap,
    lemma_dot_times, lemma_dot_within, lemma_norm2_nonneg, lemma_product_within, lemma_rounded_dot, Point3, Vec3,
    Vector3, AREA, LIMIT, SPAN};
use vstd::prelude::*;

verus! {

/// The bound below which the dot product of a unit normal and a displacement
/// counts as zero: a hundred-millionth, in units of `SCALE * SCALE`.
pub const SMALL_NUM: i128 = 10_000;

/// The same bound for the dot product of a cross product of two displacements
/// and a third displacement, in units of `SCALE * SCALE * SCALE`.
pub const SMALL_VOLUME: i128 = 10_000_000_000;

/// How a segment meets a plane.
#[derive(Clone, Copy, Debug, PartialEq, Eq, Structural)]
pub enum SegmentPlaneIntersect {
    /// The line through the segment crosses the plane outside the segment.
    NoIntersection,
    /// The segment runs along the plane at a distance.
    Parallel,
    /// The segment lies in the plane.
    LiesIn,
    /// The segment crosses the plane at this point.
    Intersection(Point3),
}

/// The model of `SegmentPlaneIntersect`.
pub enum PlaneHit {
    NoIntersection,
    Parallel,
    LiesIn,
    Intersection(Vec3),
}

impl View for SegmentPlaneIntersect {
    type V = PlaneHit;

    open spec fn view(&self) -> PlaneHit {
        match *self {
            SegmentPlaneIntersect::NoIntersection => PlaneHit::NoIntersection,
            SegmentPlaneIntersect::Parallel => PlaneHit::Parallel,
            SegmentPlaneIntersect::LiesIn => PlaneHit::LiesIn,
            SegmentPlaneIntersect::Intersection(p) => PlaneHit::Intersection(p@),
        }
    }
}

/// The point `p0 + (n / d) * u`, rounded component by component, for a
/// divisor of either sign.
pub open spec fn point_along(p0: Vec3, u: Vec3, n: int, d: int) -> Vec3 {
    if d > 0 {
        p0.plus(u.times(n).over(d))
    } else {
        p0.plus(u.times(-n).over(-d))
    }
}

/// How the segment from `p0` to `p1` meets the plane through `on_plane` with
/// normal `norm`.
///
/// With `u = p1 - p0`, `w = p0 - on_plane`, `d = norm . u` and
/// `n = -(norm . w)`: where `|d|` is below `SMALL_NUM` the segment lies in the
/// plane if `n` is zero and runs parallel to it otherwise. Elsewhere the line
/// crosses the plane at the parameter `n / d`, which is on the segment if it
/// is at least 0 and at most 1.
pub open spec fn segment_plane(p0: Vec3, p1: Vec3, on_plane: Vec3, norm: Vec3) -> PlaneHit {
    let u = p1.minus(p0);
    let w = p0.minus(on_plane);
    let d = norm.dot(u);
    let n = -norm.dot(w);
    if abs(d) < SMALL_NUM {
        if n == 0 {
            PlaneHit::LiesIn
        } else {
            PlaneHit::Parallel
        }
    } else if (d > 0 && (n < 0 || n > d)) || (d < 0 && (n > 0 || n < d)) {
        PlaneHit::NoIntersection
    } else {
        PlaneHit::Intersection(point_along(p0, u, n, d))
    }
}

/// `b` lies between `a` and `c`, whichever of the two is larger.
pub open spec fn is_between(a: int, b: int, c: int) -> bool {
    (a <= b <= c) || (c <= b <= a)
}

/// The point `p` lies in the box that the points `a` and `c` span.
pub open spec fn in_box(a: Vec3, p: Vec3, c: Vec3) -> bool {
    is_between(a.x, p.x, c.x) && is_between(a.y, p.y, c.y) && is_between(a.z, p.z, c.z)
}

/// One coordinate of `point_along`, which stays between the two ends.
fn coordinate_along(c0: i64, c: i128, n: i128, d: i128) -> (r: i64)
    requires
        -LIMIT <= c0 <= LIMIT,
        -LIMIT <= c0 + c <= LIMIT,
        0 <= n <= d,
        0 < d <= 3 * LIMIT * SPAN,
    ensures
        r == c0 + div_round(c * n, d as int),
        is_between(c0 as int, r as int, c0 + c),
{
    proof {
        assert(3 * LIMIT * SPAN == 1_500_000_000_000_000_000) by (nonlinear_arith)
            requires
                LIMIT == 500_000_000,
                SPAN == 1_000_000_000,
        ;
        lemma_product_within(c as int, n as int, abs(c as int), d as int);
        lemma_product_within(c as int, n as int, SPAN as int, 3 * LIMIT * SPAN);
        assert(SPAN * (3 * LIMIT * SPAN) == 1_500_000_000_000_000_000_000_000_000)
            by (nonlinear_arith)
            requires
                LIMIT == 500_000_000,
                SPAN == 1_000_000_000,
        ;
        lemma_div_round_bound(c * n, d as int, abs(c as int));
        lemma_round_keeps_sign(c * n, d as int);
        assert(c >= 0 ==> c * n >= 0) by (nonlinear_arith)
            requires
                n >= 0,
        ;
        assert(c <= 0 ==> c * n <= 0) by (nonlinear_arith)
            requires
                n >= 0,
        ;
    }
    let q: i128 = div_round_exec(c * n, d);
    (c0 as i128 + q) as i64
}

/// A rounded quotient by a positive divisor has the sign of the numerator, or
/// is zero.
proof fn lemma_round_keeps_sign(n: int, d: int)
    requires
        d > 0,
    ensures
        n >= 0 ==> div_round(n, d) >= 0,
        n <= 0 ==> div_round(n, d) <= 0,
{
    if n == 0 {
        lemma_div_round_exact(0, d);
    } else if n > 0 {
        assert((2 * n + d) / (2 * d) >= 0) by (nonlinear_arith)
            requires
                n >= 0,
                d > 0,
        ;
    } else {
        assert((2 * (-n) + d) / (2 * d) >= 0) by (nonlinear_arith)
            requires
                n < 0,
                d > 0,
        ;
    }
}

/// Intersects a segment with a plane given by a point and a normal.
///
/// The point of an intersection is rounded to the nearest coordinates; it
/// lies between the two ends on every axis.
pub fn intersect_of_segment_and_plane(
    p0: Point3,
    p1: Point3,
    pt_on_plane: Point3,
    norm: Vector3,
) -> (r: SegmentPlaneIntersect)
    requires
        p0.in_range(),
        p1.in_range(),
        pt_on_plane.in_range(),
        norm.in_range(),
    ensures
        r@ == segment_plane(p0@, p1@, pt_on_plane@, norm@),
        r matches SegmentPlaneIntersect::Intersection(p) ==> p.in_range() && in_box(p0@, p@, p1@),
{
    let u = p1.minus(&p0);
    let w = p0.minus(&pt_on_plane);
    let normal = norm.widen();
    proof {
        lemma_dot_within(normal@, u@, LIMIT as int, SPAN as int);
        lemma_dot_within(normal@, w@, LIMIT as int, SPAN as int);
        assert(3 * (LIMIT * SPAN) == 3 * LIMIT * SPAN) by (nonlinear_arith);
    }
    let d: i128 = normal.dot(&u);
    let n: i128 = -normal.dot(&w);
    if -SMALL_NUM < d && d < SMALL_NUM {
        if n == 0 {
            return SegmentPlaneIntersect::LiesIn;
        }
        return SegmentPlaneIntersect::Parallel;
    }
    if (d > 0 && (n < 0 || n > d)) || (d < 0 && (n > 0 || n < d)) {
        return SegmentPlaneIntersect::NoIntersection;
    }
    let (num, den) = if d > 0 {
        (n, d)
    } else {
        (-n, -d)
    };
    proof {
        assert(u.x * num == u@.times(num as int).x);
    }
    SegmentPlaneIntersect::Intersection(
        Point3 {
            x: coordinate_along(p0.x, u.x, num, den),
            y: coordinate_along(p0.y, u.y, num, den),
            z: coordinate_along(p0.z, u.z, num, den),
        },
    )
}

/// `0 <= p + q * (tn / nd) <= l`, decided without division for a divisor of
/// either sign.
pub open spec fn within_edge(p: int, q: int, tn: int, nd: int, l: int) -> bool {
    if nd > 0 {
        0 <= p * nd + q * tn <= l * nd
    } else {
        l * nd <= p * nd + q * tn <= 0
    }
}

/// The line through `r1` and `r2` meets the parallelogram spanned at `s1` by
/// the edges to `s2` and `s3`.
///
/// With `n = (s2 - s1) x (s3 - s1)` and `dr = r1 - r2`, the line is parallel
/// to the plane where `|n . dr|` is below `SMALL_VOLUME`. Elsewhere it meets
/// the plane at `m = r1 + dr * t`, with `t = -(n . (r1 - s1)) / (n . dr)`, and
/// `m` is in the parallelogram if `(m - s1) . e` is at least 0 and at most
/// `e . e` for both edges `e`.
pub open spec fn segment_hits_quad(r1: Vec3, r2: Vec3, s1: Vec3, s2: Vec3, s3: Vec3) -> bool {
    let ds21 = s2.minus(s1);
    let ds31 = s3.minus(s1);
    let n = ds21.cross(ds31);
    let dr = r1.minus(r2);
    let nd = n.dot(dr);
    let tn = -n.dot(r1.minus(s1));
    &&& abs(nd) >= SMALL_VOLUME
    &&& within_edge(r1.minus(s1).dot(ds21), dr.dot(ds21), tn, nd, ds21.dot(ds21))
    &&& within_edge(r1.minus(s1).dot(ds31), dr.dot(ds31), tn, nd, ds31.dot(ds31))
}

/// Decides `within_edge`.
fn is_within_edge(p: i128, q: i128, tn: i128, nd: i128, l: i128) -> (r: bool)
    requires
        nd != 0,
        -3 * SPAN * SPAN <= p <= 3 * SPAN * SPAN,
        -3 * SPAN * SPAN <= q <= 3 * SPAN * SPAN,
        -3 * SPAN * SPAN <= l <= 3 * SPAN * SPAN,
        tn > i128::MIN,
        nd > i128::MIN,
    ensures
        r == within_edge(p as int, q as int, tn as int, nd as int, l as int),
{
    proof {
        assert(3 * SPAN * SPAN == 3_000_000_000_000_000_000) by (nonlinear_arith)
            requires
                SPAN == 1_000_000_000,
        ;
        assert((-p) * nd + (-q) * tn == -(p * nd + q * tn)) by (nonlinear_arith);
        assert((l - p) * nd + (-q) * tn == l * nd - (p * nd + q * tn)) by (nonlinear_arith);
        assert((p - l) * nd + q * tn == (p * nd + q * tn) - l * nd) by (nonlinear_arith);
    }
    if nd > 0 {
        sum_of_products_is_nonneg(p, nd, q, tn) && sum_of_products_is_nonneg(l - p, nd, -q, tn)
    } else {
        sum_of_products_is_nonneg(-p, nd, -q, tn) && sum_of_products_is_nonneg(p - l, nd, q, tn)
    }
}

/// Whether the line through a segment meets a quad.
///
/// The first three corners of the quad give its plane and its two edges; the
/// quad is taken for the parallelogram that these span. The line is not cut
/// off at the ends of the segment.
pub fn is_segment_and_quad_intersect(p0: Point3, p1: Point3, quad: &Vec<Point3>) -> (r: bool)
    requires
        p0.in_range(),
        p1.in_range(),
        quad.len() >= 3,
        quad[0].in_range(),
        quad[1].in_range(),
        quad[2].in_range(),
    ensures
        r == segment_hits_quad(p0@, p1@, quad[0]@, quad[1]@, quad[2]@),
{
    let r1 = p0;
    let r2 = p1;
    let s1 = quad[0];
    let s2 = quad[1];
    let s3 = quad[2];
    let ds21 = s2.minus(&s1);
    let ds31 = s3.minus(&s1);
    let n = ds21.cross(&ds31);
    let dr = r1.minus(&r2);
    let ndotdr: i128 = n.dot(&dr);
    if -SMALL_VOLUME < ndotdr && ndotdr < SMALL_VOLUME {
        return false;
    }
    let from_corner = r1.minus(&s1);
    proof {
        lemma_dot_within(from_corner@, ds21@, SPAN as int, SPAN as int);
        lemma_dot_within(from_corner@, ds31@, SPAN as int, SPAN as int);
        lemma_dot_within(dr@, ds21@, SPAN as int, SPAN as int);
        lemma_dot_within(dr@, ds31@, SPAN as int, SPAN as int);
        lemma_dot_within(ds21@, ds21@, SPAN as int, SPAN as int);
        lemma_dot_within(ds31@, ds31@, SPAN as int, SPAN as int);
        assert(3 * (SPAN * SPAN) == 3 * SPAN * SPAN) by (nonlinear_arith);
        assert(3 * AREA * AREA == 12_000_000_000_000_000_000_000_000_000_000_000_000)
            by (nonlinear_arith)
            requires
                AREA == 2_000_000_000_000_000_000,
        ;
    }
    let tn: i128 = -n.dot(&from_corner);
    is_within_edge(from_corner.dot(&ds21), dr.dot(&ds21), tn, ndotdr, ds21.dot(&ds21))
        && is_within_edge(from_corner.dot(&ds31), dr.dot(&ds31), tn, ndotdr, ds31.dot(&ds31))
}

/// The line through edge `i` of a polygon, from corner `i` to the next corner
/// around, meets the quad.
pub open spec fn edge_hits_quad(poly: Seq<Point3>, i: int, quad: Seq<Point3>) -> bool {
    segment_hits_quad(
        poly[i]@,
        poly[(i + 1) % (poly.len() as int)]@,
        quad[0]@,
        quad[1]@,
        quad[2]@,
    )
}

/// Some edge of the polygon meets the quad.
pub open spec fn any_edge_hits_quad(poly: Seq<Point3>, quad: Seq<Point3>) -> bool {
    exists|i: int| 0 <= i < poly.len() && edge_hits_quad(poly, i, quad)
}

/// Some edge of one quad meets the other.
pub open spec fn quads_intersect(first: Seq<Point3>, second: Seq<Point3>) -> bool {
    any_edge_hits_quad(second, first) || any_edge_hits_quad(first, second)
}

/// Every point of the sequence is within the accepted range.
pub open spec fn all_in_range(points: Seq<Point3>) -> bool {
    forall|i: int| 0 <= i < points.len() ==> (#[trigger] points[i]).in_range()
}

/// Decides `any_edge_hits_quad`.
fn does_any_edge_hit(poly: &Vec<Point3>, quad: &Vec<Point3>) -> (r: bool)
    requires
        all_in_range(poly@),
        all_in_range(quad@),
        poly.len() > 0 ==> quad.len() >= 3,
    ensures
        r == any_edge_hits_quad(poly@, quad@),
{
    if poly.len() == 0 {
        return false;
    }
    let mut i: usize = 0;
    while i < poly.len()
        invariant
            i <= poly.len(),
            all_in_range(poly@),
            all_in_range(quad@),
            quad.len() >= 3,
            forall|j: int| 0 <= j < i ==> !edge_hits_quad(poly@, j, quad@),
        decreases poly.len() - i,
    {
        let next: usize = if i + 1 == poly.len() {
            0
        } else {
            i + 1
        };
        assert(next == (i + 1) % (poly.len() as int)) by {
            if i + 1 == poly.len() {
                vstd::arithmetic::div_mod::lemma_mod_self_0(poly.len() as int);
            } else {
                vstd::arithmetic::div_mod::lemma_small_mod((i + 1) as nat, poly.len() as nat);
            }
        }
        if is_segment_and_quad_intersect(poly[i], poly[next], quad) {
            assert(edge_hits_quad(poly@, i as int, quad@));
            return true;
        }
        i = i + 1;
    }
    false
}

/// Whether two quads intersect: whether the line through some edge of one
/// meets the other. A quad that lies wholly inside the other, with no edge
/// crossing its plane inside it, is not found.
pub fn is_two_quads_intersect(first_quad: &Vec<Point3>, second_quad: &Vec<Point3>) -> (r: bool)
    requires
        all_in_range(first_quad@),
        all_in_range(second_quad@),
        second_quad.len() > 0 ==> first_quad.len() >= 3,
        first_quad.len() > 0 ==> second_quad.len() >= 3,
    ensures
        r == quads_intersect(first_quad@, second_quad@),
{
    does_any_edge_hit(second_quad, first_quad) || does_any_edge_hit(first_quad, second_quad)
}

/// The point at which a segment is found to cross a plane lies in the plane,
/// up to half a coordinate unit per axis of the normal:
/// `2 * |norm . (p - on_plane)| <= |norm.x| + |norm.y| + |norm.z|`.
pub proof fn lemma_intersection_in_plane(p0: Vec3, p1: Vec3, on_plane: Vec3, norm: Vec3)
    requires
        segment_plane(p0, p1, on_plane, norm) is Intersection,
    ensures
        2 * abs(norm.dot(segment_plane(p0, p1, on_plane, norm)->Intersection_0.minus(on_plane)))
            <= norm.norm1(),
{
    let u = p1.minus(p0);
    let w = p0.minus(on_plane);
    let d = norm.dot(u);
    let n = -norm.dot(w);
    let p = point_along(p0, u, n, d);
    let (num, den) = if d > 0 {
        (n, d)
    } else {
        (-n, -d)
    };
    let q = u.times(num).over(den);
    assert(p == p0.plus(q));
    assert(p.minus(on_plane) == w.plus(q));
    lemma_dot_plus(norm, w, q);
    lemma_dot_swap(norm, q);
    lemma_rounded_dot(u.times(num), den, norm);
    lemma_dot_swap(u.times(num), norm);
    lemma_dot_times(norm, u, num);
    let t = norm.dot(w.plus(q));
    // den * t == den * (norm . w) + den * (q . norm), and num * d == -den * (norm . w)
    assert(den * t - (den * q.dot(norm) - num * d) == 0) by (nonlinear_arith)
        requires
            t == -n + q.dot(norm),
            (num == n && den == d) || (num == -n && den == -d),
    ;
    assert(2 * abs(t) <= norm.norm1()) by (nonlinear_arith)
        requires
            den > 0,
            2 * abs(den * t) <= den * norm.norm1(),
            abs(den * t) == if den * t < 0 {
                -(den * t)
            } else {
                den * t
            },
            abs(t) == if t < 0 {
                -t
            } else {
                t
            },
    ;
}

/// The four corners lie in one plane: the fourth is in the plane of the
/// first three.
pub open spec fn is_flat(q: Seq<Point3>) -> bool {
    q[1]@.minus(q[0]@).cross(q[2]@.minus(q[0]@)).dot(q[3]@.minus(q[0]@)) == 0
}

/// A quad that lies in one plane does not intersect itself: each of its edges
/// runs in the plane and so is parallel to it.
pub proof fn lemma_flat_quad_misses_itself(q: Seq<Point3>)
    requires
        q.len() == 4,
        is_flat(q),
    ensures
        !quads_intersect(q, q),
{
    let o = q[0]@;
    let n = q[1]@.minus(o).cross(q[2]@.minus(o));
    lemma_cross_perpendicular(q[1]@.minus(o), q[2]@.minus(o));
    lemma_dot_swap(n, q[1]@.minus(o));
    lemma_dot_swap(n, q[2]@.minus(o));
    lemma_dot_minus(n, o, o);
    assert(o.minus(o) == Vec3::zero());
    assert forall|i: int| 0 <= i < 4 implies !edge_hits_quad(q, i, q) by {
        let j = (i + 1) % 4;
        assert(0 <= j < 4);
        lemma_dot_minus(n, q[i]@, q[j]@);
        lemma_dot_minus(n, q[i]@, o);
        lemma_dot_minus(n, q[j]@, o);
        assert(n.dot(q[i]@.minus(o)) == 0);
        assert(n.dot(q[j]@.minus(o)) == 0);
        assert(n.dot(q[i]@.minus(q[j]@)) == 0);
    }
}

/// A quad whose fourth corner is off the plane of the first three intersects
/// itself, provided its third corner projects onto the first edge: the edge
/// from the third to the fourth corner then leaves the plane at the third
/// corner, inside the parallelogram.
pub proof fn lemma_bent_quad_meets_itself(q: Seq<Point3>)
    requires
        q.len() == 4,
        abs(q[1]@.minus(q[0]@).cross(q[2]@.minus(q[0]@)).dot(q[3]@.minus(q[0]@))) >= SMALL_VOLUME,
        0 <= q[2]@.minus(q[0]@).dot(q[1]@.minus(q[0]@)) <= q[1]@.minus(q[0]@).dot(
            q[1]@.minus(q[0]@),
        ),
    ensures
        quads_intersect(q, q),
{
    let o = q[0]@;
    let ds21 = q[1]@.minus(o);
    let ds31 = q[2]@.minus(o);
    let n = ds21.cross(ds31);
    let dr = q[2]@.minus(q[3]@);
    lemma_cross_perpendicular(ds21, ds31);
    lemma_dot_swap(n, ds31);
    lemma_dot_minus(n, q[2]@, q[3]@);
    lemma_dot_minus(n, q[2]@, o);
    lemma_dot_minus(n, q[3]@, o);
    let nd = n.dot(dr);
    assert(nd == -n.dot(q[3]@.minus(o)));
    let tn = -n.dot(ds31);
    assert(tn == 0);
    vstd::arithmetic::div_mod::lemma_small_mod(3, 4);
    let pu = ds31.dot(ds21);
    let lu = ds21.dot(ds21);
    let lv = ds31.dot(ds31);
    assert(within_edge(pu, dr.dot(ds21), 0, nd, lu)) by (nonlinear_arith)
        requires
            0 <= pu <= lu,
            nd != 0,
    ;
    vstd::arithmetic::mul::lemma_mul_basics(dr.dot(ds31));
    lemma_norm2_nonneg(ds31);
    assert(within_edge(lv, dr.dot(ds31), 0, nd, lv)) by (nonlinear_arith)
        requires
            0 <= lv,
            nd != 0,
    ;
    assert(edge_hits_quad(q, 2, q));
}

} // verus!
