//! The oriented quad that a deformation brush sweeps, and what holds of its
//! corners.

use crate::arith::{abs, div_round, div_round_exec, lemma_div_round_bound, lemma_div_round_error};
use crate::perpendicular::{along_world_x, lemma_world_perp_components, world_perp, world_perp_of,
    COS_45, COS_45_WIDE};
use crate::primitives::lemma_unit_keeps_perpendicular;
use crate::vector::{lemma_cross_long, lemma_cross_perpendicular, lemma_dot_swap, lemma_neg_norm2,
    lemma_unit_neg,
    lemma_norm2_zero, lemma_product_within, lemma_unit_length, lemma_unit_within, Point3, Vec3, Vector3, LIMIT,
    SCALE};
use vstd::prelude::*;

verus! {

/// The multiple of a fixed-point vector by a fixed-point number.
pub open spec fn scaled(v: Vec3, k: int) -> Vec3 {
    v.times(k).over(SCALE as int)
}

/// The base normal of a quad at unit length, turned so that it does not
/// oppose the direction.
pub open spec fn oriented_base(direct: Vec3, base_norm: Vec3) -> Vec3 {
    if direct.dot(base_norm) > 0 {
        base_norm.unit()
    } else {
        base_norm.unit().neg()
    }
}

/// The vector that the unit direction `dn` is crossed with to span a quad:
/// the oriented base normal, or a perpendicular of it where the two are within
/// 45 degrees of each other.
pub open spec fn quad_partner(dn: Vec3, oriented: Vec3) -> Vec3 {
    if abs(dn.dot(oriented)) > COS_45_WIDE {
        world_perp_of(oriented)
    } else {
        oriented
    }
}

/// The two unit vectors that span a quad across `direct`, or none where the
/// direction or the base normal is zero.
pub open spec fn quad_basis(direct: Vec3, base_norm: Vec3) -> Option<(Vec3, Vec3)> {
    if direct == Vec3::zero() || base_norm == Vec3::zero() {
        None
    } else {
        let dn = direct.unit();
        let u = dn.cross(quad_partner(dn, oriented_base(direct, base_norm)));
        Some((u.unit(), u.unit().cross(dn).unit()))
    }
}

/// The centre of a quad: the position moved along the direction by the radius.
pub open spec fn quad_origin(position: Vec3, direct: Vec3, radius: int) -> Vec3 {
    position.plus(scaled(direct, radius))
}

/// The four corners around `o` with half-extents `u` and `v`, in winding order.
pub open spec fn corners_around(o: Vec3, u: Vec3, v: Vec3) -> Seq<Vec3> {
    seq![
        o.minus(u).minus(v),
        o.plus(u).minus(v),
        o.plus(u).plus(v),
        o.minus(u).plus(v),
    ]
}

/// The four corners of the quad of half-extent `radius` centred at
/// `position + direct * radius` and facing along `direct`. Where the direction
/// or the base normal is zero, no coordinate of any corner has a value.
pub open spec fn quad_corners(position: Vec3, direct: Vec3, radius: int, base_norm: Vec3) -> Seq<
    Vec3,
> {
    match quad_basis(direct, base_norm) {
        None => seq![Vec3::undefined(), Vec3::undefined(), Vec3::undefined(), Vec3::undefined()],
        Some(b) => corners_around(
            quad_origin(position, direct, radius),
            scaled(b.0, radius),
            scaled(b.1, radius),
        ),
    }
}

/// Computes `quad_basis`.
fn basis_of(direct: &Vector3, base_norm: &Vector3) -> (r: Option<(Vector3, Vector3)>)
    requires
        direct.in_range(),
        base_norm.in_range(),
    ensures
        match r {
            Some(b) => quad_basis(direct@, base_norm@) == Some((b.0@, b.1@)) && b.0@.within(
                SCALE as int,
            ) && b.1@.within(SCALE as int),
            None => quad_basis(direct@, base_norm@) is None,
        },
{
    let d = direct.widen();
    let b = base_norm.widen();
    if d.is_zero() || b.is_zero() {
        return None;
    }
    let dn = d.unit().widen();
    let bn = b.unit();
    let oriented = if d.dot(&b) > 0 {
        bn
    } else {
        Vector3 { x: -bn.x, y: -bn.y, z: -bn.z }
    };
    let along: i128 = dn.dot(&oriented.widen());
    let partner = if along > COS_45_WIDE || along < -COS_45_WIDE {
        world_perp(oriented)
    } else {
        oriented
    };
    proof {
        lemma_quad_spans_are_long(direct@, base_norm@);
        lemma_norm2_zero(dn@.cross(partner@));
        lemma_norm2_zero(dn@.cross(partner@).unit().cross(dn@));
    }
    let uu = dn.cross(&partner.widen()).unit();
    let v = uu.widen().cross(&dn);
    Some((uu, v.unit()))
}

/// Computes one component of `scaled`.
fn scaled_component(c: i64, k: i64) -> (r: i128)
    requires
        -LIMIT <= c <= LIMIT,
        -LIMIT <= k <= LIMIT,
    ensures
        r == div_round(c * k, SCALE as int),
        -250_000_000_000 <= r <= 250_000_000_000,
        -SCALE <= c <= SCALE ==> -LIMIT <= r <= LIMIT,
{
    proof {
        lemma_product_within(c as int, k as int, LIMIT as int, LIMIT as int);
        assert(LIMIT * LIMIT == 250_000_000_000 * SCALE) by (nonlinear_arith)
            requires
                LIMIT == 500_000_000,
                SCALE == 1_000_000,
        ;
        lemma_div_round_bound(c * k, SCALE as int, 250_000_000_000);
        if -SCALE <= c <= SCALE {
            lemma_product_within(c as int, k as int, SCALE as int, LIMIT as int);
            assert(SCALE * LIMIT == LIMIT * SCALE) by (nonlinear_arith);
            lemma_div_round_bound(c * k, SCALE as int, LIMIT as int);
        }
    }
    div_round_exec(c as i128 * k as i128, SCALE as i128)
}

/// Builds the quad that a deformation brush of half-extent `radius` sweeps:
/// four corners in one plane across `direct`, centred at
/// `position + direct * radius`.
///
/// The direction and the base normal are brought to unit length, and the base
/// normal is turned so that it does not oppose the direction. The first
/// half-extent is the cross product of the direction with the base normal, or
/// with a perpendicular of the base normal where the two are within 45
/// degrees; the second is the cross product of the first with the direction.
/// Both are brought to length `radius`. The corners are, in order, the centre
/// minus both, plus the first minus the second, plus both, minus the first
/// plus the second.
pub fn make_quad(position: Point3, direct: Vector3, radius: i64, base_norm: Vector3) -> (q: Vec<
    Point3,
>)
    requires
        position.in_range(),
        direct.in_range(),
        base_norm.in_range(),
        -LIMIT <= radius <= LIMIT,
    ensures
        q.len() == 4,
        forall|i: int|
            0 <= i < 4 ==> (#[trigger] q[i])@ == quad_corners(
                position@,
                direct@,
                radius as int,
                base_norm@,
            )[i],
        direct@ != Vec3::zero() && base_norm@ != Vec3::zero() ==> forall|i: int|
            0 <= i < 4 ==> (#[trigger] q[i])@.defined(),
{
    let mut q: Vec<Point3> = Vec::new();
    match basis_of(&direct, &base_norm) {
        None => {
            q.push(Point3::undefined());
            q.push(Point3::undefined());
            q.push(Point3::undefined());
            q.push(Point3::undefined());
        },
        Some(b) => {
            let ox: i128 = position.x as i128 + scaled_component(direct.x, radius);
            let oy: i128 = position.y as i128 + scaled_component(direct.y, radius);
            let oz: i128 = position.z as i128 + scaled_component(direct.z, radius);
            let ux: i128 = scaled_component(b.0.x, radius);
            let uy: i128 = scaled_component(b.0.y, radius);
            let uz: i128 = scaled_component(b.0.z, radius);
            let vx: i128 = scaled_component(b.1.x, radius);
            let vy: i128 = scaled_component(b.1.y, radius);
            let vz: i128 = scaled_component(b.1.z, radius);
            q.push(
                Point3 {
                    x: (ox - ux - vx) as i64,
                    y: (oy - uy - vy) as i64,
                    z: (oz - uz - vz) as i64,
                },
            );
            q.push(
                Point3 {
                    x: (ox + ux - vx) as i64,
                    y: (oy + uy - vy) as i64,
                    z: (oz + uz - vz) as i64,
                },
            );
            q.push(
                Point3 {
                    x: (ox + ux + vx) as i64,
                    y: (oy + uy + vy) as i64,
                    z: (oz + uz + vz) as i64,
                },
            );
            q.push(
                Point3 {
                    x: (ox - ux + vx) as i64,
                    y: (oy - uy + vy) as i64,
                    z: (oz - uz + vz) as i64,
                },
            );
        },
    }
    q
}

/// The corners of a quad whose direction and base normal are not zero add up to four times its centre,
/// so that the centre is their centroid; opposite corners lie opposite each
/// other through the centre; and opposite edges are equal, so that the quad
/// is a parallelogram and lies in one plane.
pub proof fn lemma_quad_centroid(position: Vec3, direct: Vec3, radius: int, base_norm: Vec3)
    requires
        direct != Vec3::zero(),
        base_norm != Vec3::zero(),
    ensures
        ({
            let q = quad_corners(position, direct, radius, base_norm);
            let o = quad_origin(position, direct, radius);
            &&& q.len() == 4
            &&& q[0].plus(q[1]).plus(q[2]).plus(q[3]) == o.times(4)
            &&& q[2].minus(o) == q[0].minus(o).neg()
            &&& q[3].minus(o) == q[1].minus(o).neg()
            &&& q[2].minus(o).norm2() == q[0].minus(o).norm2()
            &&& q[3].minus(o).norm2() == q[1].minus(o).norm2()
            &&& q[1].minus(q[0]) == q[2].minus(q[3])
            &&& q[3].minus(q[0]) == q[2].minus(q[1])
        }),
{
    lemma_quad_spans_are_long(direct, base_norm);
    let q = quad_corners(position, direct, radius, base_norm);
    let o = quad_origin(position, direct, radius);
    lemma_neg_norm2(q[0].minus(o));
    lemma_neg_norm2(q[1].minus(o));
}

/// The two unit vectors that span a quad whose direction and base normal are
/// not zero are perpendicular to its unit
/// direction and to each other, up to half a coordinate unit per axis.
pub proof fn lemma_quad_basis_perpendicular(direct: Vec3, base_norm: Vec3)
    requires
        direct != Vec3::zero(),
        base_norm != Vec3::zero(),
    ensures
        ({
            let b = quad_basis(direct, base_norm)->Some_0;
            let dn = direct.unit();
            &&& 2 * abs(b.0.dot(dn)) <= dn.norm1()
            &&& 2 * abs(b.1.dot(dn)) <= dn.norm1()
            &&& 2 * abs(b.1.dot(b.0)) <= b.0.norm1()
        }),
{
    lemma_quad_spans_are_long(direct, base_norm);
    let dn = direct.unit();
    let partner = quad_partner(dn, oriented_base(direct, base_norm));
    let u = dn.cross(partner);
    let v = u.unit().cross(dn);
    lemma_cross_perpendicular(dn, partner);
    lemma_cross_perpendicular(u.unit(), dn);
    lemma_unit_keeps_perpendicular(u, dn);
    lemma_unit_keeps_perpendicular(v, dn);
    lemma_unit_keeps_perpendicular(v, u.unit());
}

/// One axis of `lemma_scaled_dot`.
proof fn lemma_scaled_axis(a: int, b: int, k: int)
    requires
        -SCALE <= a <= SCALE,
        -SCALE <= b <= SCALE,
    ensures
        4 * abs(
            (SCALE * SCALE) * (div_round(a * k, SCALE as int) * div_round(b * k, SCALE as int))
                - (k * k) * (a * b),
        ) <= 4 * abs(k) * (SCALE * SCALE) + SCALE * SCALE,
{
    let s = SCALE as int;
    let x = a * k;
    let y = b * k;
    let ra = div_round(x, s);
    let rb = div_round(y, s);
    let e = ra * s - x;
    let h = rb * s - y;
    lemma_div_round_error(x, s);
    lemma_div_round_error(y, s);
    lemma_product_within(a, k, s, abs(k));
    lemma_product_within(b, k, s, abs(k));
    let bound = s * abs(k);
    // each of the three error terms, doubled or quadrupled to stay whole
    lemma_product_within(x, 2 * h, bound, s);
    lemma_product_within(y, 2 * e, bound, s);
    lemma_product_within(2 * e, 2 * h, s, s);
    assert(x * (2 * h) == 2 * (x * h) && y * (2 * e) == 2 * (y * e) && (2 * e) * (2 * h) == 4
        * (e * h)) by (nonlinear_arith);
    let sa = ra * s;
    let sb = rb * s;
    assert(sa * sb == x * y + x * h + y * e + e * h) by (nonlinear_arith)
        requires
            sa == x + e,
            sb == y + h,
    ;
    assert(sa * sb == (s * s) * (ra * rb)) by (nonlinear_arith)
        requires
            sa == ra * s,
            sb == rb * s,
    ;
    assert(x * y == (k * k) * (a * b)) by (nonlinear_arith)
        requires
            x == a * k,
            y == b * k,
    ;
    assert(bound * s == abs(k) * (s * s)) by (nonlinear_arith)
        requires
            bound == s * abs(k),
    ;
}

/// Scaling two fixed-point vectors by `k` scales their dot product by `k * k`,
/// up to the rounding of the components:
/// `4 * |SCALE^2 * (scaled(a, k) . scaled(b, k)) - k^2 * (a . b)|` is at most
/// `12 * |k| * SCALE^2 + 3 * SCALE^2`.
pub proof fn lemma_scaled_dot(a: Vec3, b: Vec3, k: int)
    requires
        a.within(SCALE as int),
        b.within(SCALE as int),
    ensures
        4 * abs((SCALE * SCALE) * scaled(a, k).dot(scaled(b, k)) - (k * k) * a.dot(b)) <= 12 * abs(
            k,
        ) * (SCALE * SCALE) + 3 * (SCALE * SCALE),
{
    let s2 = SCALE * SCALE;
    let kk = k * k;
    let big = scaled(a, k);
    let bigb = scaled(b, k);
    lemma_scaled_axis(a.x, b.x, k);
    lemma_scaled_axis(a.y, b.y, k);
    lemma_scaled_axis(a.z, b.z, k);
    let px = big.x * bigb.x;
    let py = big.y * bigb.y;
    let pz = big.z * bigb.z;
    let qx = a.x * b.x;
    let qy = a.y * b.y;
    let qz = a.z * b.z;
    assert(s2 * (px + py + pz) == s2 * px + s2 * py + s2 * pz) by (nonlinear_arith);
    assert(kk * (qx + qy + qz) == kk * qx + kk * qy + kk * qz) by (nonlinear_arith);
    let m = abs(k) * s2;
    assert(12 * abs(k) * s2 == 12 * m && 4 * abs(k) * s2 == 4 * m) by (nonlinear_arith)
        requires
            m == abs(k) * s2,
    ;
}

/// The four corners of a quad whose direction and base normal are not zero
/// are equally far from its
/// centre, up to the rounding of its half-extents: opposite corners exactly,
/// and neighbours with squared distances `d` that obey
/// `SCALE * |d0 - d1| <= 6 * radius^2 + 12 * |radius| * SCALE + 3 * SCALE`.
pub proof fn lemma_quad_corners_equidistant(
    position: Vec3,
    direct: Vec3,
    radius: int,
    base_norm: Vec3,
)
    requires
        direct != Vec3::zero(),
        base_norm != Vec3::zero(),
    ensures
        ({
            let q = quad_corners(position, direct, radius, base_norm);
            let o = quad_origin(position, direct, radius);
            let d0 = q[0].minus(o).norm2();
            let d1 = q[1].minus(o).norm2();
            &&& q[2].minus(o).norm2() == d0
            &&& q[3].minus(o).norm2() == d1
            &&& SCALE * abs(d0 - d1) <= 6 * (radius * radius) + 12 * abs(radius) * SCALE + 3
                * SCALE
        }),
{
    lemma_quad_spans_are_long(direct, base_norm);
    let q = quad_corners(position, direct, radius, base_norm);
    let o = quad_origin(position, direct, radius);
    lemma_quad_centroid(position, direct, radius, base_norm);
    let b = quad_basis(direct, base_norm)->Some_0;
    let dn = direct.unit();
    let u0 = dn.cross(quad_partner(dn, oriented_base(direct, base_norm)));
    let v0 = u0.unit().cross(dn);
    lemma_unit_within(u0);
    lemma_unit_within(v0);
    lemma_quad_basis_perpendicular(direct, base_norm);
    let u = scaled(b.0, radius);
    let v = scaled(b.1, radius);
    lemma_scaled_dot(b.1, b.0, radius);
    let d0 = q[0].minus(o).norm2();
    let d1 = q[1].minus(o).norm2();
    assert(q[0].minus(o) == u.neg().minus(v));
    assert(q[1].minus(o) == u.minus(v));
    lemma_corner_distances(u, v);
    let s = SCALE as int;
    let t = v.dot(u);
    let w = b.1.dot(b.0);
    let rr = radius * radius;
    assert(b.0.norm1() <= 3 * s);
    assert(rr >= 0) by (nonlinear_arith)
        requires
            rr == radius * radius,
    ;
    // 4 s^2 |t| <= 4 rr |w| + 12 |r| s^2 + 3 s^2, and 2 |w| <= 3 s
    assert(s * abs(4 * t) <= 6 * rr + 12 * abs(radius) * s + 3 * s) by (nonlinear_arith)
        requires
            s > 0,
            rr >= 0,
            4 * abs((s * s) * t - rr * w) <= 12 * abs(radius) * (s * s) + 3 * (s * s),
            2 * abs(w) <= 3 * s,
            abs(w) == if w < 0 {
                -w
            } else {
                w
            },
            abs(4 * t) == if 4 * t < 0 {
                -(4 * t)
            } else {
                4 * t
            },
            abs((s * s) * t - rr * w) == if (s * s) * t - rr * w < 0 {
                -((s * s) * t - rr * w)
            } else {
                (s * s) * t - rr * w
            },
            abs(radius) >= 0,
    ;
}

/// `t^2 >= SCALE^2` for `|t| >= SCALE`, and a product of two squares is at
/// least `SCALE^2` where one factor is at least `COS_45` and the other at
/// least `SCALE` in magnitude.
proof fn lemma_long_enough(t: int, y: int, w: int)
    ensures
        abs(t) >= SCALE ==> t * t >= SCALE * SCALE,
        abs(y) >= COS_45 && w >= SCALE * SCALE ==> (y * y) * w >= SCALE * SCALE,
{
    if abs(t) >= SCALE {
        assert(t * t >= SCALE * SCALE) by (nonlinear_arith)
            requires
                t >= SCALE || -t >= SCALE,
                SCALE > 0,
        ;
    }
    if abs(y) >= COS_45 && w >= SCALE * SCALE {
        let yy = y * y;
        assert(yy >= 1) by (nonlinear_arith)
            requires
                yy == y * y,
                y >= 1 || -y >= 1,
        ;
        assert(yy * w >= SCALE * SCALE) by (nonlinear_arith)
            requires
                yy >= 1,
                w >= SCALE * SCALE,
        ;
    }
}

/// A factor of a large product of bounded factors is large: if
/// `|y b| > COS_45_WIDE - SCALE` with `|b| <= SCALE`, then `|y| >= COS_45`.
proof fn lemma_large_factor(y: int, b: int)
    requires
        abs(y * b) > COS_45_WIDE - SCALE,
        -SCALE <= b <= SCALE,
    ensures
        abs(y) >= COS_45,
{
    if abs(y) < COS_45 {
        lemma_product_within(y, b, COS_45 - 1, SCALE as int);
        assert((COS_45 - 1) * SCALE == COS_45_WIDE - SCALE) by (nonlinear_arith)
            requires
                COS_45 == 707_000,
                SCALE == 1_000_000,
                COS_45_WIDE == 707_000_000_000,
        ;
    }
}

/// The cross product of a unit direction with the perpendicular of a unit
/// vector that it is within 45 degrees of is at least `SCALE` long.
proof fn lemma_cross_with_world_perp_long(dn: Vec3, o: Vec3)
    requires
        dn.within(SCALE as int),
        o.within(SCALE as int),
        o.norm2() >= SCALE * SCALE - 3 * SCALE,
        abs(dn.dot(o)) > COS_45_WIDE,
    ensures
        dn.cross(world_perp_of(o)).norm2() >= SCALE * SCALE,
{
    lemma_world_perp_components(o);
    let p = world_perp_of(o);
    let u = dn.cross(p);
    let c45 = COS_45 as int;
    assert(c45 * c45 == 499_849_000_000) by (nonlinear_arith)
        requires
            c45 == 707_000,
    ;
    assert(SCALE * SCALE == 1_000_000_000_000) by (nonlinear_arith);
    if along_world_x(o) {
        // p = (-o.z, 0, o.x), u = (y a, -(z c + x a), y c)
        let t = dn.x * o.x + dn.z * o.z;
        let ya = dn.y * o.x;
        let yc = dn.y * o.z;
        assert(u.x == ya && u.y == -t && u.z == yc) by (nonlinear_arith)
            requires
                u.x == dn.y * o.x - dn.z * 0,
                u.y == dn.z * (-o.z) - dn.x * o.x,
                u.z == dn.x * 0 - dn.y * (-o.z),
                t == dn.x * o.x + dn.z * o.z,
                ya == dn.y * o.x,
                yc == dn.y * o.z,
        ;
        assert((-t) * (-t) == t * t) by (nonlinear_arith);
        assert(ya * ya >= 0 && yc * yc >= 0 && t * t >= 0) by (nonlinear_arith);
        lemma_long_enough(t, dn.y, o.x * o.x);
        if abs(t) < SCALE {
            lemma_large_factor(dn.y, o.y);
            let aa = o.x * o.x;
            assert(aa >= c45 * c45) by (nonlinear_arith)
                requires
                    aa == o.x * o.x,
                    o.x > c45 || -o.x > c45,
                    c45 > 0,
            ;
            let yy = dn.y * dn.y;
            assert(yy >= c45 * c45) by (nonlinear_arith)
                requires
                    yy == dn.y * dn.y,
                    dn.y >= c45 || -dn.y >= c45,
                    c45 > 0,
            ;
            assert(ya * ya == yy * aa) by (nonlinear_arith)
                requires
                    ya == dn.y * o.x,
                    yy == dn.y * dn.y,
                    aa == o.x * o.x,
            ;
            assert(yy * aa >= 499_849_000_000 * 499_849_000_000) by (nonlinear_arith)
                requires
                    yy >= 499_849_000_000,
                    aa >= 499_849_000_000,
            ;
        }
    } else {
        // p = (0, o.z, -o.y), u = (-(y b + z c), x b, x c)
        let t = dn.y * o.y + dn.z * o.z;
        let xb = dn.x * o.y;
        let xc = dn.x * o.z;
        assert(u.x == -t && u.y == xb && u.z == xc) by (nonlinear_arith)
            requires
                u.x == dn.y * (-o.y) - dn.z * o.z,
                u.y == dn.z * 0 - dn.x * (-o.y),
                u.z == dn.x * o.z - dn.y * 0,
                t == dn.y * o.y + dn.z * o.z,
                xb == dn.x * o.y,
                xc == dn.x * o.z,
        ;
        assert((-t) * (-t) == t * t) by (nonlinear_arith);
        assert(xb * xb >= 0 && xc * xc >= 0 && t * t >= 0) by (nonlinear_arith);
        lemma_long_enough(t, dn.x, o.y * o.y + o.z * o.z);
        if abs(t) < SCALE {
            lemma_large_factor(dn.x, o.x);
            let xx = dn.x * dn.x;
            let bb = o.y * o.y;
            let cc = o.z * o.z;
            let aa = o.x * o.x;
            assert(aa <= c45 * c45) by (nonlinear_arith)
                requires
                    aa == o.x * o.x,
                    -c45 <= o.x <= c45,
            ;
            assert(xx >= c45 * c45) by (nonlinear_arith)
                requires
                    xx == dn.x * dn.x,
                    dn.x >= c45 || -dn.x >= c45,
                    c45 > 0,
            ;
            assert(xb * xb + xc * xc == xx * (bb + cc)) by (nonlinear_arith)
                requires
                    xb == dn.x * o.y,
                    xc == dn.x * o.z,
                    xx == dn.x * dn.x,
                    bb == o.y * o.y,
                    cc == o.z * o.z,
            ;
            assert(xx * (bb + cc) >= 499_849_000_000 * 500_000_000_000) by (nonlinear_arith)
                requires
                    xx >= 499_849_000_000,
                    bb + cc >= 500_000_000_000,
            ;
        }
    }
}

/// The two cross products that span a quad whose direction and base normal
/// are not zero are at least `SCALE` long, so that the unit vectors made from
/// them have values, and length `SCALE` up to rounding.
pub proof fn lemma_quad_spans_are_long(direct: Vec3, base_norm: Vec3)
    requires
        direct != Vec3::zero(),
        base_norm != Vec3::zero(),
    ensures
        ({
            let dn = direct.unit();
            let u = dn.cross(quad_partner(dn, oriented_base(direct, base_norm)));
            &&& u.norm2() >= SCALE * SCALE
            &&& u.unit().cross(dn).norm2() >= SCALE * SCALE
            &&& u != Vec3::zero()
            &&& u.unit().cross(dn) != Vec3::zero()
        }),
{
    let s = SCALE as int;
    let dn = direct.unit();
    let bn = base_norm.unit();
    let o = oriented_base(direct, base_norm);
    lemma_unit_within(direct);
    lemma_unit_length(direct);
    lemma_unit_within(base_norm);
    lemma_unit_length(base_norm);
    lemma_neg_norm2(bn);
    let l = s * s - 3 * s;
    assert(l == 999_997_000_000) by (nonlinear_arith)
        requires
            l == s * s - 3 * s,
            s == 1_000_000,
    ;
    assert(l * l - COS_45_WIDE * COS_45_WIDE >= SCALE * SCALE && l * l - (2 * s) * (2 * s)
        >= SCALE * SCALE) by (nonlinear_arith)
        requires
            l == 999_997_000_000,
            s == 1_000_000,
            COS_45_WIDE == 707_000_000_000,
            SCALE == 1_000_000,
    ;
    let u = dn.cross(quad_partner(dn, o));
    if abs(dn.dot(o)) > COS_45_WIDE {
        lemma_cross_with_world_perp_long(dn, o);
    } else {
        lemma_cross_long(dn, o, l, COS_45_WIDE as int);
    }
    lemma_norm2_zero(u);
    lemma_unit_within(u);
    lemma_unit_length(u);
    lemma_cross_perpendicular(dn, quad_partner(dn, o));
    lemma_unit_keeps_perpendicular(u, dn);
    lemma_cross_long(u.unit(), dn, l, 2 * s);
    lemma_norm2_zero(u.unit().cross(dn));
}

/// The squared lengths of `-u - v` and `u - v`, written out.
proof fn lemma_corner_distances(u: Vec3, v: Vec3)
    ensures
        u.neg().minus(v).norm2() == u.norm2() + v.norm2() + 2 * v.dot(u),
        u.minus(v).norm2() == u.norm2() + v.norm2() - 2 * v.dot(u),
{
    assert((-u.x - v.x) * (-u.x - v.x) == u.x * u.x + v.x * v.x + 2 * (v.x * u.x))
        by (nonlinear_arith);
    assert((-u.y - v.y) * (-u.y - v.y) == u.y * u.y + v.y * v.y + 2 * (v.y * u.y))
        by (nonlinear_arith);
    assert((-u.z - v.z) * (-u.z - v.z) == u.z * u.z + v.z * v.z + 2 * (v.z * u.z))
        by (nonlinear_arith);
    assert((u.x - v.x) * (u.x - v.x) == u.x * u.x + v.x * v.x - 2 * (v.x * u.x))
        by (nonlinear_arith);
    assert((u.y - v.y) * (u.y - v.y) == u.y * u.y + v.y * v.y - 2 * (v.y * u.y))
        by (nonlinear_arith);
    assert((u.z - v.z) * (u.z - v.z) == u.z * u.z + v.z * v.z - 2 * (v.z * u.z))
        by (nonlinear_arith);
}

/// A unit vector scaled by `k` has squared length `k^2`, up to rounding:
/// `SCALE * | |scaled(a, k)|^2 - k^2 | <= 5 * k^2 + 3 * |k| * SCALE + SCALE`.
proof fn lemma_scaled_length(a: Vec3, k: int)
    requires
        a.within(SCALE as int),
        SCALE * SCALE - 3 * SCALE <= a.norm2() <= SCALE * SCALE + 5 * SCALE,
    ensures
        SCALE * abs(scaled(a, k).norm2() - k * k) <= 5 * (k * k) + 3 * abs(k) * SCALE + SCALE,
{
    lemma_scaled_dot(a, a, k);
    let s = SCALE as int;
    let n = a.norm2();
    let t = scaled(a, k).norm2();
    let kk = k * k;
    assert(kk >= 0) by (nonlinear_arith)
        requires
            kk == k * k,
    ;
    assert(s * abs(t - kk) <= 5 * kk + 3 * abs(k) * s + s) by (nonlinear_arith)
        requires
            s > 0,
            kk >= 0,
            abs(k) >= 0,
            4 * abs((s * s) * t - kk * n) <= 12 * abs(k) * (s * s) + 3 * (s * s),
            s * s - 3 * s <= n <= s * s + 5 * s,
            abs(t - kk) == if t - kk < 0 {
                -(t - kk)
            } else {
                t - kk
            },
            abs((s * s) * t - kk * n) == if (s * s) * t - kk * n < 0 {
                -((s * s) * t - kk * n)
            } else {
                (s * s) * t - kk * n
            },
    ;
}

/// Every corner of a quad whose direction and base normal are not zero lies
/// at the distance
/// `radius * sqrt(2)` from its centre, up to the rounding of its
/// half-extents: the squared distance `d` obeys
/// `SCALE * |d - 2 * radius^2| <= 13 * radius^2 + 12 * |radius| * SCALE + 4 * SCALE`.
pub proof fn lemma_quad_corner_distance(
    position: Vec3,
    direct: Vec3,
    radius: int,
    base_norm: Vec3,
    i: int,
)
    requires
        direct != Vec3::zero(),
        base_norm != Vec3::zero(),
        0 <= i < 4,
    ensures
        SCALE * abs(
            quad_corners(position, direct, radius, base_norm)[i].minus(
                quad_origin(position, direct, radius),
            ).norm2() - 2 * (radius * radius),
        ) <= 13 * (radius * radius) + 12 * abs(radius) * SCALE + 4 * SCALE,
{
    lemma_quad_spans_are_long(direct, base_norm);
    let q = quad_corners(position, direct, radius, base_norm);
    let o = quad_origin(position, direct, radius);
    lemma_quad_centroid(position, direct, radius, base_norm);
    lemma_quad_corners_equidistant(position, direct, radius, base_norm);
    let b = quad_basis(direct, base_norm)->Some_0;
    let dn = direct.unit();
    let u0 = dn.cross(quad_partner(dn, oriented_base(direct, base_norm)));
    let v0 = u0.unit().cross(dn);
    lemma_unit_within(u0);
    lemma_unit_within(v0);
    lemma_unit_length(u0);
    lemma_unit_length(v0);
    let u = scaled(b.0, radius);
    let v = scaled(b.1, radius);
    lemma_scaled_length(b.0, radius);
    lemma_scaled_length(b.1, radius);
    lemma_corner_distances(u, v);
    assert(q[0].minus(o) == u.neg().minus(v));
    assert(q[1].minus(o) == u.minus(v));
    let d0 = q[0].minus(o).norm2();
    let d1 = q[1].minus(o).norm2();
    let rr = radius * radius;
    let s = SCALE as int;
    let t = v.dot(u);
    assert(d0 - d1 == 4 * t);
    assert(rr >= 0) by (nonlinear_arith)
        requires
            rr == radius * radius,
    ;
}

/// A quad does not depend on the sense of the base normal it is given,
/// unless the base normal is across the direction.
pub proof fn lemma_quad_ignores_sense(position: Vec3, direct: Vec3, radius: int, base_norm: Vec3)
    requires
        direct.dot(base_norm) != 0,
    ensures
        quad_corners(position, direct, radius, base_norm.neg()) == quad_corners(
            position,
            direct,
            radius,
            base_norm,
        ),
{
    assert(direct.dot(base_norm.neg()) == -direct.dot(base_norm)) by (nonlinear_arith)
        requires
            direct.dot(base_norm.neg()) == direct.x * (-base_norm.x) + direct.y * (-base_norm.y)
                + direct.z * (-base_norm.z),
            direct.dot(base_norm) == direct.x * base_norm.x + direct.y * base_norm.y + direct.z
                * base_norm.z,
    ;
    assert(base_norm.neg() == Vec3::zero() <==> base_norm == Vec3::zero());
    if base_norm != Vec3::zero() {
        lemma_unit_neg(base_norm);
        assert(base_norm.unit().neg().neg() == base_norm.unit());
        assert(oriented_base(direct, base_norm.neg()) == oriented_base(direct, base_norm));
    }
}

/// Twice two vectors have four times their dot product.
proof fn lemma_doubled_dot(u: Vec3, v: Vec3)
    ensures
        u.times(2).dot(v.times(2)) == 4 * u.dot(v),
{
    assert((u.x * 2) * (v.x * 2) == 4 * (u.x * v.x)) by (nonlinear_arith);
    assert((u.y * 2) * (v.y * 2) == 4 * (u.y * v.y)) by (nonlinear_arith);
    assert((u.z * 2) * (v.z * 2) == 4 * (u.z * v.z)) by (nonlinear_arith);
}

/// A quad whose direction and base normal are not zero is a square of side
/// twice the radius, up to the rounding of its half-extents.
///
/// With the edges `e1` from the first corner to the second and `e2` from the
/// first to the fourth: the opposite edges equal them; they are perpendicular,
/// `SCALE * |e1 . e2| <= 6 r^2 + 12 |r| SCALE + 3 SCALE`; and each has the
/// squared length `4 r^2`, up to `(20 r^2 + 12 |r| SCALE + 4 SCALE) / SCALE`.
pub proof fn lemma_quad_is_square(position: Vec3, direct: Vec3, radius: int, base_norm: Vec3)
    requires
        direct != Vec3::zero(),
        base_norm != Vec3::zero(),
    ensures
        ({
            let q = quad_corners(position, direct, radius, base_norm);
            let e1 = q[1].minus(q[0]);
            let e2 = q[3].minus(q[0]);
            let rr = radius * radius;
            &&& q.len() == 4
            &&& q[2].minus(q[3]) == e1
            &&& q[2].minus(q[1]) == e2
            &&& SCALE * abs(e1.dot(e2)) <= 6 * rr + 12 * abs(radius) * SCALE + 3 * SCALE
            &&& SCALE * abs(e1.norm2() - 4 * rr) <= 20 * rr + 12 * abs(radius) * SCALE + 4 * SCALE
            &&& SCALE * abs(e2.norm2() - 4 * rr) <= 20 * rr + 12 * abs(radius) * SCALE + 4 * SCALE
        }),
{
    lemma_quad_spans_are_long(direct, base_norm);
    lemma_quad_centroid(position, direct, radius, base_norm);
    lemma_quad_corners_equidistant(position, direct, radius, base_norm);
    let q = quad_corners(position, direct, radius, base_norm);
    let o = quad_origin(position, direct, radius);
    let b = quad_basis(direct, base_norm)->Some_0;
    let dn = direct.unit();
    let u0 = dn.cross(quad_partner(dn, oriented_base(direct, base_norm)));
    let v0 = u0.unit().cross(dn);
    lemma_unit_within(u0);
    lemma_unit_within(v0);
    lemma_unit_length(u0);
    lemma_unit_length(v0);
    let u = scaled(b.0, radius);
    let v = scaled(b.1, radius);
    lemma_scaled_length(b.0, radius);
    lemma_scaled_length(b.1, radius);
    lemma_corner_distances(u, v);
    assert(q[0].minus(o) == u.neg().minus(v));
    assert(q[1].minus(o) == u.minus(v));
    assert(q[1].minus(q[0]) == u.times(2));
    assert(q[3].minus(q[0]) == v.times(2));
    lemma_doubled_dot(u, v);
    lemma_doubled_dot(u, u);
    lemma_doubled_dot(v, v);
    lemma_dot_swap(u, v);
}

} // verus!
