//! The position of a vertex after a push or pull along one axis.

use crate::arith::{abs, div_round, div_round_exec, lemma_div_round_bound, lemma_div_round_exact};
use crate::vector::{lemma_dot_within, lemma_neg_norm2, lemma_norm2_nonneg, lemma_norm2_zero,
    lemma_pair_le_norm2, lemma_product_within, Point3, Vec3, Vector3, LIMIT, SCALE};
use vstd::prelude::*;

verus! {

/// The normal or its opposite, whichever does not oppose the ray.
pub open spec fn outward(n: Vec3, ray: Vec3) -> Vec3 {
    if ray.dot(n) < 0 {
        n.neg()
    } else {
        n
    }
}

/// What a deformation by `factor` adds to a vertex: the projection of the ray
/// onto the normal, times `factor - 1`, rounded component by component.
pub open spec fn deform_delta(ray: Vec3, n: Vec3, factor: int) -> Vec3 {
    n.times(ray.dot(n) * (factor - SCALE)).over(n.norm2() * SCALE)
}

/// The position of a vertex after a deformation along a normal: the part of
/// its ray along the normal is scaled by `factor`, the part across it is left
/// as it is. With a zero normal no coordinate of the result has a value.
pub open spec fn deformed_position(position: Vec3, ray: Vec3, n: Vec3, factor: int) -> Vec3 {
    if n == Vec3::zero() {
        Vec3::undefined()
    } else {
        position.plus(deform_delta(ray, outward(n, ray), factor))
    }
}

/// Largest magnitude of a component of what `calculate_deform_position` adds
/// to a position.
pub const REACH: i128 = 751_500_000_000;

/// One component of a normal times the projection of a ray onto the normal
/// is at most `3 * LIMIT` squared lengths of the normal.
proof fn lemma_component_times_dot(c: int, ray: Vec3, n: Vec3, cx: int, cy: int, cz: int)
    requires
        ray.within(LIMIT as int),
        cx == c * n.x,
        cy == c * n.y,
        cz == c * n.z,
        abs(cx) <= n.norm2(),
        abs(cy) <= n.norm2(),
        abs(cz) <= n.norm2(),
    ensures
        abs(c * ray.dot(n)) <= 3 * LIMIT * n.norm2(),
{
    let l = LIMIT as int;
    let nn = n.norm2();
    lemma_product_within(ray.x, cx, l, nn);
    lemma_product_within(ray.y, cy, l, nn);
    lemma_product_within(ray.z, cz, l, nn);
    let px = ray.x * n.x;
    let py = ray.y * n.y;
    let pz = ray.z * n.z;
    assert(c * (px + py + pz) == c * px + c * py + c * pz) by (nonlinear_arith);
    assert(c * px == ray.x * cx) by (nonlinear_arith)
        requires
            px == ray.x * n.x,
            cx == c * n.x,
    ;
    assert(c * py == ray.y * cy) by (nonlinear_arith)
        requires
            py == ray.y * n.y,
            cy == c * n.y,
    ;
    assert(c * pz == ray.z * cz) by (nonlinear_arith)
        requires
            pz == ray.z * n.z,
            cz == c * n.z,
    ;
    assert(3 * LIMIT * nn == 3 * (l * nn)) by (nonlinear_arith)
        requires
            l == LIMIT,
    ;
}

/// One rounded component of `deform_delta`.
fn delta_component(c: i128, k: i128, g: i128, nn: i128) -> (r: i128)
    requires
        nn > 0,
        nn <= 3 * LIMIT * LIMIT,
        abs(c * k) <= 3 * LIMIT * nn,
        -(LIMIT + SCALE) <= g <= LIMIT + SCALE,
    ensures
        r == div_round(c * (k * g), nn * SCALE),
        -REACH <= r <= REACH,
{
    proof {
        let l = LIMIT as int;
        let s = SCALE as int;
        assert(3 * LIMIT * nn <= 3 * l * (3 * l * l)) by (nonlinear_arith)
            requires
                0 < nn <= 3 * LIMIT * LIMIT,
                l == LIMIT,
        ;
        assert(3 * l * (3 * l * l) == 1_125_000_000_000_000_000_000_000_000) by (nonlinear_arith)
            requires
                l == 500_000_000,
        ;
        lemma_product_within(c * k, g as int, 3 * LIMIT * nn, l + s);
        assert((c * k) * g == c * (k * g)) by (nonlinear_arith);
        assert((3 * LIMIT * nn) * (l + s) <= 1_125_000_000_000_000_000_000_000_000 * (l + s))
            by (nonlinear_arith)
            requires
                3 * LIMIT * nn <= 1_125_000_000_000_000_000_000_000_000,
                l + s >= 0,
        ;
        assert((3 * LIMIT * nn) * (l + s) == REACH * (nn * SCALE)) by (nonlinear_arith)
            requires
                l == 500_000_000,
                s == 1_000_000,
                REACH == 751_500_000_000,
                LIMIT == 500_000_000,
                SCALE == 1_000_000,
        ;
        assert(nn * SCALE <= 3 * l * l * s) by (nonlinear_arith)
            requires
                nn <= 3 * LIMIT * LIMIT,
                l == LIMIT,
                s == SCALE,
                s > 0,
        ;
        assert(3 * l * l * s == 750_000_000_000_000_000_000_000) by (nonlinear_arith)
            requires
                l == 500_000_000,
                s == 1_000_000,
        ;
        assert(nn * SCALE > 0) by (nonlinear_arith)
            requires
                nn > 0,
                SCALE > 0,
        ;
        lemma_div_round_bound(c * (k * g), nn * SCALE, REACH as int);
    }
    let ck: i128 = c * k;
    let num: i128 = ck * g;
    let den: i128 = nn * (SCALE as i128);
    div_round_exec(num, den)
}

/// Moves a vertex for a push or pull along one axis.
///
/// The normal is first turned so that it does not oppose the ray of the
/// vertex. The ray is projected onto it, and the vertex is moved by that
/// projection times `deform_factor - 1`: the part of the ray along the normal
/// is scaled by the factor, the part across it stays. The factor is a
/// fixed-point number; `SCALE` leaves the vertex where it is.
pub fn calculate_deform_position(
    vert_position: Point3,
    vert_ray: Vector3,
    deform_norm: Vector3,
    deform_factor: i64,
) -> (r: Point3)
    requires
        vert_position.in_range(),
        vert_ray.in_range(),
        deform_norm.in_range(),
        -LIMIT <= deform_factor <= LIMIT,
    ensures
        r@ == deformed_position(vert_position@, vert_ray@, deform_norm@, deform_factor as int),
        deform_norm@ != Vec3::zero() ==> r@.minus(vert_position@).within(REACH as int),
{
    let ray = vert_ray.widen();
    let given = deform_norm.widen();
    if given.is_zero() {
        return Point3::undefined();
    }
    proof {
        lemma_dot_within(ray@, given@, LIMIT as int, LIMIT as int);
    }
    let n = if ray.dot(&given) < 0 {
        given.neg()
    } else {
        given
    };
    proof {
        lemma_dot_within(ray@, n@, LIMIT as int, LIMIT as int);
        lemma_dot_within(n@, n@, LIMIT as int, LIMIT as int);
        lemma_norm2_nonneg(n@);
        lemma_norm2_zero(n@);
        lemma_pair_le_norm2(n@);
        assert(n.z * n.x == n.x * n.z && n.y * n.x == n.x * n.y && n.z * n.y == n.y * n.z)
            by (nonlinear_arith);
        lemma_component_times_dot(n.x as int, ray@, n@, n.x * n.x, n.x * n.y, n.x * n.z);
        lemma_component_times_dot(n.y as int, ray@, n@, n.y * n.x, n.y * n.y, n.y * n.z);
        lemma_component_times_dot(n.z as int, ray@, n@, n.z * n.x, n.z * n.y, n.z * n.z);
    }
    let k: i128 = ray.dot(&n);
    let nn: i128 = n.norm2();
    let g: i128 = deform_factor as i128 - SCALE as i128;
    let dx: i128 = delta_component(n.x, k, g, nn);
    let dy: i128 = delta_component(n.y, k, g, nn);
    let dz: i128 = delta_component(n.z, k, g, nn);
    Point3 {
        x: (vert_position.x as i128 + dx) as i64,
        y: (vert_position.y as i128 + dy) as i64,
        z: (vert_position.z as i128 + dz) as i64,
    }
}

/// A deformation does not depend on the sense of the normal it is given.
pub proof fn lemma_deform_ignores_sense(position: Vec3, ray: Vec3, n: Vec3, factor: int)
    ensures
        deformed_position(position, ray, n.neg(), factor) == deformed_position(
            position,
            ray,
            n,
            factor,
        ),
{
    assert(n.neg().neg() == n);
    assert(n.neg() == Vec3::zero() <==> n == Vec3::zero());
    assert(ray.dot(n.neg()) == -ray.dot(n)) by (nonlinear_arith)
        requires
            ray.dot(n.neg()) == ray.x * (-n.x) + ray.y * (-n.y) + ray.z * (-n.z),
            ray.dot(n) == ray.x * n.x + ray.y * n.y + ray.z * n.z,
    ;
    if n != Vec3::zero() && ray.dot(n) == 0 {
        // the two senses are kept apart, but nothing is added along either
        lemma_norm2_nonneg(n);
        lemma_norm2_zero(n);
        lemma_neg_norm2(n);
        let d = n.norm2() * SCALE;
        assert(d > 0) by (nonlinear_arith)
            requires
                d == n.norm2() * SCALE,
                n.norm2() > 0,
                SCALE > 0,
        ;
        lemma_div_round_exact(0, d);
        assert(0 * (factor - SCALE) == 0);
        assert(n.x * 0 == 0 && n.y * 0 == 0 && n.z * 0 == 0);
        assert((-n.x) * 0 == 0 && (-n.y) * 0 == 0 && (-n.z) * 0 == 0);
        assert(0 * d == 0);
        assert(deform_delta(ray, n, factor) == Vec3::zero());
        assert(deform_delta(ray, n.neg(), factor) == Vec3::zero());
    }
}

/// A deformation by the factor one leaves a vertex where it is.
pub proof fn lemma_deform_by_one(position: Vec3, ray: Vec3, n: Vec3)
    requires
        n != Vec3::zero(),
    ensures
        deformed_position(position, ray, n, SCALE as int) == position,
{
    let m = outward(n, ray);
    lemma_norm2_nonneg(m);
    lemma_norm2_zero(m);
    let d = m.norm2() * SCALE;
    assert(d > 0) by (nonlinear_arith)
        requires
            d == m.norm2() * SCALE,
            m.norm2() > 0,
            SCALE > 0,
    ;
    lemma_div_round_exact(0, d);
    assert(0 * d == 0);
    let k = ray.dot(m) * (SCALE - SCALE);
    assert(k == 0) by (nonlinear_arith)
        requires
            k == ray.dot(m) * (SCALE - SCALE),
    ;
    assert(m.x * 0 == 0 && m.y * 0 == 0 && m.z * 0 == 0);
    assert(deform_delta(ray, m, SCALE as int) == Vec3::zero());
}

} // verus!
