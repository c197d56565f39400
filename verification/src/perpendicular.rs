//! A perpendicular to a direction that is never ill-conditioned.

use crate::arith::{abs, lemma_div_round_exact};
use crate::vector::{Vec3, Vector3, SCALE};
use vstd::prelude::*;

verus! {

/// Cosine of 45 degrees, to three places, times `SCALE`.
pub const COS_45: i64 = 707_000;

/// Cosine of 45 degrees, to three places, times `SCALE * SCALE`: the bound on
/// the dot product of two unit directions that are 45 degrees apart.
pub const COS_45_WIDE: i128 = 707_000_000_000;

/// The world's first axis, as a unit vector.
pub open spec fn world_x() -> Vec3 {
    Vec3 { x: SCALE as int, y: 0, z: 0 }
}

/// The world's second axis, as a unit vector.
pub open spec fn world_y() -> Vec3 {
    Vec3 { x: 0, y: SCALE as int, z: 0 }
}

/// The cross product of two fixed-point vectors, as a fixed-point vector.
pub open spec fn fixed_cross(a: Vec3, b: Vec3) -> Vec3 {
    a.cross(b).over(SCALE as int)
}

/// A direction is within 45 degrees of the world's first axis, or of its
/// opposite.
pub open spec fn along_world_x(d: Vec3) -> bool {
    abs(d.dot(world_x())) > COS_45_WIDE
}

/// The perpendicular that `world_perp` returns.
pub open spec fn world_perp_of(d: Vec3) -> Vec3 {
    if along_world_x(d) {
        fixed_cross(d, world_y())
    } else {
        fixed_cross(d, world_x())
    }
}

/// The cross products with the world's axes, written out.
pub proof fn lemma_world_perp_components(d: Vec3)
    ensures
        fixed_cross(d, world_y()) == (Vec3 { x: -d.z, y: 0, z: d.x }),
        fixed_cross(d, world_x()) == (Vec3 { x: 0, y: d.z, z: -d.y }),
        along_world_x(d) <==> abs(d.x) > COS_45,
{
    let s = SCALE as int;
    lemma_div_round_exact(-d.z, s);
    lemma_div_round_exact(0, s);
    lemma_div_round_exact(d.x, s);
    lemma_div_round_exact(d.z, s);
    lemma_div_round_exact(-d.y, s);
    let cy = d.cross(world_y());
    let cx = d.cross(world_x());
    assert(cy.x == (-d.z) * s && cy.y == 0 * s && cy.z == d.x * s) by (nonlinear_arith)
        requires
            cy.x == d.y * 0 - d.z * s,
            cy.y == d.z * 0 - d.x * 0,
            cy.z == d.x * s - d.y * 0,
    ;
    assert(cx.x == 0 * s && cx.y == d.z * s && cx.z == (-d.y) * s) by (nonlinear_arith)
        requires
            cx.x == d.y * 0 - d.z * 0,
            cx.y == d.z * s - d.x * 0,
            cx.z == d.x * 0 - d.y * s,
    ;
}

/// A vector perpendicular to `direct` that is never close to zero for a unit
/// direction: the cross product with the world's second axis where `direct`
/// is within 45 degrees of the first axis, and with the first axis elsewhere.
pub fn world_perp(direct: Vector3) -> (r: Vector3)
    requires
        direct.in_range(),
    ensures
        r@ == world_perp_of(direct@),
        r.in_range(),
{
    proof {
        lemma_world_perp_components(direct@);
    }
    if direct.x > COS_45 || direct.x < -COS_45 {
        Vector3 { x: -direct.z, y: 0, z: direct.x }
    } else {
        Vector3 { x: 0, y: direct.z, z: -direct.y }
    }
}

/// What `world_perp` is for: its result is exactly perpendicular to the
/// direction, and its squared length is either more than `COS_45` squared or
/// within `COS_45` squared of that of the direction.
pub proof fn lemma_world_perp_well_conditioned(d: Vec3)
    ensures
        world_perp_of(d).dot(d) == 0,
        along_world_x(d) ==> world_perp_of(d).norm2() > COS_45 * COS_45,
        !along_world_x(d) ==> world_perp_of(d).norm2() >= d.norm2() - COS_45 * COS_45,
{
    lemma_world_perp_components(d);
    let r = world_perp_of(d);
    if along_world_x(d) {
        assert(r.dot(d) == 0) by (nonlinear_arith)
            requires
                r.dot(d) == (-d.z) * d.x + 0 * d.y + d.x * d.z,
        ;
        assert(r.norm2() > COS_45 * COS_45) by (nonlinear_arith)
            requires
                r.norm2() == (-d.z) * (-d.z) + 0 * 0 + d.x * d.x,
                d.x > COS_45 || d.x < -COS_45,
                COS_45 > 0,
        ;
    } else {
        assert(r.dot(d) == 0) by (nonlinear_arith)
            requires
                r.dot(d) == 0 * d.x + d.z * d.y + (-d.y) * d.z,
        ;
        assert(r.norm2() >= d.norm2() - COS_45 * COS_45) by (nonlinear_arith)
            requires
                r.norm2() == 0 * 0 + d.z * d.z + (-d.y) * (-d.y),
                d.norm2() == d.x * d.x + d.y * d.y + d.z * d.z,
                -COS_45 <= d.x <= COS_45,
        ;
    }
}

} // verus!
