//! Choice of the normal of a base plane from weighted samples of direction
//! and position.

use crate::arith::abs;
use crate::primitives::{is_valid_norm, norm, triangle_cross};
use crate::vector::{lemma_cross_long, lemma_norm2_zero, lemma_unit_length, lemma_unit_within,
    Point3, Vec3, Vector3, SCALE};
use vstd::prelude::*;

verus! {

/// Cosine of 15 degrees, to three places, times `SCALE * SCALE`: the bound on
/// the dot product of two unit directions that are apart by at least 15 and
/// at most 165 degrees.
pub const COS_15: i128 = 966_000_000_000;

/// A weight as a whole percentage: the weight times one hundred, cut off
/// towards zero, and zero for a negative weight.
pub open spec fn percent(w: int) -> int {
    if w <= 0 {
        0
    } else {
        (w * 100) / (SCALE as int)
    }
}

/// Sample `i` comes before sample `j` when the samples are put in order of
/// falling percentage, samples of equal percentage staying in input order.
pub open spec fn ranks_before(ws: Seq<i64>, i: int, j: int) -> bool {
    percent(ws[i] as int) > percent(ws[j] as int) || (percent(ws[i] as int) == percent(
        ws[j] as int,
    ) && i < j)
}

/// Sample `i` comes before every other sample but `a` and `b`.
pub open spec fn leads(ws: Seq<i64>, i: int, a: int, b: int) -> bool {
    &&& 0 <= i < ws.len()
    &&& i != a
    &&& i != b
    &&& forall|j: int|
        0 <= j < ws.len() && j != i && j != a && j != b ==> #[trigger] ranks_before(ws, i, j)
}

/// `t` holds the first three samples in order of falling percentage.
pub open spec fn is_top_three(ws: Seq<i64>, t: (int, int, int)) -> bool {
    &&& leads(ws, t.0, -1, -1)
    &&& leads(ws, t.1, t.0, -1)
    &&& leads(ws, t.2, t.0, t.1)
}

/// The first three samples in order of falling percentage.
pub open spec fn top_three(ws: Seq<i64>) -> (int, int, int) {
    choose|t: (int, int, int)| is_top_three(ws, t)
}

/// The order of falling percentage has one first, one second and one third
/// sample.
pub proof fn lemma_top_three_unique(ws: Seq<i64>, s: (int, int, int), t: (int, int, int))
    requires
        is_top_three(ws, s),
        is_top_three(ws, t),
    ensures
        s == t,
{
    if s.0 != t.0 {
        assert(ranks_before(ws, s.0, t.0));
        assert(ranks_before(ws, t.0, s.0));
    }
    if s.1 != t.1 {
        assert(ranks_before(ws, s.1, t.1));
        assert(ranks_before(ws, t.1, s.1));
    }
    if s.2 != t.2 {
        assert(ranks_before(ws, s.2, t.2));
        assert(ranks_before(ws, t.2, s.2));
    }
}

/// Computes `percent` of a weight.
pub fn percent_of(w: i64) -> (p: i128)
    ensures
        p == percent(w as int),
{
    if w <= 0 {
        0
    } else {
        (w as i128 * 100) / (SCALE as i128)
    }
}

/// The sample that comes first among all but `a` and `b`.
fn leader(weights: &Vec<i64>, a: usize, b: usize) -> (r: usize)
    requires
        weights.len() >= 3,
    ensures
        leads(weights@, r as int, a as int, b as int),
{
    let mut best: usize = if a != 0 && b != 0 {
        0
    } else if a != 1 && b != 1 {
        1
    } else {
        2
    };
    let mut best_percent: i128 = percent_of(weights[best]);
    let mut i: usize = 0;
    while i < weights.len()
        invariant
            weights.len() >= 3,
            i <= weights.len(),
            best < weights.len(),
            best != a,
            best != b,
            best_percent == percent(weights@[best as int] as int),
            best >= i ==> best <= 2 && (best >= 1 ==> a == 0 || b == 0) && (best >= 2 ==> a == 1
                || b == 1),
            forall|j: int|
                0 <= j < i && j != best && j != a && j != b ==> #[trigger] ranks_before(
                    weights@,
                    best as int,
                    j,
                ),
        decreases weights.len() - i,
    {
        if i != a && i != b && i != best {
            let p: i128 = percent_of(weights[i]);
            if p > best_percent {
                proof {
                    assert forall|j: int|
                        0 <= j < i && j != a && j != b implies #[trigger] ranks_before(
                        weights@,
                        i as int,
                        j,
                    ) by {
                        if j != best {
                            assert(ranks_before(weights@, best as int, j));
                        }
                    }
                }
                best = i;
                best_percent = p;
            } else {
                assert(ranks_before(weights@, best as int, i as int));
            }
        }
        i = i + 1;
    }
    best
}

/// The first three samples in order of falling percentage, samples of equal
/// percentage staying in input order.
pub fn heaviest_three(weights: &Vec<i64>) -> (t: (usize, usize, usize))
    requires
        weights.len() >= 3,
    ensures
        is_top_three(weights@, (t.0 as int, t.1 as int, t.2 as int)),
        (t.0 as int, t.1 as int, t.2 as int) == top_three(weights@),
{
    let n = weights.len();
    let i0 = leader(weights, n, n);
    let i1 = leader(weights, i0, n);
    let i2 = leader(weights, i0, i1);
    proof {
        let t = (i0 as int, i1 as int, i2 as int);
        assert(is_top_three(weights@, t));
        lemma_top_three_unique(weights@, t, top_three(weights@));
    }
    (i0, i1, i2)
}

/// Two unit directions are at least 15 and at most 165 degrees apart.
pub open spec fn separated(a: Vec3, b: Vec3) -> bool {
    abs(a.dot(b)) < COS_15
}

/// The normal chosen from three samples: the unit normal of the triangle of
/// their positions where that has a value; otherwise the unit cross product of
/// the first pair of directions, among first and second, second and third,
/// third and first, that is separated; otherwise none.
pub open spec fn three_sample_norm(
    d0: Vec3,
    d1: Vec3,
    d2: Vec3,
    p0: Vec3,
    p1: Vec3,
    p2: Vec3,
) -> Option<Vec3> {
    if triangle_cross(p0, p1, p2).unit().defined() {
        Some(triangle_cross(p0, p1, p2).unit())
    } else if separated(d0, d1) {
        Some(d0.cross(d1).unit())
    } else if separated(d1, d2) {
        Some(d1.cross(d2).unit())
    } else if separated(d2, d0) {
        Some(d2.cross(d0).unit())
    } else {
        None
    }
}

/// The base-plane normal of a set of weighted samples, by their number: none
/// for fewer than two; for two, the unit cross product of the directions if
/// they are separated; for three, `three_sample_norm`; for more, the same of
/// the three samples of highest percentage.
pub open spec fn base_plane_norm(ds: Seq<Vector3>, ps: Seq<Point3>, ws: Seq<i64>) -> Option<
    Vec3,
> {
    if ds.len() <= 1 {
        None
    } else if ds.len() == 2 {
        if separated(ds[0]@, ds[1]@) {
            Some(ds[0]@.cross(ds[1]@).unit())
        } else {
            None
        }
    } else if ds.len() == 3 {
        three_sample_norm(ds[0]@, ds[1]@, ds[2]@, ps[0]@, ps[1]@, ps[2]@)
    } else {
        let t = top_three(ws);
        three_sample_norm(ds[t.0]@, ds[t.1]@, ds[t.2]@, ps[t.0]@, ps[t.1]@, ps[t.2]@)
    }
}

/// The model of an optional vector.
pub open spec fn view_of(v: Option<Vector3>) -> Option<Vec3> {
    match v {
        Some(v) => Some(v@),
        None => None,
    }
}

/// Decides `separated`.
fn is_separated(a: &Vector3, b: &Vector3) -> (r: bool)
    requires
        a.in_range(),
        b.in_range(),
    ensures
        r == separated(a@, b@),
{
    let d: i128 = a.widen().dot(&b.widen());
    -COS_15 < d && d < COS_15
}

/// The unit cross product of two directions.
fn cross_unit(a: &Vector3, b: &Vector3) -> (r: Vector3)
    requires
        a.in_range(),
        b.in_range(),
    ensures
        r@ == a@.cross(b@).unit(),
{
    a.widen().cross(&b.widen()).unit()
}

/// A direction is of unit length, up to rounding.
pub open spec fn is_unit(d: Vec3) -> bool {
    SCALE * SCALE - 3 * SCALE <= d.norm2() <= SCALE * SCALE + 5 * SCALE
}

/// What `three_sample_norm` reads of the samples `i0`, `i1`, `i2` is there
/// and within the accepted range: the three positions and, where these lie on
/// one line, the first two directions, and the third where the first two are
/// not separated.
pub open spec fn three_readable(
    ds: Seq<Vector3>,
    ps: Seq<Point3>,
    i0: int,
    i1: int,
    i2: int,
) -> bool {
    &&& 0 <= i0 < ps.len() && 0 <= i1 < ps.len() && 0 <= i2 < ps.len()
    &&& ps[i0].in_range() && ps[i1].in_range() && ps[i2].in_range()
    &&& triangle_cross(ps[i0]@, ps[i1]@, ps[i2]@) == Vec3::zero() ==> {
        &&& i0 < ds.len() && i1 < ds.len()
        &&& ds[i0].in_range() && ds[i1].in_range()
        &&& !separated(ds[i0]@, ds[i1]@) ==> i2 < ds.len() && ds[i2].in_range()
    }
}

/// What `base_plane_norm` reads of the samples is there and within the
/// accepted range.
pub open spec fn samples_readable(ds: Seq<Vector3>, ps: Seq<Point3>, ws: Seq<i64>) -> bool {
    if ds.len() <= 1 {
        true
    } else if ds.len() == 2 {
        ds[0].in_range() && ds[1].in_range()
    } else if ds.len() == 3 {
        three_readable(ds, ps, 0, 1, 2)
    } else {
        ws.len() >= 3 && three_readable(
            ds,
            ps,
            top_three(ws).0,
            top_three(ws).1,
            top_three(ws).2,
        )
    }
}

/// Decides `three_readable`.
fn is_three_readable(
    directs: &Vec<Vector3>,
    positions: &Vec<Point3>,
    i0: usize,
    i1: usize,
    i2: usize,
) -> (r: bool)
    ensures
        r == three_readable(directs@, positions@, i0 as int, i1 as int, i2 as int),
{
    if i0 >= positions.len() || i1 >= positions.len() || i2 >= positions.len() {
        return false;
    }
    let p0 = positions[i0];
    let p1 = positions[i1];
    let p2 = positions[i2];
    if !p0.is_in_range() || !p1.is_in_range() || !p2.is_in_range() {
        return false;
    }
    if !p1.minus(&p0).cross(&p2.minus(&p0)).is_zero() {
        return true;
    }
    if i0 >= directs.len() || i1 >= directs.len() {
        return false;
    }
    if !directs[i0].is_in_range() || !directs[i1].is_in_range() {
        return false;
    }
    if is_separated(&directs[i0], &directs[i1]) {
        return true;
    }
    i2 < directs.len() && directs[i2].is_in_range()
}

/// Whether `pick_base_plane_norm` can be asked for the normal of these
/// samples: whether what it reads of them is there and within the accepted
/// range.
pub fn samples_are_readable(
    directs: &Vec<Vector3>,
    positions: &Vec<Point3>,
    weights: &Vec<i64>,
) -> (r: bool)
    ensures
        r == samples_readable(directs@, positions@, weights@),
{
    if directs.len() <= 1 {
        true
    } else if directs.len() == 2 {
        directs[0].is_in_range() && directs[1].is_in_range()
    } else if directs.len() == 3 {
        is_three_readable(directs, positions, 0, 1, 2)
    } else if weights.len() < 3 {
        false
    } else {
        let t = heaviest_three(weights);
        is_three_readable(directs, positions, t.0, t.1, t.2)
    }
}

/// Applies `three_sample_norm` to the samples `i0`, `i1`, `i2`.
fn pick_from_three(
    directs: &Vec<Vector3>,
    positions: &Vec<Point3>,
    i0: usize,
    i1: usize,
    i2: usize,
) -> (r: Option<Vector3>)
    requires
        three_readable(directs@, positions@, i0 as int, i1 as int, i2 as int),
    ensures
        view_of(r) == three_sample_norm(
            directs[i0 as int]@,
            directs[i1 as int]@,
            directs[i2 as int]@,
            positions[i0 as int]@,
            positions[i1 as int]@,
            positions[i2 as int]@,
        ),
{
    let n = norm(positions[i0], positions[i1], positions[i2]);
    if is_valid_norm(n) {
        Some(n)
    } else if is_separated(&directs[i0], &directs[i1]) {
        Some(cross_unit(&directs[i0], &directs[i1]))
    } else if is_separated(&directs[i1], &directs[i2]) {
        Some(cross_unit(&directs[i1], &directs[i2]))
    } else if is_separated(&directs[i2], &directs[i0]) {
        Some(cross_unit(&directs[i2], &directs[i0]))
    } else {
        None
    }
}

/// Chooses the normal of the base plane from weighted samples of direction
/// and position.
///
/// Fewer than two samples give none. Two give the unit cross product of their
/// directions, if these are at least 15 and at most 165 degrees apart. Three
/// give the unit normal of the triangle of their positions or, where the
/// positions lie on one line, the unit cross product of the first pair of
/// directions that is so far apart. More than three are cut down to the three
/// of highest whole percentage of weight.
///
/// Only what the choice reads has to be there and within the accepted range.
/// Where the directions are of unit length, a normal that is returned has a
/// value in every component and is of unit length.
pub fn pick_base_plane_norm(directs: Vec<Vector3>, positions: Vec<Point3>, weights: Vec<i64>) -> (r:
    Option<Vector3>)
    requires
        samples_readable(directs@, positions@, weights@),
    ensures
        view_of(r) == base_plane_norm(directs@, positions@, weights@),
        (forall|i: int| 0 <= i < directs.len() ==> is_unit((#[trigger] directs[i])@)) ==> (r matches Some(
            n,
        ) ==> n@.defined() && is_unit(n@)),
{
    if directs.len() <= 1 {
        None
    } else if directs.len() <= 2 {
        if is_separated(&directs[0], &directs[1]) {
            proof {
                if is_unit(directs[0]@) && is_unit(directs[1]@) {
                    lemma_separated_gives_a_normal(directs[0]@, directs[1]@);
                }
            }
            return Some(cross_unit(&directs[0], &directs[1]));
        }
        None
    } else if directs.len() <= 3 {
        proof {
            if forall|i: int| 0 <= i < directs.len() ==> is_unit((#[trigger] directs[i])@) {
                lemma_three_sample_norm_is_unit(
                    directs[0]@,
                    directs[1]@,
                    directs[2]@,
                    positions[0]@,
                    positions[1]@,
                    positions[2]@,
                );
            }
        }
        pick_from_three(&directs, &positions, 0, 1, 2)
    } else {
        let t = heaviest_three(&weights);
        proof {
            if forall|i: int| 0 <= i < directs.len() ==> is_unit((#[trigger] directs[i])@) {
                lemma_three_sample_norm_is_unit(
                    directs@[t.0 as int]@,
                    directs@[t.1 as int]@,
                    directs@[t.2 as int]@,
                    positions[t.0 as int]@,
                    positions[t.1 as int]@,
                    positions[t.2 as int]@,
                );
            }
        }
        pick_from_three(&directs, &positions, t.0, t.1, t.2)
    }
}

/// A normal chosen from three samples has a value in every component and is
/// of unit length, as far as it is made from directions of unit length: a
/// degenerate pair is passed over for the next, never returned.
pub proof fn lemma_three_sample_norm_is_unit(
    d0: Vec3,
    d1: Vec3,
    d2: Vec3,
    p0: Vec3,
    p1: Vec3,
    p2: Vec3,
)
    requires
        triangle_cross(p0, p1, p2) == Vec3::zero() ==> is_unit(d0) && is_unit(d1) && (separated(
            d0,
            d1,
        ) || is_unit(d2)),
    ensures
        three_sample_norm(d0, d1, d2, p0, p1, p2) matches Some(n) ==> n.defined() && is_unit(n),
{
    let c = triangle_cross(p0, p1, p2);
    if c != Vec3::zero() {
        lemma_unit_within(c);
        lemma_unit_length(c);
    } else {
        assert(!c.unit().defined());
        if separated(d0, d1) {
            lemma_separated_gives_a_normal(d0, d1);
        } else if separated(d1, d2) {
            lemma_separated_gives_a_normal(d1, d2);
        } else if separated(d2, d0) {
            lemma_separated_gives_a_normal(d2, d0);
        }
    }
}

/// What the bound on the dot product is for: two directions of unit length,
/// up to rounding, that are separated have a cross product that is not zero,
/// so that the normal made from it has a value and is of unit length.
pub proof fn lemma_separated_gives_a_normal(a: Vec3, b: Vec3)
    requires
        a.norm2() >= SCALE * SCALE - 3 * SCALE,
        b.norm2() >= SCALE * SCALE - 3 * SCALE,
        separated(a, b),
    ensures
        a.cross(b) != Vec3::zero(),
        a.cross(b).unit().defined(),
        is_unit(a.cross(b).unit()),
{
    let l = SCALE * SCALE - 3 * SCALE;
    assert(l * l - COS_15 * COS_15 >= SCALE * SCALE) by (nonlinear_arith)
        requires
            l == 999_997_000_000,
            COS_15 == 966_000_000_000,
            SCALE == 1_000_000,
    ;
    lemma_cross_long(a, b, l, COS_15 as int);
    lemma_norm2_zero(a.cross(b));
    lemma_unit_within(a.cross(b));
    lemma_unit_length(a.cross(b));
}

} // verus!
