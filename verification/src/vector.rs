//! Fixed-point points and vectors, their mathematical model, and the exact
//! vector algebra the predicates are built from.

use crate::arith::{abs, div_round, div_round_exec, isqrt, isqrt_exec, lemma_div_round_bound,
    lemma_div_round_error, lemma_div_round_neg, lemma_isqrt_exists, lemma_isqrt_zero};
use vstd::prelude::*;

verus! {

/// Number of coordinate units in one unit of length.
pub const SCALE: i64 = 1_000_000;

/// Largest magnitude of a coordinate that the kernel accepts.
pub const LIMIT: i64 = 500_000_000;

/// Largest magnitude of a difference of two accepted coordinates.
pub const SPAN: i128 = 1_000_000_000;

/// Largest magnitude of a component of a cross product of two differences.
pub const AREA: i128 = 2_000_000_000_000_000_000;

/// The coordinate that marks a component without a value, as division of
/// zero by zero leaves one.
pub const UNDEFINED: i64 = i64::MIN;

/// A triple of mathematical integers: the model of every point and vector.
pub struct Vec3 {
    pub x: int,
    pub y: int,
    pub z: int,
}

impl Vec3 {
    /// The zero vector.
    pub open spec fn zero() -> Vec3 {
        Vec3 { x: 0, y: 0, z: 0 }
    }

    /// The triple whose components all lack a value.
    pub open spec fn undefined() -> Vec3 {
        Vec3 { x: UNDEFINED as int, y: UNDEFINED as int, z: UNDEFINED as int }
    }

    /// Component-wise sum.
    pub open spec fn plus(self, o: Vec3) -> Vec3 {
        Vec3 { x: self.x + o.x, y: self.y + o.y, z: self.z + o.z }
    }

    /// Component-wise difference.
    pub open spec fn minus(self, o: Vec3) -> Vec3 {
        Vec3 { x: self.x - o.x, y: self.y - o.y, z: self.z - o.z }
    }

    /// The opposite vector.
    pub open spec fn neg(self) -> Vec3 {
        Vec3 { x: -self.x, y: -self.y, z: -self.z }
    }

    /// Every component multiplied by `k`.
    pub open spec fn times(self, k: int) -> Vec3 {
        Vec3 { x: self.x * k, y: self.y * k, z: self.z * k }
    }

    /// Dot product.
    pub open spec fn dot(self, o: Vec3) -> int {
        self.x * o.x + self.y * o.y + self.z * o.z
    }

    /// Cross product.
    pub open spec fn cross(self, o: Vec3) -> Vec3 {
        Vec3 {
            x: self.y * o.z - self.z * o.y,
            y: self.z * o.x - self.x * o.z,
            z: self.x * o.y - self.y * o.x,
        }
    }

    /// Squared length.
    pub open spec fn norm2(self) -> int {
        self.dot(self)
    }

    /// Sum of the magnitudes of the components.
    pub open spec fn norm1(self) -> int {
        abs(self.x) + abs(self.y) + abs(self.z)
    }

    /// No component exceeds `b` in magnitude.
    pub open spec fn within(self, b: int) -> bool {
        &&& -b <= self.x <= b
        &&& -b <= self.y <= b
        &&& -b <= self.z <= b
    }

    /// No component is the undefined marker.
    pub open spec fn defined(self) -> bool {
        self.x != UNDEFINED && self.y != UNDEFINED && self.z != UNDEFINED
    }

    /// Every component divided by `d` and rounded to the nearest integer.
    pub open spec fn over(self, d: int) -> Vec3 {
        Vec3 { x: div_round(self.x, d), y: div_round(self.y, d), z: div_round(self.z, d) }
    }

    /// The vector of length `SCALE` along `self`, with the whole part of the
    /// length of `self` taken for its length: good for a vector so long that
    /// the part after the point does not count. Undefined for the zero vector.
    pub open spec fn unit_by_whole_length(self) -> Vec3 {
        if self == Vec3::zero() {
            Vec3::undefined()
        } else {
            self.times(SCALE as int).over(isqrt(self.norm2()))
        }
    }

    /// The vector of length `SCALE` along `self`; undefined for the zero
    /// vector.
    ///
    /// Each component is multiplied by `SCALE`, divided by the length of
    /// `self` and rounded to the nearest integer. The length is taken of
    /// `self` enlarged by `gain`, so that its whole part has thirteen digits
    /// or more and stands for the length to one part in a million millions.
    pub open spec fn unit(self) -> Vec3 {
        if self == Vec3::zero() {
            Vec3::undefined()
        } else {
            self.times(gain(self.norm2())).unit_by_whole_length()
        }
    }
}

/// `SCALE` squared: the squared length of a unit vector.
pub const UNIT_SQUARED: i128 = 1_000_000_000_000;

/// `SCALE` to the fourth power.
pub const UNIT_FOURTH: i128 = 1_000_000_000_000_000_000_000_000;

/// The factor by which a vector of squared length `n2` is enlarged before its
/// length is taken, so that the enlarged vector is at least `UNIT_SQUARED`
/// long.
pub open spec fn gain(n2: int) -> int {
    if n2 < UNIT_SQUARED {
        UNIT_SQUARED as int
    } else if n2 < UNIT_FOURTH {
        SCALE as int
    } else {
        1
    }
}

/// A position in space, in fixed-point coordinates.
#[derive(Clone, Copy, Debug, PartialEq, Eq, Structural)]
pub struct Point3 {
    pub x: i64,
    pub y: i64,
    pub z: i64,
}

/// A free direction or displacement, in fixed-point coordinates.
#[derive(Clone, Copy, Debug, PartialEq, Eq, Structural)]
pub struct Vector3 {
    pub x: i64,
    pub y: i64,
    pub z: i64,
}

/// A vector whose components may exceed a coordinate: differences, cross
/// products and other intermediate values.
#[derive(Clone, Copy, Debug)]
pub struct Wide3 {
    pub x: i128,
    pub y: i128,
    pub z: i128,
}

impl View for Point3 {
    type V = Vec3;

    open spec fn view(&self) -> Vec3 {
        Vec3 { x: self.x as int, y: self.y as int, z: self.z as int }
    }
}

impl View for Vector3 {
    type V = Vec3;

    open spec fn view(&self) -> Vec3 {
        Vec3 { x: self.x as int, y: self.y as int, z: self.z as int }
    }
}

impl View for Wide3 {
    type V = Vec3;

    open spec fn view(&self) -> Vec3 {
        Vec3 { x: self.x as int, y: self.y as int, z: self.z as int }
    }
}

impl Point3 {
    /// The coordinates are within the accepted range.
    pub open spec fn in_range(&self) -> bool {
        self@.within(LIMIT as int)
    }

    /// Whether the coordinates are within the accepted range.
    pub fn is_in_range(&self) -> (r: bool)
        ensures
            r == self.in_range(),
    {
        -LIMIT <= self.x && self.x <= LIMIT && -LIMIT <= self.y && self.y <= LIMIT && -LIMIT
            <= self.z && self.z <= LIMIT
    }

    /// The point at the given coordinates.
    pub fn new(x: i64, y: i64, z: i64) -> (p: Point3)
        ensures
            p@ == (Vec3 { x: x as int, y: y as int, z: z as int }),
    {
        Point3 { x, y, z }
    }

    /// The point none of whose coordinates has a value.
    pub fn undefined() -> (p: Point3)
        ensures
            p@ == Vec3::undefined(),
    {
        Point3 { x: UNDEFINED, y: UNDEFINED, z: UNDEFINED }
    }

    /// The displacement from `o` to `self`.
    pub fn minus(&self, o: &Point3) -> (d: Wide3)
        ensures
            d@ == self@.minus(o@),
    {
        Wide3 {
            x: self.x as i128 - o.x as i128,
            y: self.y as i128 - o.y as i128,
            z: self.z as i128 - o.z as i128,
        }
    }

    /// The position as a displacement from the origin.
    pub fn widen(&self) -> (d: Wide3)
        ensures
            d@ == self@,
    {
        Wide3 { x: self.x as i128, y: self.y as i128, z: self.z as i128 }
    }
}

impl Vector3 {
    /// The components are within the accepted range.
    pub open spec fn in_range(&self) -> bool {
        self@.within(LIMIT as int)
    }

    /// Whether the components are within the accepted range.
    pub fn is_in_range(&self) -> (r: bool)
        ensures
            r == self.in_range(),
    {
        -LIMIT <= self.x && self.x <= LIMIT && -LIMIT <= self.y && self.y <= LIMIT && -LIMIT
            <= self.z && self.z <= LIMIT
    }

    /// The vector with the given components.
    pub fn new(x: i64, y: i64, z: i64) -> (v: Vector3)
        ensures
            v@ == (Vec3 { x: x as int, y: y as int, z: z as int }),
    {
        Vector3 { x, y, z }
    }

    /// The vector none of whose components has a value.
    pub fn undefined() -> (v: Vector3)
        ensures
            v@ == Vec3::undefined(),
    {
        Vector3 { x: UNDEFINED, y: UNDEFINED, z: UNDEFINED }
    }

    /// The same vector with room for intermediate results.
    pub fn widen(&self) -> (d: Wide3)
        ensures
            d@ == self@,
    {
        Wide3 { x: self.x as i128, y: self.y as i128, z: self.z as i128 }
    }
}

impl Wide3 {
    /// The opposite vector.
    pub fn neg(&self) -> (r: Wide3)
        requires
            self@.within(AREA as int),
        ensures
            r@ == self@.neg(),
    {
        Wide3 { x: -self.x, y: -self.y, z: -self.z }
    }

    /// Dot product of two vectors no larger than a cross product of differences.
    pub fn dot(&self, o: &Wide3) -> (r: i128)
        requires
            self@.within(AREA as int),
            o@.within(AREA as int),
        ensures
            r == self@.dot(o@),
            abs(r as int) <= 3 * AREA * AREA,
    {
        proof {
            lemma_product_within(self.x as int, o.x as int, AREA as int, AREA as int);
            lemma_product_within(self.y as int, o.y as int, AREA as int, AREA as int);
            lemma_product_within(self.z as int, o.z as int, AREA as int, AREA as int);
        }
        self.x * o.x + self.y * o.y + self.z * o.z
    }

    /// Squared length.
    pub fn norm2(&self) -> (r: i128)
        requires
            self@.within(AREA as int),
        ensures
            r == self@.norm2(),
            0 <= r <= 3 * AREA * AREA,
    {
        proof {
            lemma_norm2_nonneg(self@);
        }
        self.dot(self)
    }

    /// Cross product of two differences of points.
    pub fn cross(&self, o: &Wide3) -> (r: Wide3)
        requires
            self@.within(SPAN as int),
            o@.within(SPAN as int),
        ensures
            r@ == self@.cross(o@),
            r@.within(AREA as int),
    {
        proof {
            lemma_product_within(self.y as int, o.z as int, SPAN as int, SPAN as int);
            lemma_product_within(self.z as int, o.y as int, SPAN as int, SPAN as int);
            lemma_product_within(self.z as int, o.x as int, SPAN as int, SPAN as int);
            lemma_product_within(self.x as int, o.z as int, SPAN as int, SPAN as int);
            lemma_product_within(self.x as int, o.y as int, SPAN as int, SPAN as int);
            lemma_product_within(self.y as int, o.x as int, SPAN as int, SPAN as int);
        }
        Wide3 {
            x: self.y * o.z - self.z * o.y,
            y: self.z * o.x - self.x * o.z,
            z: self.x * o.y - self.y * o.x,
        }
    }

    /// Whether this is the zero vector.
    pub fn is_zero(&self) -> (r: bool)
        ensures
            r == (self@ == Vec3::zero()),
    {
        self.x == 0 && self.y == 0 && self.z == 0
    }

    /// The vector of length `SCALE` in this direction, with the whole part of
    /// the length taken for the length.
    pub fn unit_by_whole_length(&self) -> (r: Vector3)
        requires
            self@.within(AREA as int),
        ensures
            r@ == self@.unit_by_whole_length(),
            self@ != Vec3::zero() ==> r@.within(SCALE as int),
    {
        if self.is_zero() {
            return Vector3::undefined();
        }
        let n2: i128 = self.norm2();
        let m: i128 = isqrt_exec(n2 as u128) as i128;
        proof {
            lemma_norm2_zero(self@);
            lemma_isqrt_zero(n2 as int);
            lemma_component_le_length(self@);
            lemma_scaled_component(self.x as int, m as int);
            lemma_scaled_component(self.y as int, m as int);
            lemma_scaled_component(self.z as int, m as int);
        }
        let s: i128 = SCALE as i128;
        let x: i128 = div_round_exec(s * self.x, m);
        let y: i128 = div_round_exec(s * self.y, m);
        let z: i128 = div_round_exec(s * self.z, m);
        Vector3 { x: x as i64, y: y as i64, z: z as i64 }
    }

    /// The vector of length `SCALE` in this direction.
    pub fn unit(&self) -> (r: Vector3)
        requires
            self@.within(AREA as int),
        ensures
            r@ == self@.unit(),
            self@ != Vec3::zero() ==> r@.within(SCALE as int),
    {
        if self.is_zero() {
            return Vector3::undefined();
        }
        let n2: i128 = self.norm2();
        proof {
            lemma_components_below(self@, 999_999);
            lemma_components_below(self@, 999_999_999_999);
        }
        let big = if n2 < UNIT_SQUARED {
            Wide3 {
                x: self.x * UNIT_SQUARED,
                y: self.y * UNIT_SQUARED,
                z: self.z * UNIT_SQUARED,
            }
        } else if n2 < UNIT_FOURTH {
            Wide3 {
                x: self.x * (SCALE as i128),
                y: self.y * (SCALE as i128),
                z: self.z * (SCALE as i128),
            }
        } else {
            Wide3 { x: self.x, y: self.y, z: self.z }
        };
        proof {
            assert(big@ == self@.times(gain(n2 as int)));
            assert(big@ != Vec3::zero());
        }
        big.unit_by_whole_length()
    }
}

/// A product of bounded factors is bounded by the product of the bounds.
pub proof fn lemma_product_within(a: int, b: int, ba: int, bb: int)
    requires
        -ba <= a <= ba,
        -bb <= b <= bb,
    ensures
        -(ba * bb) <= a * b <= ba * bb,
{
    assert(-(ba * bb) <= a * b <= ba * bb) by (nonlinear_arith)
        requires
            -ba <= a <= ba,
            -bb <= b <= bb,
    ;
}

/// A dot product of bounded vectors is bounded by three times the product of
/// the bounds.
pub proof fn lemma_dot_within(a: Vec3, b: Vec3, ba: int, bb: int)
    requires
        a.within(ba),
        b.within(bb),
    ensures
        -(3 * (ba * bb)) <= a.dot(b) <= 3 * (ba * bb),
{
    lemma_product_within(a.x, b.x, ba, bb);
    lemma_product_within(a.y, b.y, ba, bb);
    lemma_product_within(a.z, b.z, ba, bb);
}

/// The product of any two components of a vector is at most its squared
/// length in magnitude.
pub proof fn lemma_pair_le_norm2(v: Vec3)
    ensures
        abs(v.x * v.x) <= v.norm2(),
        abs(v.y * v.y) <= v.norm2(),
        abs(v.z * v.z) <= v.norm2(),
        abs(v.x * v.y) <= v.norm2(),
        abs(v.y * v.z) <= v.norm2(),
        abs(v.z * v.x) <= v.norm2(),
{
    let xx = v.x * v.x;
    let yy = v.y * v.y;
    let zz = v.z * v.z;
    assert(xx >= 0 && yy >= 0 && zz >= 0) by (nonlinear_arith)
        requires
            xx == v.x * v.x,
            yy == v.y * v.y,
            zz == v.z * v.z,
    ;
    lemma_pair_le_squares(v.x, v.y);
    lemma_pair_le_squares(v.y, v.z);
    lemma_pair_le_squares(v.z, v.x);
}

/// `|a b| <= a^2 + b^2`.
proof fn lemma_pair_le_squares(a: int, b: int)
    ensures
        abs(a * b) <= a * a + b * b,
{
    let d = a - b;
    let e = a + b;
    assert(d * d >= 0 && e * e >= 0 && a * a >= 0 && b * b >= 0) by (nonlinear_arith);
    assert(d * d == a * a - 2 * (a * b) + b * b) by (nonlinear_arith)
        requires
            d == a - b,
    ;
    assert(e * e == a * a + 2 * (a * b) + b * b) by (nonlinear_arith)
        requires
            e == a + b,
    ;
}

/// A dot product with a multiple is the multiple of the dot product.
pub proof fn lemma_dot_times(a: Vec3, b: Vec3, k: int)
    ensures
        a.dot(b.times(k)) == k * a.dot(b),
{
    let px = a.x * b.x;
    let py = a.y * b.y;
    let pz = a.z * b.z;
    assert(a.x * (b.x * k) == k * px) by (nonlinear_arith)
        requires
            px == a.x * b.x,
    ;
    assert(a.y * (b.y * k) == k * py) by (nonlinear_arith)
        requires
            py == a.y * b.y,
    ;
    assert(a.z * (b.z * k) == k * pz) by (nonlinear_arith)
        requires
            pz == a.z * b.z,
    ;
    assert(k * (px + py + pz) == k * px + k * py + k * pz) by (nonlinear_arith);
}

/// Swapping the factors of a cross product turns it round.
pub proof fn lemma_cross_swap(a: Vec3, b: Vec3)
    ensures
        b.cross(a) == a.cross(b).neg(),
{
    assert(b.y * a.z == a.z * b.y && b.z * a.y == a.y * b.z && b.z * a.x == a.x * b.z && b.x
        * a.z == a.z * b.x && b.x * a.y == a.y * b.x && b.y * a.x == a.x * b.y)
        by (nonlinear_arith);
}

/// The cross product of a vector with itself is zero.
pub proof fn lemma_cross_self(a: Vec3)
    ensures
        a.cross(a) == Vec3::zero(),
{
    assert(a.y * a.z == a.z * a.y && a.z * a.x == a.x * a.z && a.x * a.y == a.y * a.x)
        by (nonlinear_arith);
}

/// A vector and its opposite have the same squared length.
pub proof fn lemma_neg_norm2(v: Vec3)
    ensures
        v.neg().norm2() == v.norm2(),
{
    assert((-v.x) * (-v.x) == v.x * v.x && (-v.y) * (-v.y) == v.y * v.y && (-v.z) * (-v.z)
        == v.z * v.z) by (nonlinear_arith);
}

/// The cross product of two vectors is perpendicular to both.
pub proof fn lemma_cross_perpendicular(a: Vec3, b: Vec3)
    ensures
        a.cross(b).dot(a) == 0,
        a.cross(b).dot(b) == 0,
{
    assert((a.y * b.z - a.z * b.y) * a.x + (a.z * b.x - a.x * b.z) * a.y + (a.x * b.y - a.y
        * b.x) * a.z == 0) by (nonlinear_arith);
    assert((a.y * b.z - a.z * b.y) * b.x + (a.z * b.x - a.x * b.z) * b.y + (a.x * b.y - a.y
        * b.x) * b.z == 0) by (nonlinear_arith);
}

/// A dot product with a difference is the difference of the dot products.
pub proof fn lemma_dot_minus(n: Vec3, a: Vec3, b: Vec3)
    ensures
        n.dot(a.minus(b)) == n.dot(a) - n.dot(b),
{
    assert(n.x * (a.x - b.x) == n.x * a.x - n.x * b.x) by (nonlinear_arith);
    assert(n.y * (a.y - b.y) == n.y * a.y - n.y * b.y) by (nonlinear_arith);
    assert(n.z * (a.z - b.z) == n.z * a.z - n.z * b.z) by (nonlinear_arith);
}

/// A dot product with a sum is the sum of the dot products.
pub proof fn lemma_dot_plus(n: Vec3, a: Vec3, b: Vec3)
    ensures
        n.dot(a.plus(b)) == n.dot(a) + n.dot(b),
{
    assert(n.x * (a.x + b.x) == n.x * a.x + n.x * b.x) by (nonlinear_arith);
    assert(n.y * (a.y + b.y) == n.y * a.y + n.y * b.y) by (nonlinear_arith);
    assert(n.z * (a.z + b.z) == n.z * a.z + n.z * b.z) by (nonlinear_arith);
}

/// The factors of a dot product may be swapped.
pub proof fn lemma_dot_swap(a: Vec3, b: Vec3)
    ensures
        a.dot(b) == b.dot(a),
{
    assert(a.x * b.x == b.x * a.x && a.y * b.y == b.y * a.y && a.z * b.z == b.z * a.z)
        by (nonlinear_arith);
}

/// One axis of `lemma_rounded_dot`: with `q = div_round(c, m)`,
/// `2 * |(q * m - c) * e| <= m * |e|`.
proof fn lemma_axis_error(c: int, m: int, e: int)
    requires
        m > 0,
    ensures
        2 * abs((div_round(c, m) * m - c) * e) <= m * abs(e),
{
    lemma_div_round_error(c, m);
    let d = div_round(c, m) * m - c;
    assert(2 * abs(d * e) <= m * abs(e)) by (nonlinear_arith)
        requires
            2 * abs(d) <= m,
            abs(d) == if d < 0 {
                -d
            } else {
                d
            },
            abs(e) == if e < 0 {
                -e
            } else {
                e
            },
            abs(d * e) == if d * e < 0 {
                -(d * e)
            } else {
                d * e
            },
    ;
}

/// Dividing a vector by `m` with rounding moves its dot product with `e` by
/// at most half a unit per axis of `e`:
/// `2 * |m * (c.over(m) . e) - c . e| <= m * (|e.x| + |e.y| + |e.z|)`.
pub proof fn lemma_rounded_dot(c: Vec3, m: int, e: Vec3)
    requires
        m > 0,
    ensures
        2 * abs(m * c.over(m).dot(e) - c.dot(e)) <= m * e.norm1(),
{
    let r = c.over(m);
    let ax = r.x * m;
    let ay = r.y * m;
    let az = r.z * m;
    let dx = ax - c.x;
    let dy = ay - c.y;
    let dz = az - c.z;
    lemma_axis_error(c.x, m, e.x);
    lemma_axis_error(c.y, m, e.y);
    lemma_axis_error(c.z, m, e.z);
    let t = r.dot(e);
    let px = r.x * e.x;
    let py = r.y * e.y;
    let pz = r.z * e.z;
    assert(m * (px + py + pz) == px * m + py * m + pz * m) by (nonlinear_arith);
    assert(px * m == ax * e.x) by (nonlinear_arith)
        requires
            px == r.x * e.x,
            ax == r.x * m,
    ;
    assert(py * m == ay * e.y) by (nonlinear_arith)
        requires
            py == r.y * e.y,
            ay == r.y * m,
    ;
    assert(pz * m == az * e.z) by (nonlinear_arith)
        requires
            pz == r.z * e.z,
            az == r.z * m,
    ;
    assert(dx * e.x == ax * e.x - c.x * e.x) by (nonlinear_arith)
        requires
            dx == ax - c.x,
    ;
    assert(dy * e.y == ay * e.y - c.y * e.y) by (nonlinear_arith)
        requires
            dy == ay - c.y,
    ;
    assert(dz * e.z == az * e.z - c.z * e.z) by (nonlinear_arith)
        requires
            dz == az - c.z,
    ;
    assert(m * t - c.dot(e) == dx * e.x + dy * e.y + dz * e.z);
    assert(m * e.norm1() == m * abs(e.x) + m * abs(e.y) + m * abs(e.z)) by (nonlinear_arith)
        requires
            e.norm1() == abs(e.x) + abs(e.y) + abs(e.z),
    ;
}

/// A squared length is never negative.
pub proof fn lemma_norm2_nonneg(v: Vec3)
    ensures
        v.norm2() >= 0,
{
    assert(v.x * v.x >= 0 && v.y * v.y >= 0 && v.z * v.z >= 0) by (nonlinear_arith);
}

/// Only the zero vector has squared length zero.
pub proof fn lemma_norm2_zero(v: Vec3)
    ensures
        v.norm2() == 0 <==> v == Vec3::zero(),
{
    assert(v.x * v.x >= 0 && v.y * v.y >= 0 && v.z * v.z >= 0) by (nonlinear_arith);
    assert(v.x != 0 ==> v.x * v.x > 0) by (nonlinear_arith);
    assert(v.y != 0 ==> v.y * v.y > 0) by (nonlinear_arith);
    assert(v.z != 0 ==> v.z * v.z > 0) by (nonlinear_arith);
    assert(v.x == 0 ==> v.x * v.x == 0);
    assert(v.y == 0 ==> v.y * v.y == 0);
    assert(v.z == 0 ==> v.z * v.z == 0);
}

/// No component is longer than the integer part of the vector's length.
pub proof fn lemma_component_le_length(v: Vec3)
    ensures
        v.within(isqrt(v.norm2())),
{
    lemma_norm2_nonneg(v);
    lemma_isqrt_exists(v.norm2());
    let m = isqrt(v.norm2());
    assert(v.x * v.x >= 0 && v.y * v.y >= 0 && v.z * v.z >= 0) by (nonlinear_arith);
    lemma_square_below(v.x, m);
    lemma_square_below(v.y, m);
    lemma_square_below(v.z, m);
}

/// An integer whose square is below `(m + 1)^2` is at most `m` in magnitude.
proof fn lemma_square_below(a: int, m: int)
    requires
        m >= 0,
        a * a < (m + 1) * (m + 1),
    ensures
        -m <= a <= m,
{
    if a > m {
        assert(a * a >= (m + 1) * (m + 1)) by (nonlinear_arith)
            requires
                a >= m + 1,
                m >= 0,
        ;
    }
    if a < -m {
        assert(a * a >= (m + 1) * (m + 1)) by (nonlinear_arith)
            requires
                -a >= m + 1,
                m >= 0,
        ;
    }
}

/// A component no longer than `m`, scaled up and divided by `m`, stays
/// within `SCALE`.
proof fn lemma_scaled_component(a: int, m: int)
    requires
        m > 0,
        -m <= a <= m,
    ensures
        abs(SCALE * a) <= SCALE * m,
        -SCALE <= div_round(SCALE * a, m) <= SCALE,
{
    lemma_div_round_bound(SCALE * a, m, SCALE as int);
}

/// The unit vector by whole length of a vector that is not zero has no
/// component beyond `SCALE`.
pub proof fn lemma_whole_length_unit_within(c: Vec3)
    requires
        c != Vec3::zero(),
    ensures
        c.unit_by_whole_length().within(SCALE as int),
        c.unit_by_whole_length().defined(),
{
    lemma_norm2_nonneg(c);
    lemma_norm2_zero(c);
    lemma_isqrt_zero(c.norm2());
    lemma_isqrt_exists(c.norm2());
    lemma_component_le_length(c);
    let m = isqrt(c.norm2());
    lemma_scaled_component(c.x, m);
    lemma_scaled_component(c.y, m);
    lemma_scaled_component(c.z, m);
}

/// One axis of `lemma_unit_length`: with `a = SCALE * c + d`, `|c| <= m` and
/// `2 |d| <= m`, the square of `a` is within `SCALE * m^2 + m^2 / 4` of the
/// square of `SCALE * c`.
proof fn lemma_unit_axis(a: int, c: int, d: int, m: int)
    requires
        m > 0,
        -m <= c <= m,
        2 * abs(d) <= m,
        a == SCALE * c + d,
    ensures
        (SCALE * SCALE) * (c * c) - SCALE * (m * m) <= a * a,
        4 * (a * a) <= 4 * ((SCALE * SCALE) * (c * c)) + 4 * (SCALE * (m * m)) + m * m,
{
    let s = SCALE as int;
    let sc = s * c;
    assert(a * a == sc * sc + 2 * (sc * d) + d * d) by (nonlinear_arith)
        requires
            a == sc + d,
    ;
    assert(sc * sc == (s * s) * (c * c)) by (nonlinear_arith)
        requires
            sc == s * c,
    ;
    lemma_product_within(c, 2 * d, m, m);
    assert(sc * (2 * d) == s * (c * (2 * d))) by (nonlinear_arith)
        requires
            sc == s * c,
    ;
    assert(sc * (2 * d) == 2 * (sc * d)) by (nonlinear_arith);
    let t = c * (2 * d);
    let mm = m * m;
    assert(-(s * mm) <= s * t <= s * mm) by (nonlinear_arith)
        requires
            -mm <= t <= mm,
            s > 0,
    ;
    lemma_product_within(2 * d, 2 * d, m, m);
    assert((2 * d) * (2 * d) == 4 * (d * d)) by (nonlinear_arith);
    assert(d * d >= 0) by (nonlinear_arith);
}

/// A unit vector by whole length has length `SCALE` up to rounding: its
/// squared length is at least `SCALE^2 - 3 * SCALE`, and at most
/// `SCALE^2 + 5 * SCALE` where the vector it was made from is at least `SCALE`
/// long.
pub proof fn lemma_whole_length_unit_length(c: Vec3)
    requires
        c != Vec3::zero(),
    ensures
        c.unit_by_whole_length().norm2() >= SCALE * SCALE - 3 * SCALE,
        c.norm2() >= SCALE * SCALE ==> c.unit_by_whole_length().norm2() <= SCALE * SCALE + 5 * SCALE,
{
    let s = SCALE as int;
    lemma_norm2_nonneg(c);
    lemma_norm2_zero(c);
    lemma_isqrt_zero(c.norm2());
    lemma_isqrt_exists(c.norm2());
    lemma_component_le_length(c);
    let n = c.norm2();
    let m = isqrt(n);
    let r = c.unit_by_whole_length();
    let ax = r.x * m;
    let ay = r.y * m;
    let az = r.z * m;
    lemma_div_round_error(s * c.x, m);
    lemma_div_round_error(s * c.y, m);
    lemma_div_round_error(s * c.z, m);
    assert(c.x * s == s * c.x && c.y * s == s * c.y && c.z * s == s * c.z);
    lemma_unit_axis(ax, c.x, ax - s * c.x, m);
    lemma_unit_axis(ay, c.y, ay - s * c.y, m);
    lemma_unit_axis(az, c.z, az - s * c.z, m);
    let mm = m * m;
    let ss = s * s;
    let rr = r.norm2();
    assert(mm > 0) by (nonlinear_arith)
        requires
            m > 0,
            mm == m * m,
    ;
    assert(ax * ax == mm * (r.x * r.x)) by (nonlinear_arith)
        requires
            ax == r.x * m,
            mm == m * m,
    ;
    assert(ay * ay == mm * (r.y * r.y)) by (nonlinear_arith)
        requires
            ay == r.y * m,
            mm == m * m,
    ;
    assert(az * az == mm * (r.z * r.z)) by (nonlinear_arith)
        requires
            az == r.z * m,
            mm == m * m,
    ;
    let qx = r.x * r.x;
    let qy = r.y * r.y;
    let qz = r.z * r.z;
    assert(mm * (qx + qy + qz) == mm * qx + mm * qy + mm * qz) by (nonlinear_arith);
    let cx = c.x * c.x;
    let cy = c.y * c.y;
    let cz = c.z * c.z;
    assert(ss * (cx + cy + cz) == ss * cx + ss * cy + ss * cz) by (nonlinear_arith);
    // mm * rr is the sum of the three squares; ss * n that of the exact ones
    assert(ss * n - 3 * (s * mm) <= mm * rr);
    assert(4 * (mm * rr) <= 4 * (ss * n) + 12 * (s * mm) + 3 * mm);
    assert(ss * n >= ss * mm) by (nonlinear_arith)
        requires
            n >= mm,
            ss >= 0,
    ;
    assert(rr >= ss - 3 * s) by (nonlinear_arith)
        requires
            ss * mm - 3 * (s * mm) <= mm * rr,
            mm > 0,
    ;
    if n >= SCALE * SCALE {
        assert(m >= s) by {
            if m < s {
                assert((m + 1) * (m + 1) <= s * s) by (nonlinear_arith)
                    requires
                        0 <= m,
                        m + 1 <= s,
                ;
            }
        }
        assert(n <= mm + 2 * m) by (nonlinear_arith)
            requires
                n < (m + 1) * (m + 1),
                mm == m * m,
        ;
        assert(ss * n <= ss * mm + 2 * (s * mm)) by (nonlinear_arith)
            requires
                n <= mm + 2 * m,
                m >= s,
                s > 0,
                ss == s * s,
                mm == m * m,
        ;
        assert(4 * rr <= 4 * ss + 20 * s + 3) by (nonlinear_arith)
            requires
                4 * (mm * rr) <= 4 * (ss * mm + 2 * (s * mm)) + 12 * (s * mm) + 3 * mm,
                mm > 0,
        ;
    }
}

/// The squared length of a cross product is the product of the squared
/// lengths less the square of the dot product.
pub proof fn lemma_cross_norm2(a: Vec3, b: Vec3)
    ensures
        a.cross(b).norm2() == a.norm2() * b.norm2() - a.dot(b) * a.dot(b),
{
    let xx = a.x * b.x;
    let xy = a.x * b.y;
    let xz = a.x * b.z;
    let yx = a.y * b.x;
    let yy = a.y * b.y;
    let yz = a.y * b.z;
    let zx = a.z * b.x;
    let zy = a.z * b.y;
    let zz = a.z * b.z;
    let ax = a.x * a.x;
    let ay = a.y * a.y;
    let az = a.z * a.z;
    let bx = b.x * b.x;
    let by = b.y * b.y;
    let bz = b.z * b.z;
    // squares of the mixed products
    lemma_square_of_product(a.x, b.x);
    lemma_square_of_product(a.x, b.y);
    lemma_square_of_product(a.x, b.z);
    lemma_square_of_product(a.y, b.x);
    lemma_square_of_product(a.y, b.y);
    lemma_square_of_product(a.y, b.z);
    lemma_square_of_product(a.z, b.x);
    lemma_square_of_product(a.z, b.y);
    lemma_square_of_product(a.z, b.z);
    // products of the straight products are products of the mixed ones
    lemma_swap_products(a.x, b.x, a.y, b.y);
    lemma_swap_products(a.y, b.y, a.z, b.z);
    lemma_swap_products(a.z, b.z, a.x, b.x);
    assert((ax + ay + az) * (bx + by + bz) == ax * bx + ax * by + ax * bz + ay * bx + ay * by
        + ay * bz + az * bx + az * by + az * bz) by (nonlinear_arith);
    assert((xx + yy + zz) * (xx + yy + zz) == xx * xx + yy * yy + zz * zz + 2 * (xx * yy) + 2
        * (yy * zz) + 2 * (zz * xx)) by (nonlinear_arith);
    assert((yz - zy) * (yz - zy) == yz * yz + zy * zy - 2 * (yz * zy)) by (nonlinear_arith);
    assert((zx - xz) * (zx - xz) == zx * zx + xz * xz - 2 * (zx * xz)) by (nonlinear_arith);
    assert((xy - yx) * (xy - yx) == xy * xy + yx * yx - 2 * (xy * yx)) by (nonlinear_arith);
}

/// `(a b)^2 = a^2 b^2`.
proof fn lemma_square_of_product(a: int, b: int)
    ensures
        (a * b) * (a * b) == (a * a) * (b * b),
{
    assert((a * b) * (a * b) == (a * a) * (b * b)) by (nonlinear_arith);
}

/// `(a b) (c d) = (a d) (c b)`.
proof fn lemma_swap_products(a: int, b: int, c: int, d: int)
    ensures
        (a * b) * (c * d) == (a * d) * (c * b),
{
    assert((a * b) * (c * d) == (a * d) * (c * b)) by (nonlinear_arith);
}

/// The cross product of two vectors that are long enough and far enough from
/// parallel is at least `SCALE` long.
pub proof fn lemma_cross_long(a: Vec3, b: Vec3, l: int, k: int)
    requires
        a.norm2() >= l,
        b.norm2() >= l,
        abs(a.dot(b)) <= k,
        l >= 0,
        l * l - k * k >= SCALE * SCALE,
    ensures
        a.cross(b).norm2() >= SCALE * SCALE,
{
    lemma_cross_norm2(a, b);
    let p = a.norm2();
    let q = b.norm2();
    let d = a.dot(b);
    assert(p * q >= l * l) by (nonlinear_arith)
        requires
            p >= l,
            q >= l,
            l >= 0,
    ;
    assert(d * d <= k * k) by (nonlinear_arith)
        requires
            -k <= d <= k,
    ;
}

/// No component of a vector whose squared length is below `(b + 1)^2` is
/// beyond `b`.
pub proof fn lemma_components_below(v: Vec3, b: int)
    requires
        b >= 0,
    ensures
        v.norm2() < (b + 1) * (b + 1) ==> v.within(b),
{
    assert(v.x * v.x >= 0 && v.y * v.y >= 0 && v.z * v.z >= 0) by (nonlinear_arith);
    if v.norm2() < (b + 1) * (b + 1) {
        lemma_square_below(v.x, b);
        lemma_square_below(v.y, b);
        lemma_square_below(v.z, b);
    }
}

/// A multiple of a vector has the squared length of the vector times the
/// square of the factor.
pub proof fn lemma_times_norm2(v: Vec3, k: int)
    ensures
        v.times(k).norm2() == (k * k) * v.norm2(),
{
    let xx = v.x * v.x;
    let yy = v.y * v.y;
    let zz = v.z * v.z;
    assert((v.x * k) * (v.x * k) == (k * k) * xx) by (nonlinear_arith)
        requires
            xx == v.x * v.x,
    ;
    assert((v.y * k) * (v.y * k) == (k * k) * yy) by (nonlinear_arith)
        requires
            yy == v.y * v.y,
    ;
    assert((v.z * k) * (v.z * k) == (k * k) * zz) by (nonlinear_arith)
        requires
            zz == v.z * v.z,
    ;
    assert((k * k) * (xx + yy + zz) == (k * k) * xx + (k * k) * yy + (k * k) * zz)
        by (nonlinear_arith);
}

/// A vector that is not zero, enlarged by its gain, is not zero and at least
/// `UNIT_SQUARED` long.
pub proof fn lemma_gain(c: Vec3)
    requires
        c != Vec3::zero(),
    ensures
        c.times(gain(c.norm2())) != Vec3::zero(),
        c.times(gain(c.norm2())).norm2() >= UNIT_FOURTH,
        gain(c.norm2()) > 0,
{
    lemma_norm2_nonneg(c);
    lemma_norm2_zero(c);
    let n = c.norm2();
    let k = gain(n);
    lemma_times_norm2(c, k);
    assert((k * k) * n >= UNIT_FOURTH) by (nonlinear_arith)
        requires
            n >= 1,
            (k == 1_000_000_000_000 && n >= 1) || (k == 1_000_000 && n >= 1_000_000_000_000) || (k
                == 1 && n >= 1_000_000_000_000_000_000_000_000),
            UNIT_FOURTH == 1_000_000_000_000_000_000_000_000,
    ;
    lemma_norm2_zero(c.times(k));
}

/// The unit vector of a vector that is not zero has a value in every
/// component, and none beyond `SCALE`.
pub proof fn lemma_unit_within(c: Vec3)
    requires
        c != Vec3::zero(),
    ensures
        c.unit().within(SCALE as int),
        c.unit().defined(),
{
    lemma_gain(c);
    lemma_whole_length_unit_within(c.times(gain(c.norm2())));
}

/// A unit vector has length `SCALE` up to rounding: its squared length is at
/// least `SCALE^2 - 3 * SCALE` and at most `SCALE^2 + 5 * SCALE`.
pub proof fn lemma_unit_length(c: Vec3)
    requires
        c != Vec3::zero(),
    ensures
        SCALE * SCALE - 3 * SCALE <= c.unit().norm2() <= SCALE * SCALE + 5 * SCALE,
{
    lemma_gain(c);
    lemma_whole_length_unit_length(c.times(gain(c.norm2())));
}

/// The unit vector of the opposite vector is the opposite unit vector.
pub proof fn lemma_unit_neg(c: Vec3)
    requires
        c != Vec3::zero(),
    ensures
        c.neg().unit() == c.unit().neg(),
{
    lemma_neg_norm2(c);
    lemma_gain(c);
    let k = gain(c.norm2());
    let b = c.times(k);
    assert(c.neg().times(k) == b.neg()) by {
        assert((-c.x) * k == -(c.x * k) && (-c.y) * k == -(c.y * k) && (-c.z) * k == -(c.z * k))
            by (nonlinear_arith);
    }
    lemma_neg_norm2(b);
    lemma_norm2_nonneg(b);
    lemma_norm2_zero(b);
    lemma_isqrt_zero(b.norm2());
    lemma_isqrt_exists(b.norm2());
    let m = isqrt(b.norm2());
    let s = SCALE as int;
    lemma_div_round_neg(b.x * s, m);
    lemma_div_round_neg(b.y * s, m);
    lemma_div_round_neg(b.z * s, m);
    assert((-b.x) * s == -(b.x * s) && (-b.y) * s == -(b.y * s) && (-b.z) * s == -(b.z * s));
    assert(b.neg() != Vec3::zero());
}

/// How a unit vector is rounded: with `b` the vector enlarged by its gain and
/// `m` the whole part of the length of `b`, which is at least `UNIT_SQUARED`,
/// each component `r` of the unit vector is the integer nearest to
/// `SCALE * b / m`, so that `2 * |r * m - SCALE * b| <= m`.
pub proof fn lemma_unit_rounding(c: Vec3)
    requires
        c != Vec3::zero(),
    ensures
        ({
            let b = c.times(gain(c.norm2()));
            let m = isqrt(b.norm2());
            let r = c.unit();
            &&& m >= UNIT_SQUARED
            &&& m * m <= b.norm2() < (m + 1) * (m + 1)
            &&& 2 * abs(r.x * m - SCALE * b.x) <= m
            &&& 2 * abs(r.y * m - SCALE * b.y) <= m
            &&& 2 * abs(r.z * m - SCALE * b.z) <= m
        }),
{
    lemma_gain(c);
    let b = c.times(gain(c.norm2()));
    lemma_isqrt_exists(b.norm2());
    let m = isqrt(b.norm2());
    if m < UNIT_SQUARED {
        assert((m + 1) * (m + 1) <= UNIT_SQUARED * UNIT_SQUARED) by (nonlinear_arith)
            requires
                0 <= m,
                m + 1 <= UNIT_SQUARED,
        ;
        assert(UNIT_SQUARED * UNIT_SQUARED == UNIT_FOURTH) by (nonlinear_arith)
            requires
                UNIT_SQUARED == 1_000_000_000_000,
                UNIT_FOURTH == 1_000_000_000_000_000_000_000_000,
        ;
    }
    lemma_div_round_error(b.x * SCALE, m);
    lemma_div_round_error(b.y * SCALE, m);
    lemma_div_round_error(b.z * SCALE, m);
}

/// A unit vector points the way of the vector it was made from: their dot
/// product is positive.
pub proof fn lemma_unit_points_along(c: Vec3)
    requires
        c != Vec3::zero(),
    ensures
        c.unit().dot(c) > 0,
{
    lemma_gain(c);
    lemma_unit_rounding(c);
    let k = gain(c.norm2());
    let b = c.times(k);
    let m = isqrt(b.norm2());
    let r = c.unit();
    lemma_component_le_length(b);
    lemma_rounded_dot(b.times(SCALE as int), m, b);
    lemma_dot_swap(b.times(SCALE as int), b);
    lemma_dot_times(b, b, SCALE as int);
    lemma_dot_times(r, c, k);
    let t = r.dot(b);
    let n = b.norm2();
    let l = b.norm1();
    assert(l <= 3 * m);
    assert(m * l <= 3 * (m * m)) by (nonlinear_arith)
        requires
            l <= 3 * m,
            m >= 0,
    ;
    assert(SCALE * n >= SCALE * (m * m)) by (nonlinear_arith)
        requires
            n >= m * m,
    ;
    assert(m * m > 0) by (nonlinear_arith)
        requires
            m > 0,
    ;
    assert(t > 0) by (nonlinear_arith)
        requires
            m > 0,
            m * t > 0,
    ;
    assert(r.dot(c) > 0) by (nonlinear_arith)
        requires
            k > 0,
            k * r.dot(c) > 0,
    ;
}

} // verus!
