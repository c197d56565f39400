//! Integer building blocks: rounding division, integer square root and
//! comparisons of products that do not fit a machine word.

use vstd::prelude::*;

verus! {

/// Absolute value of a mathematical integer.
pub open spec fn abs(a: int) -> int {
    if a < 0 {
        -a
    } else {
        a
    }
}

/// Sign of a mathematical integer: -1, 0 or 1.
pub open spec fn signum(a: int) -> int {
    if a < 0 {
        -1
    } else if a == 0 {
        0
    } else {
        1
    }
}

/// The quotient `n / d` rounded to the nearest integer, halves away from zero.
pub open spec fn div_round(n: int, d: int) -> int
    recommends
        d > 0,
{
    if n >= 0 {
        (2 * n + d) / (2 * d)
    } else {
        -((2 * (-n) + d) / (2 * d))
    }
}

/// `r` is the integer square root of `n`: the largest integer whose square
/// does not exceed `n`.
pub open spec fn is_isqrt(n: int, r: int) -> bool {
    0 <= r && r * r <= n < (r + 1) * (r + 1)
}

/// The integer square root of `n`, for `n >= 0`.
pub closed spec fn isqrt(n: int) -> int {
    choose|r: int| is_isqrt(n, r)
}

/// At most one integer is the integer square root of `n`.
pub proof fn lemma_isqrt_unique(n: int, r: int, s: int)
    requires
        is_isqrt(n, r),
        is_isqrt(n, s),
    ensures
        r == s,
{
    if r < s {
        assert((r + 1) * (r + 1) <= s * s) by (nonlinear_arith)
            requires
                0 <= r,
                r + 1 <= s,
        ;
    } else if s < r {
        assert((s + 1) * (s + 1) <= r * r) by (nonlinear_arith)
            requires
                0 <= s,
                s + 1 <= r,
        ;
    }
}

/// Whoever exhibits an integer square root of `n` knows `isqrt(n)`.
pub proof fn lemma_isqrt_is(n: int, r: int)
    requires
        is_isqrt(n, r),
    ensures
        isqrt(n) == r,
{
    lemma_isqrt_unique(n, r, isqrt(n));
}

/// Every non-negative integer has an integer square root, and `isqrt` is it.
pub proof fn lemma_isqrt_exists(n: int)
    requires
        n >= 0,
    ensures
        is_isqrt(n, isqrt(n)),
    decreases n,
{
    if n == 0 {
        assert(is_isqrt(0, 0));
    } else {
        lemma_isqrt_exists(n - 1);
        let r = isqrt(n - 1);
        if (r + 1) * (r + 1) <= n {
            assert((r + 1) * (r + 1) == n);
            assert(n < (r + 2) * (r + 2)) by (nonlinear_arith)
                requires
                    (r + 1) * (r + 1) == n,
                    r >= 0,
            ;
            assert(is_isqrt(n, r + 1));
        } else {
            assert(is_isqrt(n, r));
        }
    }
}

/// `isqrt` vanishes exactly at zero.
pub proof fn lemma_isqrt_zero(n: int)
    requires
        n >= 0,
    ensures
        isqrt(n) == 0 <==> n == 0,
{
    lemma_isqrt_exists(n);
    let r = isqrt(n);
    if n == 0 {
        assert(is_isqrt(0, 0));
        lemma_isqrt_unique(0, 0, r);
    } else if r == 0 {
        assert((r + 1) * (r + 1) == 1) by (nonlinear_arith)
            requires
                r == 0,
        ;
    }
}

/// The rounded quotient misses the true quotient by at most one half:
/// `2 * |q * d - n| <= d`.
pub proof fn lemma_div_round_error(n: int, d: int)
    requires
        d > 0,
    ensures
        2 * abs(div_round(n, d) * d - n) <= d,
{
    let m = abs(n);
    let q = (2 * m + d) / (2 * d);
    let r = (2 * m + d) % (2 * d);
    assert(2 * m + d == (2 * d) * q + r && 0 <= r < 2 * d) by (nonlinear_arith)
        requires
            d > 0,
            q == (2 * m + d) / (2 * d),
            r == (2 * m + d) % (2 * d),
    ;
    assert((2 * d) * q == 2 * (q * d)) by (nonlinear_arith);
    // 2 (q d - m) == d - r, with -d < d - r <= d
    if n >= 0 {
        assert(div_round(n, d) == q);
    } else {
        assert(div_round(n, d) == -q);
        assert((-q) * d == -(q * d)) by (nonlinear_arith);
    }
}

/// Rounding commutes with turning the numerator round.
pub proof fn lemma_div_round_neg(n: int, d: int)
    requires
        d > 0,
    ensures
        div_round(-n, d) == -div_round(n, d),
{
    if n == 0 {
        assert((2 * 0 + d) / (2 * d) == 0) by (nonlinear_arith)
            requires
                d > 0,
        ;
    }
}

/// A numerator within `b * d` in size rounds to a quotient within `b`.
pub proof fn lemma_div_round_bound(n: int, d: int, b: int)
    requires
        d > 0,
        b >= 0,
        abs(n) <= b * d,
    ensures
        abs(div_round(n, d)) <= b,
{
    let m = abs(n);
    let q = (2 * m + d) / (2 * d);
    let r = (2 * m + d) % (2 * d);
    assert(2 * m + d == (2 * d) * q + r && 0 <= r < 2 * d) by (nonlinear_arith)
        requires
            d > 0,
            q == (2 * m + d) / (2 * d),
            r == (2 * m + d) % (2 * d),
    ;
    assert(q <= b) by (nonlinear_arith)
        requires
            2 * m + d == (2 * d) * q + r,
            0 <= r,
            m <= b * d,
            d > 0,
            b >= 0,
    ;
    assert(q >= 0) by (nonlinear_arith)
        requires
            2 * m + d == (2 * d) * q + r,
            r < 2 * d,
            m >= 0,
            d > 0,
    ;
}

/// An integer within less than half of the true quotient is the rounded
/// quotient.
pub proof fn lemma_div_round_is(n: int, d: int, q: int)
    requires
        d > 0,
        2 * abs(q * d - n) < d,
    ensures
        div_round(n, d) == q,
{
    if n >= 0 {
        let r = d - 2 * (q * d - n);
        assert(2 * n + d == q * (2 * d) + r) by (nonlinear_arith)
            requires
                r == d - 2 * (q * d - n),
        ;
        vstd::arithmetic::div_mod::lemma_fundamental_div_mod_converse(2 * n + d, 2 * d, q, r);
    } else {
        let r = d + 2 * (q * d - n);
        assert(2 * (-n) + d == (-q) * (2 * d) + r) by (nonlinear_arith)
            requires
                r == d + 2 * (q * d - n),
        ;
        vstd::arithmetic::div_mod::lemma_fundamental_div_mod_converse(
            2 * (-n) + d,
            2 * d,
            -q,
            r,
        );
    }
}

/// A multiple of the divisor divides without rounding.
pub proof fn lemma_div_round_exact(k: int, d: int)
    requires
        d > 0,
    ensures
        div_round(k * d, d) == k,
{
    lemma_div_round_is(k * d, d, k);
}

/// Magnitude of a signed machine integer.
pub fn magnitude(a: i128) -> (r: u128)
    requires
        a > i128::MIN,
    ensures
        r == abs(a as int),
{
    if a < 0 {
        (-a) as u128
    } else {
        a as u128
    }
}

/// Computes `div_round(n, d)` for a positive divisor.
pub fn div_round_exec(n: i128, d: i128) -> (q: i128)
    requires
        d > 0,
        2 * abs(n as int) + d <= i128::MAX,
    ensures
        q == div_round(n as int, d as int),
{
    let m: u128 = magnitude(n);
    let num: u128 = 2 * m + (d as u128);
    let den: u128 = 2 * (d as u128);
    let q: u128 = num / den;
    proof {
        assert(q <= num) by (nonlinear_arith)
            requires
                q == num / den,
                den > 0,
        ;
    }
    if n >= 0 {
        q as i128
    } else {
        -(q as i128)
    }
}

/// Computes the integer square root by bisection.
pub fn isqrt_exec(n: u128) -> (r: u64)
    ensures
        r == isqrt(n as int),
        is_isqrt(n as int, r as int),
{
    let mut lo: u128 = 0;
    let mut hi: u128 = 0x1_0000_0000_0000_0000;
    while hi - lo > 1
        invariant
            lo < hi <= 0x1_0000_0000_0000_0000,
            lo * lo <= n,
            n < hi * hi,
        decreases hi - lo,
    {
        let mid: u128 = lo + (hi - lo) / 2;
        assert(mid * mid <= 0xffff_ffff_ffff_ffff * 0xffff_ffff_ffff_ffff) by (nonlinear_arith)
            requires
                mid <= 0xffff_ffff_ffff_ffff,
        ;
        if mid * mid <= n {
            lo = mid;
        } else {
            hi = mid;
        }
    }
    proof {
        lemma_isqrt_is(n as int, lo as int);
    }
    lo as u64
}

/// Two to the power 64.
pub open spec fn pow64() -> int {
    0x1_0000_0000_0000_0000
}

/// Two to the power 128.
pub open spec fn pow128() -> int {
    0x1_0000_0000_0000_0000_0000_0000_0000_0000int
}

/// The value of a double word: `hi * 2^128 + lo`.
pub open spec fn wide(hi: u128, lo: u128) -> int {
    hi * pow128() + lo
}

/// The product of four half words, reassembled.
proof fn lemma_split_product(a1: int, a0: int, b1: int, b0: int, k: int)
    ensures
        (a1 * k + a0) * (b1 * k + b0) == (a1 * b1) * (k * k) + (a0 * b1 + a1 * b0) * k + a0
            * b0,
{
    let x = a1 * k;
    let y = b1 * k;
    assert((x + a0) * (y + b0) == x * y + x * b0 + a0 * y + a0 * b0) by (nonlinear_arith);
    assert(x * y == (a1 * b1) * (k * k)) by (nonlinear_arith)
        requires
            x == a1 * k,
            y == b1 * k,
    ;
    assert(x * b0 == (a1 * b0) * k) by (nonlinear_arith)
        requires
            x == a1 * k,
    ;
    assert(a0 * y == (a0 * b1) * k) by (nonlinear_arith)
        requires
            y == b1 * k,
    ;
    assert((a0 * b1 + a1 * b0) * k == (a0 * b1) * k + (a1 * b0) * k) by (nonlinear_arith);
}

/// Full product of two words, as a double word.
pub fn mul_wide(a: u128, b: u128) -> (r: (u128, u128))
    ensures
        wide(r.0, r.1) == a * b,
{
    let k: u128 = 0x1_0000_0000_0000_0000;
    let a0: u128 = a % k;
    let a1: u128 = a / k;
    let b0: u128 = b % k;
    let b1: u128 = b / k;
    proof {
        let m: int = 0xffff_ffff_ffff_ffff;
        assert(a0 * b0 <= m * m && a0 * b1 <= m * m && a1 * b0 <= m * m && a1 * b1 <= m * m)
            by (nonlinear_arith)
            requires
                a0 <= m,
                a1 <= m,
                b0 <= m,
                b1 <= m,
                m >= 0,
        ;
        assert(m * m == 0xffff_ffff_ffff_fffe_0000_0000_0000_0001) by (nonlinear_arith)
            requires
                m == 0xffff_ffff_ffff_ffff,
        ;
    }
    let p00: u128 = a0 * b0;
    let p01: u128 = a0 * b1;
    let p10: u128 = a1 * b0;
    let p11: u128 = a1 * b1;
    let t: u128 = p00 / k + p01 % k + p10 % k;
    let lo: u128 = p00 % k + (t % k) * k;
    let hi: u128 = p11 + p01 / k + p10 / k + t / k;
    proof {
        let ki: int = k as int;
        lemma_split_product(a1 as int, a0 as int, b1 as int, b0 as int, ki);
        assert(a as int == a1 * ki + a0);
        assert(b as int == b1 * ki + b0);
        assert(ki * ki == 0x1_0000_0000_0000_0000_0000_0000_0000_0000int) by (nonlinear_arith)
            requires
                ki == 0x1_0000_0000_0000_0000,
        ;
        let q01: int = (p01 / k) as int;
        let r01: int = (p01 % k) as int;
        let q10: int = (p10 / k) as int;
        let r10: int = (p10 % k) as int;
        let q00: int = (p00 / k) as int;
        let r00: int = (p00 % k) as int;
        let qt: int = (t / k) as int;
        let rt: int = (t % k) as int;
        assert(p01 as int == q01 * ki + r01);
        assert(p10 as int == q10 * ki + r10);
        assert(p00 as int == q00 * ki + r00);
        assert(t as int == qt * ki + rt);
        assert((p11 + q01 + q10 + qt) * (ki * ki) + (r00 + rt * ki) == p11 * (ki * ki) + (q01
            * ki + r01 + q10 * ki + r10) * ki + (q00 * ki + r00)) by (nonlinear_arith)
            requires
                q00 + r01 + r10 == qt * ki + rt,
        ;
    }
    (hi, lo)
}

/// Decides `a * b <= c * d` without overflow.
pub fn product_le(a: u128, b: u128, c: u128, d: u128) -> (r: bool)
    ensures
        r == (a * b <= c * d),
{
    let x = mul_wide(a, b);
    let y = mul_wide(c, d);
    proof {
        assert(x.0 < y.0 ==> wide(x.0, x.1) < wide(y.0, y.1)) by (nonlinear_arith)
            requires
                x.1 < pow128(),
                y.1 >= 0,
                pow128() > 0,
        ;
        assert(x.0 > y.0 ==> wide(x.0, x.1) > wide(y.0, y.1)) by (nonlinear_arith)
            requires
                y.1 < pow128(),
                x.1 >= 0,
                pow128() > 0,
        ;
    }
    x.0 < y.0 || (x.0 == y.0 && x.1 <= y.1)
}

/// Decides `a * b + c * d >= 0` without overflow.
pub fn sum_of_products_is_nonneg(a: i128, b: i128, c: i128, d: i128) -> (r: bool)
    requires
        a > i128::MIN,
        b > i128::MIN,
        c > i128::MIN,
        d > i128::MIN,
    ensures
        r == (a * b + c * d >= 0),
{
    let first_neg: bool = (a < 0 && b > 0) || (a > 0 && b < 0);
    let second_neg: bool = (c < 0 && d > 0) || (c > 0 && d < 0);
    proof {
        lemma_product_magnitude(a as int, b as int);
        lemma_product_magnitude(c as int, d as int);
    }
    if !first_neg && !second_neg {
        true
    } else if first_neg && second_neg {
        false
    } else if first_neg {
        product_le(magnitude(a), magnitude(b), magnitude(c), magnitude(d))
    } else {
        product_le(magnitude(c), magnitude(d), magnitude(a), magnitude(b))
    }
}

/// A product is negative exactly when its factors have opposite signs, and its
/// magnitude is the product of theirs.
pub proof fn lemma_product_magnitude(a: int, b: int)
    ensures
        a * b < 0 <==> (a < 0 && b > 0) || (a > 0 && b < 0),
        abs(a * b) == abs(a) * abs(b),
{
    assert((a * b < 0 <==> (a < 0 && b > 0) || (a > 0 && b < 0)) && abs(a * b) == abs(a) * abs(
        b,
    )) by (nonlinear_arith)
        requires
            abs(a) == if a < 0 {
                -a
            } else {
                a
            },
            abs(b) == if b < 0 {
                -b
            } else {
                b
            },
            abs(a * b) == if a * b < 0 {
                -(a * b)
            } else {
                a * b
            },
    ;
}

} // verus!
