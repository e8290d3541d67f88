//! Shared geometric ground: integer pixel points, the error taxonomy, exact
//! nearest-integer division (the integer model of rounding a real quotient)
//! and integer square roots, on which the rasterizers and clippers build.

use vstd::prelude::*;

verus! {

/// A point of the integer pixel grid. Continuous inputs are modelled by their
/// grid coordinates; rasterizers and clippers work on these exactly.
#[derive(Clone, Copy, PartialEq, Eq, Structural, Debug)]
pub struct Point {
    pub x: i64,
    pub y: i64,
}

impl Point {
    pub fn new(x: i64, y: i64) -> (p: Point)
        ensures
            p.x == x,
            p.y == y,
    {
        Point { x, y }
    }
}

/// The recoverable error conditions of the library: a non-positive radius,
/// a clip polygon that fails the convexity test, and an operation that needs
/// a closed ring of at least three vertices but was not given one.
#[derive(Clone, Copy, PartialEq, Eq, Structural, Debug)]
pub enum GeomError {
    InvalidRadius,
    NonConvexPolygon,
    UnclosedPolygon,
}

pub open spec fn abs_int(a: int) -> int {
    if a >= 0 {
        a
    } else {
        -a
    }
}

pub open spec fn max_int(a: int, b: int) -> int {
    if a >= b {
        a
    } else {
        b
    }
}

pub open spec fn min_int(a: int, b: int) -> int {
    if a <= b {
        a
    } else {
        b
    }
}

pub open spec fn sign_int(a: int) -> int {
    if a > 0 {
        1int
    } else if a < 0 {
        -1int
    } else {
        0int
    }
}

/// The coordinates of a point as a mathematical pair.
pub open spec fn pt_pair(p: Point) -> (int, int) {
    (p.x as int, p.y as int)
}

/// A pixel sequence as a sequence of mathematical pairs.
pub open spec fn pts_view(s: Seq<Point>) -> Seq<(int, int)> {
    s.map_values(|p: Point| pt_pair(p))
}

/// An intensity-carrying pixel sequence as mathematical pairs and values.
pub open spec fn ipts_view(s: Seq<(Point, u8)>) -> Seq<((int, int), int)> {
    s.map_values(|q: (Point, u8)| ((q.0.x as int, q.0.y as int), q.1 as int))
}

/// Chebyshev distance of two mathematical pairs.
pub open spec fn cheb_pair(a: (int, int), b: (int, int)) -> int {
    max_int(abs_int(a.0 - b.0), abs_int(a.1 - b.1))
}

/// |a * b| <= ba * bb whenever |a| <= ba and |b| <= bb.
pub proof fn lemma_mul_bounds(a: int, b: int, ba: int, bb: int)
    by (nonlinear_arith)
    requires
        abs_int(a) <= ba,
        abs_int(b) <= bb,
    ensures
        abs_int(a * b) <= ba * bb,
{
}

/// The nearest integer to n / d (for d > 0), ties rounded away from zero:
/// the integer model of `f32::round` applied to an exact rational quotient.
pub open spec fn round_div(n: int, d: int) -> int
    recommends
        d > 0,
{
    if n >= 0 {
        (2 * n + d) / (2 * d)
    } else {
        -((2 * (-n) + d) / (2 * d))
    }
}

/// round_div(n, d) differs from the exact quotient n/d by at most one half:
/// -d <= 2*n - 2*d*round_div(n, d) <= d.
pub proof fn lemma_round_div_bounds(n: int, d: int)
    requires
        d > 0,
    ensures
        -d <= 2 * n - 2 * d * round_div(n, d) <= d,
        abs_int(round_div(n, d)) <= abs_int(n),
{
    let m = abs_int(n);
    let q = (2 * m + d) / (2 * d);
    vstd::arithmetic::div_mod::lemma_fundamental_div_mod(2 * m + d, 2 * d);
    vstd::arithmetic::div_mod::lemma_mod_bound(2 * m + d, 2 * d);
    assert(2 * m + d == 2 * d * q + (2 * m + d) % (2 * d));
    // q <= m: 2m + d <= 2dm + 2d - 1 since 2m(1-d) <= 0 <= d - 1
    assert(2 * m + d <= 2 * d * m + 2 * d - 1) by (nonlinear_arith)
        requires
            m >= 0,
            d > 0,
    ;
    assert(q <= m) by {
        if q > m {
            assert(2 * d * q >= 2 * d * m + 2 * d) by (nonlinear_arith)
                requires
                    d > 0,
                    q >= m + 1,
            ;
        }
    }
    assert(q >= 0) by {
        if q < 0 {
            assert(2 * d * q <= -2 * d) by (nonlinear_arith)
                requires
                    d > 0,
                    q <= -1,
            ;
        }
    }
    if n >= 0 {
        assert(round_div(n, d) == q);
    } else {
        assert(round_div(n, d) == -q);
        assert(2 * d * -q == -(2 * d * q)) by (nonlinear_arith);
    }
}

/// Exact nearest-integer division on machine integers.
pub fn round_div_i128(n: i128, d: i128) -> (r: i128)
    requires
        d > 0,
        abs_int(n as int) <= 0x4000_0000_0000_0000_0000_0000_0000_0000,  // 2^126: room for 2n + d
        d <= 0x4000_0000_0000_0000_0000_0000_0000_0000,
    ensures
        r == round_div(n as int, d as int),
        abs_int(r as int) <= abs_int(n as int),
{
    proof {
        lemma_round_div_bounds(n as int, d as int);
    }
    let du = d as u128;
    if n >= 0 {
        let nu = n as u128;
        let q = (2 * nu + du) / (2 * du);
        q as i128
    } else {
        let nu = (-n) as u128;
        let q = (2 * nu + du) / (2 * du);
        -(q as i128)
    }
}

/// Exact nearest-integer division for i64 operands.
pub fn round_div_i64(n: i64, d: i64) -> (r: i64)
    requires
        d > 0,
    ensures
        r == round_div(n as int, d as int),
        abs_int(r as int) <= abs_int(n as int),
{
    let r = round_div_i128(n as i128, d as i128);
    r as i64
}

/// Coordinates accepted by the rasterizers: generous enough for any screen,
/// small enough that every intermediate product fits the machine integers.
pub const COORD_LIMIT: i64 = 0x4000_0000;

/// The point lies within the coordinate range the rasterizers accept.
pub open spec fn in_range(p: Point) -> bool {
    abs_int(p.x as int) <= COORD_LIMIT && abs_int(p.y as int) <= COORD_LIMIT
}

/// |n / d| <= |n| for d > 0 (Euclidean quotient).
pub proof fn lemma_floor_div_magnitude(n: int, d: int)
    requires
        d > 0,
    ensures
        abs_int(n / d) <= abs_int(n),
{
    let q = n / d;
    vstd::arithmetic::div_mod::lemma_fundamental_div_mod(n, d);
    vstd::arithmetic::div_mod::lemma_mod_bound(n, d);
    let r = n % d;
    if n >= 0 {
        assert(q >= 0) by {
            if q < 0 {
                assert(d * q <= -d) by (nonlinear_arith)
                    requires
                        d > 0,
                        q <= -1,
                ;
            }
        }
        assert(q <= n) by {
            if q > n {
                assert(d * q >= d * n + d) by (nonlinear_arith)
                    requires
                        d > 0,
                        q >= n + 1,
                ;
                assert(d * n >= n) by (nonlinear_arith)
                    requires
                        d >= 1,
                        n >= 0,
                ;
            }
        }
    } else {
        assert(q < 0) by {
            if q >= 0 {
                assert(d * q >= 0) by (nonlinear_arith)
                    requires
                        d > 0,
                        q >= 0,
                ;
            }
        }
        assert(q >= n) by {
            if q < n {
                assert(d * q <= d * n - d) by (nonlinear_arith)
                    requires
                        d > 0,
                        q <= n - 1,
                ;
                assert(d * n <= n) by (nonlinear_arith)
                    requires
                        d >= 1,
                        n < 0,
                ;
            }
        }
    }
}

/// Floor division with remainder: n == d*q + r with 0 <= r < d.
/// For d > 0 this is exactly the mathematical (Euclidean) quotient n / d.
pub fn floor_div_i64(n: i64, d: i64) -> (qr: (i64, i64))
    requires
        0 < d,
        n > i64::MIN,
    ensures
        qr.0 == n as int / d as int,
        qr.1 == n as int % d as int,
        n == d * qr.0 + qr.1,
        0 <= qr.1 < d,
        abs_int(qr.0 as int) <= abs_int(n as int),
{
    proof {
        lemma_floor_div_magnitude(n as int, d as int);
    }
    let du = d as u64;
    if n >= 0 {
        let nu = n as u64;
        let q = nu / du;
        let r = nu % du;
        proof {
            vstd::arithmetic::div_mod::lemma_fundamental_div_mod(n as int, d as int);
        }
        (q as i64, r as i64)
    } else {
        let m = (-n) as u64;
        // ceil(m/d), negated, is the floor quotient of -m/d
        let qc = (m + du - 1) / du;
        proof {
            let mi = m as int;
            let di = d as int;
            let qi = (mi + di - 1) / di;
            vstd::arithmetic::div_mod::lemma_fundamental_div_mod(mi + di - 1, di);
            vstd::arithmetic::div_mod::lemma_mod_bound(mi + di - 1, di);
            assert(mi + di - 1 == di * qi + (mi + di - 1) % di);
            assert(0 <= mi + di - 1 - di * qi <= di - 1);
            assert(mi <= mi * di) by (nonlinear_arith)
                requires
                    mi >= 1,
                    di >= 1,
            ;
            assert(qi <= mi) by {
                if qi > mi {
                    assert(di * qi >= di * mi + di) by (nonlinear_arith)
                        requires
                            di > 0,
                            qi >= mi + 1,
                    ;
                    assert(mi * di == di * mi) by (nonlinear_arith);
                }
            }
            assert(qi >= 0) by {
                if qi < 0 {
                    assert(di * qi <= -di) by (nonlinear_arith)
                        requires
                            di > 0,
                            qi <= -1,
                    ;
                }
            }
            assert(di * -qi == -(di * qi)) by (nonlinear_arith);
            assert(0 <= -mi - di * -qi < di);
            vstd::arithmetic::div_mod::lemma_fundamental_div_mod_converse(
                -mi,
                di,
                -qi,
                -mi - di * -qi,
            );
        }
        let q = -(qc as i64);
        let r = (qc * du - m) as i64;
        (q, r)
    }
}

/// r is the integer square root of n: r^2 <= n < (r+1)^2.
pub open spec fn is_isqrt(n: int, r: int) -> bool {
    0 <= r && r * r <= n && n < (r + 1) * (r + 1)
}

pub proof fn lemma_isqrt_unique(n: int, r1: int, r2: int)
    requires
        is_isqrt(n, r1),
        is_isqrt(n, r2),
    ensures
        r1 == r2,
{
    if r1 < r2 {
        assert((r1 + 1) * (r1 + 1) <= r2 * r2) by (nonlinear_arith)
            requires
                0 <= r1,
                r1 < r2,
        ;
    }
    if r2 < r1 {
        assert((r2 + 1) * (r2 + 1) <= r1 * r1) by (nonlinear_arith)
            requires
                0 <= r2,
                r2 < r1,
        ;
    }
}

/// The integer square root as a spec-level function.
pub open spec fn spec_isqrt(n: int) -> int {
    choose|r: int| is_isqrt(n, r)
}

/// spec_isqrt is well defined: every non-negative integer has an integer
/// square root, and spec_isqrt denotes it.
pub proof fn lemma_spec_isqrt(n: int)
    requires
        n >= 0,
    ensures
        is_isqrt(n, spec_isqrt(n)),
    decreases n,
{
    if n == 0 {
        assert(is_isqrt(n, 0));
    } else {
        lemma_spec_isqrt(n - 1);
        let v = spec_isqrt(n - 1);
        if (v + 1) * (v + 1) <= n {
            assert(n < (v + 2) * (v + 2)) by (nonlinear_arith)
                requires
                    v >= 0,
                    n - 1 < (v + 1) * (v + 1),
            ;
            assert(is_isqrt(n, v + 1));
        } else {
            assert(is_isqrt(n, v));
        }
    }
}

/// Floor integer square root, by binary search.
pub fn isqrt_u128(n: u128) -> (r: u128)
    ensures
        is_isqrt(n as int, r as int),
        r == spec_isqrt(n as int),
{
    let mut lo: u128 = 0;
    let mut hi: u128 = if n >= 0xFFFF_FFFF_FFFF_FFFF {
        0x1_0000_0000_0000_0000
    } else {
        n + 1
    };
    proof {
        if n >= 0xFFFF_FFFF_FFFF_FFFF {
            assert((0x1_0000_0000_0000_0000 as int) * (0x1_0000_0000_0000_0000 as int) > u128::MAX
                as int);
        } else {
            assert((n + 1) * (n + 1) > n) by (nonlinear_arith)
                requires
                    n >= 0,
            ;
        }
    }
    while lo + 1 < hi
        invariant
            lo < hi,
            hi <= 0x1_0000_0000_0000_0000,
            lo * lo <= n,
            hi * hi > n,
        decreases hi - lo,
    {
        let mid = lo + (hi - lo) / 2;
        proof {
            assert(mid < hi && mid > lo);
            assert(mid * mid < 0x1_0000_0000_0000_0000 * 0x1_0000_0000_0000_0000)
                by (nonlinear_arith)
                requires
                    mid < 0x1_0000_0000_0000_0000,
            ;
        }
        if mid * mid <= n {
            lo = mid;
        } else {
            hi = mid;
        }
    }
    proof {
        assert(hi == lo + 1);
        assert(is_isqrt(n as int, lo as int));
        lemma_isqrt_unique(n as int, lo as int, spec_isqrt(n as int));
    }
    lo
}

/// The nearest integer to sqrt(m)/d, for m >= 0, d > 0: computed exactly as
/// floor((floor(2*sqrt(m)) + d) / (2*d)), which equals floor((2*sqrt(m) + d)/(2*d)).
pub open spec fn nearest_sqrt_div(m: int, d: int) -> int
    recommends
        m >= 0,
        d > 0,
{
    (spec_isqrt(4 * m) + d) / (2 * d)
}

/// Exact nearest integer to sqrt(m)/d on machine integers.
pub fn nearest_sqrt_div_u128(m: u128, d: u128) -> (r: u128)
    requires
        m <= 0x1000_0000_0000_0000_0000_0000_0000_0000,  // 2^124: room for 4*m
        0 < d <= 0xFFFF_FFFF_FFFF_FFFF,
    ensures
        r == nearest_sqrt_div(m as int, d as int),
        r <= spec_isqrt(4 * m) + d,
{
    let s = isqrt_u128(4 * m);
    proof {
        assert(s as int * s as int <= 4 * (m as int));
        assert(s <= 0x2_0000_0000_0000_0000) by (nonlinear_arith)
            requires
                s as int * s as int <= 4 * (m as int),
                m <= 0x1000_0000_0000_0000_0000_0000_0000_0000,
        ;
    }
    (s + d) / (2 * d)
}

/// The exact rational num/den lies in the closed interval [lo, hi].
pub open spec fn frac_in_range(num: int, den: int, lo: int, hi: int) -> bool
    recommends
        den != 0,
{
    if den > 0 {
        lo * den <= num && num <= hi * den
    } else {
        lo * den >= num && num >= hi * den
    }
}

/// The nearest integer to num/den for den of either sign (ties away from 0).
pub open spec fn round_frac(num: int, den: int) -> int
    recommends
        den != 0,
{
    if den > 0 {
        round_div(num, den)
    } else {
        round_div(-num, -den)
    }
}

pub fn frac_in_range_exec(num: i128, den: i128, lo: i64, hi: i64) -> (r: bool)
    requires
        den != 0,
        abs_int(num as int) <= 0x1000_0000_0000_0000_0000_0000,
        abs_int(den as int) <= 0x1_0000_0000_0000,
        abs_int(lo as int) <= 0x1_0000_0000_0000,
        abs_int(hi as int) <= 0x1_0000_0000_0000,
    ensures
        r == frac_in_range(num as int, den as int, lo as int, hi as int),
{
    proof {
        lemma_mul_bounds(lo as int, den as int, 0x1_0000_0000_0000, 0x1_0000_0000_0000);
        lemma_mul_bounds(hi as int, den as int, 0x1_0000_0000_0000, 0x1_0000_0000_0000);
    }
    if den > 0 {
        (lo as i128) * den <= num && num <= (hi as i128) * den
    } else {
        (lo as i128) * den >= num && num >= (hi as i128) * den
    }
}

pub fn round_frac_exec(num: i128, den: i128) -> (r: i128)
    requires
        den != 0,
        abs_int(num as int) <= 0x4000_0000_0000_0000_0000_0000_0000,
        abs_int(den as int) <= 0x4000_0000_0000_0000_0000_0000_0000,
    ensures
        r == round_frac(num as int, den as int),
        abs_int(r as int) <= abs_int(num as int),
{
    if den > 0 {
        round_div_i128(num, den)
    } else {
        round_div_i128(-num, -den)
    }
}

/// Rounding an exact rational that lies in [lo, hi] gives an integer in
/// [lo, hi]; in particular the rounded intersection stays on the rectangle.
pub proof fn lemma_round_frac_in_range(num: int, den: int, lo: int, hi: int)
    requires
        den != 0,
        frac_in_range(num, den, lo, hi),
    ensures
        lo <= round_frac(num, den) <= hi,
{
    let n = if den > 0 {
        num
    } else {
        -num
    };
    let d = if den > 0 {
        den
    } else {
        -den
    };
    lemma_round_div_bounds(n, d);
    let r = round_div(n, d);
    // lo*d <= n <= hi*d and |2n - 2dr| <= d give lo <= r <= hi
    if den <= 0 {
        assert(lo * d == -(lo * den) && hi * d == -(hi * den)) by (nonlinear_arith)
            requires
                d == -den,
        ;
    }
    assert(lo * d <= n && n <= hi * d);
    assert(lo <= r) by {
        if r < lo {
            assert(2 * d * r <= 2 * d * lo - 2 * d) by (nonlinear_arith)
                requires
                    d > 0,
                    r <= lo - 1,
            ;
            assert(2 * d * lo == 2 * (lo * d)) by (nonlinear_arith);
        }
    }
    assert(r <= hi) by {
        if r > hi {
            assert(2 * d * r >= 2 * d * hi + 2 * d) by (nonlinear_arith)
                requires
                    d > 0,
                    r >= hi + 1,
            ;
            assert(2 * d * hi == 2 * (hi * d)) by (nonlinear_arith);
        }
    }
}

} // verus!
