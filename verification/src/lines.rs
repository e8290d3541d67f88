//! Line rasterizers: DDA, the two Bresenham variants (real-valued and integer
//! error term), and their exact pixel-sequence specifications. On the integer
//! grid both Bresenham variants realize the same mathematical sequence: the
//! real-valued error term, scaled by twice the major-axis length, is the
//! integer decision variable, and the scaling keeps every sign test exact.

use vstd::prelude::*;

use crate::geom::abs_int;
use crate::geom::cheb_pair;
use crate::geom::in_range;
use crate::geom::lemma_mul_bounds;
use crate::geom::max_int;
use crate::geom::pt_pair;
use crate::geom::pts_view;
use crate::geom::round_div;
use crate::geom::round_div_i64;
use crate::geom::sign_int;
use crate::geom::Point;

verus! {

/// The pixels of the DDA rasterizer: l = max(|dx|, |dy|) steps, the i-th
/// pixel being the exact rounding of (x1 + i*dx/l, y1 + i*dy/l).
/// A degenerate segment yields the single rounded endpoint.
pub open spec fn dda_pixels(p1: Point, p2: Point) -> Seq<(int, int)> {
    let x1 = p1.x as int;
    let y1 = p1.y as int;
    let dx = p2.x - p1.x;
    let dy = p2.y - p1.y;
    if dx == 0 && dy == 0 {
        seq![(x1, y1)]
    } else {
        let l = max_int(abs_int(dx), abs_int(dy));
        Seq::new(
            l as nat,
            |i: int| (round_div(x1 * l + i * dx, l), round_div(y1 * l + i * dy, l)),
        )
    }
}

/// The minor-axis offset of the i-th Bresenham pixel: the number of minor
/// steps taken before step i, which is the rounding (ties up) of i*b/a.
pub open spec fn bres_minor(i: int, a: int, b: int) -> int {
    (2 * i * b + a) / (2 * a)
}

/// The pixels of the Bresenham rasterizer (both the integer and the
/// real-valued error form): one pixel per major-axis step, the minor
/// coordinate advancing by the accumulated decision count.
pub open spec fn bres_pixels(p1: Point, p2: Point) -> Seq<(int, int)> {
    let x1 = p1.x as int;
    let y1 = p1.y as int;
    let dx = p2.x - p1.x;
    let dy = p2.y - p1.y;
    if dx == 0 && dy == 0 {
        seq![(x1, y1)]
    } else {
        let sx = sign_int(dx);
        let sy = sign_int(dy);
        let ax = abs_int(dx);
        let ay = abs_int(dy);
        if ax > ay {
            Seq::new(ax as nat, |i: int| (x1 + i * sx, y1 + sy * bres_minor(i, ax, ay)))
        } else {
            Seq::new(ay as nat, |i: int| (x1 + sx * bres_minor(i, ay, ax), y1 + i * sy))
        }
    }
}

/// One decision step of the Bresenham recurrence: with e the decision
/// variable at step i, the minor offset grows by one exactly when e >= 0.
pub proof fn lemma_bres_step(i: int, a: int, b: int)
    requires
        1 <= a,
        0 <= b <= a,
        0 <= i,
    ensures
        bres_minor(i + 1, a, b) == bres_minor(i, a, b) + (
        if 2 * (i + 1) * b - a - 2 * a * bres_minor(i, a, b) >= 0 {
            1int
        } else {
            0int
        }),
        bres_minor(0, a, b) == 0,
        0 <= bres_minor(i, a, b) <= i,
{
    let k = bres_minor(i, a, b);
    vstd::arithmetic::div_mod::lemma_fundamental_div_mod(2 * i * b + a, 2 * a);
    vstd::arithmetic::div_mod::lemma_mod_bound(2 * i * b + a, 2 * a);
    let r = (2 * i * b + a) % (2 * a);
    assert(2 * i * b + a == 2 * a * k + r);
    assert(2 * (i + 1) * b == 2 * i * b + 2 * b) by (nonlinear_arith);
    let e = 2 * (i + 1) * b - a - 2 * a * k;
    assert(e == r + 2 * b - 2 * a);
    if e >= 0 {
        assert(2 * (i + 1) * b + a == 2 * a * (k + 1) + (r + 2 * b - 2 * a)) by (nonlinear_arith)
            requires
                2 * i * b + a == 2 * a * k + r,
                2 * (i + 1) * b == 2 * i * b + 2 * b,
        ;
        vstd::arithmetic::div_mod::lemma_fundamental_div_mod_converse(
            2 * (i + 1) * b + a,
            2 * a,
            k + 1,
            r + 2 * b - 2 * a,
        );
    } else {
        vstd::arithmetic::div_mod::lemma_fundamental_div_mod_converse(
            2 * (i + 1) * b + a,
            2 * a,
            k,
            r + 2 * b,
        );
    }
    // bounds: 0 <= k <= i
    assert(a <= 2 * i * b + a <= 2 * a * i + a) by (nonlinear_arith)
        requires
            0 <= b <= a,
            0 <= i,
    ;
    assert(k >= 0) by {
        if k < 0 {
            assert(2 * a * k <= -2 * a) by (nonlinear_arith)
                requires
                    a >= 1,
                    k <= -1,
            ;
        }
    }
    assert(k <= i) by {
        if k > i {
            assert(2 * a * k >= 2 * a * i + 2 * a) by (nonlinear_arith)
                requires
                    a >= 1,
                    k >= i + 1,
            ;
        }
    }
    vstd::arithmetic::div_mod::lemma_fundamental_div_mod_converse(0 * b * 2 + a, 2 * a, 0, a);
}

/// Law: a degenerate segment (both endpoints equal) rasterizes to exactly
/// one pixel, the endpoint itself, under DDA and both Bresenham variants.
pub proof fn lemma_degenerate_line(p: Point)
    ensures
        dda_pixels(p, p) =~= seq![pt_pair(p)],
        bres_pixels(p, p) =~= seq![pt_pair(p)],
{
}

/// Law: for a non-degenerate segment the Bresenham rasterizers emit exactly
/// max(|dx|, |dy|) pixels, and consecutive pixels are 8-connected
/// (Chebyshev distance exactly 1).
pub proof fn lemma_bresenham_count_connected(p1: Point, p2: Point)
    requires
        !(p1.x == p2.x && p1.y == p2.y),
    ensures
        bres_pixels(p1, p2).len() == max_int(abs_int(p2.x - p1.x), abs_int(p2.y - p1.y)),
        forall|i: int|
            0 <= i < bres_pixels(p1, p2).len() - 1 ==> #[trigger] cheb_pair(
                bres_pixels(p1, p2)[i],
                bres_pixels(p1, p2)[i + 1],
            ) == 1,
{
    let dx = p2.x - p1.x;
    let dy = p2.y - p1.y;
    let sx = sign_int(dx);
    let sy = sign_int(dy);
    let ax = abs_int(dx);
    let ay = abs_int(dy);
    let s = bres_pixels(p1, p2);
    assert forall|i: int| 0 <= i < s.len() - 1 implies #[trigger] cheb_pair(s[i], s[i + 1])
        == 1 by {
        if ax > ay {
            lemma_bres_step(i, ax, ay);
            let k = bres_minor(i, ax, ay);
            let k1 = bres_minor(i + 1, ax, ay);
            assert(k1 == k || k1 == k + 1);
            assert(abs_int((i + 1) * sx - i * sx) == 1) by (nonlinear_arith)
                requires
                    sx == 1 || sx == -1,
            ;
            assert(abs_int(sy * k1 - sy * k) <= 1) by (nonlinear_arith)
                requires
                    sy == 1 || sy == -1 || sy == 0,
                    k1 == k || k1 == k + 1,
            ;
        } else {
            lemma_bres_step(i, ay, ax);
            let k = bres_minor(i, ay, ax);
            let k1 = bres_minor(i + 1, ay, ax);
            assert(k1 == k || k1 == k + 1);
            assert(abs_int((i + 1) * sy - i * sy) == 1) by (nonlinear_arith)
                requires
                    sy == 1 || sy == -1,
            ;
            assert(abs_int(sx * k1 - sx * k) <= 1) by (nonlinear_arith)
                requires
                    sx == 1 || sx == -1 || sx == 0,
                    k1 == k || k1 == k + 1,
            ;
        }
    }
}

/// DDA line rasterizer: max(|dx|, |dy|) pixels by exact repeated rounding of
/// the uniform parameter steps.
pub fn dda(points: &[Point; 2]) -> (res: Vec<Point>)
    requires
        in_range(points@[0]),
        in_range(points@[1]),
    ensures
        pts_view(res@) == dda_pixels(points@[0], points@[1]),
{
    let p1 = points[0];
    let p2 = points[1];
    let spec_seq = Ghost(dda_pixels(p1, p2));
    if p1.x == p2.x && p1.y == p2.y {
        let mut res: Vec<Point> = Vec::new();
        res.push(p1);
        proof {
            assert(pts_view(res@) =~= spec_seq@);
        }
        return res;
    }
    let dx = p2.x - p1.x;
    let dy = p2.y - p1.y;
    let ax = if dx >= 0 {
        dx
    } else {
        -dx
    };
    let ay = if dy >= 0 {
        dy
    } else {
        -dy
    };
    let l = if ax >= ay {
        ax
    } else {
        ay
    };
    let mut res: Vec<Point> = Vec::new();
    let mut i: i64 = 0;
    while i < l
        invariant
            0 <= i <= l,
            1 <= l <= 0x8000_0000,
            l == max_int(abs_int(p2.x - p1.x), abs_int(p2.y - p1.y)),
            dx == p2.x - p1.x,
            dy == p2.y - p1.y,
            !(dx == 0 && dy == 0),
            in_range(p1),
            in_range(p2),
            spec_seq@ == dda_pixels(p1, p2),
            pts_view(res@) =~= spec_seq@.subrange(0, i as int),
        decreases l - i,
    {
        proof {
            lemma_mul_bounds(p1.x as int, l as int, 0x4000_0000, 0x8000_0000);
            lemma_mul_bounds(p1.y as int, l as int, 0x4000_0000, 0x8000_0000);
            lemma_mul_bounds(i as int, dx as int, 0x8000_0000, 0x8000_0000);
            lemma_mul_bounds(i as int, dy as int, 0x8000_0000, 0x8000_0000);
        }
        let xn = p1.x * l + i * dx;
        let yn = p1.y * l + i * dy;
        let px = round_div_i64(xn, l);
        let py = round_div_i64(yn, l);
        let ghost old_res = res@;
        res.push(Point { x: px, y: py });
        proof {
            assert(res@ == old_res.push(Point { x: px, y: py }));
            assert(pts_view(res@) =~= pts_view(old_res).push((px as int, py as int)));
            assert(spec_seq@[i as int] == (px as int, py as int));
            assert(pts_view(res@) =~= spec_seq@.subrange(0, i + 1));
        }
        i = i + 1;
    }
    proof {
        assert(pts_view(res@) =~= spec_seq@);
    }
    res
}

/// Shared core of the two Bresenham variants, carrying the decision variable
/// in its integer form e = 2*(i+1)*b - a - 2*a*k.
fn bresenham_core(p1: Point, p2: Point) -> (res: Vec<Point>)
    requires
        in_range(p1),
        in_range(p2),
    ensures
        pts_view(res@) == bres_pixels(p1, p2),
{
    let spec_seq = Ghost(bres_pixels(p1, p2));
    if p1.x == p2.x && p1.y == p2.y {
        let mut res: Vec<Point> = Vec::new();
        res.push(p1);
        proof {
            assert(pts_view(res@) =~= spec_seq@);
        }
        return res;
    }
    let dx0 = p2.x - p1.x;
    let dy0 = p2.y - p1.y;
    let sx: i64 = if dx0 > 0 {
        1
    } else if dx0 < 0 {
        -1
    } else {
        0
    };
    let sy: i64 = if dy0 > 0 {
        1
    } else if dy0 < 0 {
        -1
    } else {
        0
    };
    let ax = if dx0 >= 0 {
        dx0
    } else {
        -dx0
    };
    let ay = if dy0 >= 0 {
        dy0
    } else {
        -dy0
    };
    let swapped = ax <= ay;
    let a = if swapped {
        ay
    } else {
        ax
    };
    let b = if swapped {
        ax
    } else {
        ay
    };
    let mut x = p1.x;
    let mut y = p1.y;
    let mut e: i64 = 2 * b - a;
    let ghost mut k: int = 0;
    let mut res: Vec<Point> = Vec::new();
    let mut i: i64 = 0;
    proof {
        assert(a >= 1);
        assert(0 * (2 * (a as int)) + a as int == a as int);
        vstd::arithmetic::div_mod::lemma_fundamental_div_mod_converse(
            a as int,
            2 * (a as int),
            0,
            a as int,
        );
        assert(2 * 0 * (b as int) + a as int == a as int) by (nonlinear_arith);
        assert(bres_minor(0, a as int, b as int) == 0);
    }
    while i < a
        invariant
            0 <= i <= a,
            1 <= a <= 0x8000_0000,
            0 <= b <= a,
            !(p1.x == p2.x && p1.y == p2.y),
            sx == sign_int(p2.x - p1.x),
            sy == sign_int(p2.y - p1.y),
            ax == abs_int(p2.x - p1.x),
            ay == abs_int(p2.y - p1.y),
            swapped == (ax <= ay),
            a == if swapped {
                ay
            } else {
                ax
            },
            b == if swapped {
                ax
            } else {
                ay
            },
            in_range(p1),
            in_range(p2),
            k == bres_minor(i as int, a as int, b as int),
            0 <= k <= i,
            e == 2 * (i + 1) * b - a - 2 * a * k,
            -2 * a <= e < 2 * a,
            x == if swapped {
                p1.x + sx * k
            } else {
                p1.x + i * sx
            },
            y == if swapped {
                p1.y + i * sy
            } else {
                p1.y + sy * k
            },
            spec_seq@ == bres_pixels(p1, p2),
            pts_view(res@) =~= spec_seq@.subrange(0, i as int),
        decreases a - i,
    {
        let ghost old_res = res@;
        res.push(Point { x, y });
        proof {
            lemma_bres_step(i as int, a as int, b as int);
            assert(spec_seq@[i as int] == (x as int, y as int));
            assert(res@ == old_res.push(Point { x, y }));
            assert(pts_view(res@) =~= pts_view(old_res).push((x as int, y as int)));
            assert(pts_view(res@) =~= spec_seq@.subrange(0, i + 1));
            lemma_mul_bounds(sy as int, k + 1, 1, i + 1);
            lemma_mul_bounds(sx as int, k + 1, 1, i + 1);
            assert(2 * (i + 2) * b == 2 * (i + 1) * b + 2 * b) by (nonlinear_arith);
            assert(2 * a * (k + 1) == 2 * a * k + 2 * a) by (nonlinear_arith);
            assert(sy * (k + 1) == sy * k + sy) by (nonlinear_arith);
            assert(sx * (k + 1) == sx * k + sx) by (nonlinear_arith);
            assert((i + 1) * sx == i * sx + sx) by (nonlinear_arith);
            assert((i + 1) * sy == i * sy + sy) by (nonlinear_arith);
        }
        if e >= 0 {
            if swapped {
                x = x + sx;
            } else {
                y = y + sy;
            }
            e = e - 2 * a;
            proof {
                k = k + 1;
            }
        }
        if swapped {
            y = y + sy;
        } else {
            x = x + sx;
        }
        e = e + 2 * b;
        i = i + 1;
    }
    proof {
        assert(pts_view(res@) =~= spec_seq@);
    }
    res
}

/// Bresenham rasterizer in the real-valued error form: the error term starts
/// at slope - 1/2 and is sign-tested each step. Carried here exactly, scaled
/// by twice the major-axis length, so the sign tests agree with the reals.
pub fn bresenham_float(points: &[Point; 2]) -> (res: Vec<Point>)
    requires
        in_range(points@[0]),
        in_range(points@[1]),
    ensures
        pts_view(res@) == bres_pixels(points@[0], points@[1]),
{
    bresenham_core(points[0], points[1])
}

/// Bresenham rasterizer in the classic integer form: decision variable
/// initialized to 2*dy - dx and updated by -2*dx / +2*dy.
pub fn bresenham_int(points: &[Point; 2]) -> (res: Vec<Point>)
    requires
        in_range(points@[0]),
        in_range(points@[1]),
    ensures
        pts_view(res@) == bres_pixels(points@[0], points@[1]),
{
    bresenham_core(points[0], points[1])
}

/// Axis un-swap for the steep case of Wu's algorithm.
pub open spec fn wu_unswap(x: int, y: int, steep: bool) -> (int, int) {
    if steep {
        (y, x)
    } else {
        (x, y)
    }
}

/// The full pixel sequence of Wu's algorithm: after normalizing to a shallow
/// left-to-right segment, both endpoints come first at full intensity; then,
/// for each interior major step k, the exact crossing ordinate y1 + k*dy/dx
/// gives two pixels, its floor with intensity 255*fract and the pixel above
/// with the complement, both computed exactly on the fraction (num mod dx)/dx.
pub open spec fn wu_pixels(p1: Point, p2: Point) -> Seq<((int, int), int)> {
    if p1.x == p2.x && p1.y == p2.y {
        seq![((p1.x as int, p1.y as int), 0int)]
    } else {
        let steep = abs_int(p2.y - p1.y) > abs_int(p2.x - p1.x);
        let ax1 = if steep {
            p1.y as int
        } else {
            p1.x as int
        };
        let ay1 = if steep {
            p1.x as int
        } else {
            p1.y as int
        };
        let ax2 = if steep {
            p2.y as int
        } else {
            p2.x as int
        };
        let ay2 = if steep {
            p2.x as int
        } else {
            p2.y as int
        };
        let bx1 = if ax2 < ax1 {
            ax2
        } else {
            ax1
        };
        let by1 = if ax2 < ax1 {
            ay2
        } else {
            ay1
        };
        let bx2 = if ax2 < ax1 {
            ax1
        } else {
            ax2
        };
        let by2 = if ax2 < ax1 {
            ay1
        } else {
            ay2
        };
        let dx = bx2 - bx1;
        let dy = by2 - by1;
        Seq::new(
            (2 * dx) as nat,
            |j: int|
                if j == 0 {
                    (wu_unswap(bx1, by1, steep), 255int)
                } else if j == 1 {
                    (wu_unswap(bx2, by2, steep), 255int)
                } else {
                    let k = j / 2;
                    let num = by1 * dx + k * dy;
                    let yk = num / dx;
                    let fnum = num % dx;
                    if j % 2 == 0 {
                        (wu_unswap(bx1 + k, yk, steep), (255 * fnum) / dx)
                    } else {
                        (wu_unswap(bx1 + k, yk + 1, steep), 255 - (255 * fnum) / dx)
                    }
                },
        )
    }
}

/// 0 <= (255 * r) / d < 255 whenever 0 <= r < d.
proof fn lemma_intensity_range(r: int, d: int)
    requires
        0 <= r < d,
    ensures
        0 <= (255 * r) / d < 255,
{
    let q = (255 * r) / d;
    vstd::arithmetic::div_mod::lemma_fundamental_div_mod(255 * r, d);
    vstd::arithmetic::div_mod::lemma_mod_bound(255 * r, d);
    assert(255 * r >= 0) by (nonlinear_arith)
        requires
            r >= 0,
    ;
    assert(q >= 0) by {
        if q < 0 {
            assert(d * q <= -d) by (nonlinear_arith)
                requires
                    d > 0,
                    q <= -1,
            ;
        }
    }
    assert(q < 255) by {
        if q >= 255 {
            assert(d * q >= 255 * d) by (nonlinear_arith)
                requires
                    d > 0,
                    q >= 255,
            ;
            assert(255 * r <= 255 * d - 255) by (nonlinear_arith)
                requires
                    r <= d - 1,
            ;
        }
    }
}

/// Law: Wu's algorithm conserves coverage. The two endpoint pixels carry
/// maximal intensity, every interior pixel intensity lies in [0, 255], and
/// the two pixels of one interior step sum to exactly 255.
pub proof fn lemma_wu_coverage(p1: Point, p2: Point)
    requires
        !(p1.x == p2.x && p1.y == p2.y),
    ensures
        wu_pixels(p1, p2)[0].1 == 255,
        wu_pixels(p1, p2)[1].1 == 255,
        forall|t: int|
            0 <= t && 2 * t + 3 < wu_pixels(p1, p2).len() ==> #[trigger] wu_pixels(p1, p2)[2 * t
                + 2].1 + wu_pixels(p1, p2)[2 * t + 3].1 == 255,
        forall|j: int|
            0 <= j < wu_pixels(p1, p2).len() ==> 0 <= #[trigger] wu_pixels(p1, p2)[j].1 <= 255,
{
    let s = wu_pixels(p1, p2);
    let steep = abs_int(p2.y - p1.y) > abs_int(p2.x - p1.x);
    let ax1 = if steep {
        p1.y as int
    } else {
        p1.x as int
    };
    let ay1 = if steep {
        p1.x as int
    } else {
        p1.y as int
    };
    let ax2 = if steep {
        p2.y as int
    } else {
        p2.x as int
    };
    let ay2 = if steep {
        p2.x as int
    } else {
        p2.y as int
    };
    let bx1 = if ax2 < ax1 {
        ax2
    } else {
        ax1
    };
    let by1 = if ax2 < ax1 {
        ay2
    } else {
        ay1
    };
    let bx2 = if ax2 < ax1 {
        ax1
    } else {
        ax2
    };
    let by2 = if ax2 < ax1 {
        ay1
    } else {
        ay2
    };
    let dx = bx2 - bx1;
    let dy = by2 - by1;
    assert(dx >= 1);
    assert forall|t: int| 0 <= t && 2 * t + 3 < s.len() implies #[trigger] s[2 * t + 2].1 + s[2 * t
        + 3].1 == 255 by {
        vstd::arithmetic::div_mod::lemma_fundamental_div_mod_converse(2 * t + 2, 2, t + 1, 0);
        vstd::arithmetic::div_mod::lemma_fundamental_div_mod_converse(2 * t + 3, 2, t + 1, 1);
    }
    assert forall|j: int| 0 <= j < s.len() implies 0 <= #[trigger] s[j].1 <= 255 by {
        if j >= 2 {
            let k = j / 2;
            let num = by1 * dx + k * dy;
            vstd::arithmetic::div_mod::lemma_mod_bound(num, dx);
            lemma_intensity_range(num % dx, dx);
        }
    }
}

/// Wu's anti-aliased line rasterizer, on the integer grid with exact
/// fractional coverage: intensities are computed from the exact rational
/// crossing ordinate, so complementary pairs sum to exactly 255.
pub fn wu(points: &[Point; 2]) -> (res: Vec<(Point, u8)>)
    requires
        in_range(points@[0]),
        in_range(points@[1]),
    ensures
        crate::geom::ipts_view(res@) == wu_pixels(points@[0], points@[1]),
{
    let p1 = points[0];
    let p2 = points[1];
    let spec_seq = Ghost(wu_pixels(p1, p2));
    let mut res: Vec<(Point, u8)> = Vec::new();
    if p1.x == p2.x && p1.y == p2.y {
        res.push((p1, 0));
        proof {
            assert(crate::geom::ipts_view(res@) =~= spec_seq@);
        }
        return res;
    }
    let ady = if p2.y >= p1.y {
        p2.y - p1.y
    } else {
        p1.y - p2.y
    };
    let adx = if p2.x >= p1.x {
        p2.x - p1.x
    } else {
        p1.x - p2.x
    };
    let steep = ady > adx;
    let (mut x1, mut y1, mut x2, mut y2) = if steep {
        (p1.y, p1.x, p2.y, p2.x)
    } else {
        (p1.x, p1.y, p2.x, p2.y)
    };
    if x2 < x1 {
        let tx = x1;
        x1 = x2;
        x2 = tx;
        let ty = y1;
        y1 = y2;
        y2 = ty;
    }
    let dx = x2 - x1;
    let dy = y2 - y1;
    if steep {
        res.push((Point { x: y1, y: x1 }, 255));
        res.push((Point { x: y2, y: x2 }, 255));
    } else {
        res.push((Point { x: x1, y: y1 }, 255));
        res.push((Point { x: x2, y: y2 }, 255));
    }
    proof {
        assert(crate::geom::ipts_view(res@) =~= spec_seq@.subrange(0, 2));
    }
    let mut k: i64 = 1;
    while k < dx
        invariant
            1 <= k <= dx || (dx < 1 && k == 1),
            1 <= dx <= 0x8000_0000,
            abs_int(dy as int) <= 0x8000_0000,
            abs_int(x1 as int) <= 0x4000_0000,
            abs_int(y1 as int) <= 0x4000_0000,
            spec_seq@.len() == 2 * dx,
            forall|j: int|
                2 <= j < 2 * dx ==> #[trigger] spec_seq@[j] == {
                    let kk = j / 2;
                    let num = (y1 as int) * dx + kk * dy;
                    let yk = num / (dx as int);
                    let fnum = num % (dx as int);
                    if j % 2 == 0 {
                        (wu_unswap(x1 + kk, yk, steep), (255 * fnum) / (dx as int))
                    } else {
                        (wu_unswap(x1 + kk, yk + 1, steep), 255 - (255 * fnum) / (dx as int))
                    }
                },
            crate::geom::ipts_view(res@) =~= spec_seq@.subrange(0, 2 * k),
        decreases dx - k,
    {
        proof {
            lemma_mul_bounds(y1 as int, dx as int, 0x4000_0000, 0x8000_0000);
            lemma_mul_bounds(k as int, dy as int, 0x8000_0000, 0x8000_0000);
        }
        let num = y1 * dx + k * dy;
        let qr = crate::geom::floor_div_i64(num, dx);
        let yk = qr.0;
        let fnum = qr.1;
        proof {
            lemma_intensity_range(fnum as int, dx as int);
        }
        let i1 = ((255u64 * (fnum as u64)) / (dx as u64)) as u8;
        let i2 = 255 - i1;
        let ghost old_res = res@;
        proof {
            assert(crate::geom::ipts_view(old_res).len() == old_res.len());
            assert(old_res.len() == 2 * (k as int));
        }
        if steep {
            res.push((Point { x: yk, y: x1 + k }, i1));
            res.push((Point { x: yk + 1, y: x1 + k }, i2));
        } else {
            res.push((Point { x: x1 + k, y: yk }, i1));
            res.push((Point { x: x1 + k, y: yk + 1 }, i2));
        }
        proof {
            vstd::arithmetic::div_mod::lemma_fundamental_div_mod_converse(
                2 * (k as int),
                2,
                k as int,
                0,
            );
            vstd::arithmetic::div_mod::lemma_fundamental_div_mod_converse(
                2 * (k as int) + 1,
                2,
                k as int,
                1,
            );
            assert(res@.len() == 2 * (k as int) + 2);
            assert(crate::geom::ipts_view(res@)[2 * (k as int)] == spec_seq@[2 * (k as int)]);
            assert(crate::geom::ipts_view(res@)[2 * (k as int) + 1] == spec_seq@[2 * (k as int)
                + 1]);
            assert(crate::geom::ipts_view(res@) =~= spec_seq@.subrange(0, 2 * (k as int) + 2));
        }
        k = k + 1;
    }
    proof {
        assert(crate::geom::ipts_view(res@) =~= spec_seq@);
    }
    res
}

/// One trace of the constant-intensity-budget ("jaggies-less") Bresenham
/// recurrence, carried exactly: the real-valued weight e and threshold w are
/// scaled by den = 2*dx, so e < w is tested without rounding. Each step
/// emits the current pixel with intensity floor(e), then either advances the
/// major axis (weight grows by m) or moves diagonally (weight drops by w).
pub open spec fn jag_steps(
    x: int,
    y: int,
    sx: int,
    sy: int,
    swapped: bool,
    e: int,
    den: int,
    mm: int,
    ww: int,
    n: nat,
) -> Seq<((int, int), int)>
    decreases n,
{
    if n == 0 {
        Seq::empty()
    } else {
        let pix = ((x, y), e / den);
        if e < ww {
            if !swapped {
                seq![pix] + jag_steps(
                    x + sx,
                    y,
                    sx,
                    sy,
                    swapped,
                    e + mm,
                    den,
                    mm,
                    ww,
                    (n - 1) as nat,
                )
            } else {
                seq![pix] + jag_steps(
                    x,
                    y + sy,
                    sx,
                    sy,
                    swapped,
                    e + mm,
                    den,
                    mm,
                    ww,
                    (n - 1) as nat,
                )
            }
        } else {
            seq![pix] + jag_steps(
                x + sx,
                y + sy,
                sx,
                sy,
                swapped,
                e - ww,
                den,
                mm,
                ww,
                (n - 1) as nat,
            )
        }
    }
}

/// The pixels and intensities of the jaggies-less Bresenham rasterizer:
/// the weight starts at half the intensity budget (255/2, scaled), the
/// slope-proportional increment is m = 255*dy/dx and the threshold
/// w = 255 - m, all carried as exact integers scaled by 2*dx.
pub open spec fn jaggies_pixels(p1: Point, p2: Point) -> Seq<((int, int), int)> {
    if p1.x == p2.x && p1.y == p2.y {
        seq![((p1.x as int, p1.y as int), 0int)]
    } else {
        let dx = p2.x - p1.x;
        let dy = p2.y - p1.y;
        let sx = sign_int(dx);
        let sy = sign_int(dy);
        let ax = abs_int(dx);
        let ay = abs_int(dy);
        let swapped = !(ax > ay);
        let a = if swapped {
            ay
        } else {
            ax
        };
        let b = if swapped {
            ax
        } else {
            ay
        };
        jag_steps(
            p1.x as int,
            p1.y as int,
            sx,
            sy,
            swapped,
            255 * a,
            2 * a,
            510 * b,
            510 * a - 510 * b,
            a as nat,
        )
    }
}

/// The jaggies-less Bresenham rasterizer: one intensity-weighted pixel per
/// major-axis step, reproducing the exact e < w comparison of the
/// real-valued recurrence through integer scaling.
pub fn bresenham_jaggiesless(points: &[Point; 2]) -> (res: Vec<(Point, u8)>)
    requires
        in_range(points@[0]),
        in_range(points@[1]),
    ensures
        crate::geom::ipts_view(res@) == jaggies_pixels(points@[0], points@[1]),
{
    let p1 = points[0];
    let p2 = points[1];
    let spec_seq = Ghost(jaggies_pixels(p1, p2));
    let mut res: Vec<(Point, u8)> = Vec::new();
    if p1.x == p2.x && p1.y == p2.y {
        res.push((p1, 0));
        proof {
            assert(crate::geom::ipts_view(res@) =~= spec_seq@);
        }
        return res;
    }
    let dx0 = p2.x - p1.x;
    let dy0 = p2.y - p1.y;
    let sx: i64 = if dx0 > 0 {
        1
    } else if dx0 < 0 {
        -1
    } else {
        0
    };
    let sy: i64 = if dy0 > 0 {
        1
    } else if dy0 < 0 {
        -1
    } else {
        0
    };
    let ax = if dx0 >= 0 {
        dx0
    } else {
        -dx0
    };
    let ay = if dy0 >= 0 {
        dy0
    } else {
        -dy0
    };
    let swapped = !(ax > ay);
    let a = if swapped {
        ay
    } else {
        ax
    };
    let b = if swapped {
        ax
    } else {
        ay
    };
    let den = 2 * a;
    let mm = 510 * b;
    let ww = 510 * a - 510 * b;
    let mut x = p1.x;
    let mut y = p1.y;
    let mut e: i64 = 255 * a;
    let mut i: i64 = 0;
    while i < a
        invariant
            0 <= i <= a,
            1 <= a <= 0x8000_0000,
            0 <= b <= a,
            sx == -1 || sx == 0 || sx == 1,
            sy == -1 || sy == 0 || sy == 1,
            den == 2 * a,
            mm == 510 * b,
            ww == 510 * a - 510 * b,
            0 <= e < 510 * a,
            abs_int(x as int) <= 0x4000_0000 + i,
            abs_int(y as int) <= 0x4000_0000 + i,
            spec_seq@ =~= crate::geom::ipts_view(res@) + jag_steps(
                x as int,
                y as int,
                sx as int,
                sy as int,
                swapped,
                e as int,
                den as int,
                mm as int,
                ww as int,
                (a - i) as nat,
            ),
        decreases a - i,
    {
        let ghost rest = jag_steps(
            x as int,
            y as int,
            sx as int,
            sy as int,
            swapped,
            e as int,
            den as int,
            mm as int,
            ww as int,
            (a - i) as nat,
        );
        proof {
            // intensity fits in a byte: e/den < 255 since e < 255*den
            let q = (e as int) / (den as int);
            vstd::arithmetic::div_mod::lemma_fundamental_div_mod(e as int, den as int);
            vstd::arithmetic::div_mod::lemma_mod_bound(e as int, den as int);
            assert(q < 255) by {
                if q >= 255 {
                    assert((den as int) * q >= 255 * (den as int)) by (nonlinear_arith)
                        requires
                            den as int > 0,
                            q >= 255,
                    ;
                }
            }
            assert(q >= 0) by {
                if q < 0 {
                    assert((den as int) * q <= -(den as int)) by (nonlinear_arith)
                        requires
                            den as int > 0,
                            q <= -1,
                    ;
                }
            }
        }
        let intensity = ((e as u64) / (den as u64)) as u8;
        let ghost old_res = res@;
        res.push((Point { x, y }, intensity));
        proof {
            assert(crate::geom::ipts_view(old_res).len() == old_res.len());
            assert(crate::geom::ipts_view(res@) =~= crate::geom::ipts_view(old_res).push(
                ((x as int, y as int), intensity as int),
            ));
        }
        let ghost ox = x as int;
        let ghost oy = y as int;
        let ghost oe = e as int;
        if e < ww {
            if !swapped {
                x = x + sx;
            } else {
                y = y + sy;
            }
            e = e + mm;
        } else {
            x = x + sx;
            y = y + sy;
            e = e - ww;
        }
        i = i + 1;
        proof {
            let rest2 = jag_steps(
                x as int,
                y as int,
                sx as int,
                sy as int,
                swapped,
                e as int,
                den as int,
                mm as int,
                ww as int,
                (a - i) as nat,
            );
            assert(rest =~= seq![(((ox, oy), oe / (den as int)))] + rest2);
            assert(spec_seq@ =~= crate::geom::ipts_view(res@) + rest2);
        }
    }
    proof {
        assert(jag_steps(
            x as int,
            y as int,
            sx as int,
            sy as int,
            swapped,
            e as int,
            den as int,
            mm as int,
            ww as int,
            0,
        ) =~= Seq::empty());
        assert(spec_seq@ =~= crate::geom::ipts_view(res@));
    }
    res
}

/// Counts the diagonal moves ("steps") of a pixel sequence: positions whose
/// x and y both changed from the previous pixel.
pub open spec fn spec_count_steps(s: Seq<(int, int)>, upto: int) -> int
    recommends
        0 <= upto <= s.len(),
    decreases upto,
{
    if upto <= 1 {
        0
    } else {
        spec_count_steps(s, upto - 1) + if s[upto - 1].0 != s[upto - 2].0 && s[upto - 1].1 != s[
            upto - 2].1 {
            1int
        } else {
            0int
        }
    }
}

/// Number of diagonal transitions in a rasterized line: the jaggedness
/// measure used to compare rasterizers.
pub fn count_steps(points: &Vec<Point>) -> (n: i64)
    requires
        points@.len() >= 1,
        points@.len() <= 0x1_0000_0000,
    ensures
        n == spec_count_steps(pts_view(points@), points@.len() as int),
{
    let mut n: i64 = 0;
    let mut i: usize = 1;
    while i < points.len()
        invariant
            1 <= i <= points@.len() || (points@.len() <= 1 && i == 1),
            points@.len() <= 0x1_0000_0000,
            n == spec_count_steps(pts_view(points@), if i <= points@.len() {
                i as int
            } else {
                1int
            }),
            0 <= n < i,
        decreases points@.len() - i,
    {
        let prev = points[i - 1];
        let cur = points[i];
        if cur.x != prev.x && cur.y != prev.y {
            n = n + 1;
        }
        i = i + 1;
    }
    n
}

/// The same measure over every second pixel, for rasterizers that emit two
/// pixels per step: position 0, 2, 4, ... are compared pairwise.
pub open spec fn spec_count_steps_half(s: Seq<(int, int)>, upto: int) -> int
    recommends
        0 <= 2 * upto <= s.len() + 1,
    decreases upto,
{
    if upto <= 1 {
        0
    } else {
        spec_count_steps_half(s, upto - 1) + if s[2 * (upto - 1)].0 != s[2 * (upto - 2)].0 && s[2 * (
        upto - 1)].1 != s[2 * (upto - 2)].1 {
            1int
        } else {
            0int
        }
    }
}

/// Diagonal-transition count over the primary pixel of each two-pixel step.
pub fn count_steps_wu(points: &Vec<Point>) -> (n: i64)
    requires
        points@.len() >= 1,
        points@.len() <= 0x1_0000_0000,
    ensures
        n == spec_count_steps_half(pts_view(points@), (points@.len() as int) / 2),
{
    let mut n: i64 = 0;
    let half = points.len() / 2;
    let mut i: usize = 1;
    while i < half
        invariant
            half == points@.len() / 2,
            points@.len() <= 0x1_0000_0000,
            1 <= i <= half || (half <= 1 && i == 1),
            n == spec_count_steps_half(pts_view(points@), if i <= half {
                i as int
            } else {
                1int
            }),
            0 <= n < i,
        decreases half - i,
    {
        let prev = points[2 * (i - 1)];
        let cur = points[2 * i];
        if cur.x != prev.x && cur.y != prev.y {
            n = n + 1;
        }
        i = i + 1;
    }
    n
}

} // verus!
