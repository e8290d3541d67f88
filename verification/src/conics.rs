//! Conic rasterizers: circle drawing by the canonical equation, by the
//! Bresenham decision recurrence and by the midpoint recurrence, each
//! generating one octant and mirroring it through 8-way symmetry; and the
//! ellipse counterparts, quadrant-based, with wide (128-bit) decision
//! variables so that large radii never overflow.

use vstd::prelude::*;

use crate::geom::abs_int;
use crate::geom::in_range;
use crate::geom::nearest_sqrt_div;
use crate::geom::nearest_sqrt_div_u128;
use crate::geom::pts_view;
use crate::geom::spec_isqrt;
use crate::geom::GeomError;
use crate::geom::Point;

verus! {

/// Radii accepted by the conic rasterizers: covers every realistic screen
/// and keeps all decision-variable arithmetic inside the machine integers.
pub const RADIUS_LIMIT: i64 = 100_000;

/// The eight symmetric reflections of one octant point (x, y) about the
/// center, in emission order.
pub open spec fn circle_octet(xc: int, yc: int, x: int, y: int) -> Seq<(int, int)> {
    seq![
        (xc + x, yc + y),
        (xc + y, yc + x),
        (xc - x, yc + y),
        (xc + y, yc - x),
        (xc + x, yc - y),
        (xc - y, yc + x),
        (xc - x, yc - y),
        (xc - y, yc - x),
    ]
}

/// The four symmetric reflections of one quadrant point (x, y) about the
/// center, in emission order.
pub open spec fn ellipse_quad(xc: int, yc: int, x: int, y: int) -> Seq<(int, int)> {
    seq![(xc + x, yc + y), (xc - x, yc + y), (xc + x, yc - y), (xc - x, yc - y)]
}

/// Mirrors one octant point of a circle into all eight octants.
pub fn plot_circle_pixels(x: i64, y: i64, x_c: i64, y_c: i64, pixels: &mut Vec<Point>)
    requires
        abs_int(x as int) <= 0x1000_0000_0000_0000,
        abs_int(y as int) <= 0x1000_0000_0000_0000,
        abs_int(x_c as int) <= 0x1000_0000_0000_0000,
        abs_int(y_c as int) <= 0x1000_0000_0000_0000,
    ensures
        pts_view(final(pixels)@) == pts_view(old(pixels)@) + circle_octet(
            x_c as int,
            y_c as int,
            x as int,
            y as int,
        ),
{
    let ghost base = pixels@;
    pixels.push(Point { x: x_c + x, y: y_c + y });
    pixels.push(Point { x: x_c + y, y: y_c + x });
    pixels.push(Point { x: x_c - x, y: y_c + y });
    pixels.push(Point { x: x_c + y, y: y_c - x });
    pixels.push(Point { x: x_c + x, y: y_c - y });
    pixels.push(Point { x: x_c - y, y: y_c + x });
    pixels.push(Point { x: x_c - x, y: y_c - y });
    pixels.push(Point { x: x_c - y, y: y_c - x });
    proof {
        assert(pts_view(pixels@) =~= pts_view(base) + circle_octet(
            x_c as int,
            y_c as int,
            x as int,
            y as int,
        ));
    }
}

/// Mirrors one quadrant point of an ellipse into all four quadrants.
pub fn plot_ellipse_pixels(x: i64, y: i64, x_c: i64, y_c: i64, pixels: &mut Vec<Point>)
    requires
        abs_int(x as int) <= 0x1000_0000_0000_0000,
        abs_int(y as int) <= 0x1000_0000_0000_0000,
        abs_int(x_c as int) <= 0x1000_0000_0000_0000,
        abs_int(y_c as int) <= 0x1000_0000_0000_0000,
    ensures
        pts_view(final(pixels)@) == pts_view(old(pixels)@) + ellipse_quad(
            x_c as int,
            y_c as int,
            x as int,
            y as int,
        ),
{
    let ghost base = pixels@;
    pixels.push(Point { x: x_c + x, y: y_c + y });
    pixels.push(Point { x: x_c - x, y: y_c + y });
    pixels.push(Point { x: x_c + x, y: y_c - y });
    pixels.push(Point { x: x_c - x, y: y_c - y });
    proof {
        assert(pts_view(pixels@) =~= pts_view(base) + ellipse_quad(
            x_c as int,
            y_c as int,
            x as int,
            y as int,
        ));
    }
}

/// The pixels of the canonical-equation circle rasterizer: x runs from 0 to
/// floor(r / sqrt(2)) + 1, each step emitting the eight reflections of
/// (x, round(sqrt(r^2 - x^2))).
pub open spec fn circle_canonic_pixels(xc: int, yc: int, r: int) -> Seq<(int, int)>
    recommends
        r >= 1,
{
    let xm = spec_isqrt((r * r) / 2);
    Seq::new(
        (8 * (xm + 2)) as nat,
        |j: int|
            {
                let x = j / 8;
                let y = nearest_sqrt_div(r * r - x * x, 1);
                circle_octet(xc, yc, x, y)[j % 8]
            },
    )
}

/// floor(r / sqrt(2)) < r for r >= 1, so every x the canonical rasterizer
/// visits satisfies x <= r.
proof fn lemma_canonic_x_bound(r: int)
    requires
        r >= 1,
    ensures
        0 <= spec_isqrt((r * r) / 2) < r,
        (r * r) / 2 < r * r,
{
    let h = (r * r) / 2;
    vstd::arithmetic::div_mod::lemma_fundamental_div_mod(r * r, 2);
    vstd::arithmetic::div_mod::lemma_mod_bound(r * r, 2);
    assert(r * r >= 1) by (nonlinear_arith)
        requires
            r >= 1,
    ;
    let xm = spec_isqrt(h);
    crate::geom::lemma_spec_isqrt(h);
    assert(xm < r) by {
        if xm >= r {
            assert(xm * xm >= r * r) by (nonlinear_arith)
                requires
                    xm >= r,
                    r >= 1,
            ;
        }
    }
}

/// A circle, ready to be rasterized by any of the drawing algorithms.
pub struct Circle {
    pub center: Point,
    pub radius: i64,
}

impl Circle {
    pub fn new(center: Point, radius: i64) -> (c: Circle)
        ensures
            c.center == center,
            c.radius == radius,
    {
        Circle { center, radius }
    }

    /// Canonical-equation circle rasterizer: solves y = sqrt(r^2 - x^2)
    /// exactly (rounded to the nearest integer) over the dominant octant and
    /// mirrors each solution eight ways.
    pub fn draw_canonic(&self) -> (res: Result<Vec<Point>, GeomError>)
        requires
            in_range(self.center),
            self.radius <= RADIUS_LIMIT,
        ensures
            self.radius <= 0 ==> res == Result::<Vec<Point>, GeomError>::Err(
                GeomError::InvalidRadius,
            ),
            self.radius > 0 ==> res is Ok && pts_view(res->Ok_0@) == circle_canonic_pixels(
                self.center.x as int,
                self.center.y as int,
                self.radius as int,
            ),
    {
        if self.radius <= 0 {
            return Err(GeomError::InvalidRadius);
        }
        let r = self.radius;
        let spec_seq = Ghost(
            circle_canonic_pixels(self.center.x as int, self.center.y as int, r as int),
        );
        proof {
            lemma_canonic_x_bound(r as int);
        }
        proof {
            assert((r as int) * (r as int) <= 10_000_000_000) by (nonlinear_arith)
                requires
                    1 <= r as int <= 100_000,
            ;
        }
        let sqr = (r as u128) * (r as u128);
        let xmu = crate::geom::isqrt_u128(sqr / 2);
        proof {
            assert(xmu <= 100_000) by {
                if xmu as int > 100_000 {
                    assert((xmu as int) * (xmu as int) > 10_000_000_000) by (nonlinear_arith)
                        requires
                            xmu as int > 100_000,
                    ;
                }
            }
        }
        let xm = xmu as i64;
        let mut pixels: Vec<Point> = Vec::new();
        let mut x: i64 = 0;
        while x <= xm + 1
            invariant
                0 <= x <= xm + 2,
                0 <= xm < r,
                1 <= r <= RADIUS_LIMIT,
                xm == spec_isqrt(((r * r) as int) / 2),
                in_range(self.center),
                spec_seq@ == circle_canonic_pixels(
                    self.center.x as int,
                    self.center.y as int,
                    r as int,
                ),
                pts_view(pixels@) =~= spec_seq@.subrange(0, 8 * x),
            decreases xm + 2 - x,
        {
            proof {
                assert(x * x <= r * r) by (nonlinear_arith)
                    requires
                        0 <= x as int <= r as int,
                ;
                assert(r * r <= 10_000_000_000) by (nonlinear_arith)
                    requires
                        1 <= r as int <= 100_000,
                ;
            }
            let m = (r * r - x * x) as u128;
            let y = nearest_sqrt_div_u128(m, 1) as i64;
            proof {
                // y <= r: 4m <= 4r^2 so isqrt(4m) <= 2r
                let t = spec_isqrt(4 * (m as int));
                crate::geom::lemma_spec_isqrt(4 * (m as int));
                assert(t <= 2 * r) by {
                    if t > 2 * r {
                        assert(t * t > (2 * r) * (2 * r)) by (nonlinear_arith)
                            requires
                                t > 2 * r,
                                r >= 1,
                        ;
                        assert(4 * (m as int) <= (2 * r) * (2 * r)) by (nonlinear_arith)
                            requires
                                m as int <= r * r,
                        ;
                    }
                }
            }
            let ghost old_pixels = pixels@;
            plot_circle_pixels(x, y, self.center.x, self.center.y, &mut pixels);
            proof {
                let oct = circle_octet(
                    self.center.x as int,
                    self.center.y as int,
                    x as int,
                    y as int,
                );
                assert forall|t: int| 0 <= t < 8 implies spec_seq@[8 * (x as int) + t] == oct[t] by {
                    vstd::arithmetic::div_mod::lemma_fundamental_div_mod_converse(
                        8 * (x as int) + t,
                        8,
                        x as int,
                        t,
                    );
                }
                assert(pts_view(pixels@) =~= spec_seq@.subrange(0, 8 * (x as int) + 8));
            }
            x = x + 1;
        }
        proof {
            assert(pts_view(pixels@) =~= spec_seq@);
        }
        Ok(pixels)
    }

    /// Bresenham circle rasterizer: three-branch integer decision recurrence,
    /// one octant generated and mirrored eight ways.
    pub fn draw_bresenham(&self) -> (res: Result<Vec<Point>, GeomError>)
        requires
            in_range(self.center),
            self.radius <= RADIUS_LIMIT,
        ensures
            self.radius <= 0 ==> res == Result::<Vec<Point>, GeomError>::Err(
                GeomError::InvalidRadius,
            ),
            self.radius > 0 ==> res is Ok && pts_view(res->Ok_0@) == circle_bresenham_pixels(
                self.center.x as int,
                self.center.y as int,
                self.radius as int,
            ),
    {
        if self.radius <= 0 {
            return Err(GeomError::InvalidRadius);
        }
        let r = self.radius;
        let spec_seq = Ghost(
            circle_bresenham_pixels(self.center.x as int, self.center.y as int, r as int),
        );
        let mut pixels: Vec<Point> = Vec::new();
        let mut x: i64 = 0;
        let mut y: i64 = r;
        let mut cap: i64 = 2 * (1 - r);
        while y >= x
            invariant
                1 <= r <= RADIUS_LIMIT,
                0 <= x <= r + 1,
                -1 <= y <= r,
                x <= y + 2,
                in_range(self.center),
                abs_int(cap as int) <= (2 * r + 2) + (x + (r - y)) * (4 * r + 6),
                spec_seq@ =~= pts_view(pixels@) + circle_bres_steps(
                    self.center.x as int,
                    self.center.y as int,
                    x as int,
                    y as int,
                    cap as int,
                ),
            decreases crate::geom::max_int(y as int - x as int + 1, 0),
        {
            proof {
                assert((x + (r - y)) as int * (4 * r + 6) <= (2 * r + 2) * (4 * r + 6))
                    by (nonlinear_arith)
                    requires
                        0 <= x as int + (r as int - y as int) <= 2 * (r as int) + 2,
                        r as int >= 1,
                ;
                assert((2 * (r as int) + 2) * (4 * (r as int) + 6) <= 1_000_000_000_000)
                    by (nonlinear_arith)
                    requires
                        1 <= r as int <= 100_000,
                ;
            }
            let ghost rest = circle_bres_steps(
                self.center.x as int,
                self.center.y as int,
                x as int,
                y as int,
                cap as int,
            );
            let ghost old_pixels = pixels@;
            let ghost ocount = (x + (r - y)) as int;
            plot_circle_pixels(x, y, self.center.x, self.center.y, &mut pixels);
            if cap < 0 {
                let delta = 2 * (cap + y) - 1;
                if delta <= 0 {
                    x = x + 1;
                    cap = cap + 2 * x + 1;
                } else {
                    x = x + 1;
                    y = y - 1;
                    cap = cap + 2 * (x - y + 1);
                }
            } else if cap > 0 {
                let delta = 2 * (cap - x) - 1;
                if delta <= 0 {
                    x = x + 1;
                    y = y - 1;
                    cap = cap + 2 * (x - y + 1);
                } else {
                    y = y - 1;
                    cap = cap - (2 * y + 1);
                }
            } else {
                x = x + 1;
                y = y - 1;
                cap = cap + 2 * (x - y + 1);
            }
            proof {
                let ncount = (x + (r - y)) as int;
                assert(ncount * (4 * r + 6) >= ocount * (4 * r + 6) + (4 * r + 6))
                    by (nonlinear_arith)
                    requires
                        ncount >= ocount + 1,
                        r >= 1,
                ;
                let rest2 = circle_bres_steps(
                    self.center.x as int,
                    self.center.y as int,
                    x as int,
                    y as int,
                    cap as int,
                );
                assert(spec_seq@ =~= pts_view(pixels@) + rest2);
            }
        }
        proof {
            assert(circle_bres_steps(
                self.center.x as int,
                self.center.y as int,
                x as int,
                y as int,
                cap as int,
            ) =~= Seq::empty());
            assert(pts_view(pixels@) =~= spec_seq@);
        }
        Ok(pixels)
    }

    /// Midpoint circle rasterizer: the decision variable selects between a
    /// horizontal and a diagonal step, one octant mirrored eight ways.
    pub fn draw_midpoint(&self) -> (res: Result<Vec<Point>, GeomError>)
        requires
            in_range(self.center),
            self.radius <= RADIUS_LIMIT,
        ensures
            self.radius <= 0 ==> res == Result::<Vec<Point>, GeomError>::Err(
                GeomError::InvalidRadius,
            ),
            self.radius > 0 ==> res is Ok && pts_view(res->Ok_0@) == circle_midpoint_pixels(
                self.center.x as int,
                self.center.y as int,
                self.radius as int,
            ),
    {
        if self.radius <= 0 {
            return Err(GeomError::InvalidRadius);
        }
        let r = self.radius;
        let spec_seq = Ghost(
            circle_midpoint_pixels(self.center.x as int, self.center.y as int, r as int),
        );
        let mut pixels: Vec<Point> = Vec::new();
        let mut x: i64 = 0;
        let mut y: i64 = r;
        let mut trial: i64 = 4 * (5 - r);
        while x <= y
            invariant
                1 <= r <= RADIUS_LIMIT,
                0 <= x <= r + 1,
                -1 <= y <= r,
                x <= y + 2,
                in_range(self.center),
                abs_int(trial as int) <= (4 * r + 20) + x * (16 * r + 20),
                spec_seq@ =~= pts_view(pixels@) + circle_mid_steps(
                    self.center.x as int,
                    self.center.y as int,
                    x as int,
                    y as int,
                    trial as int,
                ),
            decreases crate::geom::max_int(y as int - x as int + 1, 0),
        {
            proof {
                assert((x as int) * (16 * (r as int) + 20) <= (2 * (r as int) + 2) * (16 * (r as int) + 20))
                    by (nonlinear_arith)
                    requires
                        0 <= x as int <= 2 * (r as int) + 2,
                        r as int >= 1,
                ;
                assert((2 * (r as int) + 2) * (16 * (r as int) + 20) <= 4_000_000_000_000)
                    by (nonlinear_arith)
                    requires
                        1 <= r as int <= 100_000,
                ;
            }
            let ghost rest = circle_mid_steps(
                self.center.x as int,
                self.center.y as int,
                x as int,
                y as int,
                trial as int,
            );
            let ghost ox = x as int;
            plot_circle_pixels(x, y, self.center.x, self.center.y, &mut pixels);
            x = x + 1;
            if trial > 0 {
                y = y - 1;
                trial = trial - 8 * y;
            }
            trial = trial + 8 * x + 4;
            proof {
                assert((ox + 1) * (16 * r + 20) == ox * (16 * r + 20) + (16 * r + 20))
                    by (nonlinear_arith);
                let rest2 = circle_mid_steps(
                    self.center.x as int,
                    self.center.y as int,
                    x as int,
                    y as int,
                    trial as int,
                );
                assert(spec_seq@ =~= pts_view(pixels@) + rest2);
            }
        }
        proof {
            assert(circle_mid_steps(
                self.center.x as int,
                self.center.y as int,
                x as int,
                y as int,
                trial as int,
            ) =~= Seq::empty());
            assert(pts_view(pixels@) =~= spec_seq@);
        }
        Ok(pixels)
    }
}

/// One trace of the circle Bresenham recurrence: the decision variable cap
/// selects among a horizontal, diagonal or vertical step each iteration,
/// exactly as the three-branch integer recurrence prescribes.
pub open spec fn circle_bres_steps(xc: int, yc: int, x: int, y: int, cap: int) -> Seq<(int, int)>
    decreases crate::geom::max_int(y - x + 1, 0),
{
    if y < x {
        Seq::empty()
    } else {
        let oct = circle_octet(xc, yc, x, y);
        if cap < 0 {
            if 2 * (cap + y) - 1 <= 0 {
                oct + circle_bres_steps(xc, yc, x + 1, y, cap + 2 * (x + 1) + 1)
            } else {
                oct + circle_bres_steps(xc, yc, x + 1, y - 1, cap + 2 * ((x + 1) - (y - 1) + 1))
            }
        } else if cap > 0 {
            if 2 * (cap - x) - 1 <= 0 {
                oct + circle_bres_steps(xc, yc, x + 1, y - 1, cap + 2 * ((x + 1) - (y - 1) + 1))
            } else {
                oct + circle_bres_steps(xc, yc, x, y - 1, cap - (2 * (y - 1) + 1))
            }
        } else {
            oct + circle_bres_steps(xc, yc, x + 1, y - 1, cap + 2 * ((x + 1) - (y - 1) + 1))
        }
    }
}

/// The pixels of the Bresenham circle rasterizer.
pub open spec fn circle_bresenham_pixels(xc: int, yc: int, r: int) -> Seq<(int, int)> {
    circle_bres_steps(xc, yc, 0, r, 2 * (1 - r))
}

/// One trace of the midpoint circle recurrence.
pub open spec fn circle_mid_steps(xc: int, yc: int, x: int, y: int, trial: int) -> Seq<(int, int)>
    decreases crate::geom::max_int(y - x + 1, 0),
{
    if x > y {
        Seq::empty()
    } else {
        let oct = circle_octet(xc, yc, x, y);
        if trial > 0 {
            oct + circle_mid_steps(xc, yc, x + 1, y - 1, trial - 8 * (y - 1) + 8 * (x + 1) + 4)
        } else {
            oct + circle_mid_steps(xc, yc, x + 1, y, trial + 8 * (x + 1) + 4)
        }
    }
}

/// The pixels of the midpoint circle rasterizer.
pub open spec fn circle_midpoint_pixels(xc: int, yc: int, r: int) -> Seq<(int, int)> {
    circle_mid_steps(xc, yc, 0, r, 4 * (5 - r))
}

/// Law: every pixel of the canonical circle rasterizer lies within the
/// rounding tolerance of the true circle: |dx^2 + dy^2 - r^2| <= r, where
/// (dx, dy) is the pixel's offset from the center.
pub proof fn lemma_circle_canonic_accuracy(xc: int, yc: int, r: int)
    requires
        1 <= r,
    ensures
        forall|j: int|
            0 <= j < circle_canonic_pixels(xc, yc, r).len() ==> {
                let p = #[trigger] circle_canonic_pixels(xc, yc, r)[j];
                let dx = p.0 - xc;
                let dy = p.1 - yc;
                abs_int(dx * dx + dy * dy - r * r) <= r
            },
{
    let s = circle_canonic_pixels(xc, yc, r);
    lemma_canonic_x_bound(r);
    assert forall|j: int| 0 <= j < s.len() implies {
        let p = #[trigger] s[j];
        let dx = p.0 - xc;
        let dy = p.1 - yc;
        abs_int(dx * dx + dy * dy - r * r) <= r
    } by {
        let x = j / 8;
        let t = j % 8;
        vstd::arithmetic::div_mod::lemma_fundamental_div_mod(j, 8);
        vstd::arithmetic::div_mod::lemma_mod_bound(j, 8);
        let xm = spec_isqrt((r * r) / 2);
        assert(0 <= x <= xm + 1) by {
            if x < 0 {
                assert(8 * x <= -8) by (nonlinear_arith)
                    requires
                        x <= -1,
                ;
            }
            if x > xm + 1 {
                assert(8 * x >= 8 * (xm + 2)) by (nonlinear_arith)
                    requires
                        x >= xm + 2,
                ;
            }
        }
        assert(x <= r);
        assert(r * r - x * x >= 0 && x * x >= 0) by (nonlinear_arith)
            requires
                0 <= x <= r,
        ;
        let m = r * r - x * x;
        let y = nearest_sqrt_div(m, 1);
        lemma_nearest_sqrt_accuracy(m);
        assert(y <= r) by {
            if y > r {
                assert(y * y - y >= r * r + r) by (nonlinear_arith)
                    requires
                        y >= r + 1,
                        r >= 0,
                ;
            }
        }
        let p = s[j];
        let dx = p.0 - xc;
        let dy = p.1 - yc;
        assert(dx * dx + dy * dy == x * x + y * y) by (nonlinear_arith)
            requires
                (dx == x && dy == y) || (dx == y && dy == x) || (dx == -x && dy == y) || (dx == y
                    && dy == -x) || (dx == x && dy == -y) || (dx == -y && dy == x) || (dx == -x
                    && dy == -y) || (dx == -y && dy == -x),
        ;
    }
}

/// round(sqrt(m)) is within its own value of m: |y^2 - m| <= y, and y >= 0.
proof fn lemma_nearest_sqrt_accuracy(m: int)
    requires
        m >= 0,
    ensures
        ({
            let y = nearest_sqrt_div(m, 1);
            0 <= y && abs_int(y * y - m) <= y
        }),
{
    let t = spec_isqrt(4 * m);
    crate::geom::lemma_spec_isqrt(4 * m);
    let y = (t + 1) / 2;
    assert(y == nearest_sqrt_div(m, 1));
    vstd::arithmetic::div_mod::lemma_fundamental_div_mod(t + 1, 2);
    vstd::arithmetic::div_mod::lemma_mod_bound(t + 1, 2);
    let par = (t + 1) % 2;
    if par == 0 {
        // t = 2y - 1 (odd), so 4m >= t^2 = 4y^2 - 4y + 1 => m >= y^2 - y + 1
        assert(t == 2 * y - 1);
        if y == 0 {
            assert(t == -1);
            assert(false);
        }
        assert(t * t == 4 * y * y - 4 * y + 1) by (nonlinear_arith)
            requires
                t == 2 * y - 1,
        ;
        assert((t + 1) * (t + 1) == 4 * y * y) by (nonlinear_arith)
            requires
                t == 2 * y - 1,
        ;
        assert(4 * m >= 4 * y * y - 4 * y + 1 && 4 * m < 4 * y * y + 4 * y + 4) by {
            assert((t + 2) * (t + 2) == 4 * y * y + 4 * y + 1) by (nonlinear_arith)
                requires
                    t == 2 * y - 1,
            ;
        }
    } else {
        // t = 2y (even): 4m >= 4y^2 => m >= y^2; 4m < (2y+1)^2 => m <= y^2 + y
        assert(t == 2 * y);
        assert(t * t == 4 * y * y) by (nonlinear_arith)
            requires
                t == 2 * y,
        ;
        assert((t + 1) * (t + 1) == 4 * y * y + 4 * y + 1) by (nonlinear_arith)
            requires
                t == 2 * y,
        ;
    }
    assert(0 <= y);
    assert(4 * y * y == 4 * (y * y)) by (nonlinear_arith);
    assert(4 * (y * y) - 4 * y <= 4 * m && 4 * m <= 4 * (y * y) + 4 * y);
    assert(abs_int(y * y - m) <= y);
}

/// One trace of the ellipse Bresenham recurrence: three branches driven by
/// the wide decision variable cap = b^2 (x+1)^2 + a^2 (y-1)^2 - a^2 b^2.
pub open spec fn ellipse_bres_steps(
    xc: int,
    yc: int,
    sa: int,
    sb: int,
    x: int,
    y: int,
    cap: int,
) -> Seq<(int, int)>
    decreases crate::geom::max_int(y + 1, 0), crate::geom::max_int(-cap, 0),
{
    if sa < 1 || sb < 1 || x < 0 {
        Seq::empty()
    } else if y < 0 {
        Seq::empty()
    } else {
        let quad = ellipse_quad(xc, yc, x, y);
        if cap < 0 {
            if 2 * cap + sa * (2 * y - 1) <= 0 {
                let inc = sb * (2 * (x + 1) + 1);
                if inc > 0 {
                    quad + ellipse_bres_steps(xc, yc, sa, sb, x + 1, y, cap + inc)
                } else {
                    quad
                }
            } else {
                quad + ellipse_bres_steps(
                    xc,
                    yc,
                    sa,
                    sb,
                    x + 1,
                    y - 1,
                    cap + 2 * (x + 1) * sb - 2 * (y - 1) * sa + sa + sb,
                )
            }
        } else if cap > 0 {
            if 2 * cap - sb * (2 * x + 1) <= 0 {
                quad + ellipse_bres_steps(
                    xc,
                    yc,
                    sa,
                    sb,
                    x + 1,
                    y - 1,
                    cap + 2 * (x + 1) * sb - 2 * (y - 1) * sa + sa + sb,
                )
            } else {
                quad + ellipse_bres_steps(xc, yc, sa, sb, x, y - 1, cap + sa * (-2 * (y - 1) + 1))
            }
        } else {
            quad + ellipse_bres_steps(
                xc,
                yc,
                sa,
                sb,
                x + 1,
                y - 1,
                cap + 2 * (x + 1) * sb - 2 * (y - 1) * sa + sa + sb,
            )
        }
    }
}

/// The pixels of the Bresenham ellipse rasterizer.
pub open spec fn ellipse_bresenham_pixels(xc: int, yc: int, ra: int, rb: int) -> Seq<(int, int)> {
    ellipse_bres_steps(xc, yc, ra * ra, rb * rb, 0, rb, rb * rb - ra * ra * (2 * rb - 1))
}

/// One trace of the first interval of the midpoint ellipse recurrence
/// (boundary slope above -1): x advances every step, y when the trial
/// variable is non-negative.
pub open spec fn ellipse_mid1_steps(
    xc: int,
    yc: int,
    sa: int,
    sb: int,
    x: int,
    y: int,
    dx: int,
    dy: int,
    trial: int,
) -> Seq<(int, int)>
    decreases crate::geom::max_int(dy - dx + 1, 0),
{
    if sa < 1 || sb < 1 {
        Seq::empty()
    } else if dx > dy {
        Seq::empty()
    } else {
        let quad = ellipse_quad(xc, yc, x, y);
        let x2 = x + 1;
        let dx2 = dx + 2 * sb;
        if trial >= 0 {
            let y2 = y - 1;
            let dy2 = dy - 2 * sa;
            quad + ellipse_mid1_steps(
                xc,
                yc,
                sa,
                sb,
                x2,
                y2,
                dx2,
                dy2,
                trial - 4 * dy2 + 4 * (dx2 + sb),
            )
        } else {
            quad + ellipse_mid1_steps(xc, yc, sa, sb, x2, y, dx2, dy, trial + 4 * (dx2 + sb))
        }
    }
}

/// The state (x, y, dx, dy, trial) in which the first midpoint interval ends.
pub open spec fn ellipse_mid1_state(
    sa: int,
    sb: int,
    x: int,
    y: int,
    dx: int,
    dy: int,
    trial: int,
) -> (int, int, int, int, int)
    decreases crate::geom::max_int(dy - dx + 1, 0),
{
    if sa < 1 || sb < 1 {
        (x, y, dx, dy, trial)
    } else if dx > dy {
        (x, y, dx, dy, trial)
    } else {
        let x2 = x + 1;
        let dx2 = dx + 2 * sb;
        if trial >= 0 {
            let y2 = y - 1;
            let dy2 = dy - 2 * sa;
            ellipse_mid1_state(sa, sb, x2, y2, dx2, dy2, trial - 4 * dy2 + 4 * (dx2 + sb))
        } else {
            ellipse_mid1_state(sa, sb, x2, y, dx2, dy, trial + 4 * (dx2 + sb))
        }
    }
}

/// One trace of the second interval of the midpoint ellipse recurrence:
/// y retreats every step, x when the trial variable is negative.
pub open spec fn ellipse_mid2_steps(
    xc: int,
    yc: int,
    sa: int,
    sb: int,
    x: int,
    y: int,
    dx: int,
    dy: int,
    trial: int,
) -> Seq<(int, int)>
    decreases crate::geom::max_int(dy + 1, 0),
{
    if sa < 1 || sb < 1 {
        Seq::empty()
    } else if dy < 0 {
        Seq::empty()
    } else {
        let quad = ellipse_quad(xc, yc, x, y);
        let y2 = y - 1;
        let dy2 = dy - 2 * sa;
        if trial < 0 {
            let x2 = x + 1;
            let dx2 = dx + 2 * sb;
            quad + ellipse_mid2_steps(
                xc,
                yc,
                sa,
                sb,
                x2,
                y2,
                dx2,
                dy2,
                trial + 4 * dx2 - 4 * (dy2 - sa),
            )
        } else {
            quad + ellipse_mid2_steps(xc, yc, sa, sb, x, y2, dx, dy2, trial - 4 * (dy2 - sa))
        }
    }
}

/// The pixels of the midpoint ellipse rasterizer: the first interval, the
/// literal transition adjustment of the trial variable, then the second.
pub open spec fn ellipse_midpoint_pixels(xc: int, yc: int, ra: int, rb: int) -> Seq<(int, int)> {
    let sa = ra * ra;
    let sb = rb * rb;
    let t0 = 2 * (2 * sb - 2 * sa * (rb - 1));
    let s1 = ellipse_mid1_steps(xc, yc, sa, sb, 0, rb, 0, 2 * sa * rb, t0);
    let st = ellipse_mid1_state(sa, sb, 0, rb, 0, 2 * sa * rb, t0);
    let t1 = st.4 - 4 * (sb * (st.0 + 3) + sa * (st.1 - 3));
    s1 + ellipse_mid2_steps(xc, yc, sa, sb, st.0, st.1, st.2, st.3, t1)
}

/// The pixels of the canonical-equation ellipse rasterizer: a first pass
/// solving y = (b/a) sqrt(a^2 - x^2) over the x-dominant range, then a
/// second pass solving x = (a/b) sqrt(b^2 - y^2) over the y-dominant range,
/// each rounded exactly and mirrored four ways.
pub open spec fn ellipse_canonic_pixels(xc: int, yc: int, ra: int, rb: int) -> Seq<(int, int)>
    recommends
        ra >= 1,
        rb >= 1,
{
    let sa = ra * ra;
    let sb = rb * rb;
    let xm = spec_isqrt((sa * sa) / (sa + sb));
    let ym = spec_isqrt((sb * sb) / (sa + sb));
    Seq::new(
        (4 * (xm + 2) + 4 * (ym + 2)) as nat,
        |j: int|
            if j < 4 * (xm + 2) {
                let x = j / 4;
                let y = nearest_sqrt_div(sb * (sa - x * x), ra);
                ellipse_quad(xc, yc, x, y)[j % 4]
            } else {
                let jj = j - 4 * (xm + 2);
                let y = jj / 4;
                let x = nearest_sqrt_div(sa * (sb - y * y), rb);
                ellipse_quad(xc, yc, x, y)[jj % 4]
            },
    )
}


/// The diagonal step of the ellipse Bresenham recurrence preserves the
/// algebraic meaning of the decision variable.
#[verifier::rlimit(100)]
proof fn lemma_ellipse_diag_step(sa: int, sb: int, ox: int, oy: int, ocap: int, cap: int)
    by (nonlinear_arith)
    requires
        cap == ocap + 2 * (ox + 1) * sb - 2 * (oy - 1) * sa + sa + sb,
        ocap == sb * (ox + 1) * (ox + 1) + sa * (oy - 1) * (oy - 1) - sa * sb,
    ensures
        cap == sb * (ox + 2) * (ox + 2) + sa * (oy - 2) * (oy - 2) - sa * sb,
{
}

/// Bounds on the per-step increments of the ellipse decision variable.
proof fn lemma_ellipse_step_bounds(sa: int, sb: int, x: int, y: int)
    by (nonlinear_arith)
    requires
        1 <= sa <= 10_000_000_000,
        1 <= sb <= 10_000_000_000,
        0 <= x <= 100_002,
        -2 <= y <= 100_000,
    ensures
        abs_int(2 * x * sb) <= 3_000_000_000_000_000,
        abs_int(2 * y * sa) <= 3_000_000_000_000_000,
{
}

/// An ellipse given by its center and its two semi-axes.
pub struct Ellipse {
    pub center: Point,
    pub radius: (i64, i64),
}

impl Ellipse {
    pub fn new(center: Point, radius: (i64, i64)) -> (e: Ellipse)
        ensures
            e.center == center,
            e.radius == radius,
    {
        Ellipse { center, radius }
    }

    /// Bresenham ellipse rasterizer. The decision variable is carried in a
    /// 128-bit integer; its exact value is b^2 (x+1)^2 + a^2 (y-1)^2 - a^2 b^2
    /// throughout, which keeps every intermediate inside the wide range even
    /// for large radii.
    pub fn draw_bresenham(&self) -> (res: Result<Vec<Point>, GeomError>)
        requires
            in_range(self.center),
            self.radius.0 <= RADIUS_LIMIT,
            self.radius.1 <= RADIUS_LIMIT,
        ensures
            self.radius.0 <= 0 || self.radius.1 <= 0 ==> res == Result::<
                Vec<Point>,
                GeomError,
            >::Err(GeomError::InvalidRadius),
            self.radius.0 > 0 && self.radius.1 > 0 ==> res is Ok && pts_view(res->Ok_0@)
                == ellipse_bresenham_pixels(
                self.center.x as int,
                self.center.y as int,
                self.radius.0 as int,
                self.radius.1 as int,
            ),
    {
        if self.radius.0 <= 0 || self.radius.1 <= 0 {
            return Err(GeomError::InvalidRadius);
        }
        let ra = self.radius.0 as i128;
        let rb = self.radius.1 as i128;
        proof {
            assert(ra * ra <= 10_000_000_000 && rb * rb <= 10_000_000_000 && ra * ra >= 1 && rb
                * rb >= 1) by (nonlinear_arith)
                requires
                    1 <= ra as int <= 100_000,
                    1 <= rb as int <= 100_000,
            ;
        }
        let sa = ra * ra;
        let sb = rb * rb;
        let spec_seq = Ghost(
            ellipse_bresenham_pixels(
                self.center.x as int,
                self.center.y as int,
                self.radius.0 as int,
                self.radius.1 as int,
            ),
        );
        let mut pixels: Vec<Point> = Vec::new();
        let mut x: i128 = 0;
        let mut y: i128 = rb;
        proof {
            assert(sa * (2 * rb - 1) <= 10_000_000_000 * 200_000 && sa * (2 * rb - 1) >= 0)
                by (nonlinear_arith)
                requires
                    1 <= sa <= 10_000_000_000,
                    1 <= rb as int <= 100_000,
            ;
        }
        let mut cap: i128 = sb - sa * (2 * rb - 1);
        proof {
            assert(sb - sa * (2 * rb - 1) == sb * (0 + 1) * (0 + 1) + sa * ((rb as int) - 1) * ((
            rb as int) - 1) - sa * sb) by (nonlinear_arith)
                requires
                    sb == rb * rb,
            ;
        }
        while y >= 0
            invariant
                1 <= ra as int <= 100_000,
                1 <= rb as int <= 100_000,
                sa == ra * ra,
                sb == rb * rb,
                1 <= sa <= 10_000_000_000,
                1 <= sb <= 10_000_000_000,
                0 <= x <= ra + 1,
                -1 <= y <= rb,
                in_range(self.center),
                cap == sb * (x + 1) * (x + 1) + sa * (y - 1) * (y - 1) - sa * sb,
                spec_seq@ =~= pts_view(pixels@) + ellipse_bres_steps(
                    self.center.x as int,
                    self.center.y as int,
                    sa as int,
                    sb as int,
                    x as int,
                    y as int,
                    cap as int,
                ),
            decreases crate::geom::max_int(y as int + 1, 0), crate::geom::max_int(-(cap as int), 0),
        {
            proof {
                assert(abs_int(cap as int) <= 3_000_000_000_000_000_000_000) by (nonlinear_arith)
                    requires
                        cap == sb * (x + 1) * (x + 1) + sa * (y - 1) * (y - 1) - sa * sb,
                        1 <= sa <= 10_000_000_000,
                        1 <= sb <= 10_000_000_000,
                        0 <= x <= 100_001,
                        -1 <= y <= 100_000,
                        ra as int <= 100_000,
                        x <= ra + 1,
                ;
                assert(sa * (2 * y - 1) <= 10_000_000_000 * 200_000 && sa * (2 * y - 1) >= -sa
                    * 3) by (nonlinear_arith)
                    requires
                        1 <= sa <= 10_000_000_000,
                        -1 <= y <= 100_000,
                ;
            }
            let ghost rest = ellipse_bres_steps(
                self.center.x as int,
                self.center.y as int,
                sa as int,
                sb as int,
                x as int,
                y as int,
                cap as int,
            );
            proof {
                assert(abs_int(x as int) <= 0x1000_0000_0000_0000);
                assert(abs_int(y as int) <= 0x1000_0000_0000_0000);
            }
            plot_ellipse_pixels(
                x as i64,
                y as i64,
                self.center.x,
                self.center.y,
                &mut pixels,
            );
            let ghost (ox, oy, ocap) = (x as int, y as int, cap as int);
            if cap < 0 {
                let delta = 2 * cap + sa * (2 * y - 1);
                if delta <= 0 {
                    x = x + 1;
                    proof {
                        // cap < 0 forces (x+1)^2 < sa, so x stays below ra
                        assert(ox + 1 <= ra) by (nonlinear_arith)
                            requires
                                ocap < 0,
                                ocap == sb * (ox + 1) * (ox + 1) + sa * (oy - 1) * (oy - 1) - sa
                                    * sb,
                                sa == ra * ra,
                                1 <= sb,
                                1 <= ra,
                                0 <= ox,
                        ;
                        assert(sb * (2 * ox + 3) > 0 && sb * (2 * ox + 3) <= 10_000_000_000 * (2
                            * 100_001 + 3)) by (nonlinear_arith)
                            requires
                                1 <= sb <= 10_000_000_000,
                                0 <= ox <= 100_001,
                        ;
                    }
                    let inc = sb * (2 * x + 1);
                    cap = cap + inc;
                    proof {
                        assert(cap == sb * (ox + 2) * (ox + 2) + sa * (oy - 1) * (oy - 1) - sa
                            * sb) by (nonlinear_arith)
                            requires
                                cap == ocap + sb * (2 * ox + 3),
                                ocap == sb * (ox + 1) * (ox + 1) + sa * (oy - 1) * (oy - 1) - sa
                                    * sb,
                        ;
                    }
                } else {
                    x = x + 1;
                    y = y - 1;
                    proof {
                        assert(ox + 1 <= ra) by (nonlinear_arith)
                            requires
                                ocap < 0,
                                ocap == sb * (ox + 1) * (ox + 1) + sa * (oy - 1) * (oy - 1) - sa
                                    * sb,
                                sa == ra * ra,
                                1 <= sb,
                                1 <= ra,
                                0 <= ox,
                        ;
                        assert(abs_int(2 * (ox + 1) * sb - 2 * (oy - 1) * sa + sa + sb)
                            <= 10_000_000_000_000_000_000) by (nonlinear_arith)
                            requires
                                1 <= sa <= 10_000_000_000,
                                1 <= sb <= 10_000_000_000,
                                0 <= ox <= 100_001,
                                -1 <= oy <= 100_000,
                        ;
                    }
                    proof {
                        lemma_ellipse_step_bounds(sa as int, sb as int, x as int, y as int);
                    }
                    cap = cap + (2 * x * sb - 2 * y * sa + sa + sb);
                    proof {
                        lemma_ellipse_diag_step(
                            sa as int,
                            sb as int,
                            ox,
                            oy,
                            ocap,
                            cap as int,
                        );
                    }
                }
            } else if cap > 0 {
                proof {
                    assert(abs_int(sb * (2 * ox + 1)) <= 10_000_000_000 * 300_000)
                        by (nonlinear_arith)
                        requires
                            1 <= sb <= 10_000_000_000,
                            0 <= ox <= 100_001,
                    ;
                }
                let delta = 2 * cap - sb * (2 * x + 1);
                if delta <= 0 {
                    x = x + 1;
                    y = y - 1;
                    proof {
                        // 2 cap <= sb (2x+1) together with cap > 0 bounds x below ra
                        assert(ox + 1 <= ra) by (nonlinear_arith)
                            requires
                                ocap > 0,
                                2 * ocap <= sb * (2 * ox + 1),
                                ocap == sb * (ox + 1) * (ox + 1) + sa * (oy - 1) * (oy - 1) - sa
                                    * sb,
                                sa == ra * ra,
                                1 <= sb,
                                1 <= ra,
                                0 <= ox <= ra + 1,
                        ;
                        assert(abs_int(2 * (ox + 1) * sb - 2 * (oy - 1) * sa + sa + sb)
                            <= 10_000_000_000_000_000_000) by (nonlinear_arith)
                            requires
                                1 <= sa <= 10_000_000_000,
                                1 <= sb <= 10_000_000_000,
                                0 <= ox <= 100_001,
                                -1 <= oy <= 100_000,
                        ;
                    }
                    proof {
                        lemma_ellipse_step_bounds(sa as int, sb as int, x as int, y as int);
                    }
                    cap = cap + (2 * x * sb - 2 * y * sa + sa + sb);
                    proof {
                        lemma_ellipse_diag_step(
                            sa as int,
                            sb as int,
                            ox,
                            oy,
                            ocap,
                            cap as int,
                        );
                    }
                } else {
                    y = y - 1;
                    proof {
                        assert(abs_int(sa * (-2 * (oy - 1) + 1)) <= 10_000_000_000 * 300_000)
                            by (nonlinear_arith)
                            requires
                                1 <= sa <= 10_000_000_000,
                                -1 <= oy <= 100_000,
                        ;
                    }
                    cap = cap + sa * (-2 * y + 1);
                    proof {
                        assert(cap == sb * (ox + 1) * (ox + 1) + sa * (oy - 2) * (oy - 2) - sa
                            * sb) by (nonlinear_arith)
                            requires
                                cap == ocap + sa * (-2 * (oy - 1) + 1),
                                ocap == sb * (ox + 1) * (ox + 1) + sa * (oy - 1) * (oy - 1) - sa
                                    * sb,
                        ;
                    }
                }
            } else {
                x = x + 1;
                y = y - 1;
                proof {
                    assert(ox + 1 <= ra) by (nonlinear_arith)
                        requires
                            ocap == 0,
                            ocap == sb * (ox + 1) * (ox + 1) + sa * (oy - 1) * (oy - 1) - sa * sb,
                            sa == ra * ra,
                            1 <= sb,
                            1 <= ra,
                            0 <= ox,
                    ;
                    assert(abs_int(2 * (ox + 1) * sb - 2 * (oy - 1) * sa + sa + sb)
                        <= 10_000_000_000_000_000_000) by (nonlinear_arith)
                        requires
                            1 <= sa <= 10_000_000_000,
                            1 <= sb <= 10_000_000_000,
                            0 <= ox <= 100_001,
                            -1 <= oy <= 100_000,
                    ;
                }
                proof {
                    lemma_ellipse_step_bounds(sa as int, sb as int, x as int, y as int);
                }
                cap = cap + (2 * x * sb - 2 * y * sa + sa + sb);
                proof {
                    lemma_ellipse_diag_step(sa as int, sb as int, ox, oy, ocap, cap as int);
                }
            }
            proof {
                let rest2 = ellipse_bres_steps(
                    self.center.x as int,
                    self.center.y as int,
                    sa as int,
                    sb as int,
                    x as int,
                    y as int,
                    cap as int,
                );
                assert(spec_seq@ =~= pts_view(pixels@) + rest2);
            }
        }
        proof {
            assert(ellipse_bres_steps(
                self.center.x as int,
                self.center.y as int,
                sa as int,
                sb as int,
                x as int,
                y as int,
                cap as int,
            ) =~= Seq::empty());
            assert(pts_view(pixels@) =~= spec_seq@);
        }
        Ok(pixels)
    }
}

impl Ellipse {
    /// Midpoint ellipse rasterizer: two intervals split where the boundary
    /// slope crosses -1, with the literal trial-variable adjustment between
    /// them, all decision arithmetic in 128-bit integers.
    pub fn draw_midpoint(&self) -> (res: Result<Vec<Point>, GeomError>)
        requires
            in_range(self.center),
            self.radius.0 <= RADIUS_LIMIT,
            self.radius.1 <= RADIUS_LIMIT,
        ensures
            self.radius.0 <= 0 || self.radius.1 <= 0 ==> res == Result::<
                Vec<Point>,
                GeomError,
            >::Err(GeomError::InvalidRadius),
            self.radius.0 > 0 && self.radius.1 > 0 ==> res is Ok && pts_view(res->Ok_0@)
                == ellipse_midpoint_pixels(
                self.center.x as int,
                self.center.y as int,
                self.radius.0 as int,
                self.radius.1 as int,
            ),
    {
        if self.radius.0 <= 0 || self.radius.1 <= 0 {
            return Err(GeomError::InvalidRadius);
        }
        let ra = self.radius.0 as i128;
        let rb = self.radius.1 as i128;
        proof {
            assert(ra * ra <= 10_000_000_000 && rb * rb <= 10_000_000_000 && ra * ra >= 1 && rb
                * rb >= 1) by (nonlinear_arith)
                requires
                    1 <= ra as int <= 100_000,
                    1 <= rb as int <= 100_000,
            ;
        }
        let sa = ra * ra;
        let sb = rb * rb;
        let spec_seq = Ghost(
            ellipse_midpoint_pixels(
                self.center.x as int,
                self.center.y as int,
                self.radius.0 as int,
                self.radius.1 as int,
            ),
        );
        let mut pixels: Vec<Point> = Vec::new();
        let mut x: i128 = 0;
        let mut y: i128 = rb;
        proof {
            assert(0 <= sa * rb <= 1_000_000_000_000_000 && 0 <= 2 * sa * ((rb as int) - 1)
                <= 2_000_000_000_000_000) by (nonlinear_arith)
                requires
                    1 <= sa <= 10_000_000_000,
                    1 <= rb as int <= 100_000,
            ;
            assert(2 * sa * rb == 2 * (sa * rb)) by (nonlinear_arith);
        }
        let mut trial: i128 = 2 * (2 * sb - 2 * sa * (rb - 1));
        proof {
            assert(2 * sa * ((rb as int) - 1) == 2 * sa * rb - 2 * sa) by (nonlinear_arith);
        }
        let mut dx: i128 = 0;
        let mut dy: i128 = 2 * sa * y;
        let ghost st = ellipse_mid1_state(
            sa as int,
            sb as int,
            0,
            rb as int,
            0,
            2 * (sa as int) * (rb as int),
            2 * (2 * (sb as int) - 2 * (sa as int) * ((rb as int) - 1)),
        );
        let ghost tail_t1 = st.4 - 4 * ((sb as int) * (st.0 + 3) + (sa as int) * (st.1 - 3));
        let ghost tail = ellipse_mid2_steps(
            self.center.x as int,
            self.center.y as int,
            sa as int,
            sb as int,
            st.0,
            st.1,
            st.2,
            st.3,
            tail_t1,
        );
        proof {
            assert(spec_seq@ =~= pts_view(pixels@) + ellipse_mid1_steps(
                self.center.x as int,
                self.center.y as int,
                sa as int,
                sb as int,
                x as int,
                y as int,
                dx as int,
                dy as int,
                trial as int,
            ) + tail);
        }
        while dx <= dy
            invariant
                1 <= ra as int <= 100_000,
                1 <= rb as int <= 100_000,
                sa == ra * ra,
                sb == rb * rb,
                1 <= sa <= 10_000_000_000,
                1 <= sb <= 10_000_000_000,
                0 <= x,
                x <= sa * rb + 1,
                -1 <= y <= rb,
                dx == 2 * sb * x,
                dy == 2 * sa * y,
                in_range(self.center),
                abs_int(trial as int) <= 5_000_000_000_000_000 + (x + (rb - y))
                    * 40_000_000_000_000_000,
                st == ellipse_mid1_state(
                    sa as int,
                    sb as int,
                    x as int,
                    y as int,
                    dx as int,
                    dy as int,
                    trial as int,
                ),
                spec_seq@ =~= pts_view(pixels@) + ellipse_mid1_steps(
                    self.center.x as int,
                    self.center.y as int,
                    sa as int,
                    sb as int,
                    x as int,
                    y as int,
                    dx as int,
                    dy as int,
                    trial as int,
                ) + tail,
            decreases crate::geom::max_int(dy as int - dx as int + 1, 0),
        {
            proof {
                assert(0 <= 2 * sa * y && 2 * sa * y <= 2_000_000_000_000_000 && y >= 0)
                    by (nonlinear_arith)
                    requires
                        1 <= sa <= 10_000_000_000,
                        -1 <= y <= 100_000,
                        dy == 2 * sa * y,
                        dx <= dy,
                        dx == 2 * sb * x,
                        1 <= sb,
                        0 <= x,
                ;
                assert(0 <= sa * rb <= 1_000_000_000_000_000) by (nonlinear_arith)
                    requires
                        1 <= sa <= 10_000_000_000,
                        1 <= rb as int <= 100_000,
                ;
                assert(0 <= (x + (rb - y)) * 40_000_000_000_000_000 <= (1_000_000_000_000_002
                    + 200_002) * 40_000_000_000_000_000) by (nonlinear_arith)
                    requires
                        0 <= x + (rb - y) <= 1_000_000_000_000_002 + 200_002,
                ;
                assert(abs_int(x as int) <= 0x1000_0000_0000_0000);
                assert(abs_int(y as int) <= 0x1000_0000_0000_0000);
            }
            let ghost ox = x as int;
            let ghost oy = y as int;
            let ghost ody = dy as int;
            let ghost rest = ellipse_mid1_steps(
                self.center.x as int,
                self.center.y as int,
                sa as int,
                sb as int,
                x as int,
                y as int,
                dx as int,
                dy as int,
                trial as int,
            );
            plot_ellipse_pixels(x as i64, y as i64, self.center.x, self.center.y, &mut pixels);
            x = x + 1;
            dx = dx + 2 * sb;
            if trial >= 0 {
                y = y - 1;
                dy = dy - 2 * sa;
                trial = trial - 4 * dy;
            }
            trial = trial + 4 * (dx + sb);
            proof {
                assert(2 * sb * (ox + 1) == 2 * sb * ox + 2 * sb) by (nonlinear_arith);
                assert(2 * sa * (oy - 1) == 2 * sa * oy - 2 * sa) by (nonlinear_arith);
                assert(x <= sa * rb + 1) by {
                    if ox + 1 > sa * rb + 1 {
                        assert(2 * sb * ox >= 2 * (sa * rb + 1)) by (nonlinear_arith)
                            requires
                                ox >= sa * rb + 1,
                                sb >= 1,
                                sa * rb + 1 >= 1,
                        ;
                        assert(2 * sa * oy <= 2 * (sa * rb)) by (nonlinear_arith)
                            requires
                                oy <= rb as int,
                                sa >= 1,
                        ;
                        assert(2 * sa * rb == 2 * (sa * rb)) by (nonlinear_arith);
                    }
                }
                let c0 = ox + ((rb as int) - oy);
                let c1 = x as int + ((rb as int) - y as int);
                assert(c1 * 40_000_000_000_000_000 == c0 * 40_000_000_000_000_000 + (c1 - c0)
                    * 40_000_000_000_000_000) by (nonlinear_arith);
                assert((c1 - c0) * 40_000_000_000_000_000 >= 40_000_000_000_000_000)
                    by (nonlinear_arith)
                    requires
                        c1 - c0 >= 1,
                ;
                let rest2 = ellipse_mid1_steps(
                    self.center.x as int,
                    self.center.y as int,
                    sa as int,
                    sb as int,
                    x as int,
                    y as int,
                    dx as int,
                    dy as int,
                    trial as int,
                );
                assert(spec_seq@ =~= pts_view(pixels@) + rest2 + tail);
            }
        }
        proof {
            assert(ellipse_mid1_steps(
                self.center.x as int,
                self.center.y as int,
                sa as int,
                sb as int,
                x as int,
                y as int,
                dx as int,
                dy as int,
                trial as int,
            ) =~= Seq::empty());
            assert(st == (x as int, y as int, dx as int, dy as int, trial as int));
            assert(spec_seq@ =~= pts_view(pixels@) + tail);
            assert(0 <= sa * rb <= 1_000_000_000_000_000) by (nonlinear_arith)
                requires
                    1 <= sa <= 10_000_000_000,
                    1 <= rb as int <= 100_000,
            ;
            assert(0 <= sb * (x + 3) && sb * (x + 3) <= 10_000_000_000 * 1_000_000_000_000_005)
                by (nonlinear_arith)
                requires
                    1 <= sb <= 10_000_000_000,
                    0 <= x as int <= 1_000_000_000_000_002,
            ;
            assert(abs_int(sa * (y - 3)) <= 10_000_000_000 * 200_004) by (nonlinear_arith)
                requires
                    1 <= sa <= 10_000_000_000,
                    -1 <= y <= 100_000,
            ;
        }
        trial = trial - 4 * (sb * (x + 3) + sa * (y - 3));
        proof {
            assert(trial as int == tail_t1);
        }
        let ghost yent = y as int;
        let ghost xent = x as int;
        proof {
            assert(xent <= 1_000_000_000_000_002) by {
                assert(sa * rb <= 1_000_000_000_000_000) by (nonlinear_arith)
                    requires
                        1 <= sa <= 10_000_000_000,
                        1 <= rb as int <= 100_000,
                ;
            }
        }
        while dy >= 0
            invariant
                1 <= ra as int <= 100_000,
                1 <= rb as int <= 100_000,
                sa == ra * ra,
                sb == rb * rb,
                1 <= sa <= 10_000_000_000,
                1 <= sb <= 10_000_000_000,
                0 <= x,
                -1 <= y <= rb,
                y <= yent,
                yent <= rb,
                xent <= 1_000_000_000_000_002,
                x - (yent - y) <= xent,
                dx == 2 * sb * x,
                dy == 2 * sa * y,
                in_range(self.center),
                abs_int(trial as int)
                    <= 200_000_000_000_000_000_000_000_000_000_000 + ((yent - y) + 1)
                    * 1_000_000_000_000_000_000_000_000_000,
                spec_seq@ =~= pts_view(pixels@) + ellipse_mid2_steps(
                    self.center.x as int,
                    self.center.y as int,
                    sa as int,
                    sb as int,
                    x as int,
                    y as int,
                    dx as int,
                    dy as int,
                    trial as int,
                ),
            decreases crate::geom::max_int(dy as int + 1, 0),
        {
            proof {
                assert(0 <= 2 * sa * y && 2 * sa * y <= 2_000_000_000_000_000 && y >= 0)
                    by (nonlinear_arith)
                    requires
                        1 <= sa <= 10_000_000_000,
                        -1 <= y <= 100_000,
                        dy == 2 * sa * y,
                        dy >= 0,
                ;
                assert(x <= 1_000_000_000_000_002 + 200_002);
                assert(0 <= 2 * sb * x && 2 * sb * x <= 10_000_000_000 * (2_000_000_000_000_008
                    + 400_004) && 2 * sb * (x as int + 1) == 2 * sb * x + 2 * sb)
                    by (nonlinear_arith)
                    requires
                        1 <= sb <= 10_000_000_000,
                        0 <= x <= 1_000_000_000_000_002 + 200_002,
                ;
                assert(((yent - y) + 2) * 1_000_000_000_000_000_000_000_000_000 == ((yent - y)
                    + 1) * 1_000_000_000_000_000_000_000_000_000
                    + 1_000_000_000_000_000_000_000_000_000) by (nonlinear_arith);
                assert(0 <= ((yent - y) + 1) * 1_000_000_000_000_000_000_000_000_000 <= 300_000
                    * 1_000_000_000_000_000_000_000_000_000) by (nonlinear_arith)
                    requires
                        0 <= (yent - y) + 1 <= 300_000,
                ;
                assert(abs_int(x as int) <= 0x1000_0000_0000_0000);
                assert(abs_int(y as int) <= 0x1000_0000_0000_0000);
            }
            let ghost oy = y as int;
            let ghost rest = ellipse_mid2_steps(
                self.center.x as int,
                self.center.y as int,
                sa as int,
                sb as int,
                x as int,
                y as int,
                dx as int,
                dy as int,
                trial as int,
            );
            plot_ellipse_pixels(x as i64, y as i64, self.center.x, self.center.y, &mut pixels);
            y = y - 1;
            dy = dy - 2 * sa;
            if trial < 0 {
                x = x + 1;
                dx = dx + 2 * sb;
                trial = trial + 4 * dx;
            }
            trial = trial - 4 * (dy - sa);
            proof {
                assert(2 * sa * (oy - 1) == 2 * sa * oy - 2 * sa) by (nonlinear_arith);
                let rest2 = ellipse_mid2_steps(
                    self.center.x as int,
                    self.center.y as int,
                    sa as int,
                    sb as int,
                    x as int,
                    y as int,
                    dx as int,
                    dy as int,
                    trial as int,
                );
                assert(spec_seq@ =~= pts_view(pixels@) + rest2);
            }
        }
        proof {
            assert(ellipse_mid2_steps(
                self.center.x as int,
                self.center.y as int,
                sa as int,
                sb as int,
                x as int,
                y as int,
                dx as int,
                dy as int,
                trial as int,
            ) =~= Seq::empty());
            assert(pts_view(pixels@) =~= spec_seq@);
        }
        Ok(pixels)
    }
}

/// The x-dominant range bound of the canonical ellipse rasterizer stays
/// below the semi-axis: isqrt(sa^2/(sa+sb)) < ra, and likewise for y.
proof fn lemma_ellipse_canonic_bound(sa: int, sb: int, ra: int)
    requires
        1 <= ra,
        sa == ra * ra,
        1 <= sb,
    ensures
        0 <= spec_isqrt((sa * sa) / (sa + sb)) < ra,
{
    let q = (sa * sa) / (sa + sb);
    assert(1 <= sa) by (nonlinear_arith)
        requires
            sa == ra * ra,
            1 <= ra,
    ;
    vstd::arithmetic::div_mod::lemma_fundamental_div_mod(sa * sa, sa + sb);
    vstd::arithmetic::div_mod::lemma_mod_bound(sa * sa, sa + sb);
    assert(q < sa) by {
        if q >= sa {
            assert((sa + sb) * q >= (sa + sb) * sa) by (nonlinear_arith)
                requires
                    q >= sa,
                    sa + sb > 0,
            ;
            assert((sa + sb) * sa > sa * sa) by (nonlinear_arith)
                requires
                    sa >= 1,
                    sb >= 1,
            ;
        }
    }
    assert(q >= 0) by {
        if q < 0 {
            assert((sa + sb) * q <= -(sa + sb)) by (nonlinear_arith)
                requires
                    q <= -1,
                    sa + sb > 0,
            ;
            assert(sa * sa >= 0) by (nonlinear_arith);
        }
    }
    let xm = spec_isqrt(q);
    crate::geom::lemma_spec_isqrt(q);
    assert(xm < ra) by {
        if xm >= ra {
            assert(xm * xm >= ra * ra) by (nonlinear_arith)
                requires
                    xm >= ra,
                    ra >= 1,
            ;
        }
    }
}

impl Ellipse {
    /// Canonical-equation ellipse rasterizer: solves y = (b/a) sqrt(a^2-x^2)
    /// over the x-dominant range and x = (a/b) sqrt(b^2-y^2) over the
    /// y-dominant range, each value rounded exactly, mirrored four ways.
    pub fn draw_canonic(&self) -> (res: Result<Vec<Point>, GeomError>)
        requires
            in_range(self.center),
            self.radius.0 <= RADIUS_LIMIT,
            self.radius.1 <= RADIUS_LIMIT,
        ensures
            self.radius.0 <= 0 || self.radius.1 <= 0 ==> res == Result::<
                Vec<Point>,
                GeomError,
            >::Err(GeomError::InvalidRadius),
            self.radius.0 > 0 && self.radius.1 > 0 ==> res is Ok && pts_view(res->Ok_0@)
                == ellipse_canonic_pixels(
                self.center.x as int,
                self.center.y as int,
                self.radius.0 as int,
                self.radius.1 as int,
            ),
    {
        if self.radius.0 <= 0 || self.radius.1 <= 0 {
            return Err(GeomError::InvalidRadius);
        }
        let ra = self.radius.0;
        let rb = self.radius.1;
        proof {
            assert(ra * ra <= 10_000_000_000 && rb * rb <= 10_000_000_000 && 1 <= ra * ra && 1
                <= rb * rb) by (nonlinear_arith)
                requires
                    1 <= ra as int <= 100_000,
                    1 <= rb as int <= 100_000,
            ;
        }
        let sa = ra * ra;
        let sb = rb * rb;
        let spec_seq = Ghost(
            ellipse_canonic_pixels(
                self.center.x as int,
                self.center.y as int,
                ra as int,
                rb as int,
            ),
        );
        proof {
            lemma_ellipse_canonic_bound(sa as int, sb as int, ra as int);
            lemma_ellipse_canonic_bound(sb as int, sa as int, rb as int);
            assert((sa as int) * (sa as int) <= 100_000_000_000_000_000_000 && (sb as int) * (
            sb as int) <= 100_000_000_000_000_000_000) by (nonlinear_arith)
                requires
                    1 <= sa as int <= 10_000_000_000,
                    1 <= sb as int <= 10_000_000_000,
            ;
        }
        let hyp = (sa as u128) + (sb as u128);
        let xmu = crate::geom::isqrt_u128(((sa as u128) * (sa as u128)) / hyp);
        let ymu = crate::geom::isqrt_u128(((sb as u128) * (sb as u128)) / hyp);
        proof {
            assert(xmu as int == spec_isqrt(((sa as int) * (sa as int)) / ((sa as int) + (
            sb as int))));
            assert(ymu as int == spec_isqrt(((sb as int) * (sb as int)) / ((sb as int) + (
            sa as int))));
            assert(((sb as int) * (sb as int)) / ((sb as int) + (sa as int)) == ((sb as int) * (
            sb as int)) / ((sa as int) + (sb as int)));
        }
        let xm = xmu as i64;
        let ym = ymu as i64;
        let ghost base2 = 4 * ((xm as int) + 2);
        let mut pixels: Vec<Point> = Vec::new();
        let mut x: i64 = 0;
        while x <= xm + 1
            invariant
                0 <= x <= xm + 2,
                0 <= xm < ra,
                0 <= ym < rb,
                1 <= ra <= RADIUS_LIMIT,
                1 <= rb <= RADIUS_LIMIT,
                sa == ra * ra,
                sb == rb * rb,
                1 <= sa <= 10_000_000_000,
                1 <= sb <= 10_000_000_000,
                base2 == 4 * ((xm as int) + 2),
                xm == spec_isqrt(((sa * sa) as int) / ((sa + sb) as int)),
                ym == spec_isqrt(((sb * sb) as int) / ((sa + sb) as int)),
                in_range(self.center),
                spec_seq@ == ellipse_canonic_pixels(
                    self.center.x as int,
                    self.center.y as int,
                    ra as int,
                    rb as int,
                ),
                pts_view(pixels@) =~= spec_seq@.subrange(0, 4 * x),
            decreases xm + 2 - x,
        {
            proof {
                assert(0 <= x * x <= sa && 0 <= sb * (sa - x * x) <= 100_000_000_000_000_000_000)
                    by (nonlinear_arith)
                    requires
                        0 <= x as int <= ra as int,
                        sa == ra * ra,
                        1 <= sb <= 10_000_000_000,
                        sa <= 10_000_000_000,
                        ra as int >= 1,
                ;
            }
            let m = (sb as u128) * ((sa - x * x) as u128);
            let yu = nearest_sqrt_div_u128(m, ra as u128);
            proof {
                let t = spec_isqrt(4 * (m as int));
                crate::geom::lemma_spec_isqrt(4 * (m as int));
                assert(t <= 20_000_000_000) by {
                    if t > 20_000_000_000 {
                        assert(t * t > 400_000_000_000_000_000_000) by (nonlinear_arith)
                            requires
                                t > 20_000_000_000,
                        ;
                    }
                }
            }
            let y = yu as i64;
            let ghost old_pixels = pixels@;
            plot_ellipse_pixels(x, y, self.center.x, self.center.y, &mut pixels);
            proof {
                assert forall|t: int| 0 <= t < 4 implies spec_seq@[4 * (x as int) + t]
                    == ellipse_quad(
                    self.center.x as int,
                    self.center.y as int,
                    x as int,
                    y as int,
                )[t] by {
                    vstd::arithmetic::div_mod::lemma_fundamental_div_mod_converse(
                        4 * (x as int) + t,
                        4,
                        x as int,
                        t,
                    );
                }
                assert(pts_view(pixels@) =~= spec_seq@.subrange(0, 4 * (x as int) + 4));
            }
            x = x + 1;
        }
        let mut y: i64 = 0;
        while y <= ym + 1
            invariant
                0 <= y <= ym + 2,
                0 <= xm < ra,
                0 <= ym < rb,
                1 <= ra <= RADIUS_LIMIT,
                1 <= rb <= RADIUS_LIMIT,
                sa == ra * ra,
                sb == rb * rb,
                1 <= sa <= 10_000_000_000,
                1 <= sb <= 10_000_000_000,
                base2 == 4 * ((xm as int) + 2),
                xm == spec_isqrt(((sa * sa) as int) / ((sa + sb) as int)),
                ym == spec_isqrt(((sb * sb) as int) / ((sa + sb) as int)),
                in_range(self.center),
                spec_seq@ == ellipse_canonic_pixels(
                    self.center.x as int,
                    self.center.y as int,
                    ra as int,
                    rb as int,
                ),
                pts_view(pixels@) =~= spec_seq@.subrange(0, base2 + 4 * y),
            decreases ym + 2 - y,
        {
            proof {
                assert(0 <= y * y <= sb && 0 <= sa * (sb - y * y) <= 100_000_000_000_000_000_000)
                    by (nonlinear_arith)
                    requires
                        0 <= y as int <= rb as int,
                        sb == rb * rb,
                        1 <= sa <= 10_000_000_000,
                        sb <= 10_000_000_000,
                        rb as int >= 1,
                ;
            }
            let m = (sa as u128) * ((sb - y * y) as u128);
            let xu = nearest_sqrt_div_u128(m, rb as u128);
            proof {
                let t = spec_isqrt(4 * (m as int));
                crate::geom::lemma_spec_isqrt(4 * (m as int));
                assert(t <= 20_000_000_000) by {
                    if t > 20_000_000_000 {
                        assert(t * t > 400_000_000_000_000_000_000) by (nonlinear_arith)
                            requires
                                t > 20_000_000_000,
                        ;
                    }
                }
            }
            let xv = xu as i64;
            let ghost old_pixels = pixels@;
            plot_ellipse_pixels(xv, y, self.center.x, self.center.y, &mut pixels);
            proof {
                assert forall|t: int| 0 <= t < 4 implies spec_seq@[base2 + 4 * (y as int) + t]
                    == ellipse_quad(
                    self.center.x as int,
                    self.center.y as int,
                    xv as int,
                    y as int,
                )[t] by {
                    vstd::arithmetic::div_mod::lemma_fundamental_div_mod_converse(
                        4 * (y as int) + t,
                        4,
                        y as int,
                        t,
                    );
                }
                assert(pts_view(pixels@) =~= spec_seq@.subrange(0, base2 + 4 * (y as int) + 4));
            }
            y = y + 1;
        }
        proof {
            assert(pts_view(pixels@) =~= spec_seq@);
        }
        Ok(pixels)
    }
}

/// The accuracy invariant of the circle Bresenham trace: the decision
/// variable tracks (x+1)^2 + (y-1)^2 - r^2 up to a drift of two per
/// vertical-only step, and stays within a few radii of zero.
proof fn lemma_circle_bres_steps_accuracy(
    xc: int,
    yc: int,
    r: int,
    x: int,
    y: int,
    cap: int,
    d: int,
)
    requires
        1 <= r,
        0 <= x,
        y <= r,
        cap == (x + 1) * (x + 1) + (y - 1) * (y - 1) - r * r - 2 * d,
        0 <= d <= r - y,
        -(4 * r + 8) <= cap <= 4 * r + 8,
    ensures
        forall|j: int|
            0 <= j < circle_bres_steps(xc, yc, x, y, cap).len() ==> {
                let p = #[trigger] circle_bres_steps(xc, yc, x, y, cap)[j];
                let dx = p.0 - xc;
                let dy = p.1 - yc;
                crate::geom::abs_int(dx * dx + dy * dy - r * r) <= 6 * r + 10
            },
    decreases crate::geom::max_int(y - x + 1, 0),
{
    let s = circle_bres_steps(xc, yc, x, y, cap);
    if y < x {
    } else {
        // the emitted octet: every entry has the same squared distance
        assert(x * x + y * y - r * r == cap + 2 * d - 2 * x + 2 * y - 2) by (nonlinear_arith)
            requires
                cap == (x + 1) * (x + 1) + (y - 1) * (y - 1) - r * r - 2 * d,
        ;
        assert(crate::geom::abs_int(x * x + y * y - r * r) <= 6 * r + 10) by {
            assert(0 <= 2 * d <= 2 * r - 2 * y);
            assert(0 <= 2 * y - 2 * x <= 2 * r);
        }
        // the successor state: one of the three moves, with the matching
        // update of the decision variable and drift
        let oct = circle_octet(xc, yc, x, y);
        let (nx, ny, ncap, nd): (int, int, int, int) = if cap < 0 {
            if 2 * (cap + y) - 1 <= 0 {
                (x + 1, y, cap + 2 * (x + 1) + 1, d)
            } else {
                (x + 1, y - 1, cap + 2 * ((x + 1) - (y - 1) + 1), d)
            }
        } else if cap > 0 {
            if 2 * (cap - x) - 1 <= 0 {
                (x + 1, y - 1, cap + 2 * ((x + 1) - (y - 1) + 1), d)
            } else {
                (x, y - 1, cap - (2 * (y - 1) + 1), d + 1)
            }
        } else {
            (x + 1, y - 1, cap + 2 * ((x + 1) - (y - 1) + 1), d)
        };
        assert(s =~= oct + circle_bres_steps(xc, yc, nx, ny, ncap));
        // the algebraic relation carries to the successor
        assert(ncap == (nx + 1) * (nx + 1) + (ny - 1) * (ny - 1) - r * r - 2 * nd)
            by (nonlinear_arith)
            requires
                cap == (x + 1) * (x + 1) + (y - 1) * (y - 1) - r * r - 2 * d,
                (nx == x + 1 && ny == y && ncap == cap + 2 * (x + 1) + 1 && nd == d) || (nx == x
                    + 1 && ny == y - 1 && ncap == cap + 2 * ((x + 1) - (y - 1) + 1) && nd == d)
                    || (nx == x && ny == y - 1 && ncap == cap - (2 * (y - 1) + 1) && nd == d + 1),
        ;
        let rest = circle_bres_steps(xc, yc, nx, ny, ncap);
        if ny >= nx {
            // the bounds carry to the successor, branch by branch
            assert(-(4 * r + 8) <= ncap <= 4 * r + 8) by {
                if cap < 0 {
                    if 2 * (cap + y) - 1 <= 0 {
                        assert(2 * cap <= 1 - 2 * y);
                        assert(cap <= -y);
                        assert(ncap <= -y + 2 * x + 3);
                    } else {
                        assert(cap >= 1 - y);
                    }
                } else if cap > 0 {
                    if 2 * (cap - x) - 1 <= 0 {
                        assert(cap <= x);
                    } else {
                        assert(cap >= x + 1);
                        assert(ny >= nx ==> y >= 1);
                    }
                }
            }
            lemma_circle_bres_steps_accuracy(xc, yc, r, nx, ny, ncap, nd);
        } else {
            assert(rest =~= Seq::empty());
        }
        assert forall|j: int| 0 <= j < s.len() implies {
            let p = #[trigger] s[j];
            let dx = p.0 - xc;
            let dy = p.1 - yc;
            crate::geom::abs_int(dx * dx + dy * dy - r * r) <= 6 * r + 10
        } by {
            if j < 8 {
                let p = oct[j];
                let dx = p.0 - xc;
                let dy = p.1 - yc;
                assert(dx * dx + dy * dy == x * x + y * y) by (nonlinear_arith)
                    requires
                        (dx == x && dy == y) || (dx == y && dy == x) || (dx == -x && dy == y) || (
                        dx == y && dy == -x) || (dx == x && dy == -y) || (dx == -y && dy == x)
                            || (dx == -x && dy == -y) || (dx == -y && dy == -x),
                ;
            } else {
                assert(s[j] == rest[j - 8]);
            }
        }
    }
}

/// Law: every pixel of the Bresenham circle rasterizer stays within the
/// rounding tolerance of the true circle: |dx^2 + dy^2 - r^2| <= 6r + 10.
/// The tolerance is wider than the canonical rasterizer's because this
/// decision recurrence drifts by two per vertical-only step.
pub proof fn lemma_circle_bresenham_accuracy(xc: int, yc: int, r: int)
    requires
        1 <= r,
    ensures
        forall|j: int|
            0 <= j < circle_bresenham_pixels(xc, yc, r).len() ==> {
                let p = #[trigger] circle_bresenham_pixels(xc, yc, r)[j];
                let dx = p.0 - xc;
                let dy = p.1 - yc;
                crate::geom::abs_int(dx * dx + dy * dy - r * r) <= 6 * r + 10
            },
{
    assert(2 * (1 - r) == (0 + 1) * (0 + 1) + (r - 1) * (r - 1) - r * r - 2 * 0)
        by (nonlinear_arith);
    lemma_circle_bres_steps_accuracy(xc, yc, r, 0, r, 2 * (1 - r), 0);
}

} // verus!
