//! Floating-horizon hidden-line removal over integer screen coordinates: two
//! per-column horizon arrays (upper and lower) are maintained while the
//! projected surface curves are drawn front to back; segments are rasterized
//! column by column with exact rounded interpolation, raising or lowering
//! the horizons, and a curve's visibility changes are located by the exact
//! intersection formula of the recurrence. Projection of the surface into
//! screen coordinates is the caller's concern: this core takes the projected
//! integer polylines.

use vstd::prelude::*;

use crate::geom::abs_int;
use crate::geom::lemma_mul_bounds;
use crate::geom::max_int;
use crate::geom::min_int;
use crate::geom::round_frac;

verus! {

/// The rounded ordinate of the segment (x1, y1)-(x2, y2) at column x:
/// round(y1 + (x - x1) * (y2 - y1) / (x2 - x1)), exact on the rationals.
pub open spec fn segment_y_at(x1: int, y1: int, x2: int, y2: int, x: int) -> int
    recommends
        x1 < x2,
{
    round_frac(y1 * (x2 - x1) + (x - x1) * (y2 - y1), x2 - x1)
}

/// Painter segments as mathematical 4-tuples.
pub open spec fn quad_view(s: Seq<(i64, i64, i64, i64)>) -> Seq<(int, int, int, int)> {
    s.map_values(
        |q: (i64, i64, i64, i64)| (q.0 as int, q.1 as int, q.2 as int, q.3 as int),
    )
}

/// The painter segments one horizon draw appends: one per column, each from
/// the previous column's rounded ordinate to the current one; the first
/// starts at the segment's own left endpoint.
pub open spec fn horizon_segments(lo: int, ly: int, hi: int, hy: int) -> Seq<(int, int, int, int)>
    recommends
        lo < hi,
{
    Seq::new(
        (hi - lo + 1) as nat,
        |i: int|
            {
                let cx = lo + i;
                let cy = segment_y_at(lo, ly, hi, hy, cx);
                if i == 0 {
                    (lo, ly, cx, cy)
                } else {
                    (lo + i - 1, segment_y_at(lo, ly, hi, hy, lo + i - 1), cx, cy)
                }
            },
    )
}

/// The coordinate magnitude the horizon core accepts.
pub open spec fn hz_ok(v: int) -> bool {
    abs_int(v) <= 0x4000_0000
}

/// The effect of drawing one segment onto the horizons: every column under
/// the segment's x-range takes the pointwise max (upper) and min (lower) of
/// its old horizon and the rounded segment ordinate; other columns are kept.
/// A single-column segment uses its far endpoint's ordinate.
pub open spec fn horizon_effect(
    pre: Horizont,
    post: Horizont,
    x1: int,
    y1: int,
    x2: int,
    y2: int,
) -> bool {
    let lo = min_int(x1, x2);
    let hi = max_int(x1, x2);
    let ly = if x1 <= x2 {
        y1
    } else {
        y2
    };
    let hy = if x1 <= x2 {
        y2
    } else {
        y1
    };
    if lo == hi {
        post.top_at(hi) == max_int(pre.top_at(hi), hy) && post.down_at(hi) == min_int(
            pre.down_at(hi),
            hy,
        ) && (forall|k: int|
            0 <= k < pre.spec_width() && k != hi ==> #[trigger] post.top_at(k) == pre.top_at(k)
                && post.down_at(k) == pre.down_at(k))
    } else {
        forall|k: int|
            0 <= k < pre.spec_width() ==> (#[trigger] post.top_at(k) == if lo <= k <= hi {
                max_int(pre.top_at(k), segment_y_at(lo, ly, hi, hy, k))
            } else {
                pre.top_at(k)
            }) && (post.down_at(k) == if lo <= k <= hi {
                min_int(pre.down_at(k), segment_y_at(lo, ly, hi, hy, k))
            } else {
                pre.down_at(k)
            })
    }
}

/// The floating-horizon state: per-column upper and lower horizons.
pub struct Horizont {
    width: usize,
    height: usize,
    top: Vec<i64>,
    down: Vec<i64>,
}

impl Horizont {
    pub closed spec fn spec_width(&self) -> int {
        self.width as int
    }

    pub closed spec fn spec_height(&self) -> int {
        self.height as int
    }

    pub closed spec fn top_seq(&self) -> Seq<i64> {
        self.top@
    }

    pub closed spec fn down_seq(&self) -> Seq<i64> {
        self.down@
    }

    pub open spec fn well_formed(&self) -> bool {
        &&& self.top_seq().len() == self.spec_width()
        &&& self.down_seq().len() == self.spec_width()
        &&& 0 < self.spec_width() <= 0x10_0000
        &&& 0 < self.spec_height() <= 0x10_0000
        &&& forall|i: int| 0 <= i < self.spec_width() ==> hz_ok(#[trigger] self.top_seq()[i] as int)
        &&& forall|i: int|
            0 <= i < self.spec_width() ==> hz_ok(#[trigger] self.down_seq()[i] as int)
    }

    /// The upper horizon at column x; columns off the screen read as 0.
    pub open spec fn top_at(&self, x: int) -> int {
        if 0 <= x < self.top_seq().len() {
            self.top_seq()[x] as int
        } else {
            0
        }
    }

    /// The lower horizon at column x; columns off the screen read as the
    /// screen height.
    pub open spec fn down_at(&self, x: int) -> int {
        if 0 <= x < self.down_seq().len() {
            self.down_seq()[x] as int
        } else {
            self.spec_height()
        }
    }

    pub fn new(screen_size: (usize, usize)) -> (h: Horizont)
        requires
            0 < screen_size.0 <= 0x10_0000,
            0 < screen_size.1 <= 0x10_0000,
        ensures
            h.well_formed(),
            h.spec_width() == screen_size.0,
            h.spec_height() == screen_size.1,
            forall|i: int| 0 <= i < h.spec_width() ==> h.top_at(i) == 0,
            forall|i: int| 0 <= i < h.spec_width() ==> h.down_at(i) == screen_size.1,
    {
        let mut h = Horizont { width: screen_size.0, height: screen_size.1, top: Vec::new(), down: Vec::new() };
        h.prepare_arrays();
        h
    }

    /// Resets the horizons: the upper one to 0, the lower to the height.
    pub fn prepare_arrays(&mut self)
        requires
            0 < old(self).spec_width() <= 0x10_0000,
            0 < old(self).spec_height() <= 0x10_0000,
        ensures
            final(self).well_formed(),
            final(self).spec_width() == old(self).spec_width(),
            final(self).spec_height() == old(self).spec_height(),
            forall|i: int| 0 <= i < final(self).spec_width() ==> final(self).top_at(i) == 0,
            forall|i: int|
                0 <= i < final(self).spec_width() ==> final(self).down_at(i)
                    == final(self).spec_height(),
    {
        let w = self.width;
        let hgt = self.height as i64;
        let mut top: Vec<i64> = Vec::new();
        let mut down: Vec<i64> = Vec::new();
        let mut i: usize = 0;
        while i < w
            invariant
                0 <= i <= w,
                top@.len() == i,
                down@.len() == i,
                hgt == self.spec_height(),
                self.spec_height() <= 0x10_0000,
                forall|k: int| 0 <= k < i ==> top@[k] == 0i64,
                forall|k: int| 0 <= k < i ==> down@[k] == hgt,
            decreases w - i,
        {
            top.push(0);
            down.push(hgt);
            i = i + 1;
        }
        self.top = top;
        self.down = down;
    }

    /// The visibility flag of a point against the horizons: 0 when it lies
    /// strictly between them (hidden), 1 on or above the upper horizon,
    /// -1 otherwise.
    pub open spec fn spec_visible(&self, x: int, y: int) -> int {
        if y < self.top_at(x) && y > self.down_at(x) {
            0
        } else if y >= self.top_at(x) {
            1
        } else {
            -1
        }
    }

    pub fn visible(&self, x: i64, y: i64) -> (r: i64)
        requires
            self.well_formed(),
        ensures
            r == self.spec_visible(x as int, y as int),
    {
        let w64 = self.width as i64;
        let t = if 0 <= x && x < w64 {
            self.top[x as usize]
        } else {
            0
        };
        let d = if 0 <= x && x < w64 {
            self.down[x as usize]
        } else {
            self.height as i64
        };
        if y < t && y > d {
            0
        } else if y >= t {
            1
        } else {
            -1
        }
    }

    /// Draws the segment onto the horizon state: column by column from x1 to
    /// x2 the exact rounded segment ordinate raises the upper horizon and
    /// lowers the lower one, and each step's segment is handed to the
    /// painter; endpoints off the screen leave everything unchanged.
    #[verifier::rlimit(100)]
    pub fn horizon(
        &mut self,
        x1: i64,
        y1: i64,
        x2: i64,
        y2: i64,
        painter: &mut Vec<(i64, i64, i64, i64)>,
    )
        requires
            old(self).well_formed(),
            hz_ok(y1 as int),
            hz_ok(y2 as int),
        ensures
            final(self).well_formed(),
            final(self).spec_width() == old(self).spec_width(),
            final(self).spec_height() == old(self).spec_height(),
            final(painter)@.len() >= old(painter)@.len(),
            forall|i: int|
                0 <= i < old(painter)@.len() ==> #[trigger] final(painter)@[i] == old(
                    painter,
                )@[i],
            (x1 < 0 || x1 >= old(self).spec_width() || x2 < 0 || x2 >= old(self).spec_width())
                ==> final(self).top_seq() == old(self).top_seq() && final(self).down_seq() == old(self).down_seq() && final(painter)@ == old(painter)@,
            (0 <= x1 && x1 < old(self).spec_width() && 0 <= x2 && x2
                < old(self).spec_width()) ==> horizon_effect(
                *old(self),
                *final(self),
                x1 as int,
                y1 as int,
                x2 as int,
                y2 as int,
            ),
            (0 <= x1 && x1 < old(self).spec_width() && 0 <= x2 && x2
                < old(self).spec_width()) ==> (if x1 == x2 {
                quad_view(final(painter)@) == quad_view(old(painter)@).push(
                    (x1 as int, y1 as int, x2 as int, y2 as int),
                )
            } else {
                quad_view(final(painter)@) == quad_view(old(painter)@) + horizon_segments(
                    min_int(x1 as int, x2 as int),
                    if x1 as int <= x2 as int {
                        y1 as int
                    } else {
                        y2 as int
                    },
                    max_int(x1 as int, x2 as int),
                    if x1 as int <= x2 as int {
                        y2 as int
                    } else {
                        y1 as int
                    },
                )
            }),
    {
        let w = self.width as i64;
        if x2 < 0 || x2 >= w || x1 < 0 || x1 >= w {
            return ;
        }
        let (ax1, ay1, ax2, ay2) = if x2 < x1 {
            (x2, y2, x1, y1)
        } else {
            (x1, y1, x2, y2)
        };
        if ax2 == ax1 {
            let xi = ax2 as usize;
            let oldt = self.top[xi];
            if ay2 > oldt {
                self.top.set(xi, ay2);
            }
            let oldd = self.down[xi];
            if ay2 < oldd {
                self.down.set(xi, ay2);
            }
            let ghost opq = painter@;
            painter.push((ax1, ay1, ax2, ay2));
            proof {
                assert(quad_view(painter@) =~= quad_view(opq).push(
                    (ax1 as int, ay1 as int, ax2 as int, ay2 as int),
                ));
            }
            return ;
        }
        let dx = ax2 - ax1;
        let dy = ay2 - ay1;
        let mut x = ax1;
        let mut x_prev = ax1;
        let mut y_prev = ay1;
        let ghost base_painter = painter@;
        while x <= ax2
            invariant
                self.well_formed(),
                self.spec_width() == old(self).spec_width(),
                self.spec_height() == old(self).spec_height(),
                0 <= ax1 <= x <= ax2 + 1,
                ax2 < self.spec_width(),
                ax1 < ax2,
                dx == ax2 - ax1,
                dy == ay2 - ay1,
                0 <= x1 < self.spec_width(),
                0 <= x2 < self.spec_width(),
                if x2 < x1 {
                    ax1 == x2 && ay1 == y2 && ax2 == x1 && ay2 == y1
                } else {
                    ax1 == x1 && ay1 == y1 && ax2 == x2 && ay2 == y2
                },
                hz_ok(ay1 as int),
                hz_ok(ay2 as int),
                x == ax1 ==> x_prev == ax1 && y_prev == ay1,
                x > ax1 ==> x_prev == x - 1 && y_prev == segment_y_at(
                    ax1 as int,
                    ay1 as int,
                    ax2 as int,
                    ay2 as int,
                    x - 1,
                ),
                painter@.len() >= base_painter.len(),
                forall|i: int|
                    0 <= i < base_painter.len() ==> #[trigger] painter@[i] == base_painter[i],
                quad_view(painter@) =~= quad_view(base_painter) + horizon_segments(
                    ax1 as int,
                    ay1 as int,
                    ax2 as int,
                    ay2 as int,
                ).subrange(0, x - ax1),
                forall|k: int|
                    0 <= k < self.spec_width() ==> (#[trigger] self.top_at(k) == if ax1 <= k < x {
                        max_int(
                            old(self).top_at(k),
                            segment_y_at(ax1 as int, ay1 as int, ax2 as int, ay2 as int, k),
                        )
                    } else {
                        old(self).top_at(k)
                    }) && (self.down_at(k) == if ax1 <= k < x {
                        min_int(
                            old(self).down_at(k),
                            segment_y_at(ax1 as int, ay1 as int, ax2 as int, ay2 as int, k),
                        )
                    } else {
                        old(self).down_at(k)
                    }),
            decreases ax2 + 1 - x,
        {
            proof {
                lemma_mul_bounds(ay1 as int, dx as int, 0x4000_0000, 0x10_0000);
                lemma_mul_bounds((x - ax1) as int, dy as int, 0x10_0000, 0x8000_0000);
                crate::clip_poly::lemma_rounded_between_pub(
                    ay1 as int,
                    dy as int,
                    (x - ax1) as int,
                    dx as int,
                );
                assert(((x - ax1) as int) * (dy as int) == (dy as int) * ((x - ax1) as int))
                    by (nonlinear_arith);
            }
            let num = ay1 * dx + (x - ax1) * dy;
            let yv = crate::geom::round_div_i128(num as i128, dx as i128) as i64;
            let ghost prev_state = *self;
            let xi = x as usize;
            let oldt = self.top[xi];
            if yv > oldt {
                self.top.set(xi, yv);
            }
            let oldd = self.down[xi];
            if yv < oldd {
                self.down.set(xi, yv);
            }
            let ghost opq = painter@;
            painter.push((x_prev, y_prev, x, yv));
            proof {
                assert(quad_view(painter@) =~= quad_view(opq).push(
                    (x_prev as int, y_prev as int, x as int, yv as int),
                ));
                assert(quad_view(painter@) =~= quad_view(base_painter) + horizon_segments(
                    ax1 as int,
                    ay1 as int,
                    ax2 as int,
                    ay2 as int,
                ).subrange(0, x - ax1 + 1));
                assert(yv as int == segment_y_at(
                    ax1 as int,
                    ay1 as int,
                    ax2 as int,
                    ay2 as int,
                    x as int,
                ));
                assert forall|k: int|
                    0 <= k < self.spec_width() implies (#[trigger] self.top_at(k) == if ax1 <= k
                    < x + 1 {
                    max_int(
                        old(self).top_at(k),
                        segment_y_at(ax1 as int, ay1 as int, ax2 as int, ay2 as int, k),
                    )
                } else {
                    old(self).top_at(k)
                }) && (self.down_at(k) == if ax1 <= k < x + 1 {
                    min_int(
                        old(self).down_at(k),
                        segment_y_at(ax1 as int, ay1 as int, ax2 as int, ay2 as int, k),
                    )
                } else {
                    old(self).down_at(k)
                }) by {
                    if k != x as int {
                        assert(self.top_at(k) == prev_state.top_at(k));
                        assert(self.down_at(k) == prev_state.down_at(k));
                    } else {
                        assert(self.top_at(k) == max_int(prev_state.top_at(k), yv as int));
                        assert(self.down_at(k) == min_int(prev_state.down_at(k), yv as int));
                        assert(prev_state.top_at(k) == old(self).top_at(k));
                        assert(prev_state.down_at(k) == old(self).down_at(k));
                    }
                }
            }
            x_prev = x;
            y_prev = yv;
            x = x + 1;
        }
        proof {
            assert(x == ax2 + 1);
            assert forall|k: int|
                0 <= k < self.spec_width() implies (#[trigger] self.top_at(k) == if ax1 as int <= k
                <= ax2 as int {
                max_int(
                    old(self).top_at(k),
                    segment_y_at(ax1 as int, ay1 as int, ax2 as int, ay2 as int, k),
                )
            } else {
                old(self).top_at(k)
            }) && (self.down_at(k) == if ax1 as int <= k <= ax2 as int {
                min_int(
                    old(self).down_at(k),
                    segment_y_at(ax1 as int, ay1 as int, ax2 as int, ay2 as int, k),
                )
            } else {
                old(self).down_at(k)
            }) by {
                assert(self.top_at(k) == if ax1 <= k < x {
                    max_int(
                        old(self).top_at(k),
                        segment_y_at(ax1 as int, ay1 as int, ax2 as int, ay2 as int, k),
                    )
                } else {
                    old(self).top_at(k)
                });
            }
            let lo = min_int(x1 as int, x2 as int);
            let hi = max_int(x1 as int, x2 as int);
            let ly = if x1 as int <= x2 as int {
                y1 as int
            } else {
                y2 as int
            };
            let hy = if x1 as int <= x2 as int {
                y2 as int
            } else {
                y1 as int
            };
            assert(lo == ax1 as int && hi == ax2 as int && ly == ay1 as int && hy
                == ay2 as int);
            assert(lo != hi);
            assert forall|k: int|
                0 <= k < old(self).spec_width() implies (#[trigger] self.top_at(k) == if lo <= k
                <= hi {
                max_int(old(self).top_at(k), segment_y_at(lo, ly, hi, hy, k))
            } else {
                old(self).top_at(k)
            }) && (self.down_at(k) == if lo <= k <= hi {
                min_int(old(self).down_at(k), segment_y_at(lo, ly, hi, hy, k))
            } else {
                old(self).down_at(k)
            }) by {
                assert(self.top_at(k) == if ax1 as int <= k <= ax2 as int {
                    max_int(
                        old(self).top_at(k),
                        segment_y_at(ax1 as int, ay1 as int, ax2 as int, ay2 as int, k),
                    )
                } else {
                    old(self).top_at(k)
                });
            }
            assert(horizon_effect(
                *old(self),
                *self,
                x1 as int,
                y1 as int,
                x2 as int,
                y2 as int,
            ));
            assert(horizon_segments(ax1 as int, ay1 as int, ax2 as int, ay2 as int).subrange(
                0,
                x - ax1,
            ) =~= horizon_segments(ax1 as int, ay1 as int, ax2 as int, ay2 as int));
        }
    }

    /// Locates the column where the segment crosses the given horizon array,
    /// by the floating-horizon recurrence's exact formula, and the rounded
    /// segment ordinate there. Parallel recurrences (equal slopes) fall back
    /// to the segment start.
    pub fn get_intersection(
        &self,
        x1: i64,
        y1: i64,
        x2: i64,
        y2: i64,
        use_top: bool,
    ) -> (r: (i64, i64))
        requires
            self.well_formed(),
            hz_ok(x1 as int),
            hz_ok(y1 as int),
            hz_ok(x2 as int),
            hz_ok(y2 as int),
        ensures
            (r.0 as int, r.1 as int) == self.spec_intersection(
                x1 as int,
                y1 as int,
                x2 as int,
                y2 as int,
                use_top,
            ),
    {
        let h1 = self.horizon_value(x1, use_top);
        let h2 = self.horizon_value(x2, use_top);
        if x2 == x1 {
            return (x2, h2);
        }
        if y1 == h1 && y2 == h2 {
            return (x1, y1);
        }
        let delta_x = x2 - x1;
        let delta_y_c = y2 - y1;
        let delta_y_p = h2 - h1;
        if delta_y_c == delta_y_p {
            return (x1, y1);
        }
        proof {
            lemma_mul_bounds(
                delta_x as int,
                (y1 - h1) as int,
                0x8000_0000,
                0x8000_0000,
            );
        }
        let off = crate::geom::round_frac_exec(
            (delta_x as i128) * ((y1 - h1) as i128),
            (delta_y_c - delta_y_p) as i128,
        );
        let xi = x1 - (off as i64);
        proof {
            lemma_mul_bounds(
                (xi - x1) as int,
                delta_y_c as int,
                0x4000_0000_0000_0000,
                0x8000_0000,
            );
            lemma_mul_bounds(y1 as int, delta_x as int, 0x4000_0000, 0x8000_0000);
        }
        let ynum = (xi as i128 - x1 as i128) * (delta_y_c as i128) + (y1 as i128) * (
        delta_x as i128);
        let yw = crate::geom::round_frac_exec(ynum, delta_x as i128);
        let yi = clamp_to_i64(yw);
        (xi, yi)
    }

    /// The horizon array value consulted by the recurrence, with the
    /// original's out-of-range default of 0.
    pub open spec fn spec_horizon_value(&self, x: int, use_top: bool) -> int {
        let s = if use_top {
            self.top_seq()
        } else {
            self.down_seq()
        };
        if 0 <= x < s.len() {
            s[x] as int
        } else {
            0
        }
    }

    fn horizon_value(&self, x: i64, use_top: bool) -> (r: i64)
        requires
            self.well_formed(),
        ensures
            r as int == self.spec_horizon_value(x as int, use_top),
            hz_ok(r as int),
    {
        let w64 = self.width as i64;
        if 0 <= x && x < w64 {
            if use_top {
                self.top[x as usize]
            } else {
                self.down[x as usize]
            }
        } else {
            0
        }
    }

    /// The exact intersection the recurrence computes: the column offset is
    /// the rounded quotient of dx*(y1 - h(x1)) by the slope difference, the
    /// ordinate the rounded segment value there.
    pub open spec fn spec_intersection(
        &self,
        x1: int,
        y1: int,
        x2: int,
        y2: int,
        use_top: bool,
    ) -> (int, int) {
        let h1 = self.spec_horizon_value(x1, use_top);
        let h2 = self.spec_horizon_value(x2, use_top);
        if x2 == x1 {
            (x2, h2)
        } else if y1 == h1 && y2 == h2 {
            (x1, y1)
        } else if (y2 - y1) == (h2 - h1) {
            (x1, y1)
        } else {
            let off = round_frac((x2 - x1) * (y1 - h1), (y2 - y1) - (h2 - h1));
            let xi = x1 - off;
            (xi, clamp_i64(round_frac((xi - x1) * (y2 - y1) + y1 * (x2 - x1), x2 - x1)))
        }
    }
}

/// The outcome of handing one segment to the horizon draw: the exact
/// horizon update when both columns are on the screen, no change otherwise.
pub open spec fn seg_drawn(pre: Horizont, post: Horizont, x1: int, y1: int, x2: int, y2: int) -> bool {
    if 0 <= x1 < pre.spec_width() && 0 <= x2 < pre.spec_width() {
        horizon_effect(pre, post, x1, y1, x2, y2)
    } else {
        post.top_seq() == pre.top_seq() && post.down_seq() == pre.down_seq()
    }
}

/// One segment draw of the hidden-line dispatch: drawn when both ordinates
/// are in machine range, skipped (state kept) otherwise.
pub open spec fn step_drawn(
    pre: Horizont,
    post: Horizont,
    x1: int,
    y1: int,
    x2: int,
    y2: int,
) -> bool {
    if hz_ok(y1) && hz_ok(y2) {
        seg_drawn(pre, post, x1, y1, x2, y2)
    } else {
        post.top_seq() == pre.top_seq() && post.down_seq() == pre.down_seq()
    }
}

impl Horizont {
    /// One step of the floating-horizon hidden-line walk: classifies the
    /// current projected point against the horizons and draws the segment
    /// from the previous point accordingly — wholly when the visibility flag
    /// is unchanged and nonzero, not at all when both points are hidden, and
    /// up to the exact horizon intersection where the flag changes; a change
    /// between the two visible sides crosses both horizons in turn.
    pub fn horizon_step(
        &mut self,
        x_prev: i64,
        y_prev: i64,
        x_curr: i64,
        y_curr: i64,
        p_flag: i64,
        painter: &mut Vec<(i64, i64, i64, i64)>,
    ) -> (t_flag: i64)
        requires
            old(self).well_formed(),
            hz_ok(x_prev as int),
            hz_ok(y_prev as int),
            hz_ok(x_curr as int),
            hz_ok(y_curr as int),
            p_flag == -1 || p_flag == 0 || p_flag == 1,
        ensures
            final(self).well_formed(),
            final(self).spec_width() == old(self).spec_width(),
            final(self).spec_height() == old(self).spec_height(),
            final(painter)@.len() >= old(painter)@.len(),
            forall|i: int|
                0 <= i < old(painter)@.len() ==> #[trigger] final(painter)@[i] == old(
                    painter,
                )@[i],
            t_flag == old(self).spec_visible(x_curr as int, y_curr as int),
            ({
                let pre = *old(self);
                let post = *final(self);
                let t = pre.spec_visible(x_curr as int, y_curr as int);
                if t == p_flag {
                    if p_flag == 0 {
                        post.top_seq() == pre.top_seq() && post.down_seq() == pre.down_seq()
                            && final(painter)@ == old(painter)@
                    } else {
                        seg_drawn(
                            pre,
                            post,
                            x_prev as int,
                            y_prev as int,
                            x_curr as int,
                            y_curr as int,
                        )
                    }
                } else if t == 0 {
                    let it = pre.spec_intersection(
                        x_prev as int,
                        y_prev as int,
                        x_curr as int,
                        y_curr as int,
                        p_flag == 1,
                    );
                    step_drawn(pre, post, x_prev as int, y_prev as int, it.0, it.1)
                } else if p_flag == 0 {
                    let it = pre.spec_intersection(
                        x_prev as int,
                        y_prev as int,
                        x_curr as int,
                        y_curr as int,
                        t == 1,
                    );
                    step_drawn(pre, post, x_prev as int, y_prev as int, it.0, it.1)
                } else {
                    let it1 = pre.spec_intersection(
                        x_prev as int,
                        y_prev as int,
                        x_curr as int,
                        y_curr as int,
                        true,
                    );
                    exists|m: Horizont|
                        #[trigger] step_drawn(
                            pre,
                            m,
                            x_prev as int,
                            y_prev as int,
                            it1.0,
                            it1.1,
                        ) && step_drawn(
                            m,
                            post,
                            m.spec_intersection(
                                x_prev as int,
                                y_prev as int,
                                x_curr as int,
                                y_curr as int,
                                false,
                            ).0,
                            m.spec_intersection(
                                x_prev as int,
                                y_prev as int,
                                x_curr as int,
                                y_curr as int,
                                false,
                            ).1,
                            x_curr as int,
                            y_curr as int,
                        )
                }
            }),
    {
        let t_flag = self.visible(x_curr, y_curr);
        let lim = crate::geom::COORD_LIMIT;
        if t_flag == p_flag {
            if p_flag != 0 {
                self.horizon(x_prev, y_prev, x_curr, y_curr, painter);
            }
        } else if t_flag == 0 {
            let (xi, yi) = self.get_intersection(x_prev, y_prev, x_curr, y_curr, p_flag == 1);
            if -lim <= yi && yi <= lim {
                self.horizon(x_prev, y_prev, xi, yi, painter);
            }
        } else if p_flag == 0 {
            let (xi, yi) = self.get_intersection(x_prev, y_prev, x_curr, y_curr, t_flag == 1);
            if -lim <= yi && yi <= lim {
                self.horizon(x_prev, y_prev, xi, yi, painter);
            }
        } else {
            let (xi1, yi1) = self.get_intersection(x_prev, y_prev, x_curr, y_curr, true);
            if -lim <= yi1 && yi1 <= lim {
                self.horizon(x_prev, y_prev, xi1, yi1, painter);
            }
            let ghost m = *self;
            let (xi2, yi2) = self.get_intersection(x_prev, y_prev, x_curr, y_curr, false);
            if -lim <= yi2 && yi2 <= lim {
                self.horizon(xi2, yi2, x_curr, y_curr, painter);
            }
            proof {
                let pre = *old(self);
                let it1 = pre.spec_intersection(
                    x_prev as int,
                    y_prev as int,
                    x_curr as int,
                    y_curr as int,
                    true,
                );
                assert(step_drawn(pre, m, x_prev as int, y_prev as int, it1.0, it1.1)
                    && step_drawn(
                    m,
                    *self,
                    m.spec_intersection(
                        x_prev as int,
                        y_prev as int,
                        x_curr as int,
                        y_curr as int,
                        false,
                    ).0,
                    m.spec_intersection(
                        x_prev as int,
                        y_prev as int,
                        x_curr as int,
                        y_curr as int,
                        false,
                    ).1,
                    x_curr as int,
                    y_curr as int,
                ));
            }
        }
        t_flag
    }
}

/// Saturation of an unbounded value into the machine range, the model of the
/// saturating float-to-integer cast of the screen arithmetic.
pub open spec fn clamp_i64(v: int) -> int {
    if v > i64::MAX {
        i64::MAX as int
    } else if v < i64::MIN {
        i64::MIN as int
    } else {
        v
    }
}

fn clamp_to_i64(v: i128) -> (r: i64)
    ensures
        r as int == clamp_i64(v as int),
{
    if v > i64::MAX as i128 {
        i64::MAX
    } else if v < i64::MIN as i128 {
        i64::MIN
    } else {
        v as i64
    }
}

} // verus!
