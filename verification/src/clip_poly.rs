//! Clipping of segments against a convex polygon by half-plane parameter
//! ranges: for every polygon edge an inward normal is computed, the two clip
//! parameters bounding the inside portion of the segment's [0, 1] range are
//! intersected edge by edge (running max of entries, min of exits), and a
//! non-empty final range yields the clipped segment. All parameters are
//! carried as exact rationals; only the returned endpoints are rounded.

use vstd::prelude::*;

use crate::geom::abs_int;
use crate::geom::lemma_mul_bounds;
use crate::geom::pt_pair;
use crate::geom::round_frac;
use crate::geom::Point;
use crate::clip_sh::ring_cross;

verus! {

/// Coordinates accepted by the half-plane clipper: small enough that the
/// doubly-nested products of the parameter comparisons fit 128 bits.
pub const CLIP_COORD_LIMIT: i64 = 0x10_0000;

/// The point lies within the half-plane clipper's coordinate range.
pub open spec fn in_clip_range(p: Point) -> bool {
    abs_int(p.x as int) <= CLIP_COORD_LIMIT && abs_int(p.y as int) <= CLIP_COORD_LIMIT
}

pub open spec fn all_in_clip_range(s: Seq<Point>) -> bool {
    forall|i: int| 0 <= i < s.len() ==> in_clip_range(#[trigger] s[i])
}

/// Dot product of two vectors given by components.
pub open spec fn dot2(ax: int, ay: int, bx: int, by: int) -> int {
    ax * bx + ay * by
}

/// The inward normal of the edge a -> b, oriented toward the witness vertex
/// pos: the perpendicular of the edge direction, positively scaled from the
/// unit-x-component form, flipped if it points away from pos.
pub open spec fn normal_spec(a: Point, b: Point, pos: Point) -> (int, int) {
    let fx = b.x - a.x;
    let fy = b.y - a.y;
    let base: (int, int) = if fy > 0 {
        (fy as int, -fx as int)
    } else if fy < 0 {
        (-fy as int, fx as int)
    } else {
        (0int, 1int)
    };
    if dot2(pos.x - b.x, pos.y - b.y, base.0, base.1) < 0 {
        (-base.0, -base.1)
    } else {
        base
    }
}

/// The running parameter range after folding the half-planes of the edges
/// from index i on: (top numerator, top denominator, bottom numerator,
/// bottom denominator), denominators positive; None when some edge rejects
/// the whole segment.
pub open spec fn lb_fold(
    rect: Seq<Point>,
    p0: Point,
    p1: Point,
    i: int,
    tn: int,
    td: int,
    bn: int,
    bd: int,
) -> Option<(int, int, int, int)>
    decreases rect.len() - i,
{
    if i < 0 || i >= rect.len() {
        Some((tn, td, bn, bd))
    } else {
        let n = rect.len() as int;
        let nv = normal_spec(rect[i], rect[(i + 1) % n], rect[(i + 2) % n]);
        let ds = dot2(p1.x - p0.x, p1.y - p0.y, nv.0, nv.1);
        let ws = dot2(p0.x - rect[i].x, p0.y - rect[i].y, nv.0, nv.1);
        if ds == 0 {
            if ws < 0 {
                None
            } else {
                lb_fold(rect, p0, p1, i + 1, tn, td, bn, bd)
            }
        } else if ds > 0 {
            if -ws <= ds {
                if -ws * td > tn * ds {
                    lb_fold(rect, p0, p1, i + 1, -ws, ds, bn, bd)
                } else {
                    lb_fold(rect, p0, p1, i + 1, tn, td, bn, bd)
                }
            } else {
                None
            }
        } else {
            if ws >= 0 {
                if ws * bd < bn * (-ds) {
                    lb_fold(rect, p0, p1, i + 1, tn, td, ws, -ds)
                } else {
                    lb_fold(rect, p0, p1, i + 1, tn, td, bn, bd)
                }
            } else {
                None
            }
        }
    }
}

/// The clipped segment: the parameter range folded over all edges, the
/// segment kept exactly when the range is non-empty, its endpoints the exact
/// parametric points rounded to the grid.
pub open spec fn lb_clip_spec(rect: Seq<Point>, p0: Point, p1: Point) -> Option<
    ((int, int), (int, int)),
> {
    match lb_fold(rect, p0, p1, 0, 0, 1, 1, 1) {
        None => None,
        Some((tn, td, bn, bd)) => {
            if tn * bd <= bn * td {
                let dx = p1.x - p0.x;
                let dy = p1.y - p0.y;
                Some(
                    (
                        (
                            round_frac(p0.x * td + dx * tn, td),
                            round_frac(p0.y * td + dy * tn, td),
                        ),
                        (
                            round_frac(p0.x * bd + dx * bn, bd),
                            round_frac(p0.y * bd + dy * bn, bd),
                        ),
                    ),
                )
            } else {
                None
            }
        },
    }
}

/// A parameter within the closed range [0, 1] keeps the exact parametric
/// coordinate between the segment endpoints.
proof fn lemma_param_between_closed(base: int, diff: int, tn: int, det: int)
    by (nonlinear_arith)
    requires
        det > 0,
        0 <= tn <= det,
    ensures
        diff >= 0 ==> base * det <= base * det + diff * tn <= (base + diff) * det,
        diff < 0 ==> (base + diff) * det <= base * det + diff * tn <= base * det,
{
}

/// A winning max-update implies a positive new entry parameter.
proof fn lemma_max_update(w: int, td: int, tn: int, ds: int)
    by (nonlinear_arith)
    requires
        td > 0,
        ds > 0,
        0 <= tn,
        w * td > tn * ds,
    ensures
        w > 0,
{
}

/// A winning min-update stays below the current exit parameter bound.
proof fn lemma_min_update(ws: int, bd: int, bn: int, nds: int)
    by (nonlinear_arith)
    requires
        bd > 0,
        nds > 0,
        0 <= bn <= bd,
        ws * bd < bn * nds,
    ensures
        ws < nds,
{
}

/// Computes the inward normal of one polygon edge.
fn normal(a: Point, b: Point, pos: Point) -> (r: (i64, i64))
    requires
        in_clip_range(a),
        in_clip_range(b),
        in_clip_range(pos),
    ensures
        (r.0 as int, r.1 as int) == normal_spec(a, b, pos),
        abs_int(r.0 as int) <= 0x20_0001,
        abs_int(r.1 as int) <= 0x20_0001,
{
    let fx = b.x - a.x;
    let fy = b.y - a.y;
    let base: (i64, i64) = if fy > 0 {
        (fy, -fx)
    } else if fy < 0 {
        (-fy, fx)
    } else {
        (0, 1)
    };
    proof {
        lemma_mul_bounds((pos.x - b.x) as int, base.0 as int, 0x20_0000, 0x20_0001);
        lemma_mul_bounds((pos.y - b.y) as int, base.1 as int, 0x20_0000, 0x20_0001);
    }
    let sc = ((pos.x - b.x) as i128) * (base.0 as i128) + ((pos.y - b.y) as i128) * (
    base.1 as i128);
    if sc < 0 {
        (-base.0, -base.1)
    } else {
        base
    }
}

/// Clips one segment against the convex polygon given as an open ring
/// (without the repeated closing vertex): Liang-Barsky style half-plane
/// parameter intersection, exact arithmetic, rounded output endpoints.
pub fn cut_one(rect: &Vec<Point>, line: &(Point, Point)) -> (res: Option<(Point, Point)>)
    requires
        all_in_clip_range(rect@),
        in_clip_range(line.0),
        in_clip_range(line.1),
        rect@.len() < 0x1000_0000,
    ensures
        res is Some <==> lb_clip_spec(rect@, line.0, line.1) is Some,
        res is Some ==> (pt_pair(res->Some_0.0), pt_pair(res->Some_0.1)) == lb_clip_spec(
            rect@,
            line.0,
            line.1,
        )->Some_0,
        res is Some ==> in_clip_range(res->Some_0.0) && in_clip_range(res->Some_0.1),
{
    let p0 = line.0;
    let p1 = line.1;
    let count = rect.len();
    let mut tn: i128 = 0;
    let mut td: i128 = 1;
    let mut bn: i128 = 1;
    let mut bd: i128 = 1;
    let mut i: usize = 0;
    while i < count
        invariant
            0 <= i <= count,
            count == rect@.len(),
            count < 0x1000_0000,
            all_in_clip_range(rect@),
            p0 == line.0,
            p1 == line.1,
            in_clip_range(p0),
            in_clip_range(p1),
            0 < td <= 0x4_0000_0000_0000,
            0 < bd <= 0x4_0000_0000_0000,
            0 <= tn <= td,
            0 <= bn <= bd,
            lb_fold(rect@, p0, p1, 0, 0, 1, 1, 1) == lb_fold(
                rect@,
                p0,
                p1,
                i as int,
                tn as int,
                td as int,
                bn as int,
                bd as int,
            ),
        decreases count - i,
    {
        let a = rect[i];
        let b = rect[(i + 1) % count];
        let c = rect[(i + 2) % count];
        let nv = normal(a, b, c);
        proof {
            lemma_mul_bounds((p1.x - p0.x) as int, nv.0 as int, 0x20_0000, 0x20_0001);
            lemma_mul_bounds((p1.y - p0.y) as int, nv.1 as int, 0x20_0000, 0x20_0001);
            lemma_mul_bounds((p0.x - a.x) as int, nv.0 as int, 0x20_0000, 0x20_0001);
            lemma_mul_bounds((p0.y - a.y) as int, nv.1 as int, 0x20_0000, 0x20_0001);
        }
        let d_scal = ((p1.x - p0.x) as i128) * (nv.0 as i128) + ((p1.y - p0.y) as i128) * (
        nv.1 as i128);
        let w_scal = ((p0.x - a.x) as i128) * (nv.0 as i128) + ((p0.y - a.y) as i128) * (
        nv.1 as i128);
        proof {
            lemma_mul_bounds(-(w_scal as int), td as int, 0x4_0000_0000_0000, 0x4_0000_0000_0000);
            lemma_mul_bounds(tn as int, d_scal as int, 0x4_0000_0000_0000, 0x4_0000_0000_0000);
            lemma_mul_bounds(w_scal as int, bd as int, 0x4_0000_0000_0000, 0x4_0000_0000_0000);
            lemma_mul_bounds(bn as int, -(d_scal as int), 0x4_0000_0000_0000, 0x4_0000_0000_0000);
        }
        let ghost (otn, otd, obn, obd) = (tn as int, td as int, bn as int, bd as int);
        if d_scal == 0 {
            if w_scal < 0 {
                proof {
                    assert(lb_fold(rect@, p0, p1, i as int, otn, otd, obn, obd) is None);
                }
                return None;
            }
        } else if d_scal > 0 {
            if -w_scal <= d_scal {
                if -w_scal * td > tn * d_scal {
                    proof {
                        lemma_max_update(-(w_scal as int), td as int, tn as int, d_scal as int);
                    }
                    tn = -w_scal;
                    td = d_scal;
                }
            } else {
                proof {
                    assert(lb_fold(rect@, p0, p1, i as int, otn, otd, obn, obd) is None);
                }
                return None;
            }
        } else {
            if w_scal >= 0 {
                if w_scal * bd < bn * (-d_scal) {
                    proof {
                        lemma_min_update(w_scal as int, bd as int, bn as int, -(d_scal as int));
                    }
                    bn = w_scal;
                    bd = -d_scal;
                }
            } else {
                proof {
                    assert(lb_fold(rect@, p0, p1, i as int, otn, otd, obn, obd) is None);
                }
                return None;
            }
        }
        proof {
            assert(lb_fold(rect@, p0, p1, i as int, otn, otd, obn, obd) == lb_fold(
                rect@,
                p0,
                p1,
                i as int + 1,
                tn as int,
                td as int,
                bn as int,
                bd as int,
            ));
        }
        i = i + 1;
    }
    proof {
        lemma_mul_bounds(tn as int, bd as int, 0x4_0000_0000_0000, 0x4_0000_0000_0000);
        lemma_mul_bounds(bn as int, td as int, 0x4_0000_0000_0000, 0x4_0000_0000_0000);
    }
    if tn * bd <= bn * td {
        let dx = (p1.x - p0.x) as i128;
        let dy = (p1.y - p0.y) as i128;
        proof {
            lemma_mul_bounds(p0.x as int, td as int, 0x10_0000, 0x4_0000_0000_0000);
            lemma_mul_bounds(p0.y as int, td as int, 0x10_0000, 0x4_0000_0000_0000);
            lemma_mul_bounds(p0.x as int, bd as int, 0x10_0000, 0x4_0000_0000_0000);
            lemma_mul_bounds(p0.y as int, bd as int, 0x10_0000, 0x4_0000_0000_0000);
            lemma_mul_bounds(dx as int, tn as int, 0x20_0000, 0x4_0000_0000_0000);
            lemma_mul_bounds(dy as int, tn as int, 0x20_0000, 0x4_0000_0000_0000);
            lemma_mul_bounds(dx as int, bn as int, 0x20_0000, 0x4_0000_0000_0000);
            lemma_mul_bounds(dy as int, bn as int, 0x20_0000, 0x4_0000_0000_0000);
            lemma_param_between_closed(p0.x as int, dx as int, tn as int, td as int);
            lemma_param_between_closed(p0.y as int, dy as int, tn as int, td as int);
            lemma_param_between_closed(p0.x as int, dx as int, bn as int, bd as int);
            lemma_param_between_closed(p0.y as int, dy as int, bn as int, bd as int);
        }
        let x1 = crate::geom::round_div_i128((p0.x as i128) * td + dx * tn, td);
        let y1 = crate::geom::round_div_i128((p0.y as i128) * td + dy * tn, td);
        let x2 = crate::geom::round_div_i128((p0.x as i128) * bd + dx * bn, bd);
        let y2 = crate::geom::round_div_i128((p0.y as i128) * bd + dy * bn, bd);
        proof {
            lemma_rounded_between_pub(p0.x as int, dx as int, tn as int, td as int);
            lemma_rounded_between_pub(p0.y as int, dy as int, tn as int, td as int);
            lemma_rounded_between_pub(p0.x as int, dx as int, bn as int, bd as int);
            lemma_rounded_between_pub(p0.y as int, dy as int, bn as int, bd as int);
        }
        Some((Point { x: x1 as i64, y: y1 as i64 }, Point { x: x2 as i64, y: y2 as i64 }))
    } else {
        None
    }
}

/// The rounded parametric coordinate lies between the segment endpoints.
pub proof fn lemma_rounded_between_pub(base: int, diff: int, tn: int, det: int)
    requires
        det > 0,
        0 <= tn <= det,
    ensures
        crate::geom::min_int(base, base + diff) <= round_frac(base * det + diff * tn, det)
            <= crate::geom::max_int(base, base + diff),
{
    lemma_param_between_closed(base, diff, tn, det);
    let lo = crate::geom::min_int(base, base + diff);
    let hi = crate::geom::max_int(base, base + diff);
    assert(crate::geom::frac_in_range(base * det + diff * tn, det, lo, hi)) by {
        assert(lo * det <= base * det + diff * tn <= hi * det) by (nonlinear_arith)
            requires
                det > 0,
                lo <= base,
                base + diff >= lo,
                hi >= base,
                base + diff <= hi,
                (diff >= 0 && base * det <= base * det + diff * tn && base * det + diff * tn <= (
                base + diff) * det) || (diff < 0 && (base + diff) * det <= base * det + diff * tn
                    && base * det + diff * tn <= base * det),
        ;
    }
    crate::geom::lemma_round_frac_in_range(base * det + diff * tn, det, lo, hi);
}

/// The lab-style convexity test without winding normalization: all ring
/// turns must agree with the sign of the first turn.
pub open spec fn convexity_fixed_spec(c: Seq<Point>) -> bool {
    if c.len() < 3 {
        false
    } else {
        if crate::clip_sh::cross_diff(c[0], c[1], c[2]) > 0 {
            forall|i: int| 0 <= i < c.len() ==> #[trigger] ring_cross(c, i) >= 0
        } else {
            forall|i: int| 0 <= i < c.len() ==> #[trigger] ring_cross(c, i) <= 0
        }
    }
}

/// Convexity check of a polygon ring, winding fixed by the first turn.
pub fn check_convexity_polygon(cutter: &Vec<Point>) -> (r: bool)
    requires
        all_in_clip_range(cutter@),
        cutter@.len() < 0x1000_0000,
    ensures
        r == convexity_fixed_spec(cutter@),
{
    let m = cutter.len();
    if m < 3 {
        return false;
    }
    let c0 = cutter[0];
    let c1 = cutter[1];
    let c2 = cutter[2];
    proof {
        lemma_mul_bounds((c0.x - c1.x) as int, (c1.y - c2.y) as int, 0x20_0000, 0x20_0000);
        lemma_mul_bounds((c0.y - c1.y) as int, (c1.x - c2.x) as int, 0x20_0000, 0x20_0000);
    }
    let d = ((c0.x - c1.x) as i128) * ((c1.y - c2.y) as i128) - ((c0.y - c1.y) as i128) * ((c1.x
        - c2.x) as i128);
    let positive = d > 0;
    let mut ok = true;
    let mut i: usize = 0;
    while i < m
        invariant
            0 <= i <= m,
            m == cutter@.len(),
            3 <= m < 0x1000_0000,
            all_in_clip_range(cutter@),
            positive == (crate::clip_sh::cross_diff(cutter@[0], cutter@[1], cutter@[2]) > 0),
            positive ==> ok == (forall|j: int|
                0 <= j < i ==> #[trigger] ring_cross(cutter@, j) >= 0),
            !positive ==> ok == (forall|j: int|
                0 <= j < i ==> #[trigger] ring_cross(cutter@, j) <= 0),
        decreases m - i,
    {
        let a = cutter[(i + m - 2) % m];
        let b = cutter[(i + m - 1) % m];
        let c = cutter[i];
        proof {
            lemma_mul_bounds((a.x - b.x) as int, (b.y - c.y) as int, 0x20_0000, 0x20_0000);
            lemma_mul_bounds((a.y - b.y) as int, (b.x - c.x) as int, 0x20_0000, 0x20_0000);
        }
        let cr = ((a.x - b.x) as i128) * ((b.y - c.y) as i128) - ((a.y - b.y) as i128) * ((b.x
            - c.x) as i128);
        proof {
            assert(cr as int == ring_cross(cutter@, i as int));
        }
        if positive {
            if cr < 0 {
                ok = false;
            }
        } else {
            if cr > 0 {
                ok = false;
            }
        }
        i = i + 1;
    }
    ok
}

/// The result of clipping a batch of segments: None for a clip ring that is
/// too short or non-convex (after dropping the repeated closing vertex);
/// otherwise the per-segment clips, fully rejected segments omitted.
pub open spec fn lb_cut_spec(rect: Seq<Point>, lines: Seq<(Point, Point)>) -> Option<
    Seq<((int, int), (int, int))>,
> {
    if rect.len() < 3 {
        None
    } else {
        let open_ring = rect.subrange(0, rect.len() - 1);
        if convexity_fixed_spec(open_ring) {
            Some(lb_cut_lines(open_ring, lines))
        } else {
            None
        }
    }
}

/// The per-segment clipped results over a batch.
pub open spec fn lb_cut_lines(open_ring: Seq<Point>, lines: Seq<(Point, Point)>) -> Seq<
    ((int, int), (int, int)),
>
    decreases lines.len(),
{
    if lines.len() == 0 {
        Seq::empty()
    } else {
        let head = lb_cut_lines(open_ring, lines.drop_last());
        match lb_clip_spec(open_ring, lines.last().0, lines.last().1) {
            Some(seg) => head.push(seg),
            None => head,
        }
    }
}

/// Clips a batch of segments against a convex polygon given as a closed ring
/// (the first vertex repeated at the end): None when the polygon is not a
/// closed convex ring of at least three distinct vertices.
pub fn cut(rect: &Vec<Point>, lines: &Vec<(Point, Point)>) -> (res: Option<
    Vec<(Point, Point)>,
>)
    requires
        all_in_clip_range(rect@),
        rect@.len() < 0x1000_0000,
        forall|i: int|
            0 <= i < lines@.len() ==> in_clip_range(#[trigger] lines@[i].0) && in_clip_range(
                lines@[i].1,
            ),
    ensures
        res is Some <==> lb_cut_spec(rect@, lines@) is Some,
        res is Some ==> crate::clip_rect::segs_view(res->Some_0@) == lb_cut_spec(
            rect@,
            lines@,
        )->Some_0,
{
    if rect.len() < 3 {
        return None;
    }
    let mut open_ring: Vec<Point> = Vec::new();
    let mut i: usize = 0;
    while i < rect.len() - 1
        invariant
            rect@.len() >= 3,
            0 <= i <= rect@.len() - 1,
            all_in_clip_range(rect@),
            open_ring@ =~= rect@.subrange(0, i as int),
            all_in_clip_range(open_ring@),
        decreases rect@.len() - 1 - i,
    {
        open_ring.push(rect[i]);
        proof {
            assert(open_ring@ =~= rect@.subrange(0, i + 1));
        }
        i = i + 1;
    }
    proof {
        assert(open_ring@ =~= rect@.subrange(0, rect@.len() - 1));
    }
    if !check_convexity_polygon(&open_ring) {
        return None;
    }
    let mut res: Vec<(Point, Point)> = Vec::new();
    let mut k: usize = 0;
    while k < lines.len()
        invariant
            0 <= k <= lines@.len(),
            all_in_clip_range(open_ring@),
            open_ring@ == rect@.subrange(0, rect@.len() - 1),
            rect@.len() >= 3,
            open_ring@.len() < 0x1000_0000,
            forall|j: int|
                0 <= j < lines@.len() ==> in_clip_range(#[trigger] lines@[j].0) && in_clip_range(
                    lines@[j].1,
                ),
            crate::clip_rect::segs_view(res@) =~= lb_cut_lines(
                open_ring@,
                lines@.subrange(0, k as int),
            ),
        decreases lines@.len() - k,
    {
        let line = lines[k];
        match cut_one(&open_ring, &line) {
            Some(seg) => {
                res.push(seg);
            },
            None => {},
        }
        proof {
            assert(lines@.subrange(0, k + 1).drop_last() =~= lines@.subrange(0, k as int));
            assert(lines@.subrange(0, k + 1).last() == lines@[k as int]);
            assert(crate::clip_rect::segs_view(res@) =~= lb_cut_lines(
                open_ring@,
                lines@.subrange(0, k + 1),
            ));
        }
        k = k + 1;
    }
    proof {
        assert(lines@.subrange(0, lines@.len() as int) =~= lines@);
    }
    Some(res)
}

} // verus!
