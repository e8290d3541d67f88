//! Cohen-Sutherland clipping of segments against an axis-aligned rectangle:
//! endpoints are classified by a 4-bit outcode, segments wholly inside are
//! accepted unchanged, segments wholly beyond one side are rejected, and the
//! rest are cut back to the rectangle with exact rational intersections
//! rounded to the pixel grid.

use vstd::prelude::*;

use crate::geom::abs_int;
use crate::geom::in_range;
use crate::geom::lemma_mul_bounds;
use crate::geom::pt_pair;
use crate::geom::frac_in_range;
use crate::geom::frac_in_range_exec;
use crate::geom::lemma_round_frac_in_range;
use crate::geom::round_frac;
use crate::geom::round_frac_exec;
use crate::geom::Point;

verus! {

/// The outcode of a point: 8 = left of the rectangle, 4 = right of it,
/// 2 = above its upper bound, 1 = below its lower bound.
pub open spec fn spec_get_code(left: Point, right: Point, a: Point) -> int {
    (if a.x < left.x {
        8int
    } else {
        0int
    }) + (if a.x > right.x {
        4int
    } else {
        0int
    }) + (if a.y > right.y {
        2int
    } else {
        0int
    }) + (if a.y < left.y {
        1int
    } else {
        0int
    })
}

/// Both endpoints lie strictly beyond the same rectangle side: the
/// bitwise AND of their outcodes is nonzero.
pub open spec fn share_outside(left: Point, right: Point, p1: Point, p2: Point) -> bool {
    (p1.x < left.x && p2.x < left.x) || (p1.x > right.x && p2.x > right.x) || (p1.y > right.y
        && p2.y > right.y) || (p1.y < left.y && p2.y < left.y)
}

/// The replacement endpoint that Cohen-Sutherland computes for the outside
/// endpoint s of segment s-e, against the rectangle [cl, cr]: the first
/// rectangle side, in the fixed probe order left, right, bottom, top, whose
/// exact intersection with the carrying line lies on the rectangle; the
/// give-up answer is None. Intersections are exact rationals rounded to the
/// grid only in the returned point.
pub open spec fn find_r_spec(s: Point, e: Point, cl: Point, cr: Point) -> Option<(int, int)> {
    let dx = e.x - s.x;
    let dy = e.y - s.y;
    let numl = s.y * dx + (cl.x - s.x) * dy;
    let numr = s.y * dx + (cr.x - s.x) * dy;
    let numb = s.x * dy + (cl.y - s.y) * dx;
    let numt = s.x * dy + (cr.y - s.y) * dx;
    if dx != 0 && cl.x >= s.x && frac_in_range(numl, dx as int, cl.y as int, cr.y as int) {
        Some((cl.x as int, round_frac(numl, dx as int)))
    } else if dx != 0 && cr.x <= s.x && frac_in_range(numr, dx as int, cl.y as int, cr.y as int) {
        Some((cr.x as int, round_frac(numr, dx as int)))
    } else if dy == 0 && dx != 0 {
        None
    } else if cl.y >= s.y && (if dy == 0 {
        cl.x <= s.x && s.x <= cr.x
    } else {
        frac_in_range(numb, dy as int, cl.x as int, cr.x as int)
    }) {
        Some(
            (
                if dy == 0 {
                    s.x as int
                } else {
                    round_frac(numb, dy as int)
                },
                cl.y as int,
            ),
        )
    } else if cr.y <= s.y && (if dy == 0 {
        cl.x <= s.x && s.x <= cr.x
    } else {
        frac_in_range(numt, dy as int, cl.x as int, cr.x as int)
    }) {
        Some(
            (
                if dy == 0 {
                    s.x as int
                } else {
                    round_frac(numt, dy as int)
                },
                cr.y as int,
            ),
        )
    } else {
        None
    }
}

/// Computes the replacement endpoint for the outside endpoint s.
fn find_r_point(start: Point, end: Point, cutter_l: Point, cutter_r: Point) -> (res: Option<Point>)
    requires
        in_range(start),
        in_range(end),
        in_range(cutter_l),
        in_range(cutter_r),
    ensures
        res is Some ==> find_r_spec(start, end, cutter_l, cutter_r) == Some(
            pt_pair(res->Some_0),
        ) && in_range(res->Some_0),
        res is None ==> find_r_spec(start, end, cutter_l, cutter_r) is None,
{
    let dx = (end.x - start.x) as i128;
    let dy = (end.y - start.y) as i128;
    proof {
        lemma_mul_bounds(start.y as int, dx as int, 0x4000_0000, 0x1_0000_0000);
        lemma_mul_bounds(start.x as int, dy as int, 0x4000_0000, 0x1_0000_0000);
        lemma_mul_bounds((cutter_l.x - start.x) as int, dy as int, 0x1_0000_0000, 0x1_0000_0000);
        lemma_mul_bounds((cutter_r.x - start.x) as int, dy as int, 0x1_0000_0000, 0x1_0000_0000);
        lemma_mul_bounds((cutter_l.y - start.y) as int, dx as int, 0x1_0000_0000, 0x1_0000_0000);
        lemma_mul_bounds((cutter_r.y - start.y) as int, dx as int, 0x1_0000_0000, 0x1_0000_0000);
    }
    let numl = (start.y as i128) * dx + ((cutter_l.x - start.x) as i128) * dy;
    let numr = (start.y as i128) * dx + ((cutter_r.x - start.x) as i128) * dy;
    let numb = (start.x as i128) * dy + ((cutter_l.y - start.y) as i128) * dx;
    let numt = (start.x as i128) * dy + ((cutter_r.y - start.y) as i128) * dx;
    if dx != 0 && cutter_l.x >= start.x && frac_in_range_exec(numl, dx, cutter_l.y, cutter_r.y) {
        let y = round_frac_exec(numl, dx);
        proof {
            lemma_round_frac_in_range(
                numl as int,
                dx as int,
                cutter_l.y as int,
                cutter_r.y as int,
            );
        }
        return Some(Point { x: cutter_l.x, y: y as i64 });
    }
    if dx != 0 && cutter_r.x <= start.x && frac_in_range_exec(numr, dx, cutter_l.y, cutter_r.y) {
        let y = round_frac_exec(numr, dx);
        proof {
            lemma_round_frac_in_range(
                numr as int,
                dx as int,
                cutter_l.y as int,
                cutter_r.y as int,
            );
        }
        return Some(Point { x: cutter_r.x, y: y as i64 });
    }
    if dy == 0 && dx != 0 {
        return None;
    }
    if cutter_l.y >= start.y {
        if dy == 0 {
            if cutter_l.x <= start.x && start.x <= cutter_r.x {
                return Some(Point { x: start.x, y: cutter_l.y });
            }
        } else if frac_in_range_exec(numb, dy, cutter_l.x, cutter_r.x) {
            let x = round_frac_exec(numb, dy);
            proof {
                lemma_round_frac_in_range(
                    numb as int,
                    dy as int,
                    cutter_l.x as int,
                    cutter_r.x as int,
                );
            }
            return Some(Point { x: x as i64, y: cutter_l.y });
        }
    }
    if cutter_r.y <= start.y {
        if dy == 0 {
            if cutter_l.x <= start.x && start.x <= cutter_r.x {
                return Some(Point { x: start.x, y: cutter_r.y });
            }
        } else if frac_in_range_exec(numt, dy, cutter_l.x, cutter_r.x) {
            let x = round_frac_exec(numt, dy);
            proof {
                lemma_round_frac_in_range(
                    numt as int,
                    dy as int,
                    cutter_l.x as int,
                    cutter_r.x as int,
                );
            }
            return Some(Point { x: x as i64, y: cutter_r.y });
        }
    }
    None
}

/// The clipped form of one segment: accepted unchanged when both outcodes
/// are zero, dropped when both endpoints are beyond one side, otherwise each
/// outside endpoint is replaced by its rectangle intersection (the segment
/// is dropped if either replacement cannot be found).
pub open spec fn cut_line_spec(cl: Point, cr: Point, p1: Point, p2: Point) -> Option<
    ((int, int), (int, int)),
> {
    let c1 = spec_get_code(cl, cr, p1);
    let c2 = spec_get_code(cl, cr, p2);
    if c1 == 0 && c2 == 0 {
        Some((pt_pair(p1), pt_pair(p2)))
    } else if !share_outside(cl, cr, p1, p2) {
        let r1 = if c1 != 0 {
            find_r_spec(p1, p2, cl, cr)
        } else {
            Some(pt_pair(p1))
        };
        let r2 = if c2 != 0 {
            find_r_spec(p2, p1, cl, cr)
        } else {
            Some(pt_pair(p2))
        };
        if r1 is Some && r2 is Some {
            Some((r1->Some_0, r2->Some_0))
        } else {
            None
        }
    } else {
        None
    }
}

/// The clipped forms of a batch of segments, dropped segments omitted.
pub open spec fn cut_lines_spec(cl: Point, cr: Point, lines: Seq<(Point, Point)>) -> Seq<
    ((int, int), (int, int)),
>
    decreases lines.len(),
{
    if lines.len() == 0 {
        Seq::empty()
    } else {
        let head = cut_lines_spec(cl, cr, lines.drop_last());
        match cut_line_spec(cl, cr, lines.last().0, lines.last().1) {
            Some(seg) => head.push(seg),
            None => head,
        }
    }
}

/// Law: a segment with both outcodes zero (entirely inside the rectangle)
/// is returned unchanged, and a segment whose endpoints lie beyond the same
/// rectangle side (outcodes with a common bit) is dropped.
pub proof fn lemma_cohen_sutherland_trivial(cl: Point, cr: Point, p1: Point, p2: Point)
    ensures
        spec_get_code(cl, cr, p1) == 0 && spec_get_code(cl, cr, p2) == 0 ==> cut_line_spec(
            cl,
            cr,
            p1,
            p2,
        ) == Some((pt_pair(p1), pt_pair(p2))),
        share_outside(cl, cr, p1, p2) ==> cut_line_spec(cl, cr, p1, p2) is None,
{
    if share_outside(cl, cr, p1, p2) {
        assert(spec_get_code(cl, cr, p1) != 0 || spec_get_code(cl, cr, p2) != 0);
    }
}

fn get_code(rect: (Point, Point), a: Point) -> (code: u8)
    ensures
        code == spec_get_code(rect.0, rect.1, a),
{
    let (left, right) = rect;
    let mut code: u8 = 0;
    if a.x < left.x {
        code += 8;
    }
    if a.x > right.x {
        code += 4;
    }
    if a.y > right.y {
        code += 2;
    }
    if a.y < left.y {
        code += 1;
    }
    code
}

/// Cohen-Sutherland: clips every segment of the batch against the
/// axis-aligned rectangle given by its lower-left and upper-right corners.
pub fn cut(rect: (Point, Point), lines: &Vec<(Point, Point)>) -> (res: Vec<(Point, Point)>)
    requires
        in_range(rect.0),
        in_range(rect.1),
        forall|i: int|
            0 <= i < lines@.len() ==> in_range(#[trigger] lines@[i].0) && in_range(lines@[i].1),
    ensures
        segs_view(res@) == cut_lines_spec(rect.0, rect.1, lines@),
{
    let (cutter_l, cutter_r) = rect;
    let mut res: Vec<(Point, Point)> = Vec::new();
    let mut i: usize = 0;
    while i < lines.len()
        invariant
            0 <= i <= lines@.len(),
            in_range(cutter_l),
            in_range(cutter_r),
            cutter_l == rect.0,
            cutter_r == rect.1,
            forall|k: int|
                0 <= k < lines@.len() ==> in_range(#[trigger] lines@[k].0) && in_range(
                    lines@[k].1,
                ),
            segs_view(res@) =~= cut_lines_spec(rect.0, rect.1, lines@.subrange(0, i as int)),
        decreases lines@.len() - i,
    {
        let (p1, p2) = lines[i];
        let code1 = get_code(rect, p1);
        let code2 = get_code(rect, p2);
        let ghost old_res = res@;
        if code1 == 0 && code2 == 0 {
            res.push((p1, p2));
        } else if code1 & code2 == 0 {
            proof {
                lemma_outcode_and(
                    code1,
                    code2,
                    spec_get_code(cutter_l, cutter_r, p1),
                    spec_get_code(cutter_l, cutter_r, p2),
                );
                assert(!share_outside(cutter_l, cutter_r, p1, p2));
            }
            let r1 = if code1 != 0 {
                find_r_point(p1, p2, cutter_l, cutter_r)
            } else {
                Some(p1)
            };
            let r2 = if code2 != 0 {
                find_r_point(p2, p1, cutter_l, cutter_r)
            } else {
                Some(p2)
            };
            match (r1, r2) {
                (Some(a), Some(b)) => {
                    res.push((a, b));
                },
                _ => {},
            }
        } else {
            proof {
                lemma_outcode_and(
                    code1,
                    code2,
                    spec_get_code(cutter_l, cutter_r, p1),
                    spec_get_code(cutter_l, cutter_r, p2),
                );
                assert(share_outside(cutter_l, cutter_r, p1, p2));
            }
        }
        proof {
            assert(lines@.subrange(0, i + 1).drop_last() =~= lines@.subrange(0, i as int));
            assert(lines@.subrange(0, i + 1).last() == lines@[i as int]);
            assert(segs_view(res@) =~= cut_lines_spec(rect.0, rect.1, lines@.subrange(0, i + 1)));
        }
        i = i + 1;
    }
    proof {
        assert(lines@.subrange(0, lines@.len() as int) =~= lines@);
    }
    res
}

/// A batch of segments as mathematical pairs.
pub open spec fn segs_view(s: Seq<(Point, Point)>) -> Seq<((int, int), (int, int))> {
    s.map_values(|q: (Point, Point)| (pt_pair(q.0), pt_pair(q.1)))
}

/// The bitwise AND of two outcodes is zero exactly when the endpoints share
/// no outside side.
proof fn lemma_outcode_and(c1: u8, c2: u8, s1: int, s2: int)
    requires
        c1 == s1,
        c2 == s2,
        0 <= s1 < 16,
        0 <= s2 < 16,
    ensures
        (c1 & c2 == 0) <==> !((s1 >= 8 && s2 >= 8) || (s1 % 8 >= 4 && s2 % 8 >= 4) || (s1 % 4 >= 2
            && s2 % 4 >= 2) || (s1 % 2 >= 1 && s2 % 2 >= 1)),
{
    assert((c1 & c2 == 0) <==> !((c1 >= 8 && c2 >= 8) || (c1 % 8 >= 4 && c2 % 8 >= 4) || (c1 % 4
        >= 2 && c2 % 4 >= 2) || (c1 % 2 >= 1 && c2 % 2 >= 1))) by (bit_vector)
        requires
            c1 < 16,
            c2 < 16,
    ;
}

} // verus!
