//! Sutherland-Hodgman clipping of a polygon against a convex clip polygon:
//! the subject ring is clipped against each clip edge in turn, keeping
//! vertices on the inner side and inserting the exact (grid-rounded)
//! crossing point wherever consecutive vertices straddle the edge. The clip
//! polygon's winding is normalized first and its convexity is verified; a
//! non-convex clip polygon is reported as an error, never clipped against.

use vstd::prelude::*;

use crate::geom::abs_int;
use crate::geom::frac_in_range;
use crate::geom::in_range;
use crate::geom::lemma_mul_bounds;
use crate::geom::lemma_round_frac_in_range;
use crate::geom::round_frac;
use crate::geom::round_frac_exec;
use crate::geom::sign_int;
use crate::geom::Point;

verus! {

/// A polygon under construction: an ordered vertex list and a closed flag;
/// closing appends the first vertex again.
pub struct Polygon {
    vertices: Vec<Point>,
    closed: bool,
}

impl View for Polygon {
    type V = Seq<Point>;

    closed spec fn view(&self) -> Seq<Point> {
        self.vertices@
    }
}

impl Polygon {
    pub fn new() -> (p: Polygon)
        ensures
            p@ =~= Seq::<Point>::empty(),
            !p.spec_closed(),
    {
        Polygon { vertices: Vec::new(), closed: false }
    }

    pub closed spec fn spec_closed(&self) -> bool {
        self.closed
    }

    pub fn push(&mut self, pos: Point)
        ensures
            final(self)@ == old(self)@.push(pos),
            final(self).spec_closed() == old(self).spec_closed(),
    {
        self.vertices.push(pos);
    }

    pub fn vertices(&self) -> (v: &Vec<Point>)
        ensures
            v@ == self@,
    {
        &self.vertices
    }

    pub fn last(&self) -> (r: Option<&Point>)
        ensures
            self@.len() == 0 ==> r is None,
            self@.len() > 0 ==> r is Some && *r->Some_0 == self@.last(),
    {
        self.vertices.last()
    }

    pub fn closed(&self) -> (r: bool)
        ensures
            r == self.spec_closed(),
    {
        self.closed
    }

    /// Closes the ring by repeating the first vertex, once there are at
    /// least three vertices; shorter rings and closed rings are unchanged.
    pub fn close(&mut self)
        ensures
            old(self)@.len() < 3 || old(self).spec_closed() ==> final(self)@ == old(self)@
                && final(self).spec_closed() == old(self).spec_closed(),
            old(self)@.len() >= 3 && !old(self).spec_closed() ==> final(self)@ == old(self)@.push(
                old(self)@[0],
            ) && final(self).spec_closed(),
    {
        if self.vertices.len() < 3 || self.closed {
            return ;
        }
        let first = self.vertices[0];
        self.vertices.push(first);
        self.closed = true;
    }

    pub fn open(&mut self)
        ensures
            final(self)@ =~= Seq::<Point>::empty(),
            !final(self).spec_closed(),
    {
        self.vertices.clear();
        self.closed = false;
    }

    pub fn clear(&mut self)
        ensures
            final(self)@ =~= Seq::<Point>::empty(),
            !final(self).spec_closed(),
    {
        self.vertices.clear();
        self.closed = false;
    }
}

/// The cross product of the vectors a - b and b - c.
pub open spec fn cross_diff(a: Point, b: Point, c: Point) -> int {
    (a.x - b.x) * (b.y - c.y) - (a.y - b.y) * (b.x - c.x)
}

/// The side of the directed line begin -> end on which a point lies:
/// the sign of the cross product, 0 exactly on the line.
pub open spec fn spec_visibility(p: Point, b: Point, e: Point) -> int {
    sign_int((p.x - b.x) * (e.y - b.y) - (p.y - b.y) * (e.x - b.x))
}

/// Which side of the directed clip edge a point lies on: -1, 0, or 1.
pub fn visibility(point: Point, begin: Point, end: Point) -> (r: i64)
    requires
        in_range(point),
        in_range(begin),
        in_range(end),
    ensures
        r == spec_visibility(point, begin, end),
{
    proof {
        lemma_mul_bounds(
            (point.x - begin.x) as int,
            (end.y - begin.y) as int,
            0x1_0000_0000,
            0x1_0000_0000,
        );
        lemma_mul_bounds(
            (point.y - begin.y) as int,
            (end.x - begin.x) as int,
            0x1_0000_0000,
            0x1_0000_0000,
        );
    }
    let res = ((point.x - begin.x) as i128) * ((end.y - begin.y) as i128) - ((point.y
        - begin.y) as i128) * ((end.x - begin.x) as i128);
    if res > 0 {
        1
    } else if res < 0 {
        -1
    } else {
        0
    }
}

/// The two endpoints of the first segment lie strictly on opposite sides of
/// the line carrying the second.
pub open spec fn spec_crossing(b1: Point, e1: Point, b2: Point, e2: Point) -> bool {
    (spec_visibility(b1, b2, e2) < 0 && spec_visibility(e1, b2, e2) > 0) || (spec_visibility(
        b1,
        b2,
        e2,
    ) > 0 && spec_visibility(e1, b2, e2) < 0)
}

pub fn check_lines_crossing(begin1: Point, end1: Point, begin2: Point, end2: Point) -> (r: bool)
    requires
        in_range(begin1),
        in_range(end1),
        in_range(begin2),
        in_range(end2),
    ensures
        r == spec_crossing(begin1, end1, begin2, end2),
{
    let vis1 = visibility(begin1, begin2, end2);
    let vis2 = visibility(end1, begin2, end2);
    (vis1 < 0 && vis2 > 0) || (vis1 > 0 && vis2 < 0)
}

/// The signed value whose sign classifies begin1 against the line, unscaled.
pub open spec fn side_value(p: Point, b2: Point, e2: Point) -> int {
    (p.x - b2.x) * (e2.y - b2.y) - (p.y - b2.y) * (e2.x - b2.x)
}

/// The determinant of the intersection system of segment b1-e1 with the
/// line carrying b2-e2; equal to side_value(b1) - side_value(e1).
pub open spec fn cross_det(b1: Point, e1: Point, b2: Point, e2: Point) -> int {
    (e1.x - b1.x) * (b2.y - e2.y) - (b2.x - e2.x) * (e1.y - b1.y)
}

/// The intersection point of segment b1-e1 with the line through b2-e2,
/// exact rationals rounded to the grid: b1 + t (e1 - b1) with
/// t = side_value(b1) / det.
pub open spec fn cross_point_spec(b1: Point, e1: Point, b2: Point, e2: Point) -> (int, int) {
    let det = cross_det(b1, e1, b2, e2);
    let tn = side_value(b1, b2, e2);
    (
        round_frac(b1.x * det + (e1.x - b1.x) * tn, det),
        round_frac(b1.y * det + (e1.y - b1.y) * tn, det),
    )
}

/// det = side_value(b1) - side_value(e1), so strictly straddling segments
/// have a nonzero determinant.
proof fn lemma_det_is_difference(b1: Point, e1: Point, b2: Point, e2: Point)
    ensures
        cross_det(b1, e1, b2, e2) == side_value(b1, b2, e2) - side_value(e1, b2, e2),
{
    assert((e1.x - b1.x) * (b2.y - e2.y) - (b2.x - e2.x) * (e1.y - b1.y) == ((b1.x - b2.x) * (e2.y
        - b2.y) - (b1.y - b2.y) * (e2.x - b2.x)) - ((e1.x - b2.x) * (e2.y - b2.y) - (e1.y - b2.y)
        * (e2.x - b2.x))) by (nonlinear_arith);
}

/// A parameter strictly inside (0, 1) keeps the exact intersection
/// coordinate between the segment endpoints.
proof fn lemma_param_between(base: int, diff: int, tn: int, det: int)
    by (nonlinear_arith)
    requires
        (0 < tn && tn < det) || (det < tn && tn < 0),
    ensures
        det > 0 && diff >= 0 ==> base * det <= base * det + diff * tn <= (base + diff) * det,
        det > 0 && diff < 0 ==> (base + diff) * det <= base * det + diff * tn <= base * det,
        det < 0 && diff >= 0 ==> (base + diff) * det <= base * det + diff * tn <= base * det,
        det < 0 && diff < 0 ==> base * det <= base * det + diff * tn <= (base + diff) * det,
{
}

/// Computes the rounded intersection of a strictly straddling segment with
/// the carrying line of the clip edge.
pub fn get_cross_point(begin1: Point, end1: Point, begin2: Point, end2: Point) -> (r: Point)
    requires
        in_range(begin1),
        in_range(end1),
        in_range(begin2),
        in_range(end2),
        spec_crossing(begin1, end1, begin2, end2),
    ensures
        crate::geom::pt_pair(r) == cross_point_spec(begin1, end1, begin2, end2),
        in_range(r),
{
    proof {
        lemma_det_is_difference(begin1, end1, begin2, end2);
        lemma_mul_bounds(
            (end1.x - begin1.x) as int,
            (begin2.y - end2.y) as int,
            0x1_0000_0000,
            0x1_0000_0000,
        );
        lemma_mul_bounds(
            (begin2.x - end2.x) as int,
            (end1.y - begin1.y) as int,
            0x1_0000_0000,
            0x1_0000_0000,
        );
        lemma_mul_bounds(
            (begin1.x - begin2.x) as int,
            (end2.y - begin2.y) as int,
            0x1_0000_0000,
            0x1_0000_0000,
        );
        lemma_mul_bounds(
            (begin1.y - begin2.y) as int,
            (end2.x - begin2.x) as int,
            0x1_0000_0000,
            0x1_0000_0000,
        );
    }
    let det = ((end1.x - begin1.x) as i128) * ((begin2.y - end2.y) as i128) - ((begin2.x
        - end2.x) as i128) * ((end1.y - begin1.y) as i128);
    let tn = ((begin1.x - begin2.x) as i128) * ((end2.y - begin2.y) as i128) - ((begin1.y
        - begin2.y) as i128) * ((end2.x - begin2.x) as i128);
    proof {
        // the side values of the two endpoints have strictly opposite signs,
        // so t = tn / det lies strictly between 0 and 1
        assert((0 < tn && tn < det) || (det < tn && tn < 0));
        lemma_mul_bounds(begin1.x as int, det as int, 0x4000_0000, 0x8_0000_0000_0000_0000);
        lemma_mul_bounds(begin1.y as int, det as int, 0x4000_0000, 0x8_0000_0000_0000_0000);
        lemma_mul_bounds(
            (end1.x - begin1.x) as int,
            tn as int,
            0x1_0000_0000,
            0x8_0000_0000_0000_0000,
        );
        lemma_mul_bounds(
            (end1.y - begin1.y) as int,
            tn as int,
            0x1_0000_0000,
            0x8_0000_0000_0000_0000,
        );
        lemma_param_between(begin1.x as int, (end1.x - begin1.x) as int, tn as int, det as int);
        lemma_param_between(begin1.y as int, (end1.y - begin1.y) as int, tn as int, det as int);
    }
    let xn = (begin1.x as i128) * det + ((end1.x - begin1.x) as i128) * tn;
    let yn = (begin1.y as i128) * det + ((end1.y - begin1.y) as i128) * tn;
    let x = round_frac_exec(xn, det);
    let y = round_frac_exec(yn, det);
    proof {
        let lox = crate::geom::min_int(begin1.x as int, end1.x as int);
        let hix = crate::geom::max_int(begin1.x as int, end1.x as int);
        let loy = crate::geom::min_int(begin1.y as int, end1.y as int);
        let hiy = crate::geom::max_int(begin1.y as int, end1.y as int);
        assert(frac_in_range(xn as int, det as int, lox, hix));
        assert(frac_in_range(yn as int, det as int, loy, hiy));
        lemma_round_frac_in_range(xn as int, det as int, lox, hix);
        lemma_round_frac_in_range(yn as int, det as int, loy, hiy);
    }
    Point { x: x as i64, y: y as i64 }
}

/// One Sutherland-Hodgman stage, from vertex i on: for each subject vertex,
/// the crossing with the clip edge is inserted when the previous vertex and
/// it straddle the edge, and the vertex itself is kept when it lies on the
/// inner side (visibility <= 0).
pub open spec fn sh_stage_rec(p: Seq<Point>, ws: Point, we: Point, i: int) -> Seq<Point>
    decreases p.len() - i,
{
    if i < 0 || i >= p.len() {
        Seq::empty()
    } else {
        let s = if i == 0 {
            p.last()
        } else {
            p[i - 1]
        };
        let point = p[i];
        let crossing: Seq<Point> = if spec_crossing(s, point, ws, we) {
            let c = cross_point_spec(s, point, ws, we);
            seq![Point { x: c.0 as i64, y: c.1 as i64 }]
        } else {
            Seq::empty()
        };
        let keep: Seq<Point> = if spec_visibility(point, ws, we) <= 0 {
            seq![point]
        } else {
            Seq::empty()
        };
        crossing + keep + sh_stage_rec(p, ws, we, i + 1)
    }
}

/// The full clip of a subject ring against one directed clip edge.
pub open spec fn sh_stage(p: Seq<Point>, ws: Point, we: Point) -> Seq<Point> {
    sh_stage_rec(p, ws, we, 0)
}

/// The cascade of stages against clip edges clipper[k]..clipper[k+1] onward;
/// an empty intermediate ring means the polygons do not intersect and the
/// result is empty.
pub open spec fn sh_cascade(clipper: Seq<Point>, poly: Seq<Point>, k: int) -> Seq<Point>
    decreases clipper.len() - k,
{
    if k < 0 || k + 1 >= clipper.len() {
        poly
    } else {
        let q = sh_stage(poly, clipper[k], clipper[k + 1]);
        if q.len() == 0 {
            Seq::empty()
        } else {
            sh_cascade(clipper, q, k + 1)
        }
    }
}

/// The result of cut_one: empty input clips to empty, otherwise the cascade.
pub open spec fn sh_clip_spec(clipper: Seq<Point>, poly: Seq<Point>) -> Seq<Point> {
    if poly.len() == 0 {
        Seq::empty()
    } else {
        sh_cascade(clipper, poly, 0)
    }
}

/// All points of a sequence lie in the accepted coordinate range.
pub open spec fn all_in_range(s: Seq<Point>) -> bool {
    forall|i: int| 0 <= i < s.len() ==> in_range(#[trigger] s[i])
}

/// One clip stage as executable code.
fn sh_stage_exec(p: &Vec<Point>, ws: Point, we: Point) -> (q: Vec<Point>)
    requires
        p@.len() > 0,
        all_in_range(p@),
        in_range(ws),
        in_range(we),
    ensures
        q@ == sh_stage(p@, ws, we),
        all_in_range(q@),
{
    let mut q: Vec<Point> = Vec::new();
    let mut s = p[p.len() - 1];
    let mut i: usize = 0;
    while i < p.len()
        invariant
            0 <= i <= p@.len(),
            p@.len() > 0,
            all_in_range(p@),
            in_range(ws),
            in_range(we),
            in_range(s),
            s == if i == 0 {
                p@.last()
            } else {
                p@[i - 1]
            },
            all_in_range(q@),
            sh_stage(p@, ws, we) =~= q@ + sh_stage_rec(p@, ws, we, i as int),
        decreases p@.len() - i,
    {
        let point = p[i];
        let ghost oldq = q@;
        if check_lines_crossing(s, point, ws, we) {
            let c = get_cross_point(s, point, ws, we);
            q.push(c);
        }
        if visibility(point, ws, we) <= 0 {
            q.push(point);
        }
        s = point;
        i = i + 1;
        proof {
            assert(sh_stage(p@, ws, we) =~= q@ + sh_stage_rec(p@, ws, we, i as int));
        }
    }
    proof {
        assert(q@ =~= sh_stage(p@, ws, we));
    }
    q
}

/// Clips the subject polygon against each edge of the (already closed)
/// clipper ring in turn; an empty intermediate result means no intersection.
pub fn cut_one(clipper: &Vec<Point>, polygon: &Vec<Point>) -> (res: Vec<Point>)
    requires
        all_in_range(clipper@),
        all_in_range(polygon@),
        clipper@.len() < 0x1000_0000,
    ensures
        res@ == sh_clip_spec(clipper@, polygon@),
        all_in_range(res@),
{
    if polygon.len() == 0 {
        let res: Vec<Point> = Vec::new();
        proof {
            assert(res@ =~= sh_clip_spec(clipper@, polygon@));
        }
        return res;
    }
    let mut cur: Vec<Point> = Vec::new();
    let mut i: usize = 0;
    while i < polygon.len()
        invariant
            0 <= i <= polygon@.len(),
            all_in_range(polygon@),
            cur@ =~= polygon@.subrange(0, i as int),
            all_in_range(cur@),
        decreases polygon@.len() - i,
    {
        cur.push(polygon[i]);
        proof {
            assert(cur@ =~= polygon@.subrange(0, i + 1));
        }
        i = i + 1;
    }
    proof {
        assert(cur@ =~= polygon@);
    }
    let mut k: usize = 0;
    while k + 1 < clipper.len()
        invariant
            0 <= k <= clipper@.len(),
            clipper@.len() < 0x1000_0000,
            all_in_range(clipper@),
            all_in_range(cur@),
            cur@.len() > 0,
            sh_cascade(clipper@, polygon@, 0) == sh_cascade(clipper@, cur@, k as int),
        decreases clipper@.len() - k,
    {
        let ws = clipper[k];
        let we = clipper[k + 1];
        let q = sh_stage_exec(&cur, ws, we);
        if q.len() == 0 {
            let res: Vec<Point> = Vec::new();
            proof {
                assert(res@ =~= sh_cascade(clipper@, cur@, k as int));
            }
            return res;
        }
        cur = q;
        k = k + 1;
    }
    cur
}

/// The cross product at ring position i of the winding test: the turn from
/// edge (i-2, i-1) to edge (i-1, i), indices modulo the ring length.
pub open spec fn ring_cross(c: Seq<Point>, i: int) -> int
    recommends
        c.len() >= 1,
{
    let n = c.len() as int;
    cross_diff(c[(i + n - 2) % n], c[(i + n - 1) % n], c[i])
}

/// Every turn of the ring agrees (non-strictly) with positive orientation.
pub open spec fn convex_all(c: Seq<Point>) -> bool {
    forall|i: int| 0 <= i < c.len() ==> #[trigger] ring_cross(c, i) >= 0
}

/// The winding-normalized form of a candidate clip ring: reversed when the
/// first turn is not positive.
pub open spec fn normalize_ring(c: Seq<Point>) -> Seq<Point>
    recommends
        c.len() >= 3,
{
    if cross_diff(c[0], c[1], c[2]) > 0 {
        c
    } else {
        c.reverse()
    }
}

/// The convexity verdict on a candidate clip ring: fewer than three
/// vertices fail; otherwise the winding-normalized ring must turn the same
/// way at every vertex.
pub open spec fn convexity_spec(c: Seq<Point>) -> bool {
    c.len() >= 3 && convex_all(normalize_ring(c))
}

/// Convexity check with winding normalization: reverses the ring in place
/// when its first turn is negative, then requires every turn to agree.
pub fn check_convexity_polygon(cutter: &mut Vec<Point>) -> (r: bool)
    requires
        all_in_range(old(cutter)@),
        old(cutter)@.len() < 0x1000_0000,
    ensures
        r == convexity_spec(old(cutter)@),
        old(cutter)@.len() < 3 ==> final(cutter)@ == old(cutter)@,
        old(cutter)@.len() >= 3 ==> final(cutter)@ == normalize_ring(old(cutter)@),
        all_in_range(final(cutter)@),
{
    let n = cutter.len();
    if n < 3 {
        return false;
    }
    proof {
        lemma_mul_bounds(
            (old(cutter)@[0].x - old(cutter)@[1].x) as int,
            (old(cutter)@[1].y - old(cutter)@[2].y) as int,
            0x1_0000_0000,
            0x1_0000_0000,
        );
        lemma_mul_bounds(
            (old(cutter)@[0].y - old(cutter)@[1].y) as int,
            (old(cutter)@[1].x - old(cutter)@[2].x) as int,
            0x1_0000_0000,
            0x1_0000_0000,
        );
    }
    let c0 = cutter[0];
    let c1 = cutter[1];
    let c2 = cutter[2];
    let d = ((c0.x - c1.x) as i128) * ((c1.y - c2.y) as i128) - ((c0.y - c1.y) as i128) * ((c1.x
        - c2.x) as i128);
    if !(d > 0) {
        // reverse the ring in place to normalize the winding
        let mut rev: Vec<Point> = Vec::new();
        let mut i: usize = 0;
        while i < n
            invariant
                0 <= i <= n,
                n == cutter@.len(),
                all_in_range(cutter@),
                rev@.len() == i,
                forall|j: int| 0 <= j < i ==> #[trigger] rev@[j] == cutter@[n - 1 - j],
            decreases n - i,
        {
            let v = cutter[n - 1 - i];
            rev.push(v);
            i = i + 1;
        }
        proof {
            assert(rev@ =~= cutter@.reverse());
        }
        *cutter = rev;
    }
    let m = cutter.len();
    let mut ok = true;
    let mut i: usize = 0;
    while i < m
        invariant
            0 <= i <= m,
            m == cutter@.len(),
            3 <= m < 0x1000_0000,
            all_in_range(cutter@),
            ok == (forall|j: int| 0 <= j < i ==> #[trigger] ring_cross(cutter@, j) >= 0),
        decreases m - i,
    {
        let a = cutter[(i + m - 2) % m];
        let b = cutter[(i + m - 1) % m];
        let c = cutter[i];
        proof {
            lemma_mul_bounds(
                (a.x - b.x) as int,
                (b.y - c.y) as int,
                0x1_0000_0000,
                0x1_0000_0000,
            );
            lemma_mul_bounds(
                (a.y - b.y) as int,
                (b.x - c.x) as int,
                0x1_0000_0000,
                0x1_0000_0000,
            );
        }
        let cr = ((a.x - b.x) as i128) * ((b.y - c.y) as i128) - ((a.y - b.y) as i128) * ((b.x
            - c.x) as i128);
        proof {
            assert(cr as int == ring_cross(cutter@, i as int));
        }
        if cr < 0 {
            ok = false;
        }
        i = i + 1;
    }
    ok
}

/// Law: a triangle always passes the convexity check — for any three
/// vertices, the three ring turns are equal, so after winding normalization
/// they are all non-negative.
pub proof fn lemma_triangle_convex(a: Point, b: Point, c: Point)
    ensures
        convexity_spec(seq![a, b, c]),
{
    let s = seq![a, b, c];
    let d = cross_diff(a, b, c);
    lemma_tri_cross_cycle(a, b, c);
    if d > 0 {
        assert(normalize_ring(s) == s);
        assert forall|i: int| 0 <= i < 3 implies #[trigger] ring_cross(s, i) >= 0 by {
            lemma_tri_cross_cycle(a, b, c);
            assert(ring_cross(s, i) == d);
        }
    } else {
        let r = s.reverse();
        assert(r =~= seq![c, b, a]);
        assert(normalize_ring(s) == r);
        lemma_cross_diff_rev(a, b, c);
        assert forall|i: int| 0 <= i < 3 implies #[trigger] ring_cross(r, i) >= 0 by {
            lemma_tri_cross_cycle(c, b, a);
            lemma_cross_diff_rev(a, b, c);
            assert(ring_cross(r, i) == -d);
        }
    }
}

/// Reversing the three arguments flips the sign of the cross product.
proof fn lemma_cross_diff_rev(a: Point, b: Point, c: Point)
    ensures
        cross_diff(c, b, a) == -cross_diff(a, b, c),
{
    assert((c.x - b.x) * (b.y - a.y) - (c.y - b.y) * (b.x - a.x) == -((a.x - b.x) * (b.y - c.y) - (
    a.y - b.y) * (b.x - c.x))) by (nonlinear_arith);
}

/// The three turns of a triangle ring are all equal to cross_diff(a, b, c).
proof fn lemma_tri_cross_cycle(a: Point, b: Point, c: Point)
    ensures
        ring_cross(seq![a, b, c], 0) == cross_diff(a, b, c),
        ring_cross(seq![a, b, c], 1) == cross_diff(a, b, c),
        ring_cross(seq![a, b, c], 2) == cross_diff(a, b, c),
{
    let s = seq![a, b, c];
    lemma_small_mod(0);
    lemma_small_mod(1);
    lemma_small_mod(2);
    assert(ring_cross(s, 0) == cross_diff(b, c, a));
    assert(ring_cross(s, 1) == cross_diff(c, a, b));
    assert(ring_cross(s, 2) == cross_diff(a, b, c));
    assert((b.x - c.x) * (c.y - a.y) - (b.y - c.y) * (c.x - a.x) == (a.x - b.x) * (b.y - c.y) - (
    a.y - b.y) * (b.x - c.x)) by (nonlinear_arith);
    assert((c.x - a.x) * (a.y - b.y) - (c.y - a.y) * (a.x - b.x) == (a.x - b.x) * (b.y - c.y) - (
    a.y - b.y) * (b.x - c.x)) by (nonlinear_arith);
}

/// Modular index arithmetic for a three-element ring.
proof fn lemma_small_mod(i: int)
    requires
        0 <= i < 3,
    ensures
        (i + 1) % 3 == if i == 2 {
            0int
        } else {
            i + 1
        },
        (i + 2) % 3 == if i == 0 {
            2int
        } else {
            i - 1
        },
        i % 3 == i,
{
    vstd::arithmetic::div_mod::lemma_fundamental_div_mod_converse(i, 3, 0, i);
    if i + 1 < 3 {
        vstd::arithmetic::div_mod::lemma_fundamental_div_mod_converse(i + 1, 3, 0, i + 1);
    } else {
        vstd::arithmetic::div_mod::lemma_fundamental_div_mod_converse(i + 1, 3, 1, i + 1 - 3);
    }
    if i + 2 < 3 {
        vstd::arithmetic::div_mod::lemma_fundamental_div_mod_converse(i + 2, 3, 0, i + 2);
    } else {
        vstd::arithmetic::div_mod::lemma_fundamental_div_mod_converse(i + 2, 3, 1, i + 2 - 3);
    }
}

/// The full Sutherland-Hodgman result: None for a clip ring of fewer than
/// three vertices or a non-convex one; otherwise the cascade against the
/// normalized closed clip ring, with the output ring closed back to its
/// first vertex when it is non-empty.
pub open spec fn sh_cut_spec(cutter: Seq<Point>, polygon: Seq<Point>) -> Option<Seq<Point>> {
    if cutter.len() < 3 {
        None
    } else if !convexity_spec(cutter) {
        None
    } else {
        let ring = normalize_ring(cutter);
        let closed = ring.push(ring[0]);
        let res = sh_clip_spec(closed, polygon);
        if res.len() > 0 {
            Some(res.push(res[0]))
        } else {
            Some(res)
        }
    }
}

/// Sutherland-Hodgman polygon clipping: normalizes the clip ring's winding,
/// verifies its convexity (None on failure), closes it, and clips the
/// subject polygon against each of its edges.
pub fn cut(cutter: &Vec<Point>, polygon: &Vec<Point>) -> (res: Option<Vec<Point>>)
    requires
        all_in_range(cutter@),
        all_in_range(polygon@),
        cutter@.len() < 0xFF_FFFF,
    ensures
        res is Some <==> sh_cut_spec(cutter@, polygon@) is Some,
        res is Some ==> res->Some_0@ == sh_cut_spec(cutter@, polygon@)->Some_0,
{
    if cutter.len() < 3 {
        return None;
    }
    let mut ring: Vec<Point> = Vec::new();
    let mut i: usize = 0;
    while i < cutter.len()
        invariant
            0 <= i <= cutter@.len(),
            all_in_range(cutter@),
            ring@ =~= cutter@.subrange(0, i as int),
            all_in_range(ring@),
        decreases cutter@.len() - i,
    {
        ring.push(cutter[i]);
        proof {
            assert(ring@ =~= cutter@.subrange(0, i + 1));
        }
        i = i + 1;
    }
    proof {
        assert(ring@ =~= cutter@);
    }
    if check_convexity_polygon(&mut ring) {
        let first = ring[0];
        ring.push(first);
        let mut res = cut_one(&ring, polygon);
        if res.len() > 0 {
            let f = res[0];
            res.push(f);
        }
        Some(res)
    } else {
        None
    }
}

} // verus!
