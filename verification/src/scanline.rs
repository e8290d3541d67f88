//! Scanline polygon fill: a canvas accumulates closed vertex rings (several
//! disjoint rings may be batched); filling walks the scanlines from the top
//! of the figure down to just above its bottom, collects the exact crossing
//! abscissa of every non-horizontal edge active at the scanline, sorts them,
//! and emits one horizontal span per consecutive pair — the even-odd rule.

use vstd::prelude::*;
use vstd::multiset::Multiset;

use crate::clip_rect::segs_view;
use crate::geom::abs_int;
use crate::geom::in_range;
use crate::geom::lemma_mul_bounds;
use crate::geom::max_int;
use crate::geom::min_int;
use crate::geom::round_frac;
use crate::geom::Point;

verus! {

/// Edge index pairs as mathematical pairs.
pub open spec fn eview(s: Seq<(usize, usize)>) -> Seq<(int, int)> {
    s.map_values(|e: (usize, usize)| (e.0 as int, e.1 as int))
}

/// Integer views of a machine-integer sequence.
pub open spec fn iview(s: Seq<i64>) -> Seq<int> {
    s.map_values(|x: i64| x as int)
}

/// The edge between a and b crosses scanline y: y lies in the half-open
/// span (min(a.y, b.y), max(a.y, b.y)], horizontal edges excluded.
pub open spec fn edge_active(a: Point, b: Point, y: int) -> bool {
    a.y != b.y && min_int(a.y as int, b.y as int) < y <= max_int(a.y as int, b.y as int)
}

/// The rounded crossing abscissa of the edge a-b at scanline y: the exact
/// rational x of the edge's carrying line at height y, rounded to the grid.
pub open spec fn edge_x_at(a: Point, b: Point, y: int) -> int
    recommends
        a.y != b.y,
{
    let tx = if a.y >= b.y {
        a.x as int
    } else {
        b.x as int
    };
    let ty = if a.y >= b.y {
        a.y as int
    } else {
        b.y as int
    };
    let bx = if a.y >= b.y {
        b.x as int
    } else {
        a.x as int
    };
    let by = if a.y >= b.y {
        b.y as int
    } else {
        a.y as int
    };
    round_frac(tx * (ty - by) + (ty - y) * (bx - tx), ty - by)
}

/// The rounded crossing abscissas of the active edges at scanline y, in
/// edge-list order; out-of-range edge indices contribute nothing.
pub open spec fn scan_xs(points: Seq<Point>, edges: Seq<(int, int)>, y: int) -> Seq<int>
    decreases edges.len(),
{
    if edges.len() == 0 {
        Seq::empty()
    } else {
        let head = scan_xs(points, edges.drop_last(), y);
        let e = edges.last();
        if 0 <= e.0 < points.len() && 0 <= e.1 < points.len() && edge_active(
            points[e.0],
            points[e.1],
            y,
        ) {
            head.push(edge_x_at(points[e.0], points[e.1], y))
        } else {
            head
        }
    }
}

/// Pairs a sorted crossing list into spans at height y: consecutive pairs
/// delimit inside runs under the even-odd rule.
pub open spec fn pair_spans(s: Seq<int>, y: int) -> Seq<((int, int), (int, int))> {
    Seq::new((s.len() / 2) as nat, |j: int| ((s[2 * j], y), (s[2 * j + 1], y)))
}

/// The spans of one scanline: the sorted active crossings, paired.
pub open spec fn spans_at(points: Seq<Point>, edges: Seq<(int, int)>, y: int) -> Seq<
    ((int, int), (int, int)),
> {
    pair_spans(scan_xs(points, edges, y).sort(), y)
}

/// All spans from scanline y down to just above ylow, top first.
pub open spec fn spans_down(points: Seq<Point>, edges: Seq<(int, int)>, ylow: int, y: int) -> Seq<
    ((int, int), (int, int)),
>
    decreases y - ylow,
{
    if y <= ylow {
        Seq::empty()
    } else {
        spans_at(points, edges, y) + spans_down(points, edges, ylow, y - 1)
    }
}

/// Appending one more scanline at the bottom of the processed range.
proof fn lemma_spans_down_snoc(points: Seq<Point>, edges: Seq<(int, int)>, ylow: int, y: int)
    requires
        ylow < y,
    ensures
        spans_down(points, edges, ylow, y) =~= spans_down(points, edges, ylow + 1, y) + spans_at(
            points,
            edges,
            ylow + 1,
        ),
    decreases y - ylow,
{
    if y == ylow + 1 {
        assert(spans_down(points, edges, ylow + 1, y) =~= Seq::empty());
        assert(spans_down(points, edges, ylow, y) =~= spans_at(points, edges, y) + spans_down(
            points,
            edges,
            ylow,
            y - 1,
        ));
        assert(spans_down(points, edges, ylow, y - 1) =~= Seq::empty());
        assert(spans_down(points, edges, ylow, y) =~= spans_at(points, edges, ylow + 1));
        assert(spans_down(points, edges, ylow + 1, y) + spans_at(points, edges, ylow + 1)
            =~= spans_at(points, edges, ylow + 1));
    } else {
        lemma_spans_down_snoc(points, edges, ylow, y - 1);
        assert(spans_down(points, edges, ylow, y) =~= spans_at(points, edges, y) + spans_down(
            points,
            edges,
            ylow,
            y - 1,
        ));
        assert(spans_down(points, edges, ylow + 1, y) =~= spans_at(points, edges, y)
            + spans_down(points, edges, ylow + 1, y - 1));
        assert(spans_down(points, edges, ylow, y - 1) =~= spans_down(points, edges, ylow + 1, y
            - 1) + spans_at(points, edges, ylow + 1));
        assert(spans_at(points, edges, y) + (spans_down(points, edges, ylow + 1, y - 1)
            + spans_at(points, edges, ylow + 1)) =~= (spans_at(points, edges, y) + spans_down(
            points,
            edges,
            ylow + 1,
            y - 1,
        )) + spans_at(points, edges, ylow + 1));
    }
}

/// The least y coordinate of a non-empty point sequence.
pub open spec fn min_y_of(s: Seq<Point>) -> int
    recommends
        s.len() > 0,
    decreases s.len(),
{
    if s.len() <= 1 {
        s[0].y as int
    } else {
        min_int(min_y_of(s.drop_last()), s.last().y as int)
    }
}

/// The greatest y coordinate of a non-empty point sequence.
pub open spec fn max_y_of(s: Seq<Point>) -> int
    recommends
        s.len() > 0,
    decreases s.len(),
{
    if s.len() <= 1 {
        s[0].y as int
    } else {
        max_int(max_y_of(s.drop_last()), s.last().y as int)
    }
}

/// Sorts a crossing list ascending, preserving its multiset, by repeatedly
/// extracting the least remaining element.
fn sort_xs(v: &Vec<i64>) -> (out: Vec<i64>)
    ensures
        vstd::relations::sorted_by(iview(out@), |a: int, b: int| a <= b),
        iview(out@).to_multiset() == iview(v@).to_multiset(),
{
    broadcast use vstd::seq_lib::group_to_multiset_ensures;
    broadcast use vstd::multiset::group_multiset_axioms;

    let mut src: Vec<i64> = Vec::new();
    let mut i: usize = 0;
    while i < v.len()
        invariant
            0 <= i <= v@.len(),
            src@ =~= v@.subrange(0, i as int),
        decreases v@.len() - i,
    {
        src.push(v[i]);
        proof {
            assert(src@ =~= v@.subrange(0, i + 1));
        }
        i = i + 1;
    }
    proof {
        assert(src@ =~= v@);
        assert(iview(src@) =~= iview(v@));
    }
    let mut out: Vec<i64> = Vec::new();
    while src.len() > 0
        invariant
            vstd::relations::sorted_by(iview(out@), |a: int, b: int| a <= b),
            iview(out@).to_multiset().add(iview(src@).to_multiset()) == iview(v@).to_multiset(),
            forall|p: int, q: int|
                0 <= p < out@.len() && 0 <= q < src@.len() ==> #[trigger] iview(out@)[p]
                    <= #[trigger] iview(src@)[q],
        decreases src@.len(),
    {
        let mut m: usize = 0;
        let mut k: usize = 1;
        while k < src.len()
            invariant
                0 <= m < src@.len(),
                1 <= k <= src@.len(),
                forall|t: int| 0 <= t < k ==> iview(src@)[m as int] <= #[trigger] iview(src@)[t],
            decreases src@.len() - k,
        {
            if src[k] < src[m] {
                m = k;
            }
            k = k + 1;
        }
        let x = src[m];
        let ghost old_out = iview(out@);
        let ghost old_src = iview(src@);
        out.push(x);
        src.remove(m);
        proof {
            broadcast use vstd::seq_lib::group_to_multiset_ensures;
            broadcast use vstd::multiset::group_multiset_axioms;

            assert(iview(out@) =~= old_out.push(x as int));
            assert(iview(src@) =~= old_src.remove(m as int));
            assert(old_out.push(x as int).to_multiset() =~= old_out.to_multiset().insert(
                x as int,
            ));
            assert(old_src.remove(m as int).to_multiset() =~= old_src.to_multiset().remove(
                x as int,
            ));
            assert(old_src.to_multiset().contains(x as int)) by {
                assert(old_src[m as int] == x as int);
            }
            assert(old_out.to_multiset().insert(x as int).add(
                old_src.to_multiset().remove(x as int),
            ) =~= old_out.to_multiset().add(old_src.to_multiset()));
            // sortedness: every element already emitted is at most x
            let sn = iview(out@);
            assert(vstd::relations::sorted_by(sn, |a: int, b: int| a <= b)) by {
                assert forall|p: int, q: int| 0 <= p < q < sn.len() implies (|a: int, b: int|
                    a <= b)(sn[p], sn[q]) by {
                    if q < sn.len() - 1 {
                        assert((|a: int, b: int| a <= b)(old_out[p], old_out[q]));
                    } else {
                        assert(old_out[p] <= old_src[m as int]);
                    }
                }
            }
            // every emitted element stays at most every survivor
            assert forall|p: int, q: int|
                0 <= p < out@.len() && 0 <= q < src@.len() implies #[trigger] iview(out@)[p]
                    <= #[trigger] iview(src@)[q] by {
                if q < m {
                    assert(iview(src@)[q] == old_src[q]);
                } else {
                    assert(iview(src@)[q] == old_src[q + 1]);
                }
                if p < out@.len() - 1 {
                    assert(old_out[p] <= iview(src@)[q]);
                } else {
                    assert(iview(out@)[p] == x as int);
                }
            }
        }
    }
    proof {
        broadcast use vstd::seq_lib::group_to_multiset_ensures;
        broadcast use vstd::multiset::group_multiset_axioms;

        assert(iview(src@) =~= Seq::<int>::empty());
        assert(Seq::<int>::empty().to_multiset() =~= Multiset::<int>::empty());
        assert(iview(out@).to_multiset() =~= iview(v@).to_multiset());
    }
    out
}

/// A canvas of vertex rings for scanline filling: points are appended, a
/// ring is closed explicitly or by re-clicking its first vertex, edges
/// record index pairs into the point list, and fill spans accumulate in
/// filler.
pub struct Canvas {
    filler: Vec<(Point, Point)>,
    edges: Vec<(usize, usize)>,
    last_closed: Vec<usize>,
    points: Vec<Point>,
    color: (u8, u8, u8),
}

impl Canvas {
    /// All recorded edges point into the vertex list.
    pub open spec fn well_formed(&self) -> bool {
        &&& forall|i: int|
            0 <= i < self.edges_seq().len() ==> (#[trigger] self.edges_seq()[i]).0
                < self.points_seq().len() && self.edges_seq()[i].1 < self.points_seq().len()
        &&& self.closes_seq().len() > 0
        &&& self.closes_seq().last() <= self.points_seq().len()
    }

    pub closed spec fn points_seq(&self) -> Seq<Point> {
        self.points@
    }

    pub closed spec fn edges_seq(&self) -> Seq<(usize, usize)> {
        self.edges@
    }

    pub closed spec fn closes_seq(&self) -> Seq<usize> {
        self.last_closed@
    }

    pub closed spec fn filler_seq(&self) -> Seq<(Point, Point)> {
        self.filler@
    }

    pub fn new() -> (c: Canvas)
        ensures
            c.points_seq() =~= Seq::<Point>::empty(),
            c.edges_seq() =~= Seq::<(usize, usize)>::empty(),
            c.filler_seq() =~= Seq::<(Point, Point)>::empty(),
            c.closes_seq() =~= seq![0usize],
            c.well_formed(),
    {
        let mut last_closed: Vec<usize> = Vec::new();
        last_closed.push(0);
        Canvas {
            filler: Vec::new(),
            edges: Vec::new(),
            last_closed,
            points: Vec::new(),
            color: (255, 255, 255),
        }
    }

    /// The start index of the ring currently under construction.
    pub fn last_closed(&self) -> (r: usize)
        requires
            self.closes_seq().len() > 0,
        ensures
            r == self.closes_seq().last(),
    {
        self.last_closed[self.last_closed.len() - 1]
    }

    pub fn all_closed(&self) -> (r: &Vec<usize>)
        ensures
            r@ == self.closes_seq(),
    {
        &self.last_closed
    }

    pub fn last_closed_point(&self) -> (r: Option<&Point>)
        requires
            self.closes_seq().len() > 0,
        ensures
            r is Some <==> self.closes_seq().last() < self.points_seq().len(),
            r is Some ==> *r->Some_0 == self.points_seq()[self.closes_seq().last() as int],
    {
        let last = self.last_closed[self.last_closed.len() - 1];
        if last < self.points.len() {
            Some(&self.points[last])
        } else {
            None
        }
    }

    pub fn set_color(&mut self, color: (u8, u8, u8))
        ensures
            final(self).points_seq() == old(self).points_seq(),
            final(self).edges_seq() == old(self).edges_seq(),
            final(self).filler_seq() == old(self).filler_seq(),
            final(self).closes_seq() == old(self).closes_seq(),
            old(self).well_formed() ==> final(self).well_formed(),
    {
        self.color = color;
        proof {
            if old(self).well_formed() {
                assert forall|i: int|
                    0 <= i < self.edges_seq().len() implies (#[trigger] self.edges_seq()[i]).0
                    < self.points_seq().len() && self.edges_seq()[i].1
                    < self.points_seq().len() by {
                    assert(old(self).edges_seq()[i].0 < old(self).points_seq().len());
                    assert(old(self).edges_seq()[i].1 < old(self).points_seq().len());
                }
            }
        }
    }

    pub fn fill_string(&mut self, pos1: Point, pos2: Point)
        ensures
            final(self).filler_seq() == old(self).filler_seq().push((pos1, pos2)),
            final(self).points_seq() == old(self).points_seq(),
            final(self).edges_seq() == old(self).edges_seq(),
            final(self).closes_seq() == old(self).closes_seq(),
            old(self).well_formed() ==> final(self).well_formed(),
    {
        self.filler.push((pos1, pos2));
        proof {
            if old(self).well_formed() {
                assert forall|i: int|
                    0 <= i < self.edges_seq().len() implies (#[trigger] self.edges_seq()[i]).0
                    < self.points_seq().len() && self.edges_seq()[i].1
                    < self.points_seq().len() by {
                    assert(old(self).edges_seq()[i].0 < old(self).points_seq().len());
                    assert(old(self).edges_seq()[i].1 < old(self).points_seq().len());
                }
            }
        }
    }

    pub fn filler(&self) -> (r: &Vec<(Point, Point)>)
        ensures
            r@ == self.filler_seq(),
    {
        &self.filler
    }

    pub fn edges(&self) -> (r: &Vec<(usize, usize)>)
        ensures
            r@ == self.edges_seq(),
    {
        &self.edges
    }

    pub fn points(&self) -> (r: &Vec<Point>)
        ensures
            r@ == self.points_seq(),
    {
        &self.points
    }

    pub fn points_rem(&mut self, c: usize)
        requires
            c < old(self).points_seq().len(),
        ensures
            final(self).points_seq() == old(self).points_seq().remove(c as int),
            final(self).edges_seq() == old(self).edges_seq(),
            final(self).filler_seq() == old(self).filler_seq(),
            final(self).closes_seq() == old(self).closes_seq(),
    {
        self.points.remove(c);
    }

    pub fn add_line(&mut self, a: usize, b: usize)
        requires
            a < old(self).points_seq().len(),
            b < old(self).points_seq().len(),
        ensures
            final(self).edges_seq() == old(self).edges_seq().push((a, b)),
            final(self).points_seq() == old(self).points_seq(),
            final(self).filler_seq() == old(self).filler_seq(),
            final(self).closes_seq() == old(self).closes_seq(),
            old(self).well_formed() ==> final(self).well_formed(),
    {
        self.edges.push((a, b));
        proof {
            assert(self.edges@.drop_last() =~= old(self).edges@);
            if old(self).well_formed() {
                assert forall|i: int|
                    0 <= i < self.edges_seq().len() implies (#[trigger] self.edges_seq()[i]).0
                    < self.points_seq().len() && self.edges_seq()[i].1
                    < self.points_seq().len() by {
                    if i < self.edges_seq().len() - 1 {
                        assert(old(self).edges_seq()[i].0 < old(self).points_seq().len());
                        assert(old(self).edges_seq()[i].1 < old(self).points_seq().len());
                    }
                }
            }
        }
    }

    /// Closes the current ring when it has at least three vertices: records
    /// the closing edge and starts a new ring.
    pub fn close(&mut self) -> (r: Option<()>)
        requires
            old(self).well_formed(),
        ensures
            final(self).well_formed(),
            final(self).points_seq() == old(self).points_seq(),
            final(self).filler_seq() == old(self).filler_seq(),
            r is Some <==> old(self).points_seq().len() >= old(self).closes_seq().last() + 3,
            r is None ==> final(self).edges_seq() == old(self).edges_seq()
                && final(self).closes_seq() == old(self).closes_seq(),
            r is Some ==> final(self).edges_seq() == old(self).edges_seq().push(
                ((old(self).closes_seq().last() as usize), (old(self).points_seq().len() - 1) as usize),
            ) && final(self).closes_seq() == old(self).closes_seq().push(
                old(self).points_seq().len() as usize,
            ),
    {
        let last = self.last_closed[self.last_closed.len() - 1];
        if self.points.len() >= 3 && self.points.len() - last >= 3 {
            let n = self.points.len();
            self.add_line(last, n - 1);
            self.last_closed.push(n);
            proof {
                assert(final(self).closes_seq().last() == old(self).points_seq().len());
            }
            Some(())
        } else {
            proof {
                assert(old(self).closes_seq().last() + 3 > old(self).points_seq().len() || false);
            }
            None
        }
    }

    /// The current ring has accumulated at least two vertices.
    pub fn is_closed(&self) -> (r: bool)
        requires
            self.well_formed(),
        ensures
            r == (self.points_seq().len() >= self.closes_seq().last() + 2),
    {
        let last = self.last_closed[self.last_closed.len() - 1];
        self.points.len() >= 2 && self.points.len() - last >= 2
    }

    pub fn clear(&mut self)
        ensures
            final(self).points_seq() =~= Seq::<Point>::empty(),
            final(self).edges_seq() =~= Seq::<(usize, usize)>::empty(),
            final(self).filler_seq() =~= Seq::<(Point, Point)>::empty(),
            final(self).closes_seq() =~= seq![0usize],
            final(self).well_formed(),
    {
        self.points.clear();
        self.edges.clear();
        self.filler.clear();
        self.last_closed.clear();
        self.last_closed.push(0);
    }

    /// Discards computed fill spans, keeping the figure.
    pub fn clean(&mut self)
        ensures
            final(self).filler_seq() =~= Seq::<(Point, Point)>::empty(),
            final(self).points_seq() == old(self).points_seq(),
            final(self).edges_seq() == old(self).edges_seq(),
            final(self).closes_seq() == old(self).closes_seq(),
            old(self).well_formed() ==> final(self).well_formed(),
    {
        self.filler.clear();
        proof {
            if old(self).well_formed() {
                assert forall|i: int|
                    0 <= i < self.edges_seq().len() implies (#[trigger] self.edges_seq()[i]).0
                    < self.points_seq().len() && self.edges_seq()[i].1
                    < self.points_seq().len() by {
                    assert(old(self).edges_seq()[i].0 < old(self).points_seq().len());
                    assert(old(self).edges_seq()[i].1 < old(self).points_seq().len());
                }
            }
        }
    }

    /// Appends a vertex: re-clicking the first vertex of the open ring
    /// closes it; otherwise the vertex is appended and, from the second
    /// vertex of a ring on, an edge to its predecessor is recorded.
    pub fn add_point(&mut self, pos: Point)
        requires
            old(self).well_formed(),
            old(self).points_seq().len() < 0x1000_0000,
        ensures
            final(self).well_formed(),
            final(self).filler_seq() == old(self).filler_seq(),
            ({
                let last = old(self).closes_seq().last() as int;
                let n = old(self).points_seq().len() as int;
                if n > last && old(self).points_seq()[last] == pos {
                    // re-clicking the open ring's first vertex closes it
                    final(self).points_seq() == old(self).points_seq() && (if n >= last + 3 {
                        final(self).edges_seq() == old(self).edges_seq().push(
                            ((last as usize), ((n - 1) as usize)),
                        ) && final(self).closes_seq() == old(self).closes_seq().push(n as usize)
                    } else {
                        final(self).edges_seq() == old(self).edges_seq()
                            && final(self).closes_seq() == old(self).closes_seq()
                    })
                } else {
                    // the vertex is appended; from the ring's second vertex
                    // on, the edge to its predecessor is recorded
                    final(self).points_seq() == old(self).points_seq().push(pos)
                        && final(self).closes_seq() == old(self).closes_seq() && (if n > last {
                        final(self).edges_seq() == old(self).edges_seq().push(
                            (((n - 1) as usize), (n as usize)),
                        )
                    } else {
                        final(self).edges_seq() == old(self).edges_seq()
                    })
                }
            }),
    {
        let last = self.last_closed[self.last_closed.len() - 1];
        if self.points.len() > last && {
            let p = self.points[last];
            p.x == pos.x && p.y == pos.y
        } {
            let _ = self.close();
        } else {
            self.points.push(pos);
            proof {
                assert forall|i: int|
                    0 <= i < self.edges_seq().len() implies (#[trigger] self.edges_seq()[i]).0
                    < self.points_seq().len() && self.edges_seq()[i].1
                    < self.points_seq().len() by {
                    assert(old(self).edges_seq()[i] == self.edges_seq()[i]);
                    assert(old(self).edges_seq()[i].0 < old(self).points_seq().len());
                }
            }
            let n = self.points.len();
            if n >= 2 && n - last >= 2 {
                self.add_line(n - 2, n - 1);
            }
        }
    }

    /// Scanline fill: walks the scanlines from the figure's top down to just
    /// above its bottom and appends, for each, the spans delimited by the
    /// sorted crossing abscissas of the active edges (even-odd rule).
    pub fn filling(&mut self)
        requires
            old(self).well_formed(),
            forall|i: int| 0 <= i < old(self).points_seq().len() ==> in_range(
                #[trigger] old(self).points_seq()[i],
            ),
        ensures
            final(self).well_formed(),
            final(self).points_seq() == old(self).points_seq(),
            final(self).edges_seq() == old(self).edges_seq(),
            final(self).closes_seq() == old(self).closes_seq(),
            old(self).points_seq().len() == 0 ==> final(self).filler_seq() == old(
                self,
            ).filler_seq(),
            old(self).points_seq().len() > 0 ==> segs_view(final(self).filler_seq()) == segs_view(
                old(self).filler_seq(),
            ) + spans_down(
                old(self).points_seq(),
                eview(old(self).edges_seq()),
                min_y_of(old(self).points_seq()),
                max_y_of(old(self).points_seq()),
            ),
    {
        if self.points.len() == 0 {
            return ;
        }
        let mut ymin = self.points[0].y;
        let mut ymax = self.points[0].y;
        let mut i: usize = 1;
        while i < self.points.len()
            invariant
                1 <= i <= self.points_seq().len() || (self.points_seq().len() < 1 && i == 1),
                self.points_seq().len() > 0,
                forall|k: int| 0 <= k < self.points_seq().len() ==> in_range(
                    #[trigger] self.points_seq()[k],
                ),
                ymin == min_y_of(self.points_seq().subrange(0, i as int)),
                ymax == max_y_of(self.points_seq().subrange(0, i as int)),
                abs_int(ymin as int) <= 0x4000_0000,
                abs_int(ymax as int) <= 0x4000_0000,
            decreases self.points_seq().len() - i,
        {
            let p = self.points[i];
            proof {
                assert(self.points_seq().subrange(0, i + 1).drop_last() =~= self.points_seq()
                    .subrange(0, i as int));
            }
            if p.y < ymin {
                ymin = p.y;
            }
            if p.y > ymax {
                ymax = p.y;
            }
            i = i + 1;
        }
        proof {
            assert(self.points_seq().subrange(0, self.points_seq().len() as int) =~= self
                .points_seq());
        }
        let ghost base = segs_view(self.filler_seq());
        let mut y = ymax;
        while y > ymin
            invariant
                self.well_formed(),
                self.points_seq() == old(self).points_seq(),
                self.edges_seq() == old(self).edges_seq(),
                self.closes_seq() == old(self).closes_seq(),
                self.points_seq().len() > 0,
                forall|k: int| 0 <= k < self.points_seq().len() ==> in_range(
                    #[trigger] self.points_seq()[k],
                ),
                ymin == min_y_of(self.points_seq()),
                ymax == max_y_of(self.points_seq()),
                ymin <= y <= ymax,
                abs_int(ymin as int) <= 0x4000_0000,
                abs_int(ymax as int) <= 0x4000_0000,
                base == segs_view(old(self).filler_seq()),
                segs_view(self.filler_seq()) =~= base + spans_down(
                    self.points_seq(),
                    eview(self.edges_seq()),
                    y as int,
                    ymax as int,
                ),
            decreases y - ymin,
        {
            let xs = self.collect_xs(y);
            let sorted = sort_xs(&xs);
            proof {
                lemma_sort_glue(
                    iview(xs@),
                    iview(sorted@),
                    scan_xs(self.points_seq(), eview(self.edges_seq()), y as int),
                );
            }
            let half = sorted.len() / 2;
            proof {
                vstd::arithmetic::div_mod::lemma_fundamental_div_mod(
                    sorted@.len() as int,
                    2,
                );
                vstd::arithmetic::div_mod::lemma_mod_bound(sorted@.len() as int, 2);
            }
            let ghost before = segs_view(self.filler_seq());
            let mut j: usize = 0;
            while j < half
                invariant
                    0 <= j <= half,
                    half == sorted@.len() / 2,
                    2 * half <= sorted@.len(),
                    sorted@.len() <= usize::MAX,
                    self.well_formed(),
                    self.points_seq() == old(self).points_seq(),
                    self.edges_seq() == old(self).edges_seq(),
                    self.closes_seq() == old(self).closes_seq(),
                    iview(sorted@) == scan_xs(
                        self.points_seq(),
                        eview(self.edges_seq()),
                        y as int,
                    ).sort(),
                    segs_view(self.filler_seq()) =~= before + pair_spans(
                        iview(sorted@),
                        y as int,
                    ).subrange(0, j as int),
                decreases half - j,
            {
                proof {
                    assert(2 * (j as int) + 1 < sorted@.len());
                }
                let x1 = sorted[2 * j];
                let x2 = sorted[2 * j + 1];
                let ghost oldf = self.filler_seq();
                self.fill_string(Point { x: x1, y }, Point { x: x2, y });
                proof {
                    assert(segs_view(self.filler_seq()) =~= segs_view(oldf).push(
                        (((x1 as int), (y as int)), ((x2 as int), (y as int))),
                    ));
                    assert(segs_view(self.filler_seq()) =~= before + pair_spans(
                        iview(sorted@),
                        y as int,
                    ).subrange(0, j + 1));
                }
                j = j + 1;
            }
            proof {
                assert(pair_spans(iview(sorted@), y as int).subrange(
                    0,
                    (sorted@.len() / 2) as int,
                ) =~= pair_spans(iview(sorted@), y as int));
                assert(segs_view(self.filler_seq()) =~= before + spans_at(
                    self.points_seq(),
                    eview(self.edges_seq()),
                    y as int,
                ));
                lemma_spans_down_snoc(
                    self.points_seq(),
                    eview(self.edges_seq()),
                    y - 1,
                    ymax as int,
                );
            }
            y = y - 1;
        }
    }

    /// Collects the rounded crossing abscissas of the edges active at y.
    fn collect_xs(&self, y: i64) -> (xs: Vec<i64>)
        requires
            self.well_formed(),
            forall|i: int| 0 <= i < self.points_seq().len() ==> in_range(
                #[trigger] self.points_seq()[i],
            ),
            abs_int(y as int) <= 0x4000_0000,
        ensures
            iview(xs@) == scan_xs(self.points_seq(), eview(self.edges_seq()), y as int),
    {
        let mut xs: Vec<i64> = Vec::new();
        let mut k: usize = 0;
        while k < self.edges.len()
            invariant
                0 <= k <= self.edges_seq().len(),
                self.well_formed(),
                forall|i: int| 0 <= i < self.points_seq().len() ==> in_range(
                    #[trigger] self.points_seq()[i],
                ),
                abs_int(y as int) <= 0x4000_0000,
                iview(xs@) =~= scan_xs(
                    self.points_seq(),
                    eview(self.edges_seq().subrange(0, k as int)),
                    y as int,
                ),
            decreases self.edges_seq().len() - k,
        {
            let e = self.edges[k];
            let a = self.points[e.0];
            let b = self.points[e.1];
            let ghost oldxs = xs@;
            if a.y != b.y {
                let lo = if a.y <= b.y {
                    a.y
                } else {
                    b.y
                };
                let hi = if a.y <= b.y {
                    b.y
                } else {
                    a.y
                };
                if lo < y && y <= hi {
                    let tx = if a.y >= b.y {
                        a.x
                    } else {
                        b.x
                    };
                    let ty = if a.y >= b.y {
                        a.y
                    } else {
                        b.y
                    };
                    let bx = if a.y >= b.y {
                        b.x
                    } else {
                        a.x
                    };
                    let by = if a.y >= b.y {
                        b.y
                    } else {
                        a.y
                    };
                    proof {
                        lemma_mul_bounds(
                            tx as int,
                            (ty - by) as int,
                            0x4000_0000,
                            0x1_0000_0000,
                        );
                        lemma_mul_bounds(
                            (ty - y) as int,
                            (bx - tx) as int,
                            0x1_0000_0000,
                            0x1_0000_0000,
                        );
                        crate::clip_poly::lemma_rounded_between_pub(
                            tx as int,
                            (bx - tx) as int,
                            (ty - y) as int,
                            (ty - by) as int,
                        );
                        assert(((ty - y) as int) * ((bx - tx) as int) == ((bx - tx) as int) * ((
                        ty - y) as int)) by (nonlinear_arith);
                    }
                    let num = (tx as i128) * ((ty - by) as i128) + ((ty - y) as i128) * ((bx
                        - tx) as i128);
                    let xv = crate::geom::round_div_i128(num, (ty - by) as i128);
                    xs.push(xv as i64);
                    proof {
                        assert(iview(xs@) =~= iview(oldxs).push(xv as int));
                    }
                }
            }
            proof {
                assert(eview(self.edges_seq().subrange(0, k + 1)).drop_last() =~= eview(
                    self.edges_seq().subrange(0, k as int),
                ));
                assert(eview(self.edges_seq().subrange(0, k + 1)).last() == (
                    self.edges_seq()[k as int].0 as int,
                    self.edges_seq()[k as int].1 as int,
                ));
                assert(iview(xs@) =~= scan_xs(
                    self.points_seq(),
                    eview(self.edges_seq().subrange(0, k + 1)),
                    y as int,
                ));
            }
            k = k + 1;
        }
        proof {
            assert(self.edges_seq().subrange(0, self.edges_seq().len() as int) =~= self
                .edges_seq());
        }
        xs
    }
}

/// A sorted sequence with the same multiset as the raw crossing list equals
/// that list's canonical sort.
proof fn lemma_sort_glue(raw: Seq<int>, sorted: Seq<int>, spec_raw: Seq<int>)
    requires
        raw == spec_raw,
        vstd::relations::sorted_by(sorted, |a: int, b: int| a <= b),
        sorted.to_multiset() == raw.to_multiset(),
    ensures
        sorted == spec_raw.sort(),
{
    let leq = |a: int, b: int| a <= b;
    spec_raw.lemma_sort_ensures();
    assert(vstd::relations::total_ordering(leq)) by {
        assert(vstd::relations::reflexive(leq));
        assert(vstd::relations::transitive(leq));
        assert(vstd::relations::antisymmetric(leq));
        assert(vstd::relations::strongly_connected(leq));
    }
    vstd::seq_lib::lemma_sorted_unique(sorted, spec_raw.sort(), leq);
}

} // verus!
