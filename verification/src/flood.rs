//! Span-based 4-connected seed fill over a bounded pixel grid: an explicit
//! stack variant and a recursive variant share the span-scanning logic. Both
//! paint the maximal horizontal run around each seed, then probe the rows
//! above and below for new sub-spans. Verified here: both variants paint
//! exactly the maximal 4-connected region reachable from the seed through
//! cells that are neither border- nor fill-colored — so the two variants
//! provably paint the identical pixel set — no other cell changes, no
//! border-colored cell is ever altered, and both terminate.

use vstd::prelude::*;

use crate::geom::in_range;
use crate::geom::pts_view;
use crate::geom::Point;

verus! {

/// An RGB color.
pub type Rgb = (u8, u8, u8);

/// A bounded canvas: a fill layer over an edge layer over a background
/// color; absent cells read as the layer below.
pub struct Canvas {
    width: usize,
    height: usize,
    fill_cells: Vec<Option<Rgb>>,
    edge_cells: Vec<Option<Rgb>>,
    background: Rgb,
    points: Vec<(Point, Rgb)>,
    close: Vec<usize>,
}

/// Some pixel of the list lies at the position.
pub open spec fn hits(pixels: Seq<(int, int)>, x: int, y: int) -> bool {
    exists|i: int| 0 <= i < pixels.len() && #[trigger] pixels[i] == (x, y)
}

/// Appending a pixel extends the hit set by exactly that position.
proof fn lemma_hits_push(s: Seq<(int, int)>, v: (int, int), x: int, y: int)
    ensures
        hits(s.push(v), x, y) == (hits(s, x, y) || v == (x, y)),
{
    if hits(s.push(v), x, y) {
        let i = choose|i: int| 0 <= i < s.push(v).len() && #[trigger] s.push(v)[i] == (x, y);
        if i < s.len() {
            assert(s[i] == (x, y));
        }
    }
    if hits(s, x, y) {
        let i = choose|i: int| 0 <= i < s.len() && #[trigger] s[i] == (x, y);
        assert(s.push(v)[i] == (x, y));
    }
    if v == (x, y) {
        assert(s.push(v)[s.len() as int] == (x, y));
    }
}

/// The color a stack of layers resolves to.
pub open spec fn resolve(f: Option<Rgb>, e: Option<Rgb>, bg: Rgb) -> Rgb {
    match f {
        Some(c) => c,
        None => match e {
            Some(c) => c,
            None => bg,
        },
    }
}

impl Canvas {
    pub closed spec fn spec_width(&self) -> int {
        self.width as int
    }

    pub closed spec fn spec_height(&self) -> int {
        self.height as int
    }

    pub closed spec fn spec_background(&self) -> Rgb {
        self.background
    }

    pub closed spec fn points_seq(&self) -> Seq<(Point, Rgb)> {
        self.points@
    }

    /// Both layers cover the grid exactly; the grid is no larger than the
    /// machine can index.
    pub closed spec fn well_formed(&self) -> bool {
        &&& self.fill_cells@.len() == self.spec_width() * self.spec_height()
        &&& self.edge_cells@.len() == self.spec_width() * self.spec_height()
        &&& 0 < self.spec_width() <= 4096
        &&& 0 < self.spec_height() <= 4096
    }

    /// The color the canvas shows at (x, y): fill layer, else edge layer,
    /// else background; everything off the grid reads as background.
    pub closed spec fn cell_at(&self, x: int, y: int) -> Rgb {
        if 0 <= x < self.spec_width() && 0 <= y < self.spec_height() {
            resolve(
                self.fill_cells@[y * self.spec_width() + x],
                self.edge_cells@[y * self.spec_width() + x],
                self.background,
            )
        } else {
            self.background
        }
    }

    /// The fill layer at (x, y); None off the grid or where unpainted.
    pub closed spec fn fill_at(&self, x: int, y: int) -> Option<Rgb> {
        if 0 <= x < self.spec_width() && 0 <= y < self.spec_height() {
            self.fill_cells@[y * self.spec_width() + x]
        } else {
            None
        }
    }

    /// The edge (figure) layer at (x, y); None off the grid or unstamped.
    pub closed spec fn edge_at(&self, x: int, y: int) -> Option<Rgb> {
        if 0 <= x < self.spec_width() && 0 <= y < self.spec_height() {
            self.edge_cells@[y * self.spec_width() + x]
        } else {
            None
        }
    }

    pub fn new(width: usize, height: usize, background: Rgb) -> (c: Canvas)
        requires
            0 < width <= 4096,
            0 < height <= 4096,
        ensures
            c.well_formed(),
            c.spec_width() == width,
            c.spec_height() == height,
            c.spec_background() == background,
            forall|x: int, y: int| #[trigger] c.cell_at(x, y) == background,
            c.points_seq() =~= Seq::<(Point, Rgb)>::empty(),
    {
        proof {
            assert((width as int) * (height as int) <= 4096 * 4096) by (nonlinear_arith)
                requires
                    0 < width as int <= 4096,
                    0 < height as int <= 4096,
            ;
            assert((width as int) * (height as int) >= 0) by (nonlinear_arith)
                requires
                    width as int >= 0,
                    height as int >= 0,
            ;
        }
        let n = width * height;
        let mut fill_cells: Vec<Option<Rgb>> = Vec::new();
        let mut edge_cells: Vec<Option<Rgb>> = Vec::new();
        let mut i: usize = 0;
        while i < n
            invariant
                0 <= i <= n,
                fill_cells@.len() == i,
                edge_cells@.len() == i,
                forall|k: int| 0 <= k < i ==> fill_cells@[k] is None && edge_cells@[k] is None,
            decreases n - i,
        {
            fill_cells.push(None);
            edge_cells.push(None);
            i = i + 1;
        }
        let mut close: Vec<usize> = Vec::new();
        close.push(0);
        let c = Canvas {
            width,
            height,
            fill_cells,
            edge_cells,
            background,
            points: Vec::new(),
            close,
        };
        proof {
            assert forall|x: int, y: int| #[trigger] c.cell_at(x, y) == background by {
                if 0 <= x < c.spec_width() && 0 <= y < c.spec_height() {
                    assert(0 <= y * c.spec_width() + x < c.spec_width() * c.spec_height())
                        by (nonlinear_arith)
                        requires
                            0 <= x < c.spec_width(),
                            0 <= y < c.spec_height(),
                    ;
                }
            }
        }
        c
    }

    pub fn width(&self) -> (r: usize)
        ensures
            r == self.spec_width(),
    {
        self.width
    }

    pub fn height(&self) -> (r: usize)
        ensures
            r == self.spec_height(),
    {
        self.height
    }

    /// Reads the canvas color at a grid position.
    pub fn at(&self, x: usize, y: usize) -> (c: Rgb)
        requires
            self.well_formed(),
        ensures
            c == self.cell_at(x as int, y as int),
    {
        if x < self.width && y < self.height {
            proof {
                lemma_grid_index(x as int, y as int, self.spec_width(), self.spec_height());
            }
            let idx = y * self.width + x;
            match self.fill_cells[idx] {
                Some(c) => c,
                None => match self.edge_cells[idx] {
                    Some(c) => c,
                    None => self.background,
                },
            }
        } else {
            self.background
        }
    }

    /// The canvas shows exactly this color at the position.
    pub fn eq_color(&self, x: usize, y: usize, color: Rgb) -> (r: bool)
        requires
            self.well_formed(),
        ensures
            r == (self.cell_at(x as int, y as int) == color),
    {
        let c = self.at(x, y);
        c.0 == color.0 && c.1 == color.1 && c.2 == color.2
    }

    /// Paints the horizontal run from pos1.0 to pos2.0 at row pos2.1 with
    /// the color, in the fill layer; everything else is untouched.
    pub fn draw_line(&mut self, pos1: (usize, usize), pos2: (usize, usize), color: Rgb)
        requires
            old(self).well_formed(),
            pos1.0 <= pos2.0,
            pos2.0 < old(self).spec_width(),
            pos2.1 < old(self).spec_height(),
        ensures
            final(self).well_formed(),
            final(self).spec_width() == old(self).spec_width(),
            final(self).spec_height() == old(self).spec_height(),
            final(self).spec_background() == old(self).spec_background(),
            final(self).points_seq() == old(self).points_seq(),
            forall|x: int, y: int|
                (y != pos2.1 || x < pos1.0 || x > pos2.0) ==> #[trigger] final(self).cell_at(x, y)
                    == old(self).cell_at(x, y),
            forall|x: int|
                pos1.0 <= x <= pos2.0 ==> #[trigger] final(self).cell_at(x, pos2.1 as int)
                    == color,
    {
        let y = pos2.1;
        let mut x = pos1.0;
        while x <= pos2.0
            invariant
                pos1.0 <= x <= pos2.0 + 1,
                pos2.0 < self.spec_width(),
                pos2.1 < self.spec_height(),
                y == pos2.1,
                self.well_formed(),
                self.spec_width() == old(self).spec_width(),
                self.spec_height() == old(self).spec_height(),
                self.spec_background() == old(self).spec_background(),
                self.points_seq() == old(self).points_seq(),
                forall|xx: int, yy: int|
                    (yy != pos2.1 || xx < pos1.0 || xx >= x) ==> #[trigger] self.cell_at(xx, yy)
                        == old(self).cell_at(xx, yy),
                forall|xx: int|
                    pos1.0 <= xx < x ==> #[trigger] self.cell_at(xx, pos2.1 as int) == color,
            decreases pos2.0 + 1 - x,
        {
            proof {
                lemma_grid_index(x as int, y as int, self.spec_width(), self.spec_height());
            }
            let ghost prev = *self;
            let idx = y * self.width + x;
            self.fill_cells.set(idx, Some(color));
            proof {
                assert(self.edge_cells@ == prev.edge_cells@);
                assert(self.fill_cells@ == prev.fill_cells@.update(idx as int, Some(color)));
                assert forall|xx: int, yy: int|
                    (yy != pos2.1 || xx < pos1.0 || xx >= x + 1) implies #[trigger] self.cell_at(
                    xx,
                    yy,
                ) == old(self).cell_at(xx, yy) by {
                    if 0 <= xx < self.spec_width() && 0 <= yy < self.spec_height() {
                        lemma_grid_index(xx, yy, self.spec_width(), self.spec_height());
                        lemma_grid_index_ne(
                            xx,
                            yy,
                            x as int,
                            y as int,
                            self.spec_width(),
                            self.spec_height(),
                        );
                        let k0 = yy * self.spec_width() + xx;
                        assert(k0 != idx as int);
                        assert(self.fill_cells@[k0] == prev.fill_cells@[k0]);
                        assert(self.cell_at(xx, yy) == prev.cell_at(xx, yy));
                        assert(prev.cell_at(xx, yy) == old(self).cell_at(xx, yy));
                    }
                }
                assert forall|xx: int|
                    pos1.0 <= xx <= x implies #[trigger] self.cell_at(xx, pos2.1 as int)
                    == color by {
                    let k0 = (pos2.1 as int) * self.spec_width() + xx;
                    lemma_grid_index(xx, pos2.1 as int, self.spec_width(), self.spec_height());
                    if xx == x as int {
                        assert(self.fill_cells@[k0] == Some(color));
                    } else {
                        lemma_grid_index_ne(
                            xx,
                            pos2.1 as int,
                            x as int,
                            y as int,
                            self.spec_width(),
                            self.spec_height(),
                        );
                        assert(self.fill_cells@[k0] == prev.fill_cells@[k0]);
                        assert(prev.cell_at(xx, pos2.1 as int) == color);
                    }
                }
            }
            x = x + 1;
        }
    }

    /// Appends a vertex for figure bookkeeping and stamps the segment from
    /// the previous vertex onto the edge layer via the DDA rasterizer:
    /// exactly the in-grid pixels of that segment take the color there.
    pub fn add_point(&mut self, pos: Point, color: Rgb)
        requires
            old(self).well_formed(),
            in_range(pos),
        ensures
            final(self).well_formed(),
            final(self).spec_width() == old(self).spec_width(),
            final(self).spec_height() == old(self).spec_height(),
            final(self).spec_background() == old(self).spec_background(),
            final(self).points_seq() == old(self).points_seq().push((pos, color)),
            forall|x: int, y: int|
                #[trigger] final(self).cell_at(x, y) == old(self).cell_at(x, y)
                    || final(self).cell_at(x, y) == color,
            forall|x: int, y: int|
                #[trigger] final(self).fill_at(x, y) == old(self).fill_at(x, y),
            ({
                let n = old(self).points_seq().len() as int;
                if n > 0 && in_range(old(self).points_seq()[n - 1].0) {
                    let stamped = crate::lines::dda_pixels(old(self).points_seq()[n - 1].0, pos);
                    forall|x: int, y: int|
                        #[trigger] final(self).edge_at(x, y) == if hits(stamped, x, y) && 0 <= x
                            < old(self).spec_width() && 0 <= y < old(self).spec_height() {
                            Some(color)
                        } else {
                            old(self).edge_at(x, y)
                        }
                } else {
                    forall|x: int, y: int|
                        #[trigger] final(self).edge_at(x, y) == old(self).edge_at(x, y)
                }
            }),
    {
        let do_stamp = self.points.len() > 0 && in_coord_range(
            self.points[self.points.len() - 1].0,
        );
        if do_stamp {
            let prev = self.points[self.points.len() - 1].0;
            let pixels = crate::lines::dda(&[prev, pos]);
            self.stamp_edges(&pixels, color);
            let ghost mid = *self;
            self.points.push((pos, color));
            proof {
                assert forall|x: int, y: int|
                    #[trigger] self.cell_at(x, y) == old(self).cell_at(x, y) || self.cell_at(x, y)
                        == color by {
                    assert(self.cell_at(x, y) == mid.cell_at(x, y));
                    assert(mid.cell_at(x, y) == old(self).cell_at(x, y) || mid.cell_at(x, y)
                        == color);
                }
                assert forall|x: int, y: int|
                    #[trigger] self.fill_at(x, y) == old(self).fill_at(x, y) by {
                    assert(self.fill_at(x, y) == mid.fill_at(x, y));
                    assert(mid.fill_at(x, y) == old(self).fill_at(x, y));
                }
                let stamped = crate::lines::dda_pixels(prev, pos);
                assert forall|x: int, y: int|
                    #[trigger] self.edge_at(x, y) == if hits(stamped, x, y) && 0 <= x < old(
                        self,
                    ).spec_width() && 0 <= y < old(self).spec_height() {
                        Some(color)
                    } else {
                        old(self).edge_at(x, y)
                    } by {
                    assert(self.edge_at(x, y) == mid.edge_at(x, y));
                }
            }
        } else {
            let ghost mid = *self;
            self.points.push((pos, color));
            proof {
                assert forall|x: int, y: int|
                    #[trigger] self.cell_at(x, y) == old(self).cell_at(x, y) || self.cell_at(x, y)
                        == color by {
                    assert(self.cell_at(x, y) == mid.cell_at(x, y));
                }
                assert forall|x: int, y: int|
                    #[trigger] self.fill_at(x, y) == old(self).fill_at(x, y) by {
                    assert(self.fill_at(x, y) == mid.fill_at(x, y));
                }
                assert forall|x: int, y: int|
                    #[trigger] self.edge_at(x, y) == old(self).edge_at(x, y) by {
                    assert(self.edge_at(x, y) == mid.edge_at(x, y));
                }
            }
        }
    }

    /// Stamps the in-grid pixels of a rasterized curve onto the edge layer:
    /// exactly the listed positions take the color there, the fill layer and
    /// everything else is untouched.
    fn stamp_edges(&mut self, pixels: &Vec<Point>, color: Rgb)
        requires
            old(self).well_formed(),
        ensures
            final(self).well_formed(),
            final(self).spec_width() == old(self).spec_width(),
            final(self).spec_height() == old(self).spec_height(),
            final(self).spec_background() == old(self).spec_background(),
            final(self).points_seq() == old(self).points_seq(),
            forall|x: int, y: int|
                #[trigger] final(self).fill_at(x, y) == old(self).fill_at(x, y),
            forall|x: int, y: int|
                #[trigger] final(self).edge_at(x, y) == if hits(pts_view(pixels@), x, y) && 0 <= x
                    < old(self).spec_width() && 0 <= y < old(self).spec_height() {
                    Some(color)
                } else {
                    old(self).edge_at(x, y)
                },
            forall|x: int, y: int|
                #[trigger] final(self).cell_at(x, y) == old(self).cell_at(x, y)
                    || final(self).cell_at(x, y) == color,
    {
        let mut k: usize = 0;
        while k < pixels.len()
            invariant
                0 <= k <= pixels@.len(),
                self.well_formed(),
                self.spec_width() == old(self).spec_width(),
                self.spec_height() == old(self).spec_height(),
                self.spec_background() == old(self).spec_background(),
                self.points_seq() == old(self).points_seq(),
                forall|x: int, y: int|
                    #[trigger] self.cell_at(x, y) == old(self).cell_at(x, y) || self.cell_at(x, y)
                        == color,
                forall|x: int, y: int|
                    #[trigger] self.fill_at(x, y) == old(self).fill_at(x, y),
                forall|x: int, y: int|
                    #[trigger] self.edge_at(x, y) == if hits(
                        pts_view(pixels@.subrange(0, k as int)),
                        x,
                        y,
                    ) && 0 <= x < old(self).spec_width() && 0 <= y < old(self).spec_height() {
                        Some(color)
                    } else {
                        old(self).edge_at(x, y)
                    },
            decreases pixels@.len() - k,
        {
            let p = pixels[k];
            let ghost prefix = pts_view(pixels@.subrange(0, k as int));
            proof {
                assert(pixels@.subrange(0, k + 1).drop_last() =~= pixels@.subrange(0, k as int));
                assert(pts_view(pixels@.subrange(0, k + 1)) =~= prefix.push(
                    (p.x as int, p.y as int),
                ));
            }
            let w64 = self.width as i64;
            let h64 = self.height as i64;
            if 0 <= p.x && p.x < w64 && 0 <= p.y && p.y < h64 {
                let ghost prev = *self;
                let x = p.x as usize;
                let y = p.y as usize;
                proof {
                    lemma_grid_index(x as int, y as int, self.spec_width(), self.spec_height());
                }
                let idx = y * self.width + x;
                self.edge_cells.set(idx, Some(color));
                proof {
                    assert(self.fill_cells@ == prev.fill_cells@);
                    assert(self.edge_cells@ == prev.edge_cells@.update(idx as int, Some(color)));
                    assert forall|xx: int, yy: int|
                        #[trigger] self.fill_at(xx, yy) == old(self).fill_at(xx, yy) by {
                        assert(self.fill_at(xx, yy) == prev.fill_at(xx, yy));
                    }
                    assert forall|xx: int, yy: int|
                        #[trigger] self.cell_at(xx, yy) == old(self).cell_at(xx, yy)
                            || self.cell_at(xx, yy) == color by {
                        if 0 <= xx < self.spec_width() && 0 <= yy < self.spec_height() {
                            lemma_grid_index(xx, yy, self.spec_width(), self.spec_height());
                            lemma_grid_index_ne(
                                xx,
                                yy,
                                x as int,
                                y as int,
                                self.spec_width(),
                                self.spec_height(),
                            );
                            let k0 = yy * self.spec_width() + xx;
                            if k0 == idx as int {
                                assert(self.edge_cells@[k0] == Some(color));
                                assert(self.cell_at(xx, yy) == prev.cell_at(xx, yy) || self
                                    .cell_at(xx, yy) == color);
                            } else {
                                assert(self.edge_cells@[k0] == prev.edge_cells@[k0]);
                                assert(self.cell_at(xx, yy) == prev.cell_at(xx, yy));
                            }
                            assert(prev.cell_at(xx, yy) == old(self).cell_at(xx, yy)
                                || prev.cell_at(xx, yy) == color);
                        } else {
                            assert(self.cell_at(xx, yy) == self.spec_background());
                            assert(old(self).cell_at(xx, yy) == old(self).spec_background());
                        }
                    }
                    assert forall|xx: int, yy: int|
                        #[trigger] self.edge_at(xx, yy) == if hits(
                            pts_view(pixels@.subrange(0, k + 1)),
                            xx,
                            yy,
                        ) && 0 <= xx < old(self).spec_width() && 0 <= yy < old(
                            self,
                        ).spec_height() {
                            Some(color)
                        } else {
                            old(self).edge_at(xx, yy)
                        } by {
                        lemma_hits_push(prefix, (p.x as int, p.y as int), xx, yy);
                        if 0 <= xx < self.spec_width() && 0 <= yy < self.spec_height() {
                            lemma_grid_index(xx, yy, self.spec_width(), self.spec_height());
                            lemma_grid_index_ne(
                                xx,
                                yy,
                                x as int,
                                y as int,
                                self.spec_width(),
                                self.spec_height(),
                            );
                            let k0 = yy * self.spec_width() + xx;
                            if k0 == idx as int {
                                assert((xx, yy) == (p.x as int, p.y as int));
                                assert(self.edge_at(xx, yy) == Some(color));
                            } else {
                                assert(self.edge_at(xx, yy) == prev.edge_at(xx, yy));
                            }
                        }
                    }
                }
            } else {
                proof {
                    assert forall|xx: int, yy: int|
                        #[trigger] self.edge_at(xx, yy) == if hits(
                            pts_view(pixels@.subrange(0, k + 1)),
                            xx,
                            yy,
                        ) && 0 <= xx < old(self).spec_width() && 0 <= yy < old(
                            self,
                        ).spec_height() {
                            Some(color)
                        } else {
                            old(self).edge_at(xx, yy)
                        } by {
                        lemma_hits_push(prefix, (p.x as int, p.y as int), xx, yy);
                    }
                }
            }
            k = k + 1;
        }
        proof {
            assert(pixels@.subrange(0, pixels@.len() as int) =~= pixels@);
        }
    }

    /// Stamps a rasterized circle onto the edge layer: exactly the in-grid
    /// pixels of the canonical circle rasterizer take the color there.
    pub fn add_circle(&mut self, pos: Point, r: i64, color: Rgb) -> (res: Result<
        (),
        crate::geom::GeomError,
    >)
        requires
            old(self).well_formed(),
            in_range(pos),
            r <= crate::conics::RADIUS_LIMIT,
        ensures
            final(self).well_formed(),
            final(self).spec_width() == old(self).spec_width(),
            final(self).spec_height() == old(self).spec_height(),
            final(self).spec_background() == old(self).spec_background(),
            final(self).points_seq() == old(self).points_seq(),
            res is Err <==> r <= 0,
            forall|x: int, y: int|
                #[trigger] final(self).cell_at(x, y) == old(self).cell_at(x, y)
                    || final(self).cell_at(x, y) == color,
            forall|x: int, y: int|
                #[trigger] final(self).fill_at(x, y) == old(self).fill_at(x, y),
            res is Err ==> *final(self) == *old(self),
            res is Ok ==> forall|x: int, y: int|
                #[trigger] final(self).edge_at(x, y) == if hits(
                    crate::conics::circle_canonic_pixels(pos.x as int, pos.y as int, r as int),
                    x,
                    y,
                ) && 0 <= x < old(self).spec_width() && 0 <= y < old(self).spec_height() {
                    Some(color)
                } else {
                    old(self).edge_at(x, y)
                },
    {
        let c = crate::conics::Circle::new(pos, r);
        match c.draw_canonic() {
            Ok(pixels) => {
                self.stamp_edges(&pixels, color);
                Ok(())
            },
            Err(e) => Err(e),
        }
    }

    /// Stamps a rasterized ellipse onto the edge layer: exactly the in-grid
    /// pixels of the canonical ellipse rasterizer take the color there.
    pub fn add_ellipse(&mut self, pos: Point, radius: (i64, i64), color: Rgb) -> (res: Result<
        (),
        crate::geom::GeomError,
    >)
        requires
            old(self).well_formed(),
            in_range(pos),
            radius.0 <= crate::conics::RADIUS_LIMIT,
            radius.1 <= crate::conics::RADIUS_LIMIT,
        ensures
            final(self).well_formed(),
            final(self).spec_width() == old(self).spec_width(),
            final(self).spec_height() == old(self).spec_height(),
            final(self).spec_background() == old(self).spec_background(),
            final(self).points_seq() == old(self).points_seq(),
            res is Err <==> radius.0 <= 0 || radius.1 <= 0,
            forall|x: int, y: int|
                #[trigger] final(self).cell_at(x, y) == old(self).cell_at(x, y)
                    || final(self).cell_at(x, y) == color,
            forall|x: int, y: int|
                #[trigger] final(self).fill_at(x, y) == old(self).fill_at(x, y),
            res is Err ==> *final(self) == *old(self),
            res is Ok ==> forall|x: int, y: int|
                #[trigger] final(self).edge_at(x, y) == if hits(
                    crate::conics::ellipse_canonic_pixels(
                        pos.x as int,
                        pos.y as int,
                        radius.0 as int,
                        radius.1 as int,
                    ),
                    x,
                    y,
                ) && 0 <= x < old(self).spec_width() && 0 <= y < old(self).spec_height() {
                    Some(color)
                } else {
                    old(self).edge_at(x, y)
                },
    {
        let e = crate::conics::Ellipse::new(pos, radius);
        match e.draw_canonic() {
            Ok(pixels) => {
                self.stamp_edges(&pixels, color);
                Ok(())
            },
            Err(err) => Err(err),
        }
    }
}

/// The point can be cast to grid coordinates.
fn in_coord_range(p: Point) -> (r: bool)
    ensures
        r == (in_range(p)),
{
    let lim = crate::geom::COORD_LIMIT;
    -lim <= p.x && p.x <= lim && -lim <= p.y && p.y <= lim
}

/// Index arithmetic of the grid: in-bounds coordinates index the layers.
proof fn lemma_grid_index(x: int, y: int, w: int, h: int)
    by (nonlinear_arith)
    requires
        0 <= x < w,
        0 <= y < h,
        w <= 4096,
        h <= 4096,
    ensures
        0 <= y * w + x < w * h,
        y * w + x < 16_777_216,
        w * h <= 16_777_216,
{
}

/// Distinct in-bounds coordinates have distinct grid indices.
proof fn lemma_grid_index_ne(x1: int, y1: int, x2: int, y2: int, w: int, h: int)
    by (nonlinear_arith)
    requires
        0 <= x1 < w,
        0 <= y1 < h,
        0 <= x2 < w,
        0 <= y2 < h,
    ensures
        (x1 != x2 || y1 != y2) ==> y1 * w + x1 != y2 * w + x2,
{
}

/// The cell is on the grid and carries neither the border nor the fill
/// color: seed fill may enter it.
pub open spec fn open_cell(c: Canvas, fc: Rgb, border: Rgb, x: int, y: int) -> bool {
    0 <= x < c.spec_width() && 0 <= y < c.spec_height() && c.cell_at(x, y) != border && c.cell_at(
        x,
        y,
    ) != fc
}

/// Two grid cells are 4-connected neighbours.
pub open spec fn adjacent4(p: (int, int), q: (int, int)) -> bool {
    (p.0 == q.0 && (p.1 == q.1 + 1 || p.1 == q.1 - 1)) || (p.1 == q.1 && (p.0 == q.0 + 1 || p.0
        == q.0 - 1))
}

/// A nonempty sequence of open cells, consecutive ones 4-connected.
pub open spec fn is_open_path(c: Canvas, fc: Rgb, border: Rgb, path: Seq<(int, int)>) -> bool {
    &&& path.len() > 0
    &&& forall|i: int|
        0 <= i < path.len() ==> open_cell(
            c,
            fc,
            border,
            (#[trigger] path[i]).0,
            path[i].1,
        )
    &&& forall|i: int| 0 <= i < path.len() - 1 ==> adjacent4(#[trigger] path[i], path[i + 1])
}

/// The target cell is 4-connected-reachable from the source through cells
/// that are neither border- nor fill-colored.
pub open spec fn reachable(
    c: Canvas,
    fc: Rgb,
    border: Rgb,
    sx: int,
    sy: int,
    x: int,
    y: int,
) -> bool {
    exists|path: Seq<(int, int)>|
        #[trigger] is_open_path(c, fc, border, path) && path.first() == (sx, sy) && path.last()
            == (x, y)
}

/// An open cell reaches itself.
proof fn lemma_reach_self(c: Canvas, fc: Rgb, border: Rgb, x: int, y: int)
    requires
        open_cell(c, fc, border, x, y),
    ensures
        reachable(c, fc, border, x, y, x, y),
{
    let path = seq![(x, y)];
    assert(is_open_path(c, fc, border, path));
    assert(path.first() == (x, y) && path.last() == (x, y));
}

/// Reachability extends across one step to an adjacent open cell.
proof fn lemma_reach_extend(
    c: Canvas,
    fc: Rgb,
    border: Rgb,
    sx: int,
    sy: int,
    x: int,
    y: int,
    nx: int,
    ny: int,
)
    requires
        reachable(c, fc, border, sx, sy, x, y),
        adjacent4((x, y), (nx, ny)),
        open_cell(c, fc, border, nx, ny),
    ensures
        reachable(c, fc, border, sx, sy, nx, ny),
{
    let path = choose|path: Seq<(int, int)>|
        #[trigger] is_open_path(c, fc, border, path) && path.first() == (sx, sy) && path.last()
            == (x, y);
    let path2 = path.push((nx, ny));
    assert(is_open_path(c, fc, border, path2)) by {
        assert(forall|i: int|
            0 <= i < path.len() ==> #[trigger] path2[i] == path[i]);
        assert(path2[path2.len() - 1] == (nx, ny));
        assert(path2[path2.len() - 2] == path.last());
    }
    assert(path2.first() == (sx, sy) && path2.last() == (nx, ny));
}

/// Reachability is transitive.
proof fn lemma_reach_trans(
    c: Canvas,
    fc: Rgb,
    border: Rgb,
    ax: int,
    ay: int,
    bx: int,
    by: int,
    tx: int,
    ty: int,
)
    requires
        reachable(c, fc, border, ax, ay, bx, by),
        reachable(c, fc, border, bx, by, tx, ty),
    ensures
        reachable(c, fc, border, ax, ay, tx, ty),
{
    let p1 = choose|path: Seq<(int, int)>|
        #[trigger] is_open_path(c, fc, border, path) && path.first() == (ax, ay) && path.last()
            == (bx, by);
    let p2 = choose|path: Seq<(int, int)>|
        #[trigger] is_open_path(c, fc, border, path) && path.first() == (bx, by) && path.last()
            == (tx, ty);
    let joined = p1 + p2.drop_first();
    assert(is_open_path(c, fc, border, joined)) by {
        assert(forall|i: int| 0 <= i < p1.len() ==> #[trigger] joined[i] == p1[i]);
        assert(forall|i: int|
            p1.len() <= i < joined.len() ==> #[trigger] joined[i] == p2[i - p1.len() + 1]);
        assert(forall|i: int|
            0 <= i < joined.len() ==> open_cell(
                c,
                fc,
                border,
                (#[trigger] joined[i]).0,
                joined[i].1,
            ));
        assert forall|i: int| 0 <= i < joined.len() - 1 implies adjacent4(
            #[trigger] joined[i],
            joined[i + 1],
        ) by {
            if i < p1.len() - 1 {
                assert(adjacent4(p1[i], p1[i + 1]));
            } else if i == p1.len() - 1 {
                assert(joined[i] == p1.last());
                if p2.len() > 1 {
                    assert(joined[i + 1] == p2[1]);
                    assert(adjacent4(p2[0], p2[1]));
                    assert(p2[0] == p1.last());
                }
            } else {
                assert(adjacent4(p2[i - p1.len()], p2[i - p1.len() + 1]));
            }
        }
    }
    assert(joined.first() == (ax, ay));
    assert(joined.last() == (tx, ty)) by {
        if p2.len() == 1 {
            assert(joined =~= p1);
        }
    }
}

/// A path of a more-painted canvas is a path of the less-painted one.
proof fn lemma_reach_mono(
    base: Canvas,
    painted: Canvas,
    fc: Rgb,
    border: Rgb,
    sx: int,
    sy: int,
    x: int,
    y: int,
)
    requires
        painted.spec_width() == base.spec_width(),
        painted.spec_height() == base.spec_height(),
        forall|xx: int, yy: int|
            #[trigger] painted.cell_at(xx, yy) == base.cell_at(xx, yy) || painted.cell_at(xx, yy)
                == fc,
        reachable(painted, fc, border, sx, sy, x, y),
    ensures
        reachable(base, fc, border, sx, sy, x, y),
{
    let path = choose|path: Seq<(int, int)>|
        #[trigger] is_open_path(painted, fc, border, path) && path.first() == (sx, sy)
            && path.last() == (x, y);
    assert(is_open_path(base, fc, border, path)) by {
        assert forall|i: int|
            0 <= i < path.len() implies open_cell(
            base,
            fc,
            border,
            (#[trigger] path[i]).0,
            path[i].1,
        ) by {
            assert(open_cell(painted, fc, border, path[i].0, path[i].1));
        }
    }
}

/// Cells of one horizontal open run reach each other.
proof fn lemma_run_reach(
    c: Canvas,
    fc: Rgb,
    border: Rgb,
    y: int,
    x1: int,
    x2: int,
    from: int,
    to: int,
)
    requires
        x1 <= from <= x2,
        x1 <= to <= x2,
        forall|cx: int| x1 <= cx <= x2 ==> open_cell(c, fc, border, cx, y),
    ensures
        reachable(c, fc, border, from, y, to, y),
    decreases crate::geom::abs_int(to - from),
{
    if from == to {
        lemma_reach_self(c, fc, border, from, y);
    } else if to > from {
        lemma_run_reach(c, fc, border, y, x1, x2, from, to - 1);
        lemma_reach_extend(c, fc, border, from, y, to - 1, y, to, y);
    } else {
        lemma_run_reach(c, fc, border, y, x1, x2, from, to + 1);
        lemma_reach_extend(c, fc, border, from, y, to + 1, y, to, y);
    }
}

/// The number of grid cells among the first n (in row-major order) whose
/// color is not the fill color: the potential that painting shrinks.
pub open spec fn nf_upto(c: Canvas, fc: Rgb, n: int) -> int
    decreases n,
{
    if n <= 0 {
        0
    } else {
        nf_upto(c, fc, n - 1) + if c.cell_at((n - 1) % c.spec_width(), (n - 1) / c.spec_width())
            != fc {
            1int
        } else {
            0int
        }
    }
}

/// The unfilled count is never negative.
proof fn lemma_nf_nonneg(c: Canvas, fc: Rgb, n: int)
    ensures
        nf_upto(c, fc, n) >= 0,
    decreases n,
{
    if n > 0 {
        lemma_nf_nonneg(c, fc, n - 1);
    }
}

/// Two canvases of equal size whose cells differ only by painting the fill
/// color: the unfilled count never grows.
proof fn lemma_nf_mono(a: Canvas, b: Canvas, fc: Rgb, n: int)
    requires
        a.spec_width() == b.spec_width(),
        a.spec_height() == b.spec_height(),
        forall|x: int, y: int|
            #[trigger] b.cell_at(x, y) == a.cell_at(x, y) || b.cell_at(x, y) == fc,
    ensures
        nf_upto(b, fc, n) <= nf_upto(a, fc, n),
    decreases n,
{
    if n > 0 {
        lemma_nf_mono(a, b, fc, n - 1);
    }
}

/// With one witness cell actually painted, the unfilled count strictly
/// shrinks.
proof fn lemma_nf_strict(a: Canvas, b: Canvas, fc: Rgb, n: int, wx: int, wy: int)
    requires
        a.spec_width() == b.spec_width(),
        a.spec_height() == b.spec_height(),
        a.spec_width() > 0,
        forall|x: int, y: int|
            #[trigger] b.cell_at(x, y) == a.cell_at(x, y) || b.cell_at(x, y) == fc,
        0 <= wx < a.spec_width(),
        0 <= wy < a.spec_height(),
        wy * a.spec_width() + wx < n,
        a.cell_at(wx, wy) != fc,
        b.cell_at(wx, wy) == fc,
    ensures
        nf_upto(b, fc, n) < nf_upto(a, fc, n),
    decreases n,
{
    let w = a.spec_width();
    if wy * w + wx == n - 1 {
        vstd::arithmetic::div_mod::lemma_fundamental_div_mod_converse(n - 1, w, wy, wx);
        lemma_nf_mono(a, b, fc, n - 1);
    } else {
        lemma_nf_strict(a, b, fc, n - 1, wx, wy);
    }
}

/// The unfilled count of the whole grid.
pub open spec fn unfilled(c: Canvas, fc: Rgb) -> int {
    nf_upto(c, fc, c.spec_width() * c.spec_height())
}

/// The safety relation both fill variants guarantee between the canvas
/// before and after: the figure is unchanged except that some cells took the
/// fill color, and no border-colored cell was touched.
pub open spec fn fill_relation(a: Canvas, b: Canvas, fc: Rgb, border: Rgb) -> bool {
    &&& b.spec_width() == a.spec_width()
    &&& b.spec_height() == a.spec_height()
    &&& b.spec_background() == a.spec_background()
    &&& b.points_seq() == a.points_seq()
    &&& forall|x: int, y: int|
        #[trigger] b.cell_at(x, y) == a.cell_at(x, y) || b.cell_at(x, y) == fc
    &&& forall|x: int, y: int|
        a.cell_at(x, y) == border && border != fc ==> #[trigger] b.cell_at(x, y) == border
}

/// Scans right from x along row y to the last consecutive cell that is
/// neither border- nor fill-colored.
fn scan_right(canvas: &Canvas, x: usize, y: usize, fill: Rgb, border: Rgb) -> (rx: usize)
    requires
        canvas.well_formed(),
        x < canvas.spec_width(),
        y < canvas.spec_height(),
    ensures
        x <= rx < canvas.spec_width(),
        forall|xx: int| x < xx <= rx ==> open_cell(*canvas, fill, border, xx, y as int),
        !open_cell(*canvas, fill, border, rx as int + 1, y as int),
{
    let mut rx = x;
    while rx + 1 < canvas.width() && !canvas.eq_color(rx + 1, y, border) && !canvas.eq_color(
        rx + 1,
        y,
        fill,
    )
        invariant
            canvas.well_formed(),
            x <= rx < canvas.spec_width(),
            y < canvas.spec_height(),
            forall|xx: int| x < xx <= rx ==> open_cell(*canvas, fill, border, xx, y as int),
        decreases canvas.spec_width() - rx,
    {
        rx = rx + 1;
    }
    rx
}

/// Scans left from x along row y to the first consecutive cell that is
/// neither border- nor fill-colored.
fn scan_left(canvas: &Canvas, x: usize, y: usize, fill: Rgb, border: Rgb) -> (lx: usize)
    requires
        canvas.well_formed(),
        x < canvas.spec_width(),
        y < canvas.spec_height(),
    ensures
        lx <= x,
        forall|xx: int| lx <= xx < x ==> open_cell(*canvas, fill, border, xx, y as int),
        !open_cell(*canvas, fill, border, lx as int - 1, y as int),
{
    let mut lx = x;
    while lx > 0 && !canvas.eq_color(lx - 1, y, border) && !canvas.eq_color(lx - 1, y, fill)
        invariant
            canvas.well_formed(),
            lx <= x < canvas.spec_width(),
            y < canvas.spec_height(),
            forall|xx: int| lx <= xx < x ==> open_cell(*canvas, fill, border, xx, y as int),
        decreases lx,
    {
        lx = lx - 1;
    }
    lx
}

/// Some stack entry with index in [lo, hi) reaches the cell through open
/// cells of the canvas.
pub open spec fn covered(
    c: Canvas,
    fc: Rgb,
    border: Rgb,
    entries: Seq<(usize, usize)>,
    lo: int,
    hi: int,
    cx: int,
    cy: int,
) -> bool {
    exists|i: int|
        lo <= i < hi && i < entries.len() && reachable(
            c,
            fc,
            border,
            (#[trigger] entries[i]).0 as int,
            entries[i].1 as int,
            cx,
            cy,
        )
}

/// Probes row ny over the span [lx, rx] and pushes one representative seed
/// per maximal sub-span of cells that are neither border- nor fill-colored.
fn discover_row(
    canvas: &Canvas,
    lx: usize,
    rx: usize,
    ny: usize,
    fill: Rgb,
    border: Rgb,
    stack: &mut Vec<(usize, usize)>,
)
    requires
        canvas.well_formed(),
        lx <= rx < canvas.spec_width(),
        ny < canvas.spec_height(),
        forall|i: int|
            0 <= i < old(stack)@.len() ==> (#[trigger] old(stack)@[i]).0 < canvas.spec_width()
                && old(stack)@[i].1 < canvas.spec_height(),
    ensures
        forall|i: int|
            0 <= i < final(stack)@.len() ==> (#[trigger] final(stack)@[i]).0
                < canvas.spec_width() && final(stack)@[i].1 < canvas.spec_height(),
        final(stack)@.len() >= old(stack)@.len(),
        forall|i: int| 0 <= i < old(stack)@.len() ==> #[trigger] final(stack)@[i] == old(
            stack,
        )@[i],
        forall|i: int|
            old(stack)@.len() <= i < final(stack)@.len() ==> (#[trigger] final(stack)@[i]).1
                == ny && lx <= final(stack)@[i].0 <= rx && open_cell(
                *canvas,
                fill,
                border,
                final(stack)@[i].0 as int,
                ny as int,
            ),
        forall|cx: int|
            lx <= cx <= rx && open_cell(*canvas, fill, border, cx, ny as int) ==> covered(
                *canvas,
                fill,
                border,
                final(stack)@,
                old(stack)@.len() as int,
                final(stack)@.len() as int,
                cx,
                ny as int,
            ),
{
    let ghost n0 = old(stack)@.len() as int;
    let mut tmp = lx;
    while tmp <= rx
        invariant
            canvas.well_formed(),
            lx <= rx < canvas.spec_width(),
            ny < canvas.spec_height(),
            lx <= tmp,
            n0 == old(stack)@.len() as int,
            forall|i: int|
                0 <= i < stack@.len() ==> (#[trigger] stack@[i]).0 < canvas.spec_width()
                    && stack@[i].1 < canvas.spec_height(),
            stack@.len() >= old(stack)@.len(),
            forall|i: int| 0 <= i < old(stack)@.len() ==> #[trigger] stack@[i] == old(stack)@[i],
            forall|i: int|
                n0 <= i < stack@.len() ==> (#[trigger] stack@[i]).1 == ny && lx <= stack@[i].0
                    <= rx && open_cell(*canvas, fill, border, stack@[i].0 as int, ny as int),
            forall|cx: int|
                lx <= cx < tmp && cx <= rx && open_cell(*canvas, fill, border, cx, ny as int)
                    ==> covered(
                    *canvas,
                    fill,
                    border,
                    stack@,
                    n0,
                    stack@.len() as int,
                    cx,
                    ny as int,
                ),
        decreases rx + 2 - tmp,
    {
        let start = tmp;
        let mut flag = false;
        while tmp <= rx && !canvas.eq_color(tmp, ny, border) && !canvas.eq_color(tmp, ny, fill)
            invariant
                canvas.well_formed(),
                rx < canvas.spec_width(),
                ny < canvas.spec_height(),
                start <= tmp,
                tmp <= rx + 1,
                flag ==> start < tmp,
                start < tmp ==> flag,
                forall|cx: int| start <= cx < tmp ==> open_cell(
                    *canvas,
                    fill,
                    border,
                    cx,
                    ny as int,
                ),
            decreases rx + 1 - tmp,
        {
            flag = true;
            tmp = tmp + 1;
        }
        let ghost run_end = tmp as int;
        if flag {
            let sx = if tmp <= rx && !canvas.eq_color(tmp, ny, border) && !canvas.eq_color(
                tmp,
                ny,
                fill,
            ) {
                tmp
            } else {
                tmp - 1
            };
            if sx <= rx {
                let ghost oldst = stack@;
                stack.push((sx, ny));
                proof {
                    // the pushed representative reaches every cell of its run
                    let hi_open = if sx as int == run_end {
                        run_end
                    } else {
                        run_end - 1
                    };
                    assert(open_cell(*canvas, fill, border, sx as int, ny as int));
                    assert forall|cx: int|
                        lx <= cx < tmp as int && cx <= rx && open_cell(
                            *canvas,
                            fill,
                            border,
                            cx,
                            ny as int,
                        ) implies covered(
                        *canvas,
                        fill,
                        border,
                        stack@,
                        n0,
                        stack@.len() as int,
                        cx,
                        ny as int,
                    ) by {
                        if cx < start {
                            // already covered before this run; the old witness survives
                            assert(covered(
                                *canvas,
                                fill,
                                border,
                                oldst,
                                n0,
                                oldst.len() as int,
                                cx,
                                ny as int,
                            ));
                            let w = choose|i: int|
                                n0 <= i < oldst.len() && i < oldst.len() && reachable(
                                    *canvas,
                                    fill,
                                    border,
                                    (#[trigger] oldst[i]).0 as int,
                                    oldst[i].1 as int,
                                    cx,
                                    ny as int,
                                );
                            assert(stack@[w] == oldst[w]);
                        } else {
                            lemma_run_reach(
                                *canvas,
                                fill,
                                border,
                                ny as int,
                                start as int,
                                hi_open,
                                sx as int,
                                cx,
                            );
                            assert(stack@[stack@.len() - 1] == (sx, ny));
                        }
                    }
                }
            }
        }
        let begin = tmp;
        while tmp <= rx && (canvas.eq_color(tmp, ny, border) || canvas.eq_color(tmp, ny, fill))
            invariant
                canvas.well_formed(),
                rx < canvas.spec_width(),
                ny < canvas.spec_height(),
                begin <= tmp <= rx + 1,
                forall|cx: int| begin <= cx < tmp ==> !open_cell(
                    *canvas,
                    fill,
                    border,
                    cx,
                    ny as int,
                ),
            decreases rx + 1 - tmp,
        {
            tmp = tmp + 1;
        }
        if tmp == begin {
            proof {
                // both inner loops refused to advance, so the window is done
                assert(tmp > rx || !open_cell(*canvas, fill, border, tmp as int, ny as int));
                assert(tmp > rx || open_cell(*canvas, fill, border, tmp as int, ny as int));
            }
            tmp = tmp + 1;
        }
        proof {
            assert(tmp > start);
        }
    }
}

/// Paints one maximal span around a seed that is neither border- nor
/// fill-colored, then pushes one representative seed per unfilled sub-span
/// of the adjacent rows; the pushed representatives reach every open cell
/// of those sub-spans.
fn fill_span(
    canvas: &mut Canvas,
    x: usize,
    y: usize,
    fill: Rgb,
    border: Rgb,
    stack: &mut Vec<(usize, usize)>,
) -> (span: (usize, usize))
    requires
        old(canvas).well_formed(),
        x < old(canvas).spec_width(),
        y < old(canvas).spec_height(),
        old(canvas).cell_at(x as int, y as int) != border,
        old(canvas).cell_at(x as int, y as int) != fill,
        forall|i: int|
            0 <= i < old(stack)@.len() ==> (#[trigger] old(stack)@[i]).0
                < old(canvas).spec_width() && old(stack)@[i].1 < old(canvas).spec_height(),
    ensures
        final(canvas).well_formed(),
        fill_relation(*old(canvas), *final(canvas), fill, border),
        span.0 <= x <= span.1 < old(canvas).spec_width(),
        forall|cx: int| span.0 <= cx <= span.1 ==> open_cell(
            *old(canvas),
            fill,
            border,
            cx,
            y as int,
        ),
        !open_cell(*old(canvas), fill, border, span.0 as int - 1, y as int),
        !open_cell(*old(canvas), fill, border, span.1 as int + 1, y as int),
        forall|cx: int|
            span.0 <= cx <= span.1 ==> #[trigger] final(canvas).cell_at(cx, y as int) == fill,
        forall|xx: int, yy: int|
            !(yy == y && span.0 <= xx <= span.1) ==> #[trigger] final(canvas).cell_at(xx, yy)
                == old(canvas).cell_at(xx, yy),
        unfilled(*final(canvas), fill) < unfilled(*old(canvas), fill),
        forall|i: int|
            0 <= i < final(stack)@.len() ==> (#[trigger] final(stack)@[i]).0
                < final(canvas).spec_width() && final(stack)@[i].1 < final(canvas).spec_height(),
        final(stack)@.len() >= old(stack)@.len(),
        forall|i: int| 0 <= i < old(stack)@.len() ==> #[trigger] final(stack)@[i] == old(
            stack,
        )@[i],
        forall|i: int|
            old(stack)@.len() <= i < final(stack)@.len() ==> ((#[trigger] final(stack)@[i]).1
                == y + 1 || final(stack)@[i].1 as int == y as int - 1) && span.0
                <= final(stack)@[i].0 <= span.1 && open_cell(
                *final(canvas),
                fill,
                border,
                final(stack)@[i].0 as int,
                final(stack)@[i].1 as int,
            ),
        forall|cx: int, ny: int|
            (ny == y + 1 || ny == y as int - 1) && span.0 <= cx <= span.1 && open_cell(
                *final(canvas),
                fill,
                border,
                cx,
                ny,
            ) ==> covered(
                *final(canvas),
                fill,
                border,
                final(stack)@,
                old(stack)@.len() as int,
                final(stack)@.len() as int,
                cx,
                ny,
            ),
{
    let rx = scan_right(canvas, x, y, fill, border);
    let lx = scan_left(canvas, x, y, fill, border);
    let ghost before = *canvas;
    let span_p1 = (lx, y);
    let span_p2 = (rx, y);
    canvas.draw_line(span_p1, span_p2, fill);
    proof {
        assert(open_cell(before, fill, border, x as int, y as int));
        assert forall|xx: int, yy: int|
            #[trigger] canvas.cell_at(xx, yy) == before.cell_at(xx, yy) || canvas.cell_at(xx, yy)
                == fill by {
            if yy == y as int && lx as int <= xx <= rx as int {
                assert(canvas.cell_at(xx, span_p2.1 as int) == fill);
            } else {
                assert(canvas.cell_at(xx, yy) == before.cell_at(xx, yy));
            }
        }
        assert forall|xx: int, yy: int|
            before.cell_at(xx, yy) == border && border != fill implies #[trigger] canvas.cell_at(
            xx,
            yy,
        ) == border by {
            if yy == y as int && lx as int <= xx <= rx as int {
                assert(open_cell(before, fill, border, xx, yy));
                assert(before.cell_at(xx, yy) != border);
            } else {
                assert(canvas.cell_at(xx, yy) == before.cell_at(xx, yy));
            }
        }
        assert((before.spec_width()) * (before.spec_height()) > 0) by (nonlinear_arith)
            requires
                before.spec_width() > 0,
                before.spec_height() > 0,
        ;
        assert((y as int) * before.spec_width() + (x as int) < before.spec_width()
            * before.spec_height()) by (nonlinear_arith)
            requires
                0 <= (x as int) < before.spec_width(),
                0 <= (y as int) < before.spec_height(),
        ;
        assert(canvas.cell_at(x as int, span_p2.1 as int) == fill);
        assert(canvas.cell_at(x as int, y as int) == fill);
        lemma_nf_strict(
            before,
            *canvas,
            fill,
            before.spec_width() * before.spec_height(),
            x as int,
            y as int,
        );
        assert forall|cx: int|
            lx <= cx <= rx implies #[trigger] canvas.cell_at(cx, y as int) == fill by {
            assert(canvas.cell_at(cx, span_p2.1 as int) == fill);
        }
    }
    let ghost n0 = stack@.len() as int;
    if y + 1 < canvas.height() {
        discover_row(canvas, lx, rx, y + 1, fill, border, stack);
    }
    let ghost mid_stack = stack@;
    let ghost n1 = stack@.len() as int;
    if y > 0 {
        discover_row(canvas, lx, rx, y - 1, fill, border, stack);
    }
    proof {
        // coverage of the upper row survives the lower row's pushes
        assert forall|cx: int, ny: int|
            (ny == y + 1 || ny == y as int - 1) && lx <= cx <= rx && open_cell(
                *canvas,
                fill,
                border,
                cx,
                ny,
            ) implies covered(
            *canvas,
            fill,
            border,
            stack@,
            n0,
            stack@.len() as int,
            cx,
            ny,
        ) by {
            if ny == y + 1 {
                assert(y + 1 < canvas.spec_height());
                assert(covered(*canvas, fill, border, mid_stack, n0, n1, cx, ny));
                let w = choose|i: int|
                    n0 <= i < n1 && i < mid_stack.len() && reachable(
                        *canvas,
                        fill,
                        border,
                        (#[trigger] mid_stack[i]).0 as int,
                        mid_stack[i].1 as int,
                        cx,
                        ny,
                    );
                assert(stack@[w] == mid_stack[w]);
            } else {
                assert(y as int - 1 >= 0);
            }
        }
    }
    (lx, rx)
}

/// Rerouting across one painted span: a path of the pre-paint canvas either
/// survives the painting, or the target is reachable from an open cell of
/// one of the two rows adjacent to the span.
proof fn lemma_reroute_span_path(
    c1: Canvas,
    c2: Canvas,
    fc: Rgb,
    border: Rgb,
    lx: int,
    y: int,
    rx: int,
    path: Seq<(int, int)>,
    sx: int,
    sy: int,
    tx: int,
    ty: int,
)
    requires
        c2.spec_width() == c1.spec_width(),
        c2.spec_height() == c1.spec_height(),
        0 <= lx <= rx < c1.spec_width(),
        0 <= y < c1.spec_height(),
        forall|cx: int| lx <= cx <= rx ==> #[trigger] c2.cell_at(cx, y) == fc,
        forall|xx: int, yy: int|
            !(yy == y && lx <= xx <= rx) ==> #[trigger] c2.cell_at(xx, yy) == c1.cell_at(xx, yy),
        !open_cell(c1, fc, border, lx - 1, y),
        !open_cell(c1, fc, border, rx + 1, y),
        is_open_path(c1, fc, border, path),
        path.first() == (sx, sy),
        path.last() == (tx, ty),
        open_cell(c2, fc, border, tx, ty),
    ensures
        reachable(c2, fc, border, sx, sy, tx, ty) || exists|cx: int, dy: int|
            (dy == 1 || dy == -1) && lx <= cx <= rx && open_cell(c2, fc, border, cx, y + dy)
                && #[trigger] reachable(c2, fc, border, cx, y + dy, tx, ty),
    decreases path.len(),
{
    if path.len() == 1 {
        assert((sx, sy) == (tx, ty));
        lemma_reach_self(c2, fc, border, tx, ty);
    } else {
        let prev = path[path.len() - 2];
        let sub = path.drop_last();
        assert(is_open_path(c1, fc, border, sub)) by {
            assert(forall|i: int| 0 <= i < sub.len() ==> #[trigger] sub[i] == path[i]);
        }
        assert(sub.first() == (sx, sy) && sub.last() == prev);
        assert(adjacent4(prev, (tx, ty)));
        if open_cell(c2, fc, border, prev.0, prev.1) {
            lemma_reroute_span_path(
                c1,
                c2,
                fc,
                border,
                lx,
                y,
                rx,
                sub,
                sx,
                sy,
                prev.0,
                prev.1,
            );
            if reachable(c2, fc, border, sx, sy, prev.0, prev.1) {
                lemma_reach_extend(c2, fc, border, sx, sy, prev.0, prev.1, tx, ty);
            } else {
                let (cx, dy) = choose|cx: int, dy: int|
                    (dy == 1 || dy == -1) && lx <= cx <= rx && open_cell(
                        c2,
                        fc,
                        border,
                        cx,
                        y + dy,
                    ) && #[trigger] reachable(c2, fc, border, cx, y + dy, prev.0, prev.1);
                lemma_reach_extend(c2, fc, border, cx, y + dy, prev.0, prev.1, tx, ty);
            }
        } else {
            // prev was painted, so it lies on the span; the next cell cannot
            // flank the span laterally (maximality), so it sits in an
            // adjacent row over the span and witnesses the crossing
            assert(open_cell(c1, fc, border, prev.0, prev.1));
            assert(prev.1 == y && lx <= prev.0 <= rx);
            assert(!(ty == y && lx <= tx <= rx)) by {
                if ty == y && lx <= tx <= rx {
                    assert(c2.cell_at(tx, ty) == fc);
                }
            }
            if ty == y {
                assert(tx == prev.0 + 1 || tx == prev.0 - 1);
                assert(tx == lx - 1 || tx == rx + 1);
                assert(open_cell(c1, fc, border, tx, ty));
                assert(false);
            } else {
                assert(tx == prev.0 && (ty == y + 1 || ty == y - 1));
                lemma_reach_self(c2, fc, border, tx, ty);
                assert((ty - y == 1 || ty - y == -1) && lx <= tx <= rx && open_cell(
                    c2,
                    fc,
                    border,
                    tx,
                    y + (ty - y),
                ) && reachable(c2, fc, border, tx, y + (ty - y), tx, ty));
            }
        }
    }
}

/// Wrapper over the span reroute for a reachability fact.
proof fn lemma_reroute_span(
    c1: Canvas,
    c2: Canvas,
    fc: Rgb,
    border: Rgb,
    lx: int,
    y: int,
    rx: int,
    sx: int,
    sy: int,
    tx: int,
    ty: int,
)
    requires
        c2.spec_width() == c1.spec_width(),
        c2.spec_height() == c1.spec_height(),
        0 <= lx <= rx < c1.spec_width(),
        0 <= y < c1.spec_height(),
        forall|cx: int| lx <= cx <= rx ==> #[trigger] c2.cell_at(cx, y) == fc,
        forall|xx: int, yy: int|
            !(yy == y && lx <= xx <= rx) ==> #[trigger] c2.cell_at(xx, yy) == c1.cell_at(xx, yy),
        !open_cell(c1, fc, border, lx - 1, y),
        !open_cell(c1, fc, border, rx + 1, y),
        reachable(c1, fc, border, sx, sy, tx, ty),
        open_cell(c2, fc, border, tx, ty),
    ensures
        reachable(c2, fc, border, sx, sy, tx, ty) || exists|cx: int, dy: int|
            (dy == 1 || dy == -1) && lx <= cx <= rx && open_cell(c2, fc, border, cx, y + dy)
                && #[trigger] reachable(c2, fc, border, cx, y + dy, tx, ty),
{
    let path = choose|path: Seq<(int, int)>|
        #[trigger] is_open_path(c1, fc, border, path) && path.first() == (sx, sy) && path.last()
            == (tx, ty);
    lemma_reroute_span_path(c1, c2, fc, border, lx, y, rx, path, sx, sy, tx, ty);
}

/// Rerouting across one pointwise paint step whose painted cells are all
/// reachable from one sub-seed: an old path either survives, or the target
/// was already reachable from that sub-seed before the step.
proof fn lemma_reroute_painted_path(
    ck: Canvas,
    cn: Canvas,
    fc: Rgb,
    border: Rgb,
    rsx: int,
    rsy: int,
    path: Seq<(int, int)>,
    sx: int,
    sy: int,
    tx: int,
    ty: int,
)
    requires
        cn.spec_width() == ck.spec_width(),
        cn.spec_height() == ck.spec_height(),
        forall|xx: int, yy: int|
            #[trigger] cn.cell_at(xx, yy) == ck.cell_at(xx, yy) || (cn.cell_at(xx, yy) == fc
                && reachable(ck, fc, border, rsx, rsy, xx, yy)),
        is_open_path(ck, fc, border, path),
        path.first() == (sx, sy),
        path.last() == (tx, ty),
        open_cell(cn, fc, border, tx, ty),
    ensures
        reachable(cn, fc, border, sx, sy, tx, ty) || reachable(ck, fc, border, rsx, rsy, tx, ty),
    decreases path.len(),
{
    if path.len() == 1 {
        assert((sx, sy) == (tx, ty));
        lemma_reach_self(cn, fc, border, tx, ty);
    } else {
        let prev = path[path.len() - 2];
        let sub = path.drop_last();
        assert(is_open_path(ck, fc, border, sub)) by {
            assert(forall|i: int| 0 <= i < sub.len() ==> #[trigger] sub[i] == path[i]);
        }
        assert(sub.first() == (sx, sy) && sub.last() == prev);
        assert(adjacent4(prev, (tx, ty)));
        assert(open_cell(ck, fc, border, tx, ty));
        if open_cell(cn, fc, border, prev.0, prev.1) {
            lemma_reroute_painted_path(
                ck,
                cn,
                fc,
                border,
                rsx,
                rsy,
                sub,
                sx,
                sy,
                prev.0,
                prev.1,
            );
            if reachable(cn, fc, border, sx, sy, prev.0, prev.1) {
                lemma_reach_extend(cn, fc, border, sx, sy, prev.0, prev.1, tx, ty);
            } else {
                lemma_reach_extend(ck, fc, border, rsx, rsy, prev.0, prev.1, tx, ty);
            }
        } else {
            assert(open_cell(ck, fc, border, prev.0, prev.1));
            assert(cn.cell_at(prev.0, prev.1) != ck.cell_at(prev.0, prev.1));
            assert(reachable(ck, fc, border, rsx, rsy, prev.0, prev.1));
            lemma_reach_extend(ck, fc, border, rsx, rsy, prev.0, prev.1, tx, ty);
        }
    }
}

/// Wrapper over the pointwise-paint reroute for a reachability fact.
proof fn lemma_reroute_painted(
    ck: Canvas,
    cn: Canvas,
    fc: Rgb,
    border: Rgb,
    rsx: int,
    rsy: int,
    sx: int,
    sy: int,
    tx: int,
    ty: int,
)
    requires
        cn.spec_width() == ck.spec_width(),
        cn.spec_height() == ck.spec_height(),
        forall|xx: int, yy: int|
            #[trigger] cn.cell_at(xx, yy) == ck.cell_at(xx, yy) || (cn.cell_at(xx, yy) == fc
                && reachable(ck, fc, border, rsx, rsy, xx, yy)),
        reachable(ck, fc, border, sx, sy, tx, ty),
        open_cell(cn, fc, border, tx, ty),
    ensures
        reachable(cn, fc, border, sx, sy, tx, ty) || reachable(ck, fc, border, rsx, rsy, tx, ty),
{
    let path = choose|path: Seq<(int, int)>|
        #[trigger] is_open_path(ck, fc, border, path) && path.first() == (sx, sy) && path.last()
            == (tx, ty);
    lemma_reroute_painted_path(ck, cn, fc, border, rsx, rsy, path, sx, sy, tx, ty);
}

/// The pointwise outcome of a seed fill: every cell 4-connected-reachable
/// from the seed through cells that are neither border- nor fill-colored
/// takes the fill color, and every other cell keeps its color.
pub open spec fn fill_result(
    pre: Canvas,
    post: Canvas,
    fc: Rgb,
    border: Rgb,
    sx: int,
    sy: int,
) -> bool {
    forall|xx: int, yy: int|
        #[trigger] post.cell_at(xx, yy) == if reachable(pre, fc, border, sx, sy, xx, yy) {
            fc
        } else {
            pre.cell_at(xx, yy)
        }
}

/// Law: the iterative and the recursive seed fill paint the identical pixel
/// set. Both turn exactly the cells reachable from the seed to the fill
/// color and leave every other cell unchanged, so two canvases filled from
/// the same state, seed and colors agree everywhere.
pub proof fn lemma_fill_variants_agree(
    pre: Canvas,
    it: Canvas,
    rec: Canvas,
    fc: Rgb,
    border: Rgb,
    sx: int,
    sy: int,
)
    requires
        fill_result(pre, it, fc, border, sx, sy),
        fill_result(pre, rec, fc, border, sx, sy),
    ensures
        forall|xx: int, yy: int| #[trigger] it.cell_at(xx, yy) == rec.cell_at(xx, yy),
{
    assert forall|xx: int, yy: int| #[trigger] it.cell_at(xx, yy) == rec.cell_at(xx, yy) by {
        assert(it.cell_at(xx, yy) == if reachable(pre, fc, border, sx, sy, xx, yy) {
            fc
        } else {
            pre.cell_at(xx, yy)
        });
        assert(rec.cell_at(xx, yy) == if reachable(pre, fc, border, sx, sy, xx, yy) {
            fc
        } else {
            pre.cell_at(xx, yy)
        });
    }
}

/// Iterative span-based seed fill: an explicit stack of seeds, each popped
/// seed painting its maximal unfilled span and seeding the adjacent rows.
/// Exactly the maximal 4-connected region reachable from the seed is
/// painted with the fill color; no other cell changes, and in particular no
/// border-colored cell is ever repainted.
pub fn filling_ordinary(x: usize, y: usize, canvas: &mut Canvas, fill: Rgb, border: Rgb)
    requires
        old(canvas).well_formed(),
        x < old(canvas).spec_width(),
        y < old(canvas).spec_height(),
    ensures
        final(canvas).well_formed(),
        fill_relation(*old(canvas), *final(canvas), fill, border),
        fill_result(*old(canvas), *final(canvas), fill, border, x as int, y as int),
{
    let mut stack: Vec<(usize, usize)> = Vec::new();
    stack.push((x, y));
    proof {
        assert(stack@[0] == (x, y));
    }
    while stack.len() > 0
        invariant
            canvas.well_formed(),
            x < canvas.spec_width(),
            y < canvas.spec_height(),
            fill_relation(*old(canvas), *canvas, fill, border),
            forall|i: int|
                0 <= i < stack@.len() ==> (#[trigger] stack@[i]).0 < canvas.spec_width()
                    && stack@[i].1 < canvas.spec_height(),
            forall|i: int|
                0 <= i < stack@.len() ==> #[trigger] stack@[i] == (x, y) || reachable(
                    *old(canvas),
                    fill,
                    border,
                    x as int,
                    y as int,
                    stack@[i].0 as int,
                    stack@[i].1 as int,
                ),
            forall|xx: int, yy: int|
                #[trigger] canvas.cell_at(xx, yy) != old(canvas).cell_at(xx, yy)
                    ==> canvas.cell_at(xx, yy) == fill && reachable(
                    *old(canvas),
                    fill,
                    border,
                    x as int,
                    y as int,
                    xx,
                    yy,
                ),
            forall|xx: int, yy: int|
                reachable(*old(canvas), fill, border, x as int, y as int, xx, yy)
                    && #[trigger] canvas.cell_at(xx, yy) != fill ==> covered(
                    *canvas,
                    fill,
                    border,
                    stack@,
                    0,
                    stack@.len() as int,
                    xx,
                    yy,
                ),
        decreases unfilled(*canvas, fill), stack@.len(),
    {
        proof {
            lemma_nf_nonneg(*canvas, fill, canvas.spec_width() * canvas.spec_height());
        }
        let ghost c1 = *canvas;
        let ghost old_stack = stack@;
        let seed = stack[stack.len() - 1];
        stack.pop();
        proof {
            assert(stack@ =~= old_stack.drop_last());
        }
        let (sx, sy) = seed;
        if canvas.eq_color(sx, sy, border) || canvas.eq_color(sx, sy, fill) {
            proof {
                // the popped cell is closed, so it cannot have been anyone's
                // frontier witness: witnesses survive the pop
                assert forall|xx: int, yy: int|
                    reachable(*old(canvas), fill, border, x as int, y as int, xx, yy)
                        && #[trigger] canvas.cell_at(xx, yy) != fill implies covered(
                    *canvas,
                    fill,
                    border,
                    stack@,
                    0,
                    stack@.len() as int,
                    xx,
                    yy,
                ) by {
                    assert(covered(
                        *canvas,
                        fill,
                        border,
                        old_stack,
                        0,
                        old_stack.len() as int,
                        xx,
                        yy,
                    ));
                    let w = choose|i: int|
                        0 <= i < old_stack.len() as int && i < old_stack.len() && reachable(
                            *canvas,
                            fill,
                            border,
                            (#[trigger] old_stack[i]).0 as int,
                            old_stack[i].1 as int,
                            xx,
                            yy,
                        );
                    if w == old_stack.len() - 1 {
                        let p = choose|path: Seq<(int, int)>|
                            #[trigger] is_open_path(*canvas, fill, border, path) && path.first()
                                == (sx as int, sy as int) && path.last() == (xx, yy);
                        assert(open_cell(*canvas, fill, border, p[0].0, p[0].1));
                        assert(false);
                    } else {
                        assert(stack@[w] == old_stack[w]);
                    }
                }
            }
        } else {
            let span = fill_span(canvas, sx, sy, fill, border, &mut stack);
            proof {
                lemma_nf_nonneg(*canvas, fill, canvas.spec_width() * canvas.spec_height());
                lemma_fill_relation_trans(*old(canvas), c1, *canvas, fill, border);
                let c0 = *old(canvas);
                let c2 = *canvas;
                let lxi = span.0 as int;
                let rxi = span.1 as int;
                let yi = sy as int;
                let popped_len = old_stack.len() as int - 1;
                // the popped seed was open before this sitting of the loop,
                // hence open in the original canvas and reachable from the
                // original seed
                assert(c1.cell_at(sx as int, sy as int) == c0.cell_at(sx as int, sy as int));
                assert(open_cell(c0, fill, border, sx as int, sy as int));
                assert(reachable(c0, fill, border, x as int, y as int, sx as int, sy as int))
                    by {
                    if old_stack[old_stack.len() - 1] == (x, y) {
                        lemma_reach_self(c0, fill, border, sx as int, sy as int);
                    }
                }
                // every span cell is open in the original canvas and
                // reachable from the original seed through its row
                assert forall|cx: int| lxi <= cx <= rxi implies open_cell(
                    c0,
                    fill,
                    border,
                    cx,
                    yi,
                ) by {
                    assert(open_cell(c1, fill, border, cx, yi));
                    assert(c1.cell_at(cx, yi) == c0.cell_at(cx, yi));
                }
                assert forall|cx: int| lxi <= cx <= rxi implies reachable(
                    c0,
                    fill,
                    border,
                    x as int,
                    y as int,
                    cx,
                    yi,
                ) by {
                    lemma_run_reach(c0, fill, border, yi, lxi, rxi, sx as int, cx);
                    lemma_reach_trans(
                        c0,
                        fill,
                        border,
                        x as int,
                        y as int,
                        sx as int,
                        sy as int,
                        cx,
                        yi,
                    );
                }
                // soundness: the new changes are exactly the span
                assert forall|xx: int, yy: int|
                    #[trigger] c2.cell_at(xx, yy) != c0.cell_at(xx, yy) implies c2.cell_at(
                    xx,
                    yy,
                ) == fill && reachable(c0, fill, border, x as int, y as int, xx, yy) by {
                    if !(yy == yi && lxi <= xx <= rxi) {
                        assert(c2.cell_at(xx, yy) == c1.cell_at(xx, yy));
                    }
                }
                // stack entries: survivors keep their certificate, pushes
                // are adjacent to span cells
                assert forall|i: int|
                    0 <= i < stack@.len() implies #[trigger] stack@[i] == (x, y) || reachable(
                    c0,
                    fill,
                    border,
                    x as int,
                    y as int,
                    stack@[i].0 as int,
                    stack@[i].1 as int,
                ) by {
                    if i < popped_len {
                        assert(stack@[i] == old_stack[i]);
                    } else {
                        let e = stack@[i];
                        assert(e.1 == sy + 1 || e.1 as int == yi - 1);
                        assert(lxi <= e.0 <= rxi);
                        assert(open_cell(c2, fill, border, e.0 as int, e.1 as int));
                        assert(c2.cell_at(e.0 as int, e.1 as int) == c0.cell_at(
                            e.0 as int,
                            e.1 as int,
                        ));
                        assert(open_cell(c0, fill, border, e.0 as int, e.1 as int));
                        assert(adjacent4((e.0 as int, yi), (e.0 as int, e.1 as int)));
                        lemma_reach_extend(
                            c0,
                            fill,
                            border,
                            x as int,
                            y as int,
                            e.0 as int,
                            yi,
                            e.0 as int,
                            e.1 as int,
                        );
                    }
                }
                // frontier: reroute every witness across the painted span
                assert forall|xx: int, yy: int|
                    reachable(c0, fill, border, x as int, y as int, xx, yy)
                        && #[trigger] c2.cell_at(xx, yy) != fill implies covered(
                    c2,
                    fill,
                    border,
                    stack@,
                    0,
                    stack@.len() as int,
                    xx,
                    yy,
                ) by {
                    assert(open_cell(c0, fill, border, xx, yy));
                    assert(c2.cell_at(xx, yy) == c0.cell_at(xx, yy));
                    assert(open_cell(c2, fill, border, xx, yy));
                    assert(!(yy == yi && lxi <= xx <= rxi));
                    assert(c1.cell_at(xx, yy) == c2.cell_at(xx, yy));
                    assert(covered(c1, fill, border, old_stack, 0, old_stack.len() as int, xx, yy));
                    let w = choose|i: int|
                        0 <= i < old_stack.len() as int && i < old_stack.len() && reachable(
                            c1,
                            fill,
                            border,
                            (#[trigger] old_stack[i]).0 as int,
                            old_stack[i].1 as int,
                            xx,
                            yy,
                        );
                    lemma_reroute_span(
                        c1,
                        c2,
                        fill,
                        border,
                        lxi,
                        yi,
                        rxi,
                        old_stack[w].0 as int,
                        old_stack[w].1 as int,
                        xx,
                        yy,
                    );
                    if reachable(
                        c2,
                        fill,
                        border,
                        old_stack[w].0 as int,
                        old_stack[w].1 as int,
                        xx,
                        yy,
                    ) {
                        if w == old_stack.len() - 1 {
                            let p = choose|path: Seq<(int, int)>|
                                #[trigger] is_open_path(c2, fill, border, path) && path.first()
                                    == (sx as int, sy as int) && path.last() == (xx, yy);
                            assert(open_cell(c2, fill, border, p[0].0, p[0].1));
                            assert(c2.cell_at(sx as int, sy as int) == fill);
                            assert(false);
                        } else {
                            assert(stack@[w] == old_stack[w]);
                        }
                    } else {
                        let (cx, dy) = choose|cx: int, dy: int|
                            (dy == 1 || dy == -1) && lxi <= cx <= rxi && open_cell(
                                c2,
                                fill,
                                border,
                                cx,
                                yi + dy,
                            ) && #[trigger] reachable(c2, fill, border, cx, yi + dy, xx, yy);
                        assert(covered(
                            c2,
                            fill,
                            border,
                            stack@,
                            popped_len,
                            stack@.len() as int,
                            cx,
                            yi + dy,
                        ));
                        let u = choose|i: int|
                            popped_len <= i < stack@.len() as int && i < stack@.len()
                                && reachable(
                                c2,
                                fill,
                                border,
                                (#[trigger] stack@[i]).0 as int,
                                stack@[i].1 as int,
                                cx,
                                yi + dy,
                            );
                        lemma_reach_trans(
                            c2,
                            fill,
                            border,
                            stack@[u].0 as int,
                            stack@[u].1 as int,
                            cx,
                            yi + dy,
                            xx,
                            yy,
                        );
                    }
                }
            }
        }
    }
    proof {
        assert forall|xx: int, yy: int|
            #[trigger] canvas.cell_at(xx, yy) == if reachable(
                *old(canvas),
                fill,
                border,
                x as int,
                y as int,
                xx,
                yy,
            ) {
                fill
            } else {
                old(canvas).cell_at(xx, yy)
            } by {
            if reachable(*old(canvas), fill, border, x as int, y as int, xx, yy) {
                if canvas.cell_at(xx, yy) != fill {
                    assert(covered(*canvas, fill, border, stack@, 0, stack@.len() as int, xx, yy));
                    assert(false);
                }
            } else {
                if canvas.cell_at(xx, yy) != old(canvas).cell_at(xx, yy) {
                    assert(false);
                }
            }
        }
    }
}

/// The fill safety relation composes.
proof fn lemma_fill_relation_trans(a: Canvas, b: Canvas, c: Canvas, fc: Rgb, border: Rgb)
    requires
        fill_relation(a, b, fc, border),
        fill_relation(b, c, fc, border),
    ensures
        fill_relation(a, c, fc, border),
{
    assert forall|x: int, y: int|
        #[trigger] c.cell_at(x, y) == a.cell_at(x, y) || c.cell_at(x, y) == fc by {
        assert(b.cell_at(x, y) == a.cell_at(x, y) || b.cell_at(x, y) == fc);
        assert(c.cell_at(x, y) == b.cell_at(x, y) || c.cell_at(x, y) == fc);
    }
    assert forall|x: int, y: int|
        a.cell_at(x, y) == border && border != fc implies #[trigger] c.cell_at(x, y)
            == border by {
        assert(b.cell_at(x, y) == border);
        assert(c.cell_at(x, y) == border);
    }
}

/// Recursive span-based seed fill: the same span logic as the iterative
/// variant, expressed by direct recursion; it terminates because each
/// recursive step paints at least one previously unfilled cell. Exactly the
/// maximal 4-connected region reachable from the seed is painted with the
/// fill color; no other cell changes.
pub fn fill_recursive(x: usize, y: usize, canvas: &mut Canvas, fill: Rgb, border: Rgb)
    requires
        old(canvas).well_formed(),
        x < old(canvas).spec_width(),
        y < old(canvas).spec_height(),
    ensures
        final(canvas).well_formed(),
        fill_relation(*old(canvas), *final(canvas), fill, border),
        fill_result(*old(canvas), *final(canvas), fill, border, x as int, y as int),
        unfilled(*final(canvas), fill) <= unfilled(*old(canvas), fill),
    decreases unfilled(*old(canvas), fill),
{
    if canvas.eq_color(x, y, border) || canvas.eq_color(x, y, fill) {
        proof {
            lemma_nf_mono(*canvas, *canvas, fill, canvas.spec_width() * canvas.spec_height());
            // a closed seed reaches nothing: a path would have to start there
            assert forall|xx: int, yy: int|
                #[trigger] canvas.cell_at(xx, yy) == if reachable(
                    *old(canvas),
                    fill,
                    border,
                    x as int,
                    y as int,
                    xx,
                    yy,
                ) {
                    fill
                } else {
                    old(canvas).cell_at(xx, yy)
                } by {
                if reachable(*old(canvas), fill, border, x as int, y as int, xx, yy) {
                    let p = choose|path: Seq<(int, int)>|
                        #[trigger] is_open_path(*old(canvas), fill, border, path) && path.first()
                            == (x as int, y as int) && path.last() == (xx, yy);
                    assert(open_cell(*old(canvas), fill, border, p[0].0, p[0].1));
                    assert(false);
                }
            }
        }
        return ;
    }
    let mut seeds: Vec<(usize, usize)> = Vec::new();
    let span = fill_span(canvas, x, y, fill, border, &mut seeds);
    let ghost c0 = *old(canvas);
    let ghost c1 = *canvas;
    proof {
        let lxi = span.0 as int;
        let rxi = span.1 as int;
        let yi = y as int;
        assert(open_cell(c0, fill, border, x as int, y as int));
        lemma_reach_self(c0, fill, border, x as int, y as int);
        assert forall|cx: int| lxi <= cx <= rxi implies open_cell(c0, fill, border, cx, yi) by {
            assert(open_cell(c0, fill, border, cx, yi));
        }
        // the discovered representatives are reachable from the seed
        assert forall|j: int|
            0 <= j < seeds@.len() implies reachable(
            c0,
            fill,
            border,
            x as int,
            y as int,
            (#[trigger] seeds@[j]).0 as int,
            seeds@[j].1 as int,
        ) by {
            let e = seeds@[j];
            assert(open_cell(c1, fill, border, e.0 as int, e.1 as int));
            assert(c1.cell_at(e.0 as int, e.1 as int) == c0.cell_at(e.0 as int, e.1 as int));
            assert(open_cell(c0, fill, border, e.0 as int, e.1 as int));
            assert(adjacent4((e.0 as int, yi), (e.0 as int, e.1 as int)));
            lemma_run_reach(c0, fill, border, yi, lxi, rxi, x as int, e.0 as int);
            lemma_reach_extend(
                c0,
                fill,
                border,
                x as int,
                y as int,
                e.0 as int,
                yi,
                e.0 as int,
                e.1 as int,
            );
        }
        // the initial frontier: any reachable unpainted cell is reachable
        // from a discovered representative
        assert forall|xx: int, yy: int|
            reachable(c0, fill, border, x as int, y as int, xx, yy) && #[trigger] c1.cell_at(
                xx,
                yy,
            ) != fill implies covered(c1, fill, border, seeds@, 0, seeds@.len() as int, xx, yy) by {
            assert(open_cell(c0, fill, border, xx, yy));
            assert(!(yy == yi && lxi <= xx <= rxi));
            assert(c1.cell_at(xx, yy) == c0.cell_at(xx, yy));
            assert(open_cell(c1, fill, border, xx, yy));
            lemma_reroute_span(c0, c1, fill, border, lxi, yi, rxi, x as int, y as int, xx, yy);
            if reachable(c1, fill, border, x as int, y as int, xx, yy) {
                let p = choose|path: Seq<(int, int)>|
                    #[trigger] is_open_path(c1, fill, border, path) && path.first() == (
                    x as int,
                    y as int,
                ) && path.last() == (xx, yy);
                assert(open_cell(c1, fill, border, p[0].0, p[0].1));
                assert(c1.cell_at(x as int, y as int) == fill);
                assert(false);
            } else {
                let (cx, dy) = choose|cx: int, dy: int|
                    (dy == 1 || dy == -1) && lxi <= cx <= rxi && open_cell(
                        c1,
                        fill,
                        border,
                        cx,
                        yi + dy,
                    ) && #[trigger] reachable(c1, fill, border, cx, yi + dy, xx, yy);
                assert(covered(c1, fill, border, seeds@, 0, seeds@.len() as int, cx, yi + dy));
                let u = choose|i: int|
                    0 <= i < seeds@.len() as int && i < seeds@.len() && reachable(
                        c1,
                        fill,
                        border,
                        (#[trigger] seeds@[i]).0 as int,
                        seeds@[i].1 as int,
                        cx,
                        yi + dy,
                    );
                lemma_reach_trans(
                    c1,
                    fill,
                    border,
                    seeds@[u].0 as int,
                    seeds@[u].1 as int,
                    cx,
                    yi + dy,
                    xx,
                    yy,
                );
            }
        }
        // new changes are span cells: painted and reachable
        assert forall|xx: int, yy: int|
            #[trigger] c1.cell_at(xx, yy) != c0.cell_at(xx, yy) implies c1.cell_at(xx, yy)
                == fill && reachable(c0, fill, border, x as int, y as int, xx, yy) by {
            if yy == yi && lxi <= xx <= rxi {
                assert(c1.cell_at(xx, yi) == fill);
                lemma_run_reach(c0, fill, border, yi, lxi, rxi, x as int, xx);
            } else {
                assert(c1.cell_at(xx, yy) == c0.cell_at(xx, yy));
            }
        }
    }
    let mut k: usize = 0;
    while k < seeds.len()
        invariant
            0 <= k <= seeds@.len(),
            canvas.well_formed(),
            canvas.spec_width() == c0.spec_width(),
            canvas.spec_height() == c0.spec_height(),
            c0 == *old(canvas),
            x < c0.spec_width(),
            y < c0.spec_height(),
            fill_relation(c0, *canvas, fill, border),
            unfilled(*canvas, fill) <= unfilled(c1, fill),
            unfilled(c1, fill) < unfilled(c0, fill),
            forall|i: int|
                0 <= i < seeds@.len() ==> (#[trigger] seeds@[i]).0 < canvas.spec_width()
                    && seeds@[i].1 < canvas.spec_height(),
            forall|j: int|
                0 <= j < seeds@.len() ==> reachable(
                    c0,
                    fill,
                    border,
                    x as int,
                    y as int,
                    (#[trigger] seeds@[j]).0 as int,
                    seeds@[j].1 as int,
                ),
            forall|xx: int, yy: int|
                #[trigger] canvas.cell_at(xx, yy) != c0.cell_at(xx, yy) ==> canvas.cell_at(xx, yy)
                    == fill && reachable(c0, fill, border, x as int, y as int, xx, yy),
            forall|xx: int, yy: int|
                reachable(c0, fill, border, x as int, y as int, xx, yy)
                    && #[trigger] canvas.cell_at(xx, yy) != fill ==> covered(
                    *canvas,
                    fill,
                    border,
                    seeds@,
                    k as int,
                    seeds@.len() as int,
                    xx,
                    yy,
                ),
        decreases seeds@.len() - k,
    {
        let (nx, ny) = seeds[k];
        let ghost ck = *canvas;
        proof {
            lemma_nf_nonneg(*canvas, fill, canvas.spec_width() * canvas.spec_height());
            lemma_nf_nonneg(c0, fill, c0.spec_width() * c0.spec_height());
        }
        fill_recursive(nx, ny, canvas, fill, border);
        proof {
            let cn = *canvas;
            lemma_fill_relation_trans(c0, ck, cn, fill, border);
            // the recursive call's outcome, as a paint step over ck
            assert forall|xx: int, yy: int|
                #[trigger] cn.cell_at(xx, yy) == ck.cell_at(xx, yy) || (cn.cell_at(xx, yy)
                    == fill && reachable(ck, fill, border, nx as int, ny as int, xx, yy))
                 by {
                assert(cn.cell_at(xx, yy) == if reachable(
                    ck,
                    fill,
                    border,
                    nx as int,
                    ny as int,
                    xx,
                    yy,
                ) {
                    fill
                } else {
                    ck.cell_at(xx, yy)
                });
            }
            // soundness
            assert forall|xx: int, yy: int|
                #[trigger] cn.cell_at(xx, yy) != c0.cell_at(xx, yy) implies cn.cell_at(xx, yy)
                    == fill && reachable(c0, fill, border, x as int, y as int, xx, yy) by {
                if cn.cell_at(xx, yy) != ck.cell_at(xx, yy) {
                    assert(reachable(ck, fill, border, nx as int, ny as int, xx, yy));
                    lemma_reach_mono(c0, ck, fill, border, nx as int, ny as int, xx, yy);
                    lemma_reach_trans(
                        c0,
                        fill,
                        border,
                        x as int,
                        y as int,
                        nx as int,
                        ny as int,
                        xx,
                        yy,
                    );
                }
            }
            // frontier over the remaining representatives
            assert forall|xx: int, yy: int|
                reachable(c0, fill, border, x as int, y as int, xx, yy)
                    && #[trigger] cn.cell_at(xx, yy) != fill implies covered(
                cn,
                fill,
                border,
                seeds@,
                k as int + 1,
                seeds@.len() as int,
                xx,
                yy,
            ) by {
                assert(ck.cell_at(xx, yy) == cn.cell_at(xx, yy));
                assert(ck.cell_at(xx, yy) != fill);
                assert(covered(ck, fill, border, seeds@, k as int, seeds@.len() as int, xx, yy));
                let w = choose|i: int|
                    k as int <= i < seeds@.len() as int && i < seeds@.len() && reachable(
                        ck,
                        fill,
                        border,
                        (#[trigger] seeds@[i]).0 as int,
                        seeds@[i].1 as int,
                        xx,
                        yy,
                    );
                assert(open_cell(c0, fill, border, xx, yy));
                assert(cn.cell_at(xx, yy) == c0.cell_at(xx, yy));
                assert(open_cell(cn, fill, border, xx, yy));
                if w == k as int {
                    assert(reachable(ck, fill, border, nx as int, ny as int, xx, yy));
                    assert(cn.cell_at(xx, yy) == fill);
                    assert(false);
                } else {
                    lemma_reroute_painted(
                        ck,
                        cn,
                        fill,
                        border,
                        nx as int,
                        ny as int,
                        seeds@[w].0 as int,
                        seeds@[w].1 as int,
                        xx,
                        yy,
                    );
                    if !reachable(
                        cn,
                        fill,
                        border,
                        seeds@[w].0 as int,
                        seeds@[w].1 as int,
                        xx,
                        yy,
                    ) {
                        assert(reachable(ck, fill, border, nx as int, ny as int, xx, yy));
                        assert(cn.cell_at(xx, yy) == fill);
                        assert(false);
                    }
                }
            }
        }
        k = k + 1;
    }
    proof {
        lemma_nf_mono(c0, *canvas, fill, canvas.spec_width() * canvas.spec_height());
        assert forall|xx: int, yy: int|
            #[trigger] canvas.cell_at(xx, yy) == if reachable(
                c0,
                fill,
                border,
                x as int,
                y as int,
                xx,
                yy,
            ) {
                fill
            } else {
                c0.cell_at(xx, yy)
            } by {
            if reachable(c0, fill, border, x as int, y as int, xx, yy) {
                if canvas.cell_at(xx, yy) != fill {
                    assert(covered(
                        *canvas,
                        fill,
                        border,
                        seeds@,
                        seeds@.len() as int,
                        seeds@.len() as int,
                        xx,
                        yy,
                    ));
                    assert(false);
                }
            } else {
                if canvas.cell_at(xx, yy) != c0.cell_at(xx, yy) {
                    assert(false);
                }
            }
        }
    }
}

} // verus!
