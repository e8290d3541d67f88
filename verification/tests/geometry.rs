use rastergeo::clip_poly;
use rastergeo::clip_rect;
use rastergeo::clip_sh;
use rastergeo::conics::Circle;
use rastergeo::conics::Ellipse;
use rastergeo::flood;
use rastergeo::geom::GeomError;
use rastergeo::geom::Point;
use rastergeo::horizon::Horizont;
use rastergeo::lines;
use rastergeo::scanline;
use rastergeo::windows::ErrorWindow;
use rastergeo::windows::HistoWindow;

fn pt(x: i64, y: i64) -> Point {
    Point { x, y }
}

#[test]
fn dda_degenerate_single_pixel() {
    let res = lines::dda(&[pt(3, -7), pt(3, -7)]);
    assert_eq!(res.len(), 1);
    assert_eq!((res[0].x, res[0].y), (3, -7));
}

#[test]
fn dda_diagonal() {
    let res = lines::dda(&[pt(0, 0), pt(4, 4)]);
    assert_eq!(res.len(), 4);
    for (i, p) in res.iter().enumerate() {
        assert_eq!((p.x, p.y), (i as i64, i as i64));
    }
}

#[test]
fn bresenham_degenerate_single_pixel() {
    for f in [lines::bresenham_int, lines::bresenham_float] {
        let res = f(&[pt(-2, 5), pt(-2, 5)]);
        assert_eq!(res.len(), 1);
        assert_eq!((res[0].x, res[0].y), (-2, 5));
    }
}

#[test]
fn bresenham_count_and_connectivity() {
    let cases = [
        (pt(0, 0), pt(10, 3)),
        (pt(0, 0), pt(3, 10)),
        (pt(5, 5), pt(-7, 2)),
        (pt(1, 1), pt(1, 9)),
        (pt(2, 3), pt(9, 3)),
    ];
    for (a, b) in cases {
        let res = lines::bresenham_int(&[a, b]);
        let expected = (b.x - a.x).abs().max((b.y - a.y).abs());
        assert_eq!(res.len() as i64, expected);
        for w in res.windows(2) {
            let dx = (w[1].x - w[0].x).abs();
            let dy = (w[1].y - w[0].y).abs();
            assert_eq!(dx.max(dy), 1);
        }
    }
}

#[test]
fn bresenham_variants_agree() {
    let cases = [(pt(0, 0), pt(10, 3)), (pt(-3, 7), pt(6, -2)), (pt(0, 0), pt(2, 8))];
    for (a, b) in cases {
        let r1 = lines::bresenham_int(&[a, b]);
        let r2 = lines::bresenham_float(&[a, b]);
        assert_eq!(r1.len(), r2.len());
        for (p, q) in r1.iter().zip(r2.iter()) {
            assert_eq!((p.x, p.y), (q.x, q.y));
        }
    }
}

#[test]
fn wu_degenerate_single_pixel() {
    let res = lines::wu(&[pt(1, 2), pt(1, 2)]);
    assert_eq!(res.len(), 1);
    assert_eq!((res[0].0.x, res[0].0.y, res[0].1), (1, 2, 0));
}

#[test]
fn wu_coverage_conservation() {
    let res = lines::wu(&[pt(0, 0), pt(7, 3)]);
    // both endpoints first, at full intensity
    assert_eq!(res[0].1, 255);
    assert_eq!(res[1].1, 255);
    // interior pixels come in complementary pairs summing to 255
    let interior = &res[2..];
    assert_eq!(interior.len() % 2, 0);
    for pair in interior.chunks(2) {
        assert_eq!(pair[0].1 as u32 + pair[1].1 as u32, 255);
        assert_eq!(pair[0].0.x, pair[1].0.x);
        assert_eq!(pair[0].0.y + 1, pair[1].0.y);
    }
}

#[test]
fn jaggiesless_degenerate_and_length() {
    let res = lines::bresenham_jaggiesless(&[pt(4, 4), pt(4, 4)]);
    assert_eq!(res.len(), 1);
    assert_eq!(res[0].1, 0);
    let res2 = lines::bresenham_jaggiesless(&[pt(0, 0), pt(8, 2)]);
    assert_eq!(res2.len(), 8);
    for (p, i) in &res2 {
        assert!(*i <= 255);
        assert!(p.x >= 0 && p.x <= 8 && p.y >= 0 && p.y <= 2);
    }
}

#[test]
fn count_steps_diagonal_moves() {
    let pts = lines::dda(&[pt(0, 0), pt(4, 4)]);
    let n = lines::count_steps(&pts);
    assert_eq!(n, 3);
}

#[test]
fn circle_invalid_radius() {
    let c = Circle::new(pt(0, 0), 0);
    assert_eq!(c.draw_canonic(), Err(GeomError::InvalidRadius));
    assert_eq!(c.draw_bresenham(), Err(GeomError::InvalidRadius));
    assert_eq!(c.draw_midpoint(), Err(GeomError::InvalidRadius));
}

#[test]
fn circle_canonic_accuracy_and_symmetry() {
    let c = Circle::new(pt(0, 0), 10);
    let pixels = c.draw_canonic().unwrap();
    assert!(!pixels.is_empty());
    for p in &pixels {
        let d = p.x * p.x + p.y * p.y - 100;
        assert!(d.abs() <= 10, "pixel ({}, {}) too far from circle", p.x, p.y);
    }
    // the emitted set is symmetric under sign flips and transposition
    let set: std::collections::HashSet<(i64, i64)> =
        pixels.iter().map(|p| (p.x, p.y)).collect();
    for &(x, y) in &set {
        for v in [(-x, y), (x, -y), (-x, -y), (y, x), (-y, x), (y, -x), (-y, -x)] {
            assert!(set.contains(&v), "missing mirror {:?} of ({}, {})", v, x, y);
        }
    }
}

#[test]
fn circle_bresenham_and_midpoint_close_to_circle() {
    for pixels in [
        Circle::new(pt(5, -3), 8).draw_bresenham().unwrap(),
        Circle::new(pt(5, -3), 8).draw_midpoint().unwrap(),
    ] {
        assert!(!pixels.is_empty());
        for p in &pixels {
            let dx = p.x - 5;
            let dy = p.y + 3;
            assert!((dx * dx + dy * dy - 64).abs() <= 24);
        }
    }
}

#[test]
fn ellipse_invalid_radius() {
    let e = Ellipse::new(pt(0, 0), (0, 5));
    assert_eq!(e.draw_canonic(), Err(GeomError::InvalidRadius));
    assert_eq!(e.draw_bresenham(), Err(GeomError::InvalidRadius));
    assert_eq!(e.draw_midpoint(), Err(GeomError::InvalidRadius));
}

#[test]
fn ellipse_rasterizers_stay_near_boundary() {
    let (a, b) = (10i64, 6i64);
    for pixels in [
        Ellipse::new(pt(0, 0), (a, b)).draw_canonic().unwrap(),
        Ellipse::new(pt(0, 0), (a, b)).draw_bresenham().unwrap(),
        Ellipse::new(pt(0, 0), (a, b)).draw_midpoint().unwrap(),
    ] {
        assert!(!pixels.is_empty());
        for p in &pixels {
            // b^2 x^2 + a^2 y^2 should be near a^2 b^2
            let v = b * b * p.x * p.x + a * a * p.y * p.y - a * a * b * b;
            assert!(v.abs() <= 2 * (a * a * b + b * b * a), "pixel ({}, {})", p.x, p.y);
        }
    }
}

#[test]
fn ellipse_large_radius_no_overflow() {
    // the decision variable exceeds 32 bits for radii in the tens of
    // thousands; the wide accumulator must keep the curve exact
    let e = Ellipse::new(pt(0, 0), (20_000, 10_000));
    let pixels = e.draw_bresenham().unwrap();
    assert!(pixels.contains(&pt(0, 10_000)));
    assert!(pixels.contains(&pt(20_000, 0)));
    for p in &pixels {
        let v = (p.x as i128).pow(2) * (10_000i128).pow(2)
            + (p.y as i128).pow(2) * (20_000i128).pow(2)
            - (20_000i128).pow(2) * (10_000i128).pow(2);
        assert!(v.abs() <= 4 * 20_000 * (10_000i128).pow(2));
    }
}

#[test]
fn scanline_rectangle_spans() {
    let mut canvas = scanline::Canvas::new();
    canvas.add_point(pt(0, 0));
    canvas.add_point(pt(10, 0));
    canvas.add_point(pt(10, 5));
    canvas.add_point(pt(0, 5));
    canvas.close().unwrap();
    canvas.filling();
    let spans = canvas.filler();
    // one span (0,10) per scanline strictly above the bottom edge, top first
    assert_eq!(spans.len(), 5);
    for (i, (p1, p2)) in spans.iter().enumerate() {
        let y = 5 - i as i64;
        assert_eq!((p1.x, p1.y), (0, y));
        assert_eq!((p2.x, p2.y), (10, y));
    }
}

#[test]
fn scanline_triangle_spans() {
    let mut canvas = scanline::Canvas::new();
    canvas.add_point(pt(0, 0));
    canvas.add_point(pt(8, 0));
    canvas.add_point(pt(0, 8));
    canvas.close().unwrap();
    canvas.filling();
    let spans = canvas.filler();
    assert_eq!(spans.len(), 8);
    for (p1, p2) in spans.iter() {
        assert_eq!(p1.x, 0);
        assert_eq!(p2.x, 8 - p1.y);
    }
}

#[test]
fn scanline_close_needs_three_vertices() {
    let mut canvas = scanline::Canvas::new();
    canvas.add_point(pt(0, 0));
    canvas.add_point(pt(5, 0));
    assert!(canvas.close().is_none());
    canvas.add_point(pt(5, 5));
    assert!(canvas.close().is_some());
}

fn bordered_box(canvas: &mut flood::Canvas, border: flood::Rgb) {
    // a 10x10 box with corners (2,2)-(11,11), drawn cell by cell
    for i in 2..=11usize {
        canvas.draw_line((i, 2), (i, 2), border);
        canvas.draw_line((i, 11), (i, 11), border);
        canvas.draw_line((2, i), (2, i), border);
        canvas.draw_line((11, i), (11, i), border);
    }
}

#[test]
fn flood_fill_stays_inside_borders() {
    let bg = (255, 255, 255);
    let border = (0, 0, 0);
    let fill = (200, 40, 40);
    let mut canvas = flood::Canvas::new(16, 16, bg);
    bordered_box(&mut canvas, border);
    flood::filling_ordinary(6, 6, &mut canvas, fill, border);
    for x in 3..=10usize {
        for y in 3..=10usize {
            assert_eq!(canvas.at(x, y), fill);
        }
    }
    for i in 2..=11usize {
        assert_eq!(canvas.at(i, 2), border);
        assert_eq!(canvas.at(i, 11), border);
        assert_eq!(canvas.at(2, i), border);
        assert_eq!(canvas.at(11, i), border);
    }
    assert_eq!(canvas.at(0, 0), bg);
    assert_eq!(canvas.at(13, 13), bg);
}

#[test]
fn flood_fill_variants_agree() {
    let bg = (255, 255, 255);
    let border = (0, 0, 0);
    let fill = (10, 200, 10);
    let mut a = flood::Canvas::new(16, 16, bg);
    let mut b = flood::Canvas::new(16, 16, bg);
    bordered_box(&mut a, border);
    bordered_box(&mut b, border);
    flood::filling_ordinary(5, 7, &mut a, fill, border);
    flood::fill_recursive(5, 7, &mut b, fill, border);
    for x in 0..16usize {
        for y in 0..16usize {
            assert_eq!(a.at(x, y), b.at(x, y), "mismatch at ({}, {})", x, y);
        }
    }
}

#[test]
fn flood_fill_on_border_seed_changes_nothing_inside() {
    let bg = (255, 255, 255);
    let border = (0, 0, 0);
    let fill = (1, 2, 3);
    let mut canvas = flood::Canvas::new(16, 16, bg);
    bordered_box(&mut canvas, border);
    flood::filling_ordinary(2, 2, &mut canvas, fill, border);
    // the seed sat on the border, so the border ring must be intact
    for i in 2..=11usize {
        assert_eq!(canvas.at(i, 2), border);
    }
    assert_eq!(canvas.at(6, 6), bg);
}

#[test]
fn cohen_sutherland_inside_unchanged() {
    let rect = (pt(0, 0), pt(10, 10));
    let lines_in = vec![(pt(2, 2), pt(8, 7))];
    let res = clip_rect::cut(rect, &lines_in);
    assert_eq!(res.len(), 1);
    assert_eq!(res[0], (pt(2, 2), pt(8, 7)));
}

#[test]
fn cohen_sutherland_same_side_rejected() {
    let rect = (pt(0, 0), pt(10, 10));
    let lines_out = vec![
        (pt(-5, 2), pt(-1, 9)),
        (pt(12, 0), pt(20, 10)),
        (pt(0, 12), pt(10, 20)),
    ];
    let res = clip_rect::cut(rect, &lines_out);
    assert!(res.is_empty());
}

#[test]
fn cohen_sutherland_clips_crossing_segment() {
    let rect = (pt(0, 0), pt(10, 10));
    let segs = vec![(pt(-5, 5), pt(15, 5))];
    let res = clip_rect::cut(rect, &segs);
    assert_eq!(res.len(), 1);
    let (a, b) = res[0];
    assert_eq!((a.x, a.y), (0, 5));
    assert_eq!((b.x, b.y), (10, 5));
}

#[test]
fn half_plane_clip_inside_and_outside() {
    // closed square ring, as the callers hand it over
    let ring = vec![pt(0, 0), pt(10, 0), pt(10, 10), pt(0, 10), pt(0, 0)];
    let segs = vec![
        (pt(2, 5), pt(8, 5)),
        (pt(-5, 5), pt(15, 5)),
        (pt(20, 20), pt(30, 20)),
    ];
    let res = clip_poly::cut(&ring, &segs).unwrap();
    assert_eq!(res.len(), 2);
    assert_eq!(res[0], (pt(2, 5), pt(8, 5)));
    assert_eq!(res[1], (pt(0, 5), pt(10, 5)));
}

#[test]
fn half_plane_clip_rejects_short_ring() {
    let ring = vec![pt(0, 0), pt(10, 0)];
    let segs = vec![(pt(2, 5), pt(8, 5))];
    assert!(clip_poly::cut(&ring, &segs).is_none());
}

#[test]
fn sutherland_hodgman_square_against_itself() {
    let square = vec![pt(0, 0), pt(1, 0), pt(1, 1), pt(0, 1)];
    let res = clip_sh::cut(&square, &square).unwrap();
    // the same square, closed back to its first vertex
    assert_eq!(res.len(), 5);
    assert_eq!(res[0], res[4]);
    let body: Vec<(i64, i64)> = res[..4].iter().map(|p| (p.x, p.y)).collect();
    for v in [(0, 0), (1, 0), (1, 1), (0, 1)] {
        assert!(body.contains(&v));
    }
}

#[test]
fn sutherland_hodgman_disjoint_polygons_empty() {
    let cutter = vec![pt(0, 0), pt(4, 0), pt(4, 4), pt(0, 4)];
    let subject = vec![pt(10, 10), pt(14, 10), pt(14, 14), pt(10, 14)];
    let res = clip_sh::cut(&cutter, &subject).unwrap();
    assert!(res.is_empty());
}

#[test]
fn convexity_triangle_always_accepted() {
    // any triangle passes the clip-polygon convexity test
    let tri = vec![pt(0, 0), pt(9, 1), pt(4, 7)];
    let subject = vec![pt(1, 1), pt(2, 1), pt(2, 2)];
    assert!(clip_sh::cut(&tri, &subject).is_some());
    let tri_cw = vec![pt(0, 0), pt(4, 7), pt(9, 1)];
    assert!(clip_sh::cut(&tri_cw, &subject).is_some());
}

#[test]
fn convexity_self_intersecting_quad_rejected() {
    let bowtie = vec![pt(0, 0), pt(4, 4), pt(4, 0), pt(0, 4)];
    let subject = vec![pt(1, 1), pt(2, 1), pt(2, 2)];
    assert!(clip_sh::cut(&bowtie, &subject).is_none());
}

#[test]
fn horizon_updates_and_visibility() {
    let mut h = Horizont::new((20, 20));
    assert_eq!(h.visible(5, 10), 1);
    let mut painter: Vec<(i64, i64, i64, i64)> = Vec::new();
    h.horizon(0, 0, 10, 10, &mut painter);
    assert_eq!(painter.len(), 11);
    // the segment set both horizons to its own ordinate
    assert_eq!(h.visible(5, 5), 1);
    assert_eq!(h.visible(5, 4), -1);
    // a second, higher curve opens a hidden band between the horizons
    h.horizon(0, 8, 10, 8, &mut painter);
    assert_eq!(h.visible(5, 6), 0);
    // the recurrence extrapolates along the exact formula
    let (xi, yi) = h.get_intersection(0, 3, 10, 3, true);
    assert_eq!(xi, -25);
    assert_eq!(yi, 3);
}

#[test]
fn error_window_state() {
    let mut w = ErrorWindow::new();
    assert!(!w.enabled());
    w.set_error(String::from("bad input"), String::from("the radius must be positive"));
    assert!(w.enabled());
    assert_eq!(w.title(), "bad input");
    assert_eq!(w.description(), "the radius must be positive");
    w.disable();
    assert!(!w.enabled());
    w.enable();
    assert!(w.enabled());
}

#[test]
fn histo_window_state() {
    let mut w = HistoWindow::new();
    assert!(!w.enabled());
    let data = vec![(String::from("first"), 120u128), (String::from("second"), 80u128)];
    w.set_values(&data);
    assert!(w.enabled());
    w.disable();
    assert!(!w.enabled());
}

#[test]
fn scanline_reclick_first_vertex_closes_ring() {
    let mut canvas = scanline::Canvas::new();
    canvas.add_point(pt(0, 0));
    canvas.add_point(pt(6, 0));
    canvas.add_point(pt(6, 6));
    assert_eq!(canvas.edges().len(), 2);
    // re-clicking the ring's first vertex closes it: one closing edge, no new point
    canvas.add_point(pt(0, 0));
    assert_eq!(canvas.points().len(), 3);
    assert_eq!(canvas.edges().len(), 3);
    assert_eq!(canvas.edges()[2], (0, 2));
    assert_eq!(canvas.all_closed().len(), 2);
}

#[test]
fn flood_canvas_stamps_exact_circle_pixels() {
    let bg = (255, 255, 255);
    let ink = (0, 0, 0);
    let mut canvas = flood::Canvas::new(64, 64, bg);
    canvas.add_circle(pt(30, 30), 10, ink).unwrap();
    let reference = Circle::new(pt(30, 30), 10).draw_canonic().unwrap();
    let stamped: std::collections::HashSet<(i64, i64)> =
        reference.iter().map(|p| (p.x, p.y)).collect();
    for x in 0..64usize {
        for y in 0..64usize {
            let expect = if stamped.contains(&(x as i64, y as i64)) { ink } else { bg };
            assert_eq!(canvas.at(x, y), expect, "at ({}, {})", x, y);
        }
    }
}

#[test]
fn horizon_step_draws_only_visible_parts() {
    let mut h = Horizont::new((40, 40));
    let mut painter: Vec<(i64, i64, i64, i64)> = Vec::new();
    // first curve: fully visible, flag stays 1, whole segments drawn
    let p = h.visible(0, 10);
    assert_eq!(p, 1);
    let t = h.horizon_step(0, 10, 10, 10, p, &mut painter);
    assert_eq!(t, 1);
    assert_eq!(painter.len(), 11);
    // a second curve below lowers the lower horizon, opening a hidden band
    let pl = h.visible(0, 2);
    assert_eq!(pl, -1);
    let tl = h.horizon_step(0, 2, 10, 2, pl, &mut painter);
    assert_eq!(tl, -1);
    // a curve strictly between the horizons stays hidden: no drawing
    let before = painter.len();
    let p2 = h.visible(2, 5);
    assert_eq!(p2, 0);
    let t2 = h.horizon_step(2, 5, 8, 5, p2, &mut painter);
    assert_eq!(t2, 0);
    assert_eq!(painter.len(), before);
    // a curve rising from hidden to visible draws only up to the crossing
    let p3 = h.visible(0, 8);
    assert_eq!(p3, 0);
    let t3 = h.horizon_step(0, 8, 10, 20, p3, &mut painter);
    assert_eq!(t3, 1);
    assert!(painter.len() > before);
}
