use glyph_raster::{flatten_quad, Point, Rasterizer, DEFAULT_TOLERANCE, SCALE};

fn pt(x: f64, y: f64) -> Point {
    Point { x: (x * SCALE as f64).round() as i64, y: (y * SCALE as f64).round() as i64 }
}

fn to_f(v: i64) -> f64 {
    v as f64 / SCALE as f64
}

#[test]
fn flatten_collinear_is_single_chord() {
    // control point exactly on the chord midpoint: already flat
    let segs = flatten_quad(pt(0.0, 0.0), pt(2.0, 1.0), pt(4.0, 2.0), DEFAULT_TOLERANCE);
    assert_eq!(segs.len(), 1);
    assert_eq!(segs[0].a, pt(0.0, 0.0));
    assert_eq!(segs[0].b, pt(4.0, 2.0));
}

#[test]
fn flatten_degenerate_point_curve() {
    let p = pt(1.5, 1.5);
    let segs = flatten_quad(p, p, p, DEFAULT_TOLERANCE);
    assert_eq!(segs.len(), 1);
    assert_eq!(segs[0].a, p);
    assert_eq!(segs[0].b, p);
}

#[test]
fn flatten_chain_is_connected() {
    let (p0, p1, p2) = (pt(0.0, 0.0), pt(2.0, 4.0), pt(4.0, 0.0));
    let segs = flatten_quad(p0, p1, p2, DEFAULT_TOLERANCE);
    assert!(segs.len() >= 2);
    assert_eq!(segs[0].a, p0);
    assert_eq!(segs[segs.len() - 1].b, p2);
    for w in segs.windows(2) {
        assert_eq!(w[0].b, w[1].a);
    }
}

#[test]
fn flatten_deviation_within_tolerance() {
    let (p0, p1, p2) = (pt(0.0, 0.0), pt(2.0, 4.0), pt(4.0, 0.0));
    let segs = flatten_quad(p0, p1, p2, DEFAULT_TOLERANCE);
    let (x0, y0) = (to_f(p0.x), to_f(p0.y));
    let (x1, y1) = (to_f(p1.x), to_f(p1.y));
    let (x2, y2) = (to_f(p2.x), to_f(p2.y));
    let mut max_dist = 0.0f64;
    for step in 0..=1000 {
        let t = step as f64 / 1000.0;
        let cx = (1.0 - t) * (1.0 - t) * x0 + 2.0 * (1.0 - t) * t * x1 + t * t * x2;
        let cy = (1.0 - t) * (1.0 - t) * y0 + 2.0 * (1.0 - t) * t * y1 + t * t * y2;
        let mut best = f64::INFINITY;
        for s in segs.iter() {
            let (ax, ay) = (to_f(s.a.x), to_f(s.a.y));
            let (bx, by) = (to_f(s.b.x), to_f(s.b.y));
            let (dx, dy) = (bx - ax, by - ay);
            let len2 = dx * dx + dy * dy;
            let u = if len2 == 0.0 {
                0.0
            } else {
                (((cx - ax) * dx + (cy - ay) * dy) / len2).clamp(0.0, 1.0)
            };
            let (qx, qy) = (ax + u * dx, ay + u * dy);
            let d = ((cx - qx) * (cx - qx) + (cy - qy) * (cy - qy)).sqrt();
            if d < best {
                best = d;
            }
        }
        if best > max_dist {
            max_dist = best;
        }
    }
    // the default tolerance is a tenth of a pixel
    assert!(max_dist <= 0.105, "max deviation {max_dist}");
}

#[test]
fn flat_quad_draws_like_line() {
    let mut with_quad = Rasterizer::new();
    with_quad.resize(3, 3);
    with_quad.draw_quad(pt(0.0, 0.0), pt(1.5, 1.5), pt(3.0, 3.0)).unwrap();
    with_quad.draw_line(pt(3.0, 3.0), pt(3.0, 0.0)).unwrap();

    let mut with_line = Rasterizer::new();
    with_line.resize(3, 3);
    with_line.draw_line(pt(0.0, 0.0), pt(3.0, 3.0)).unwrap();
    with_line.draw_line(pt(3.0, 3.0), pt(3.0, 0.0)).unwrap();

    for y in 0..3 {
        for x in 0..3 {
            assert_eq!(with_quad.coverage_at(x, y), with_line.coverage_at(x, y));
        }
    }
}
