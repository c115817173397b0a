//! Cross-checks the fixed-point engine against an established
//! floating-point scan-conversion rasterizer on the same geometry.

use ab_glyph_rasterizer::{point, Rasterizer as FloatRasterizer};
use glyph_raster::{Point, Rasterizer, SCALE};

fn pt(x: f32, y: f32) -> Point {
    Point { x: (x as f64 * SCALE as f64).round() as i64, y: (y as f64 * SCALE as f64).round() as i64 }
}

fn compare(lines: &[(f32, f32, f32, f32)], w: usize, h: usize) {
    let mut ours = Rasterizer::new();
    ours.resize(w, h);
    let mut theirs = FloatRasterizer::new(w, h);
    for &(x0, y0, x1, y1) in lines {
        ours.draw_line(pt(x0, y0), pt(x1, y1)).unwrap();
        theirs.draw_line(point(x0, y0), point(x1, y1));
    }
    let mut their_cov = vec![0.0f32; w * h];
    theirs.for_each_pixel(|i, a| their_cov[i] = a);
    for y in 0..h {
        for x in 0..w {
            let a = ours.coverage_at(x, y) as f64 / SCALE as f64;
            let b = their_cov[y * w + x] as f64;
            assert!(
                (a - b).abs() <= 0.02,
                "cell ({x},{y}): fixed {a} vs float {b}"
            );
        }
    }
}

#[test]
fn cross_check_triangle() {
    compare(
        &[(4.0, 0.0, 0.0, 4.0), (4.0, 4.0, 4.0, 0.0), (0.0, 4.0, 4.0, 4.0)],
        4,
        4,
    );
}

#[test]
fn cross_check_skewed_quadrilateral() {
    compare(
        &[
            (0.5, 0.25, 0.25, 5.0),
            (0.25, 5.0, 4.75, 6.5),
            (4.75, 6.5, 5.5, 1.25),
            (5.5, 1.25, 0.5, 0.25),
        ],
        7,
        7,
    );
}
