use glyph_raster::{Point, RasterError, Rasterizer, SCALE};

fn pt(x: f64, y: f64) -> Point {
    Point { x: (x * SCALE as f64).round() as i64, y: (y * SCALE as f64).round() as i64 }
}

fn cov(r: &Rasterizer, x: usize, y: usize) -> f64 {
    r.coverage_at(x, y) as f64 / SCALE as f64
}

#[test]
fn horizontal_line_contributes_nothing() {
    let mut r = Rasterizer::new();
    r.resize(10, 10);
    r.draw_line(pt(2.0, 5.0), pt(9.0, 5.0)).unwrap();
    for y in 0..10 {
        for x in 0..10 {
            assert_eq!(r.coverage_at(x, y), 0);
        }
    }
}

#[test]
fn full_cell_coverage() {
    // the closed unit square's left and right edges, opposite directions
    let mut r = Rasterizer::new();
    r.resize(1, 1);
    r.draw_line(pt(0.0, 0.0), pt(0.0, 1.0)).unwrap();
    r.draw_line(pt(1.0, 1.0), pt(1.0, 0.0)).unwrap();
    assert!((cov(&r, 0, 0) - 1.0).abs() <= 1e-4);
}

#[test]
fn half_cell_coverage() {
    // the triangle (0,0)-(1,1)-(1,0) covers half the cell
    let mut r = Rasterizer::new();
    r.resize(1, 1);
    r.draw_line(pt(0.0, 0.0), pt(1.0, 1.0)).unwrap();
    r.draw_line(pt(1.0, 1.0), pt(1.0, 0.0)).unwrap();
    assert!((cov(&r, 0, 0) - 0.5).abs() <= 1e-3);
}

#[test]
fn resize_clears_state() {
    let mut r = Rasterizer::new();
    r.resize(4, 4);
    r.draw_line(pt(0.0, 0.0), pt(0.0, 4.0)).unwrap();
    r.draw_line(pt(4.0, 4.0), pt(4.0, 0.0)).unwrap();
    let mut filled = 0.0f64;
    for y in 0..4 {
        for x in 0..4 {
            filled += cov(&r, x, y);
        }
    }
    assert!(filled > 15.0);
    r.resize(4, 4);
    for y in 0..4 {
        for x in 0..4 {
            assert_eq!(r.coverage_at(x, y), 0);
        }
    }
    assert_eq!(r.dimensions(), (4, 4));
}

#[test]
fn draw_before_resize_rejected() {
    let mut r = Rasterizer::new();
    assert_eq!(r.draw_line(pt(0.0, 0.0), pt(1.0, 1.0)), Err(RasterError::DrawBeforeResize));
    assert_eq!(
        r.draw_quad(pt(0.0, 0.0), pt(1.0, 0.0), pt(1.0, 1.0)),
        Err(RasterError::DrawBeforeResize)
    );
    assert_eq!(r.dimensions(), (0, 0));
}

#[test]
fn coverage_read_idempotent() {
    let mut r = Rasterizer::new();
    r.resize(4, 4);
    r.draw_line(pt(0.5, 0.25), pt(3.5, 3.75)).unwrap();
    r.draw_quad(pt(0.0, 3.0), pt(2.0, 0.0), pt(4.0, 3.0)).unwrap();
    let first = r.coverage_pairs();
    let second = r.coverage_pairs();
    assert_eq!(first, second);
    assert_eq!(first.len(), 16);
    for (i, pair) in first.iter().enumerate() {
        assert_eq!(pair.0, i);
        let (x, y) = (i % 4, i / 4);
        assert_eq!(pair.1, r.coverage_at(x, y));
    }
}

#[test]
fn overflow_geometry_is_clipped() {
    // geometry far outside the raster must neither panic nor corrupt
    let mut r = Rasterizer::new();
    r.resize(2, 2);
    r.draw_line(pt(-5.0, -5.0), pt(7.0, 9.0)).unwrap();
    r.draw_line(pt(1.0, -3.0), pt(1.0, 6.0)).unwrap();
    for y in 0..2 {
        for x in 0..2 {
            let c = cov(&r, x, y);
            assert!((0.0..=1.0).contains(&c));
        }
    }
}

#[test]
fn segment_and_reverse_cancel() {
    // a degenerate "outline" that encloses no area yields no coverage
    let mut r = Rasterizer::new();
    r.resize(4, 4);
    r.draw_line(pt(0.0, 0.0), pt(4.0, 4.0)).unwrap();
    r.draw_line(pt(4.0, 4.0), pt(0.0, 0.0)).unwrap();
    for y in 0..4 {
        for x in 0..4 {
            assert_eq!(r.coverage_at(x, y), 0);
        }
    }
}

#[test]
fn rgba_serialization() {
    let mut r = Rasterizer::new();
    r.resize(1, 1);
    assert_eq!(glyph_raster::serialize_to_rgba(&r), vec![0u8, 0, 0, 0]);
    r.draw_line(pt(0.0, 0.0), pt(0.0, 1.0)).unwrap();
    r.draw_line(pt(1.0, 1.0), pt(1.0, 0.0)).unwrap();
    assert_eq!(glyph_raster::serialize_to_rgba(&r), vec![255u8, 255, 255, 255]);
}

#[test]
fn rgba_rounds_half_coverage() {
    let mut r = Rasterizer::new();
    r.resize(1, 1);
    r.draw_line(pt(0.5, 0.0), pt(0.5, 1.0)).unwrap();
    r.draw_line(pt(1.0, 1.0), pt(1.0, 0.0)).unwrap();
    // half coverage: round(0.5 * 255) = 128
    assert_eq!(glyph_raster::serialize_to_rgba(&r), vec![128u8, 128, 128, 128]);
}
