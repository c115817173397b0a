use glyph_raster::{
    parse_point, parse_script, rasterize_glyph, Command, Point, Rasterizer, ScriptError, SCALE,
};

fn fx(v: f64) -> i64 {
    (v * SCALE as f64).round() as i64
}

#[test]
fn parse_reset() {
    assert_eq!(Command::parse(b"reset: 4x4", 1), Ok(Command::Reset(4, 4)));
    assert_eq!(Command::parse(b"reset: 0x0", 1), Ok(Command::Reset(0, 0)));
    assert_eq!(Command::parse(b"reset:   12x7  ", 1), Ok(Command::Reset(12, 7)));
}

#[test]
fn parse_line_command() {
    let cmd = Command::parse(b"line: (0,0) (4,4)", 1).unwrap();
    assert_eq!(
        cmd,
        Command::Line(Point { x: 0, y: 0 }, Point { x: 4 * SCALE, y: 4 * SCALE })
    );
}

#[test]
fn parse_quad_command() {
    let cmd = Command::parse(b"quad: (0.5,-1.25) (2,3) (4.5,0)", 1).unwrap();
    assert_eq!(
        cmd,
        Command::Quad(
            Point { x: fx(0.5), y: fx(-1.25) },
            Point { x: fx(2.0), y: fx(3.0) },
            Point { x: fx(4.5), y: fx(0.0) },
        )
    );
    assert_eq!(fx(0.5), 32768);
    assert_eq!(fx(-1.25), -81920);
}

#[test]
fn parse_unknown_keyword() {
    assert_eq!(Command::parse(b"circle: (0,0)", 3), Err(ScriptError::Decode { line: 3 }));
    assert_eq!(Command::parse(b"", 1), Err(ScriptError::Decode { line: 1 }));
    assert_eq!(Command::parse(b"Reset: 4x4", 1), Err(ScriptError::Decode { line: 1 }));
}

#[test]
fn parse_missing_fields() {
    assert_eq!(Command::parse(b"line: (0,0)", 1), Err(ScriptError::Sequence { line: 1 }));
    assert_eq!(Command::parse(b"quad: (0,0) (1,1)", 2), Err(ScriptError::Sequence { line: 2 }));
    assert_eq!(Command::parse(b"reset: 4", 1), Err(ScriptError::Sequence { line: 1 }));
    assert_eq!(Command::parse(b"reset", 1), Err(ScriptError::Sequence { line: 1 }));
}

#[test]
fn parse_bad_numbers() {
    assert_eq!(Command::parse(b"reset: axb", 1), Err(ScriptError::Decode { line: 1 }));
    assert_eq!(Command::parse(b"line: (a,0) (1,1)", 1), Err(ScriptError::Decode { line: 1 }));
    assert_eq!(Command::parse(b"reset: 4x99999", 1), Err(ScriptError::Decode { line: 1 }));
    assert_eq!(Command::parse(b"line: (1,2,3) (1,1)", 1), Err(ScriptError::Decode { line: 1 }));
    assert_eq!(
        Command::parse(b"line: (0,0) (1,1) junk", 1),
        Err(ScriptError::Decode { line: 1 })
    );
}

#[test]
fn parse_point_tokens() {
    assert_eq!(parse_point(b"(1.5,-2)"), Some(Point { x: fx(1.5), y: fx(-2.0) }));
    assert_eq!(parse_point(b"(.5,1.)"), Some(Point { x: fx(0.5), y: fx(1.0) }));
    assert_eq!(parse_point(b"(,1)"), None);
    assert_eq!(parse_point(b"1,1"), None);
    assert_eq!(parse_point(b"(1;1)"), None);
}

#[test]
fn parse_script_collects_commands() {
    let text = b"reset: 2x2\nline: (0,0) (2,2)\nquad: (0,0) (1,0) (2,2)\n";
    let cmds = parse_script(text).unwrap();
    assert_eq!(cmds.len(), 3);
    assert_eq!(cmds[0], Command::Reset(2, 2));
}

#[test]
fn parse_script_reports_first_bad_line() {
    let text = b"reset: 2x2\nwibble: (0,0)\nline: (0,0) (2,2)\n";
    assert_eq!(parse_script(text), Err(ScriptError::Decode { line: 2 }));
    let text2 = b"reset: 2x2\nline: (0,0)\n";
    assert_eq!(parse_script(text2), Err(ScriptError::Sequence { line: 2 }));
}

#[test]
fn draw_before_reset_is_sequence_error() {
    let cmds = parse_script(b"line: (0,0) (1,1)\nreset: 2x2\n").unwrap();
    let mut r = Rasterizer::new();
    assert_eq!(rasterize_glyph(&mut r, &cmds), Err(ScriptError::Sequence { line: 1 }));
}

#[test]
fn end_to_end_triangle() {
    // a filled lower-right triangle: half of the 4x4 raster
    let text = b"reset: 4x4\nline: (4,0) (0,4)\nline: (4,4) (4,0)\nline: (0,4) (4,4)\n";
    let cmds = parse_script(text).unwrap();
    let mut r = Rasterizer::new();
    rasterize_glyph(&mut r, &cmds).unwrap();
    assert_eq!(r.dimensions(), (4, 4));
    let mut total = 0.0f64;
    for y in 0..4 {
        for x in 0..4 {
            total += r.coverage_at(x, y) as f64 / SCALE as f64;
        }
    }
    assert!((total - 8.0).abs() <= 0.2, "total coverage {total}");
    assert!(r.coverage_at(0, 0) as f64 / SCALE as f64 <= 0.05);
    assert!(r.coverage_at(3, 3) as f64 / SCALE as f64 >= 0.95);
}

#[test]
fn batch_reuse_between_scripts() {
    // one engine reused across two renders: the second reset discards the first
    let mut r = Rasterizer::new();
    let first = parse_script(b"reset: 2x2\nline: (0,0) (0,2)\nline: (2,2) (2,0)\n").unwrap();
    rasterize_glyph(&mut r, &first).unwrap();
    assert_eq!(r.coverage_at(0, 0), SCALE);
    let second = parse_script(b"reset: 2x2\n").unwrap();
    rasterize_glyph(&mut r, &second).unwrap();
    assert_eq!(r.coverage_at(0, 0), 0);
}
