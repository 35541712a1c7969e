use ledmatrix::canvas::{Canvas, PixelLocation};
use ledmatrix::color::Color;
use ledmatrix::matrix::Matrix;
use ledmatrix::text::{Font, FontPathError, Glyph, LedFont};

fn blank(rows: i32) -> Canvas {
    let mut m = Matrix::new(rows, 1, 1);
    m.create_offscreen_canvas()
}

fn lit(c: &Canvas) -> Vec<(i32, i32)> {
    let (w, h) = c.get_size();
    let mut out = Vec::new();
    for y in 0..h {
        for x in 0..w {
            if c.get_pixel(&PixelLocation { x, y }).unwrap() != Color::new(0, 0, 0) {
                out.push((x, y));
            }
        }
    }
    out
}

#[test]
fn relative_corners() {
    let m = Matrix::new(16, 1, 1);
    let c = m.get_canvas();
    assert_eq!(PixelLocation::from_relative(0, 0, 1000, c), PixelLocation { x: 0, y: 0 });
    assert_eq!(PixelLocation::from_relative(1000, 1000, 1000, c), PixelLocation { x: 32, y: 16 });
}

#[test]
fn relative_rounds_and_extrapolates() {
    let m = Matrix::new(16, 1, 1);
    let c = m.get_canvas();
    // 0.25 * 32 = 8, 0.5 * 16 = 8
    assert_eq!(PixelLocation::from_relative(1, 2, 4, c), PixelLocation { x: 8, y: 8 });
    // 1/3 * 32 = 10.67 -> 11, 1/3 * 16 = 5.33 -> 5
    assert_eq!(PixelLocation::from_relative(1, 1, 3, c), PixelLocation { x: 11, y: 5 });
    // -3 * 32 = -96, 2.5 * 16 = 40
    assert_eq!(PixelLocation::from_relative(-6, 5, 2, c), PixelLocation { x: -96, y: 40 });
    // halves round away from zero: 1/64 * 32 = 0.5 -> 1, -1/64 * 32 -> -1
    assert_eq!(PixelLocation::from_relative(1, -1, 64, c), PixelLocation { x: 1, y: 0 });
    assert_eq!(PixelLocation::from_relative(-1, 0, 64, c).x, -1);
    assert_eq!(PixelLocation::from_relative(i64::MAX, i64::MIN, 1, c), PixelLocation { x: i32::MAX, y: i32::MIN });
}

fn tiny_font() -> Font {
    // 'A': a 2x2 block; 'B': one pixel at the top right of a 3-wide cell
    let a = Glyph { codepoint: 'A', width: 2, advance: 3, rows: vec![0xC000_0000, 0xC000_0000] };
    let b = Glyph { codepoint: 'B', width: 3, advance: 4, rows: vec![0x2000_0000] };
    Font { font: LedFont { glyphs: vec![a, b], height: 5, baseline: 2 } }
}

#[test]
fn text_advances_by_glyph_and_kerning() {
    let mut c = blank(16);
    let mut font = tiny_font();
    let white = Color::new(255, 255, 255);
    c.draw_text(&mut font, &PixelLocation { x: 1, y: 6 }, &white, "AB", 1);
    // 'A' at (1, 4) .. (2, 5); pen moves 3 + 1 to x = 5; 'B' lights (7, 4)
    let mut expected = vec![(1, 4), (2, 4), (1, 5), (2, 5), (7, 4)];
    expected.sort_by_key(|p| (p.1, p.0));
    assert_eq!(lit(&c), expected);
}

#[test]
fn text_with_negative_kerning_and_missing_glyph() {
    let mut c = blank(16);
    let mut font = tiny_font();
    let white = Color::new(255, 255, 255);
    // 'Z' has no glyph and no replacement: nothing drawn, pen moves by kerning only
    c.draw_text(&mut font, &PixelLocation { x: 10, y: 2 }, &white, "AZA", -1);
    // first A at x 10..11; pen 10 + 3 - 1 = 12; Z: pen 12 - 1 = 11; second A at 11..12
    let mut expected = vec![(10, 0), (11, 0), (12, 0), (10, 1), (11, 1), (12, 1)];
    expected.sort_by_key(|p| (p.1, p.0));
    assert_eq!(lit(&c), expected);
}

#[test]
fn replacement_glyph_stands_in() {
    let mut c = blank(16);
    let dot = Glyph { codepoint: '\u{FFFD}', width: 1, advance: 2, rows: vec![0x8000_0000] };
    let mut font = Font { font: LedFont { glyphs: vec![dot], height: 4, baseline: 0 } };
    let white = Color::new(255, 255, 255);
    c.draw_text(&mut font, &PixelLocation { x: 0, y: 3 }, &white, "xyz", 0);
    assert_eq!(lit(&c), vec![(0, 3), (2, 3), (4, 3)]);
}

#[test]
fn vertical_text_moves_down_by_line_height() {
    let mut c = blank(16);
    let mut font = tiny_font();
    let white = Color::new(255, 255, 255);
    c.vertical_draw_text(&mut font, &PixelLocation { x: 0, y: 2 }, &white, "BB", 1);
    // pen y 2 then 2 + 5 + 1 = 8; 'B' row 0 sits at pen - baseline
    assert_eq!(lit(&c), vec![(2, 0), (2, 6)]);
}

#[test]
fn font_paths() {
    assert_eq!(Font::check_path("/usr/share/fonts/5x8.bdf", true), Ok(()));
    assert_eq!(Font::check_path("/usr/share/fonts/5x8.bdf", false), Err(FontPathError::NotFound));
    assert_eq!(Font::check_path("/usr/share/fonts/5x8.pcf", true), Err(FontPathError::NotBdf));
    assert_eq!(Font::check_path("/usr/share/fonts/5x8", true), Err(FontPathError::NoExtension));
    assert_eq!(Font::check_path("/usr/share/fonts.d/5x8", true), Err(FontPathError::NoExtension));
    assert_eq!(Font::check_path("/fonts/.bdf", true), Err(FontPathError::NoExtension));
    assert_eq!(Font::check_path("font.tar.bdf", true), Ok(()));
    assert_eq!(Font::check_path("font.bdfx", true), Err(FontPathError::NotBdf));
    assert_eq!(FontPathError::NotBdf.message(), "Given filepath does not appear to be a .bdf file!");
}
