use ledmatrix::canvas::{Canvas, PixelLocation};
use ledmatrix::color::Color;
use ledmatrix::matrix::Matrix;

fn lit(c: &Canvas) -> Vec<(i32, i32, Color)> {
    let (w, h) = c.get_size();
    let mut out = Vec::new();
    for y in 0..h {
        for x in 0..w {
            let p = c.get_pixel(&PixelLocation { x, y }).unwrap();
            if p != Color::new(0, 0, 0) {
                out.push((x, y, p));
            }
        }
    }
    out
}

fn blank(rows: i32) -> Canvas {
    let mut m = Matrix::new(rows, 1, 1);
    m.create_offscreen_canvas()
}

#[test]
fn line_from_point_to_itself_writes_one_pixel() {
    let mut c = blank(16);
    let p = PixelLocation { x: 5, y: 7 };
    let color = Color::new(10, 20, 30);
    c.draw_line(&p, &p, &color);
    assert_eq!(lit(&c), vec![(5, 7, color)]);
}

#[test]
fn shallow_line_rounds_to_nearest_row() {
    let mut c = blank(16);
    let white = Color::new(255, 255, 255);
    c.draw_line(&PixelLocation { x: 0, y: 0 }, &PixelLocation { x: 4, y: 2 }, &white);
    let pts: Vec<(i32, i32)> = lit(&c).iter().map(|t| (t.0, t.1)).collect();
    assert_eq!(pts, vec![(0, 0), (1, 1), (2, 1), (3, 2), (4, 2)]);
}

#[test]
fn steep_line_walks_rows_and_reversed_endpoints() {
    let mut c = blank(16);
    let white = Color::new(255, 255, 255);
    c.draw_line(&PixelLocation { x: 2, y: 4 }, &PixelLocation { x: 0, y: 0 }, &white);
    let mut pts: Vec<(i32, i32)> = lit(&c).iter().map(|t| (t.0, t.1)).collect();
    pts.sort();
    assert_eq!(pts, vec![(0, 0), (0, 1), (1, 2), (1, 3), (2, 4)]);
}

#[test]
fn line_running_off_the_surface_is_clipped() {
    let mut c = blank(4);
    let white = Color::new(255, 255, 255);
    c.draw_line(&PixelLocation { x: -3, y: 1 }, &PixelLocation { x: 40, y: 1 }, &white);
    let pts: Vec<(i32, i32)> = lit(&c).iter().map(|t| (t.0, t.1)).collect();
    let expected: Vec<(i32, i32)> = (0..32).map(|x| (x, 1)).collect();
    assert_eq!(pts, expected);
}

#[test]
fn antialiased_horizontal_line_has_no_bleed() {
    let mut c = blank(16);
    let white = Color::new(255, 255, 255);
    c.draw_line_antialiased(&PixelLocation { x: 0, y: 5 }, &PixelLocation { x: 10, y: 5 }, &white);
    let expected: Vec<(i32, i32, Color)> = (0..=10).map(|x| (x, 5, white)).collect();
    assert_eq!(lit(&c), expected);

    let mut plain = blank(16);
    plain.draw_line(&PixelLocation { x: 0, y: 5 }, &PixelLocation { x: 10, y: 5 }, &white);
    assert_eq!(lit(&plain), expected);
}

#[test]
fn antialiased_vertical_line_matches_plain_line() {
    let mut c = blank(16);
    let mut plain = blank(16);
    let color = Color::new(40, 50, 60);
    let p0 = PixelLocation { x: 3, y: 12 };
    let p1 = PixelLocation { x: 3, y: 2 };
    c.draw_line_antialiased(&p0, &p1, &color);
    plain.draw_line(&p0, &p1, &color);
    assert_eq!(lit(&c), lit(&plain));
    assert_eq!(lit(&c).len(), 11);
}

#[test]
fn antialiased_diagonal_lights_full_pixels_only() {
    let mut c = blank(16);
    let white = Color::new(255, 255, 255);
    c.draw_line_antialiased(&PixelLocation { x: 0, y: 0 }, &PixelLocation { x: 10, y: 10 }, &white);
    let px = lit(&c);
    assert!(px.len() == 10 || px.len() == 11);
    assert_eq!(px.len(), 11);
    for (i, (x, y, color)) in px.iter().enumerate() {
        assert_eq!((*x, *y), (i as i32, i as i32));
        assert_eq!(*color, white);
    }
}

#[test]
fn antialiased_line_end_to_end() {
    let mut m = Matrix::new(16, 1, 1);
    let mut c = m.create_offscreen_canvas();
    assert_eq!(c.get_size(), (32, 16));
    let grey = Color::new(128, 128, 128);
    c.draw_line_antialiased(&PixelLocation { x: 0, y: 0 }, &PixelLocation { x: 31, y: 15 }, &grey);
    assert_eq!(c.get_pixel(&PixelLocation { x: 0, y: 0 }), Some(grey));
    assert_eq!(c.get_pixel(&PixelLocation { x: 31, y: 15 }), Some(grey));
    for x in 1..31 {
        let mut sum = 0u32;
        for y in 0..16 {
            let p = c.get_pixel(&PixelLocation { x, y }).unwrap();
            assert_eq!(p.r, p.g);
            assert_eq!(p.g, p.b);
            sum += p.r as u32;
        }
        assert!(sum == 127 || sum == 128, "column {} sums to {}", x, sum);
        let row = x * 15 / 31;
        let frac = (x * 15) % 31;
        let lower = c.get_pixel(&PixelLocation { x, y: row }).unwrap();
        assert_eq!(lower.r as i32, 128 * (31 - frac) / 31);
        let upper = c.get_pixel(&PixelLocation { x, y: row + 1 }).unwrap();
        assert_eq!(upper.r as i32, 128 * frac / 31);
    }
}

#[test]
fn antialiased_shallow_line_splits_coverage() {
    let mut c = blank(8);
    let color = Color::new(200, 100, 0);
    c.draw_line_antialiased(&PixelLocation { x: 4, y: 1 }, &PixelLocation { x: 0, y: 0 }, &color);
    // crossings at 0, 1/4, 1/2, 3/4, 1 of a row
    assert_eq!(c.get_pixel(&PixelLocation { x: 0, y: 0 }), Some(color));
    assert_eq!(c.get_pixel(&PixelLocation { x: 1, y: 0 }), Some(Color::new(150, 75, 0)));
    assert_eq!(c.get_pixel(&PixelLocation { x: 1, y: 1 }), Some(Color::new(50, 25, 0)));
    assert_eq!(c.get_pixel(&PixelLocation { x: 2, y: 0 }), Some(Color::new(100, 50, 0)));
    assert_eq!(c.get_pixel(&PixelLocation { x: 2, y: 1 }), Some(Color::new(100, 50, 0)));
    assert_eq!(c.get_pixel(&PixelLocation { x: 3, y: 1 }), Some(Color::new(150, 75, 0)));
    assert_eq!(c.get_pixel(&PixelLocation { x: 4, y: 1 }), Some(color));
    assert_eq!(lit(&c).len(), 8);
}

#[test]
fn antialiased_line_overwrites_without_blending() {
    let mut c = blank(8);
    c.fill(&Color::new(90, 90, 90));
    let color = Color::new(200, 100, 0);
    c.draw_line_antialiased(&PixelLocation { x: 0, y: 0 }, &PixelLocation { x: 4, y: 1 }, &color);
    assert_eq!(c.get_pixel(&PixelLocation { x: 1, y: 1 }), Some(Color::new(50, 25, 0)));
    // the crossing at x = 0 is on a pixel centre: the pixel below gets zero coverage
    assert_eq!(c.get_pixel(&PixelLocation { x: 0, y: 1 }), Some(Color::new(0, 0, 0)));
    assert_eq!(c.get_pixel(&PixelLocation { x: 0, y: 2 }), Some(Color::new(90, 90, 90)));
}

#[test]
fn antialiased_line_on_filled_surface_blackens_zero_coverage_neighbours() {
    let mut c = blank(16);
    let white = Color::new(255, 255, 255);
    let red = Color::new(255, 0, 0);
    c.fill(&white);
    c.draw_line_antialiased(&PixelLocation { x: 0, y: 5 }, &PixelLocation { x: 10, y: 5 }, &red);
    for x in 0..=10 {
        assert_eq!(c.get_pixel(&PixelLocation { x, y: 5 }), Some(red));
        assert_eq!(c.get_pixel(&PixelLocation { x, y: 6 }), Some(Color::new(0, 0, 0)));
        assert_eq!(c.get_pixel(&PixelLocation { x, y: 4 }), Some(white));
    }
    assert_eq!(c.get_pixel(&PixelLocation { x: 11, y: 5 }), Some(white));
    assert_eq!(c.get_pixel(&PixelLocation { x: 11, y: 6 }), Some(white));

    let mut d = blank(16);
    d.fill(&white);
    d.draw_line_antialiased(&PixelLocation { x: 3, y: 2 }, &PixelLocation { x: 3, y: 9 }, &red);
    for y in 2..=9 {
        assert_eq!(d.get_pixel(&PixelLocation { x: 3, y }), Some(red));
        assert_eq!(d.get_pixel(&PixelLocation { x: 4, y }), Some(Color::new(0, 0, 0)));
        assert_eq!(d.get_pixel(&PixelLocation { x: 2, y }), Some(white));
    }
}

#[test]
fn circle_of_radius_two() {
    let mut c = blank(16);
    let color = Color::new(1, 2, 3);
    c.draw_circle(&PixelLocation { x: 8, y: 8 }, 2, &color);
    let mut pts: Vec<(i32, i32)> = lit(&c).iter().map(|t| (t.0 - 8, t.1 - 8)).collect();
    pts.sort();
    let mut expected = vec![
        (2, 0), (-2, 0), (0, 2), (0, -2),
        (2, 1), (2, -1), (-2, 1), (-2, -1),
        (1, 2), (-1, 2), (1, -2), (-1, -2),
    ];
    expected.sort();
    assert_eq!(pts, expected);
}

#[test]
fn circle_of_radius_zero_and_negative() {
    let mut c = blank(16);
    let color = Color::new(1, 2, 3);
    c.draw_circle(&PixelLocation { x: 4, y: 4 }, 0, &color);
    assert_eq!(lit(&c), vec![(4, 4, color)]);
    let mut d = blank(16);
    d.draw_circle(&PixelLocation { x: 4, y: 4 }, -3, &color);
    assert!(lit(&d).is_empty());
}

#[test]
fn circle_outline_stays_near_radius() {
    let mut c = blank(32);
    let color = Color::new(9, 9, 9);
    let r = 10;
    c.draw_circle(&PixelLocation { x: 16, y: 16 }, r, &color);
    let px = lit(&c);
    assert!(!px.is_empty());
    for (x, y, _) in px.iter() {
        let d2 = (x - 16) * (x - 16) + (y - 16) * (y - 16);
        assert!((d2 - r * r).abs() <= r + 1, "({}, {}) is off the outline", x, y);
    }
    assert!(px.iter().any(|t| (t.0, t.1) == (26, 16)));
    assert!(px.iter().any(|t| (t.0, t.1) == (16, 6)));
}
