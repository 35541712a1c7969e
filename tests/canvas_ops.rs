use ledmatrix::canvas::PixelLocation;
use ledmatrix::color::Color;
use ledmatrix::matrix::{HardwareMapping, LEDMatrixOptions, Matrix};

fn all_pixels(m: &Matrix) -> Vec<Color> {
    let c = m.get_canvas();
    let (w, h) = c.get_size();
    let mut out = Vec::new();
    for y in 0..h {
        for x in 0..w {
            out.push(c.get_pixel(&PixelLocation { x, y }).unwrap());
        }
    }
    out
}

#[test]
fn size_accounts_for_chain_and_parallel() {
    let options = LEDMatrixOptions::new(HardwareMapping::AdafruitHatPWM, 16, 32, 2, 3, 50);
    let mut m = Matrix::new_from_options(&options);
    assert_eq!(m.get_canvas().get_size(), (64, 48));
    let c = m.create_offscreen_canvas();
    assert_eq!(c.get_size(), (64, 48));
}

#[test]
fn defaults_fill_unset_dimensions() {
    let m = Matrix::new(16, 1, 1);
    assert_eq!(m.get_canvas().get_size(), (32, 16));
    let options = LEDMatrixOptions::new(HardwareMapping::Regular, 0, 0, 0, 0, 100);
    assert_eq!(options.display_size(), Some((32, 32)));
}

#[test]
fn clear_leaves_every_pixel_black() {
    let mut m = Matrix::new(8, 1, 1);
    let mut c = m.create_offscreen_canvas();
    c.fill(&Color::new(9, 8, 7));
    c.clear();
    let mut m2 = m;
    let _ = m2.swap_canvas_on_vsync(c);
    assert!(all_pixels(&m2).iter().all(|p| *p == Color::new(0, 0, 0)));
    assert_eq!(all_pixels(&m2).len(), 32 * 8);
}

#[test]
fn fill_sets_every_pixel() {
    let mut m = Matrix::new(4, 1, 1);
    let mut c = m.create_offscreen_canvas();
    let color = Color::new(1, 200, 33);
    c.fill(&color);
    for y in 0..4 {
        for x in 0..32 {
            assert_eq!(c.get_pixel(&PixelLocation { x, y }), Some(color));
        }
    }
}

#[test]
fn off_surface_writes_are_dropped() {
    let mut m = Matrix::new(4, 1, 1);
    let mut c = m.create_offscreen_canvas();
    let red = Color::new(255, 0, 0);
    c.set_pixel(&PixelLocation { x: -1, y: 0 }, &red);
    c.set_pixel(&PixelLocation { x: 32, y: 0 }, &red);
    c.set_pixel(&PixelLocation { x: 0, y: 4 }, &red);
    c.set_pixel(&PixelLocation { x: 3, y: 2 }, &red);
    assert_eq!(c.get_pixel(&PixelLocation { x: -1, y: 0 }), None);
    assert_eq!(c.get_pixel(&PixelLocation { x: 3, y: 2 }), Some(red));
    let mut lit = 0;
    for y in 0..4 {
        for x in 0..32 {
            if c.get_pixel(&PixelLocation { x, y }) != Some(Color::new(0, 0, 0)) {
                lit += 1;
            }
        }
    }
    assert_eq!(lit, 1);
}

#[test]
fn scaled_truncates() {
    let c = Color::new(255, 128, 7);
    assert_eq!(c.scaled(1, 3), Color::new(85, 42, 2));
    assert_eq!(c.scaled(3, 3), c);
    assert_eq!(c.scaled(0, 3), Color::new(0, 0, 0));
}
