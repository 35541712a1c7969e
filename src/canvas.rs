use vstd::prelude::*;

use crate::color::Color;

verus! {

/// Identity of one frame buffer. The matrix issues each one once; a buffer
/// that is handed back after a swap carries a fresh handle.
#[derive(Clone, Copy, PartialEq, Eq, Structural, Debug)]
pub struct LedCanvas {
    pub id: u64,
}

/// An absolute pixel coordinate; it may lie off the surface.
#[derive(Clone, Copy, PartialEq, Eq, Structural, Debug)]
pub struct PixelLocation {
    pub x: i32,
    pub y: i32,
}

/// The mathematical content of a canvas: its handle, its size and its
/// pixels in row-major order.
pub struct CanvasView {
    pub handle: LedCanvas,
    pub width: int,
    pub height: int,
    pub pixels: Seq<Color>,
}

impl CanvasView {
    pub open spec fn wf(self) -> bool {
        &&& 0 <= self.width <= i32::MAX
        &&& 0 <= self.height <= i32::MAX
        &&& self.pixels.len() == self.width * self.height
        &&& self.width * self.height <= usize::MAX
    }

    pub open spec fn in_bounds(self, x: int, y: int) -> bool {
        0 <= x < self.width && 0 <= y < self.height
    }

    pub open spec fn index(self, x: int, y: int) -> int {
        y * self.width + x
    }

    pub open spec fn pixel(self, x: int, y: int) -> Color {
        self.pixels[self.index(x, y)]
    }

    /// The surface after one pixel write; off-surface writes are dropped.
    pub open spec fn plotted(self, x: int, y: int, c: Color) -> CanvasView {
        if self.in_bounds(x, y) {
            CanvasView {
                handle: self.handle,
                width: self.width,
                height: self.height,
                pixels: self.pixels.update(self.index(x, y), c),
            }
        } else {
            self
        }
    }

    /// Same handle and size; the pixels may differ.
    pub open spec fn same_surface(self, other: CanvasView) -> bool {
        &&& self.handle == other.handle
        &&& self.width == other.width
        &&& self.height == other.height
    }
}

pub proof fn lemma_index_in_range(v: CanvasView, x: int, y: int)
    requires
        v.wf(),
        v.in_bounds(x, y),
    ensures
        0 <= v.index(x, y) < v.pixels.len(),
{
    assert(0 <= y * v.width + x < v.width * v.height) by (nonlinear_arith)
        requires
            0 <= x < v.width,
            0 <= y < v.height,
    ;
}

pub proof fn lemma_index_injective(v: CanvasView, x1: int, y1: int, x2: int, y2: int)
    requires
        v.wf(),
        v.in_bounds(x1, y1),
        v.in_bounds(x2, y2),
        v.index(x1, y1) == v.index(x2, y2),
    ensures
        x1 == x2 && y1 == y2,
{
    let w = v.width;
    if y1 < y2 {
        assert(y1 * w + x1 < y2 * w + x2) by (nonlinear_arith)
            requires
                y1 < y2,
                0 <= x1 < w,
                0 <= x2,
        ;
    } else if y2 < y1 {
        assert(y2 * w + x2 < y1 * w + x1) by (nonlinear_arith)
            requires
                y2 < y1,
                0 <= x2 < w,
                0 <= x1,
        ;
    }
}

/// What one write does to each pixel.
pub proof fn lemma_plotted_pixel(v: CanvasView, x: int, y: int, c: Color, qx: int, qy: int)
    requires
        v.wf(),
        v.in_bounds(qx, qy),
    ensures
        v.plotted(x, y, c).wf(),
        v.plotted(x, y, c).same_surface(v),
        v.plotted(x, y, c).pixel(qx, qy) == if v.in_bounds(x, y) && qx == x && qy == y {
            c
        } else {
            v.pixel(qx, qy)
        },
{
    lemma_index_in_range(v, qx, qy);
    if v.in_bounds(x, y) {
        lemma_index_in_range(v, x, y);
        if v.index(x, y) == v.index(qx, qy) {
            lemma_index_injective(v, x, y, qx, qy);
        }
    }
}

/// A pixel surface of fixed size with its own frame buffer.
pub struct Canvas {
    canvas: LedCanvas,
    width: i32,
    height: i32,
    pixels: Vec<Color>,
}

impl View for Canvas {
    type V = CanvasView;

    closed spec fn view(&self) -> CanvasView {
        CanvasView {
            handle: self.canvas,
            width: self.width as int,
            height: self.height as int,
            pixels: self.pixels@,
        }
    }
}

impl Canvas {
    pub open spec fn wf(&self) -> bool {
        self@.wf()
    }

    /// A black canvas of the given size.
    pub(crate) fn new(handle: LedCanvas, width: i32, height: i32) -> (res: Canvas)
        requires
            0 <= width,
            0 <= height,
            width * height <= usize::MAX,
        ensures
            res.wf(),
            res@.handle == handle,
            res@.width == width,
            res@.height == height,
            forall|x: int, y: int| res@.in_bounds(x, y) ==> res@.pixel(x, y) == Color::black_spec(),
    {
        let n: usize = (width as usize) * (height as usize);
        let mut pixels: Vec<Color> = Vec::new();
        let mut i: usize = 0;
        while i < n
            invariant
                i <= n,
                pixels@.len() == i,
                forall|j: int| 0 <= j < i ==> pixels@[j] == Color::black_spec(),
            decreases n - i,
        {
            pixels.push(Color::black());
            i = i + 1;
        }
        let res = Canvas { canvas: handle, width, height, pixels };
        proof {
            assert forall|x: int, y: int| res@.in_bounds(x, y) implies res@.pixel(x, y)
                == Color::black_spec() by {
                lemma_index_in_range(res@, x, y);
            }
        }
        res
    }

    /// The same frame under another handle.
    pub(crate) fn rehandled(self, handle: LedCanvas) -> (res: Canvas)
        ensures
            res@ == (CanvasView { handle, ..self@ }),
    {
        Canvas { canvas: handle, width: self.width, height: self.height, pixels: self.pixels }
    }

    pub fn handle(&self) -> (res: LedCanvas)
        ensures
            res == self@.handle,
    {
        self.canvas
    }

    /// Width and height of the whole panel array.
    pub fn get_size(&self) -> (res: (i32, i32))
        ensures
            res.0 as int == self@.width,
            res.1 as int == self@.height,
    {
        (self.width, self.height)
    }

    /// The pixel at `pixel`, or `None` off the surface.
    pub fn get_pixel(&self, pixel: &PixelLocation) -> (res: Option<Color>)
        requires
            self.wf(),
        ensures
            self@.in_bounds(pixel.x as int, pixel.y as int) ==> res == Some(
                self@.pixel(pixel.x as int, pixel.y as int),
            ),
            !self@.in_bounds(pixel.x as int, pixel.y as int) ==> res is None,
    {
        if 0 <= pixel.x && pixel.x < self.width && 0 <= pixel.y && pixel.y < self.height {
            proof {
                lemma_index_in_range(self@, pixel.x as int, pixel.y as int);
            }
            let i: usize = (pixel.y as usize) * (self.width as usize) + (pixel.x as usize);
            Some(self.pixels[i])
        } else {
            None
        }
    }

    /// One pixel write at wide coordinates; off the surface it is dropped.
    pub(crate) fn plot(&mut self, x: i64, y: i64, rgb: Color)
        requires
            old(self).wf(),
        ensures
            final(self)@ == old(self)@.plotted(x as int, y as int, rgb),
            final(self).wf(),
    {
        if 0 <= x && x < self.width as i64 && 0 <= y && y < self.height as i64 {
            proof {
                lemma_index_in_range(self@, x as int, y as int);
            }
            let i: usize = (y as usize) * (self.width as usize) + (x as usize);
            self.pixels.set(i, rgb);
        }
    }

    /// Writes one pixel; a location off the surface is silently dropped.
    pub fn set_pixel(&mut self, pixel: &PixelLocation, rgb: &Color)
        requires
            old(self).wf(),
        ensures
            final(self)@ == old(self)@.plotted(pixel.x as int, pixel.y as int, *rgb),
            final(self).wf(),
    {
        self.plot(pixel.x as i64, pixel.y as i64, *rgb);
    }

    /// Sets every pixel to `rgb`.
    pub fn fill(&mut self, rgb: &Color)
        requires
            old(self).wf(),
        ensures
            final(self).wf(),
            final(self)@.same_surface(old(self)@),
            forall|x: int, y: int| #[trigger]
                final(self)@.in_bounds(x, y) ==> final(self)@.pixel(x, y) == *rgb,
    {
        let n: usize = self.pixels.len();
        let mut i: usize = 0;
        while i < n
            invariant
                i <= n,
                self@.pixels.len() == n,
                self@.same_surface(old(self)@),
                self.wf(),
                forall|j: int| 0 <= j < i ==> self@.pixels[j] == *rgb,
            decreases n - i,
        {
            self.pixels.set(i, *rgb);
            i = i + 1;
        }
        proof {
            assert forall|x: int, y: int| self@.in_bounds(x, y) implies self@.pixel(x, y)
                == *rgb by {
                lemma_index_in_range(self@, x, y);
            }
        }
    }

    /// Sets every pixel to black.
    pub fn clear(&mut self)
        requires
            old(self).wf(),
        ensures
            final(self).wf(),
            final(self)@.same_surface(old(self)@),
            forall|x: int, y: int| #[trigger]
                final(self)@.in_bounds(x, y) ==> final(self)@.pixel(x, y) == Color::black_spec(),
    {
        let black = Color::black();
        self.fill(&black);
    }
}

/// `n / d` rounded to the nearest integer, halves away from zero.
pub open spec fn round_div(n: int, d: int) -> int {
    if n >= 0 {
        (2 * n + d) / (2 * d)
    } else {
        -((-2 * n + d) / (2 * d))
    }
}

/// The coordinate at the fraction `num / den` of a span of `size` pixels,
/// rounded; fractions outside `[0, 1]` reach past the surface. A coordinate
/// beyond the range of `i32` saturates at its bound.
pub open spec fn relative_coord(num: int, den: int, size: int) -> int {
    let c = round_div(num * size, den);
    if c < i32::MIN {
        i32::MIN as int
    } else if c > i32::MAX {
        i32::MAX as int
    } else {
        c
    }
}

fn relative_coord_exec(num: i64, den: i64, size: i32) -> (res: i32)
    requires
        den > 0,
        size >= 0,
    ensures
        res == relative_coord(num as int, den as int, size as int),
{
    assert(-0x8000_0000_0000_0000 * 0x8000_0000 <= num * size <= 0x8000_0000_0000_0000 * 0x8000_0000)
        by (nonlinear_arith)
        requires
            -0x8000_0000_0000_0000 <= num < 0x8000_0000_0000_0000,
            0 <= size < 0x8000_0000,
    ;
    let n: i128 = (num as i128) * (size as i128);
    let d: i128 = den as i128;
    let c: i128 = if n >= 0 {
        (2 * n + d) / (2 * d)
    } else {
        -((-2 * n + d) / (2 * d))
    };
    proof {
        if n >= 0 {
            vstd::arithmetic::div_mod::lemma_div_pos_is_pos(2 * n + d, 2 * d);
        } else {
            vstd::arithmetic::div_mod::lemma_div_pos_is_pos(-2 * n + d, 2 * d);
        }
    }
    if c < i32::MIN as i128 {
        i32::MIN
    } else if c > i32::MAX as i128 {
        i32::MAX
    } else {
        c as i32
    }
}

impl PixelLocation {
    /// The pixel at the fractions `x / den` of the canvas width and `y / den`
    /// of its height, each rounded to the nearest pixel, taken against the
    /// canvas's size at the time of the call.
    pub fn from_relative(x: i64, y: i64, den: i64, canvas: &Canvas) -> (res: PixelLocation)
        requires
            den > 0,
            canvas.wf(),
        ensures
            res.x == relative_coord(x as int, den as int, canvas@.width),
            res.y == relative_coord(y as int, den as int, canvas@.height),
    {
        let (width, height) = canvas.get_size();
        PixelLocation { x: relative_coord_exec(x, den, width), y: relative_coord_exec(y, den, height) }
    }
}

/// The fraction 0 is the surface's first pixel and the fraction 1 lies just
/// past its far edge, at the surface's size.
pub proof fn lemma_relative_corners(den: int, size: int)
    requires
        den > 0,
        0 <= size <= i32::MAX,
    ensures
        relative_coord(0, den, size) == 0,
        relative_coord(den, den, size) == size,
{
    assert(0 * size == 0) by (nonlinear_arith);
    vstd::arithmetic::div_mod::lemma_fundamental_div_mod_converse(den, 2 * den, 0, den);
    assert(2 * (den * size) + den == size * (2 * den) + den) by (nonlinear_arith);
    vstd::arithmetic::div_mod::lemma_fundamental_div_mod_converse(2 * (den * size) + den, 2 * den, size, den);
    assert(den * size >= 0) by (nonlinear_arith)
        requires
            den > 0,
            size >= 0,
    ;
}

} // verus!

pub use crate::text::{Font, LedFont};
