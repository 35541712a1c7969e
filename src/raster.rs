use vstd::prelude::*;

use crate::canvas::{lemma_plotted_pixel, Canvas, CanvasView, PixelLocation};
use crate::color::Color;

verus! {

pub open spec fn abs(a: int) -> int {
    if a < 0 {
        -a
    } else {
        a
    }
}

/// The colour a pixel ends with: the one written there, if any, else the old one.
pub open spec fn overlay(v: CanvasView, x: int, y: int, written: Option<Color>) -> Color {
    match written {
        Some(c) => c,
        None => v.pixel(x, y),
    }
}

/// A segment seen along its major axis: coordinates `(a, b)` are `(x, y)`, or
/// `(y, x)` when the segment is steep, and the endpoints are ordered so that
/// `a0 <= a1`.
pub struct Span {
    pub steep: bool,
    pub a0: int,
    pub b0: int,
    pub a1: int,
    pub b1: int,
}

/// A segment is steep when it moves further in y than in x.
pub open spec fn line_steep(p0: PixelLocation, p1: PixelLocation) -> bool {
    abs(p1.y - p0.y) > abs(p1.x - p0.x)
}

pub open spec fn major_of(steep: bool, p: PixelLocation) -> int {
    if steep {
        p.y as int
    } else {
        p.x as int
    }
}

pub open spec fn minor_of(steep: bool, p: PixelLocation) -> int {
    if steep {
        p.x as int
    } else {
        p.y as int
    }
}

pub open spec fn major_at(steep: bool, x: int, y: int) -> int {
    if steep {
        y
    } else {
        x
    }
}

pub open spec fn minor_at(steep: bool, x: int, y: int) -> int {
    if steep {
        x
    } else {
        y
    }
}

/// `k` units from `a` in the direction of `toward`.
pub open spec fn step_from(a: int, toward: int, k: int) -> int {
    if toward >= a {
        a + k
    } else {
        a - k
    }
}

/// How many units `p` lies from `a` in the direction of `toward`.
pub open spec fn steps_to(a: int, toward: int, p: int) -> int {
    if toward >= a {
        p - a
    } else {
        a - p
    }
}

/// Minor-axis offset after `i` of `n` major steps of a line that moves `m`
/// minor units: `i * m / n` rounded to the nearest integer, halves away from
/// the start.
pub open spec fn minor_step(i: int, m: int, n: int) -> int {
    if n == 0 {
        0
    } else {
        (2 * i * m + n) / (2 * n)
    }
}

/// Number of major-axis steps from `p0` to `p1`.
pub open spec fn line_len(p0: PixelLocation, p1: PixelLocation) -> int {
    let s = line_steep(p0, p1);
    abs(major_of(s, p1) - major_of(s, p0))
}

/// Whether one of the first `lim` steps of the line from `p0` to `p1` lands on `(x, y)`.
pub open spec fn line_hits(p0: PixelLocation, p1: PixelLocation, x: int, y: int, lim: int) -> bool {
    let s = line_steep(p0, p1);
    let u0 = major_of(s, p0);
    let u1 = major_of(s, p1);
    let v0 = minor_of(s, p0);
    let v1 = minor_of(s, p1);
    let i = steps_to(u0, u1, major_at(s, x, y));
    &&& 0 <= i < lim
    &&& i <= abs(u1 - u0)
    &&& minor_at(s, x, y) == step_from(v0, v1, minor_step(i, abs(v1 - v0), abs(u1 - u0)))
}

/// Whether `(x, y)` is on the discrete line from `p0` to `p1`, both ends included.
pub open spec fn on_line(p0: PixelLocation, p1: PixelLocation, x: int, y: int) -> bool {
    line_hits(p0, p1, x, y, line_len(p0, p1) + 1)
}

pub open spec fn aa_span(p0: PixelLocation, p1: PixelLocation) -> Span {
    let s = line_steep(p0, p1);
    if major_of(s, p0) <= major_of(s, p1) {
        Span { steep: s, a0: major_of(s, p0), b0: minor_of(s, p0), a1: major_of(s, p1), b1: minor_of(s, p1) }
    } else {
        Span { steep: s, a0: major_of(s, p1), b0: minor_of(s, p1), a1: major_of(s, p0), b1: minor_of(s, p0) }
    }
}

impl Span {
    /// Denominator of the gradient `(b1 - b0) / (a1 - a0)`; a single point
    /// gets 1 so that nothing divides by zero.
    pub open spec fn den(self) -> int {
        if self.a1 == self.a0 {
            1
        } else {
            self.a1 - self.a0
        }
    }

    /// Numerator of the minor-axis offset where the ideal line crosses major coordinate `u`.
    pub open spec fn cross(self, u: int) -> int {
        (u - self.a0) * (self.b1 - self.b0)
    }

    /// The pixel row (minor coordinate) just at or below the crossing at `u`.
    pub open spec fn row(self, u: int) -> int {
        self.b0 + self.cross(u) / self.den()
    }

    /// The crossing's distance above `row(u)`, in units of `1 / den()`.
    pub open spec fn frac(self, u: int) -> int {
        self.cross(u) % self.den()
    }

    pub open spec fn major(self, x: int, y: int) -> int {
        major_at(self.steep, x, y)
    }

    pub open spec fn minor(self, x: int, y: int) -> int {
        minor_at(self.steep, x, y)
    }

    /// What the columns `a0 <= u < lim` write at `(x, y)`: the straddling
    /// pixel at `row(u)` gets the complement of the fraction, the one above it
    /// the fraction (black where the crossing is exactly on a pixel centre).
    pub open spec fn coverage(self, c: Color, x: int, y: int, lim: int) -> Option<Color> {
        let u = self.major(x, y);
        let v = self.minor(x, y);
        if self.a0 <= u && u < lim && u <= self.a1 {
            if v == self.row(u) {
                Some(c.scaled_spec(self.den() - self.frac(u), self.den()))
            } else if v == self.row(u) + 1 {
                Some(c.scaled_spec(self.frac(u), self.den()))
            } else {
                None
            }
        } else {
            None
        }
    }
}

/// What `draw_line_antialiased(p0, p1, c)` writes at `(x, y)`, if anything.
pub open spec fn aa_pixel(p0: PixelLocation, p1: PixelLocation, c: Color, x: int, y: int) -> Option<Color> {
    let s = aa_span(p0, p1);
    s.coverage(c, x, y, s.a1 + 1)
}

/// `s` is the whole number nearest to the square root of `r*r - t*t`
/// (0 where that is negative).
pub open spec fn is_round_root(r: int, t: int, s: int) -> bool {
    let d = 4 * (r * r - t * t);
    &&& 0 <= s
    &&& d <= (2 * s + 1) * (2 * s + 1)
    &&& (s == 0 || (2 * s - 1) * (2 * s - 1) < d)
}

/// Whether the outline of radius `r` reaches the offset `(dx, dy)` from its
/// centre within its first `lim` steps: in the octant where `t <= s`, the
/// step `t` places the pixel `(s, t)` with `s` the rounded root; the other
/// seven octants mirror it.
pub open spec fn circle_hits(r: int, dx: int, dy: int, lim: int) -> bool {
    let a = abs(dx);
    let b = abs(dy);
    &&& r >= 0
    &&& ((b <= a && b < lim && is_round_root(r, b, a)) || (a <= b && a < lim && is_round_root(r, a, b)))
}

/// Whether `draw_circle` with radius `r` writes the offset `(dx, dy)` from its centre.
pub open spec fn on_circle(r: int, dx: int, dy: int) -> bool {
    circle_hits(r, dx, dy, r + 1)
}

/// The rounded root is unique.
pub proof fn lemma_round_root_unique(r: int, t: int, s1: int, s2: int)
    requires
        is_round_root(r, t, s1),
        is_round_root(r, t, s2),
    ensures
        s1 == s2,
{
    let d = 4 * (r * r - t * t);
    if s1 < s2 {
        assert((2 * s1 + 1) * (2 * s1 + 1) <= (2 * s2 - 1) * (2 * s2 - 1)) by (nonlinear_arith)
            requires
                0 <= s1 < s2,
        ;
    } else if s2 < s1 {
        assert((2 * s2 + 1) * (2 * s2 + 1) <= (2 * s1 - 1) * (2 * s1 - 1)) by (nonlinear_arith)
            requires
                0 <= s2 < s1,
        ;
    }
}

impl Canvas {
    /// One write at major/minor coordinates `(u, v)`.
    fn plot_span(&mut self, steep: bool, u: i64, v: i64, c: Color)
        requires
            old(self).wf(),
        ensures
            final(self).wf(),
            final(self)@ == old(self)@.plotted(
                if steep { v as int } else { u as int },
                if steep { u as int } else { v as int },
                c,
            ),
    {
        if steep {
            self.plot(v, u, c);
        } else {
            self.plot(u, v, c);
        }
    }

    /// Writes `(cx +- s, cy +- t)`.
    fn plot_mirrored(&mut self, cx: i64, cy: i64, s: i64, t: i64, c: Color)
        requires
            old(self).wf(),
            0 <= s <= 0x1_0000_0000,
            0 <= t <= 0x1_0000_0000,
            -0x1_0000_0000 <= cx <= 0x1_0000_0000,
            -0x1_0000_0000 <= cy <= 0x1_0000_0000,
        ensures
            final(self).wf(),
            final(self)@.same_surface(old(self)@),
            forall|x: int, y: int| #[trigger]
                final(self)@.in_bounds(x, y) ==> final(self)@.pixel(x, y) == if abs(x - cx) == s
                    && abs(y - cy) == t {
                    c
                } else {
                    old(self)@.pixel(x, y)
                },
    {
        let ghost v0 = self@;
        self.plot(cx + s, cy + t, c);
        let ghost v1 = self@;
        self.plot(cx - s, cy + t, c);
        let ghost v2 = self@;
        self.plot(cx + s, cy - t, c);
        let ghost v3 = self@;
        self.plot(cx - s, cy - t, c);
        proof {
            assert forall|x: int, y: int| #[trigger]
                self@.in_bounds(x, y) implies self@.pixel(x, y) == if abs(x - cx) == s && abs(y - cy) == t {
                    c
                } else {
                    v0.pixel(x, y)
                } by {
                lemma_plotted_pixel(v0, cx + s, cy + t, c, x, y);
                lemma_plotted_pixel(v1, cx - s, cy + t, c, x, y);
                lemma_plotted_pixel(v2, cx + s, cy - t, c, x, y);
                lemma_plotted_pixel(v3, cx - s, cy - t, c, x, y);
            }
        }
    }

    /// The outline of a circle of `radius` pixels around `pixel`, one pixel
    /// thick, not filled, not antialiased (the midpoint circle). A negative
    /// radius draws nothing.
    pub fn draw_circle(&mut self, pixel: &PixelLocation, radius: i32, rgb: &Color)
        requires
            old(self).wf(),
        ensures
            final(self).wf(),
            final(self)@.same_surface(old(self)@),
            forall|x: int, y: int| #[trigger]
                final(self)@.in_bounds(x, y) ==> final(self)@.pixel(x, y) == if on_circle(
                    radius as int,
                    x - pixel.x,
                    y - pixel.y,
                ) {
                    *rgb
                } else {
                    old(self)@.pixel(x, y)
                },
    {
        if radius < 0 {
            return;
        }
        let ghost orig = self@;
        let cx: i64 = pixel.x as i64;
        let cy: i64 = pixel.y as i64;
        let r: i64 = radius as i64;
        assert(0 <= r * r <= 0x4000_0000_0000_0000) by (nonlinear_arith)
            requires
                0 <= r <= 0x8000_0000,
        ;
        let rr: i128 = (r as i128) * (r as i128);
        let mut x: i64 = r;
        let mut y: i64 = 0;
        assert(4 * (r * r - y * y) <= (2 * x + 1) * (2 * x + 1)) by (nonlinear_arith)
            requires
                x == r,
                y == 0,
                r >= 0,
        ;
        while y <= r
            invariant
                self.wf(),
                self@.same_surface(orig),
                orig.wf(),
                0 <= r <= i32::MAX,
                rr == r * r,
                0 <= rr <= 0x4000_0000_0000_0000,
                cx == pixel.x,
                cy == pixel.y,
                r == radius,
                0 <= x <= r,
                0 <= y <= r + 1,
                4 * (r * r - y * y) <= (2 * x + 1) * (2 * x + 1),
                forall|px: int, py: int| #[trigger]
                    self@.in_bounds(px, py) ==> self@.pixel(px, py) == if circle_hits(
                        r as int,
                        px - cx,
                        py - cy,
                        y as int,
                    ) {
                        *rgb
                    } else {
                        orig.pixel(px, py)
                    },
            decreases r + 1 - y,
        {
            assert(0 <= y * y <= 0x4000_0000_0000_0000) by (nonlinear_arith)
                requires
                    0 <= y <= 0x8000_0000,
            ;
            let d: i128 = 4 * (rr - (y as i128) * (y as i128));
            assert(0 < x ==> (2 * x - 1) * (2 * x - 1) <= 0x1_0000_0000_0000_0000) by (nonlinear_arith)
                requires
                    0 <= x <= 0x8000_0000,
            ;
            // settle x on the rounded root for this row
            while x > 0 && (2 * (x as i128) - 1) * (2 * (x as i128) - 1) >= d
                invariant
                    0 <= x <= r,
                    0 <= y <= r,
                    r <= i32::MAX,
                    d == 4 * (r * r - y * y),
                    d <= (2 * x + 1) * (2 * x + 1),
                    0 < x ==> (2 * x - 1) * (2 * x - 1) <= 0x1_0000_0000_0000_0000,
                decreases x,
            {
                x = x - 1;
                assert(0 < x ==> (2 * x - 1) * (2 * x - 1) <= 0x1_0000_0000_0000_0000) by (nonlinear_arith)
                    requires
                        0 <= x <= 0x8000_0000,
                ;
            }
            assert(is_round_root(r as int, y as int, x as int));
            let ghost before = self@;
            if y <= x {
                self.plot_mirrored(cx, cy, x, y, *rgb);
                let ghost mid = self@;
                self.plot_mirrored(cx, cy, y, x, *rgb);
                proof {
                    assert forall|px: int, py: int| #[trigger]
                        self@.in_bounds(px, py) implies self@.pixel(px, py) == if circle_hits(
                            r as int,
                            px - cx,
                            py - cy,
                            y + 1,
                        ) {
                            *rgb
                        } else {
                            orig.pixel(px, py)
                        } by {
                        assert(before.in_bounds(px, py));
                        assert(mid.in_bounds(px, py));
                        let a = abs(px - cx);
                        let b = abs(py - cy);
                        if b <= a && b == y && is_round_root(r as int, b, a) {
                            lemma_round_root_unique(r as int, y as int, a, x as int);
                        }
                        if a <= b && a == y && is_round_root(r as int, a, b) {
                            lemma_round_root_unique(r as int, y as int, b, x as int);
                        }
                    }
                }
            } else {
                proof {
                    assert forall|px: int, py: int| #[trigger]
                        self@.in_bounds(px, py) implies self@.pixel(px, py) == if circle_hits(
                            r as int,
                            px - cx,
                            py - cy,
                            y + 1,
                        ) {
                            *rgb
                        } else {
                            orig.pixel(px, py)
                        } by {
                        let a = abs(px - cx);
                        let b = abs(py - cy);
                        if b <= a && b == y && is_round_root(r as int, b, a) {
                            lemma_round_root_unique(r as int, y as int, a, x as int);
                        }
                        if a <= b && a == y && is_round_root(r as int, a, b) {
                            lemma_round_root_unique(r as int, y as int, b, x as int);
                        }
                    }
                }
            }
            assert(4 * (r * r - (y + 1) * (y + 1)) <= 4 * (r * r - y * y)) by (nonlinear_arith)
                requires
                    y >= 0,
            ;
            y = y + 1;
        }
    }

    /// The discrete line from `p0` to `p1`, both ends included, in one
    /// colour. Steps one pixel at a time along the major axis and carries the
    /// minor-axis error as an integer (Bresenham).
    pub fn draw_line(&mut self, p0: &PixelLocation, p1: &PixelLocation, rgb: &Color)
        requires
            old(self).wf(),
        ensures
            final(self).wf(),
            final(self)@.same_surface(old(self)@),
            forall|x: int, y: int| #[trigger]
                final(self)@.in_bounds(x, y) ==> final(self)@.pixel(x, y) == if on_line(
                    *p0,
                    *p1,
                    x,
                    y,
                ) {
                    *rgb
                } else {
                    old(self)@.pixel(x, y)
                },
    {
        let ghost orig = self@;
        let x0: i64 = p0.x as i64;
        let y0: i64 = p0.y as i64;
        let x1: i64 = p1.x as i64;
        let y1: i64 = p1.y as i64;
        let adx: i64 = if x1 >= x0 { x1 - x0 } else { x0 - x1 };
        let ady: i64 = if y1 >= y0 { y1 - y0 } else { y0 - y1 };
        let steep = ady > adx;
        let u0: i64 = if steep { y0 } else { x0 };
        let v0: i64 = if steep { x0 } else { y0 };
        let u1: i64 = if steep { y1 } else { x1 };
        let v1: i64 = if steep { x1 } else { y1 };
        let n: i64 = if steep { ady } else { adx };
        let m: i64 = if steep { adx } else { ady };
        assert(steep == line_steep(*p0, *p1));

        // the error term is 2*i*m + n - 2*n*off, kept in [0, 2n)
        let mut i: i64 = 0;
        let mut off: i64 = 0;
        let mut err: i64 = n;
        proof {
            assert(2 * i * m == 0) by (nonlinear_arith)
                requires
                    i == 0,
            ;
            assert(2 * n * off == 0) by (nonlinear_arith)
                requires
                    off == 0,
            ;
            if n > 0 {
                vstd::arithmetic::div_mod::lemma_fundamental_div_mod_converse(
                    n as int,
                    2 * n as int,
                    0,
                    n as int,
                );
            }
        }
        while i <= n
            invariant
                self.wf(),
                self@.same_surface(orig),
                orig.wf(),
                steep == line_steep(*p0, *p1),
                u0 == major_of(steep, *p0),
                u1 == major_of(steep, *p1),
                v0 == minor_of(steep, *p0),
                v1 == minor_of(steep, *p1),
                n == abs(u1 - u0),
                m == abs(v1 - v0),
                0 <= m <= n <= 0x1_0000_0000,
                0 <= i <= n + 1,
                0 <= off <= i,
                i <= n ==> off == minor_step(i as int, m as int, n as int),
                n > 0 ==> 0 <= err < 2 * n,
                n > 0 ==> 2 * i * m + n == 2 * n * off + err,
                forall|x: int, y: int| #[trigger]
                    self@.in_bounds(x, y) ==> self@.pixel(x, y) == if line_hits(
                        *p0,
                        *p1,
                        x,
                        y,
                        i as int,
                    ) {
                        *rgb
                    } else {
                        orig.pixel(x, y)
                    },
            decreases n + 1 - i,
        {
            let u: i64 = if u1 >= u0 { u0 + i } else { u0 - i };
            let v: i64 = if v1 >= v0 { v0 + off } else { v0 - off };
            let ghost before = self@;
            self.plot_span(steep, u, v, *rgb);
            proof {
                assert forall|x: int, y: int| #[trigger]
                    self@.in_bounds(x, y) implies self@.pixel(x, y) == if line_hits(
                        *p0,
                        *p1,
                        x,
                        y,
                        i + 1,
                    ) {
                        *rgb
                    } else {
                        orig.pixel(x, y)
                    } by {
                    assert(before.in_bounds(x, y));
                    let px = if steep { v as int } else { u as int };
                    let py = if steep { u as int } else { v as int };
                    lemma_plotted_pixel(before, px, py, *rgb, x, y);
                }
            }
            if n > 0 {
                let ghost (off_prev, err_prev) = (off, err);
                err = err + 2 * m;
                if err >= 2 * n {
                    off = off + 1;
                    err = err - 2 * n;
                }
                proof {
                    assert(2 * (i + 1) * m + n == 2 * n * off + err) by (nonlinear_arith)
                        requires
                            2 * i * m + n == 2 * n * off_prev + err_prev,
                            (off == off_prev && err == err_prev + 2 * m) || (off == off_prev + 1
                                && err == err_prev + 2 * m - 2 * n),
                    ;
                    if i + 1 <= n {
                        assert(2 * n * off == off * (2 * n)) by (nonlinear_arith);
                        vstd::arithmetic::div_mod::lemma_fundamental_div_mod_converse(
                            2 * (i + 1) * m + n,
                            2 * n as int,
                            off as int,
                            err as int,
                        );
                    }
                }
            }
            i = i + 1;
        }
    }

    /// Wu's antialiased line from `pp0` to `pp1`. Along the major axis every
    /// column gets the two pixels that straddle the ideal line, each with the
    /// colour scaled by its share of coverage. The endpoints are pixel
    /// centres, so they are drawn at full coverage. Pixels are overwritten,
    /// not blended with what the surface held.
    pub fn draw_line_antialiased(&mut self, pp0: &PixelLocation, pp1: &PixelLocation, rgb: &Color)
        requires
            old(self).wf(),
        ensures
            final(self).wf(),
            final(self)@.same_surface(old(self)@),
            forall|x: int, y: int| #[trigger]
                final(self)@.in_bounds(x, y) ==> final(self)@.pixel(x, y) == overlay(
                    old(self)@,
                    x,
                    y,
                    aa_pixel(*pp0, *pp1, *rgb, x, y),
                ),
    {
        let ghost span = aa_span(*pp0, *pp1);
        let ghost orig = self@;
        let x0: i64 = pp0.x as i64;
        let y0: i64 = pp0.y as i64;
        let x1: i64 = pp1.x as i64;
        let y1: i64 = pp1.y as i64;
        let adx: i64 = if x1 >= x0 { x1 - x0 } else { x0 - x1 };
        let ady: i64 = if y1 >= y0 { y1 - y0 } else { y0 - y1 };
        let steep = ady > adx;

        // transpose so that the major axis is horizontal
        let mut a0: i64 = if steep { y0 } else { x0 };
        let mut b0: i64 = if steep { x0 } else { y0 };
        let mut a1: i64 = if steep { y1 } else { x1 };
        let mut b1: i64 = if steep { x1 } else { y1 };

        // order the endpoints along the major axis
        if a0 > a1 {
            let ta = a0;
            let tb = b0;
            a0 = a1;
            b0 = b1;
            a1 = ta;
            b1 = tb;
        }
        let da: i64 = a1 - a0;
        let db: i64 = b1 - b0;
        let den: i64 = if da == 0 { 1 } else { da };
        assert(span.steep == steep && span.a0 == a0 && span.b0 == b0 && span.a1 == a1 && span.b1 == b1);
        assert(-den <= db <= den);

        // the crossing at column u lies at b0 + q + r / den
        let mut u: i64 = a0;
        let mut q: i64 = 0;
        let mut r: i64 = 0;
        assert(span.cross(a0 as int) == 0) by (nonlinear_arith)
            requires
                span.cross(a0 as int) == (a0 - span.a0) * (span.b1 - span.b0),
                a0 == span.a0,
        ;
        while u <= a1
            invariant
                self.wf(),
                self@.same_surface(orig),
                orig.wf(),
                span == aa_span(*pp0, *pp1),
                span.steep == steep,
                span.a0 == a0,
                span.b0 == b0,
                span.a1 == a1,
                span.b1 == b1,
                db == b1 - b0,
                den == span.den(),
                0 < den <= 0x1_0000_0000,
                -den <= db <= den,
                a0 <= u <= a1 + 1,
                a1 <= i32::MAX,
                -0x1_0000_0000 <= b0 <= 0x1_0000_0000,
                -(u - a0) <= q <= u - a0,
                0 <= r < den,
                span.cross(u as int) == q * den + r,
                forall|x: int, y: int| #[trigger]
                    self@.in_bounds(x, y) ==> self@.pixel(x, y) == overlay(
                        orig,
                        x,
                        y,
                        span.coverage(*rgb, x, y, u as int),
                    ),
            decreases a1 + 1 - u,
        {
            proof {
                vstd::arithmetic::div_mod::lemma_fundamental_div_mod_converse(
                    span.cross(u as int),
                    den as int,
                    q as int,
                    r as int,
                );
            }
            let ghost before = self@;
            let lower = rgb.scaled((den - r) as u64, den as u64);
            self.plot_span(steep, u, b0 + q, lower);
            let ghost mid = self@;
            let upper = rgb.scaled(r as u64, den as u64);
            self.plot_span(steep, u, b0 + q + 1, upper);
            proof {
                assert forall|x: int, y: int| #[trigger]
                    self@.in_bounds(x, y) implies self@.pixel(x, y) == overlay(
                        orig,
                        x,
                        y,
                        span.coverage(*rgb, x, y, u + 1),
                    ) by {
                    let lx = if steep { (b0 + q) as int } else { u as int };
                    let ly = if steep { u as int } else { (b0 + q) as int };
                    assert(before.in_bounds(x, y));
                    assert(before.pixel(x, y) == overlay(orig, x, y, span.coverage(*rgb, x, y, u as int)));
                    assert(span.row(u as int) == b0 + q);
                    assert(span.frac(u as int) == r);
                    lemma_plotted_pixel(before, lx, ly, lower, x, y);
                    let hx = if steep { (b0 + q + 1) as int } else { u as int };
                    let hy = if steep { u as int } else { (b0 + q + 1) as int };
                    lemma_plotted_pixel(mid, hx, hy, upper, x, y);
                }
                assert(span.cross(u + 1) == span.cross(u as int) + db) by (nonlinear_arith)
                    requires
                        span.cross(u + 1) == (u + 1 - span.a0) * (span.b1 - span.b0),
                        span.cross(u as int) == (u - span.a0) * (span.b1 - span.b0),
                        db == span.b1 - span.b0,
                ;
            }
            let ghost (q_prev, r_prev) = (q, r);
            r = r + db;
            if r >= den {
                q = q + 1;
                r = r - den;
            } else if r < 0 {
                q = q - 1;
                r = r + den;
            }
            assert(q * den + r == q_prev * den + r_prev + db) by (nonlinear_arith)
                requires
                    (q == q_prev && r == r_prev + db) || (q == q_prev + 1 && r == r_prev + db - den)
                        || (q == q_prev - 1 && r == r_prev + db + den),
            ;
            u = u + 1;
        }
    }
}

} // verus!

verus! {

/// A line from a point to itself covers exactly that point.
pub proof fn lemma_line_to_itself(p: PixelLocation, x: int, y: int)
    ensures
        on_line(p, p, x, y) <==> (x == p.x && y == p.y),
{
}

/// Full coverage leaves a colour as it is.
pub proof fn lemma_full_coverage(c: Color, den: int)
    requires
        0 < den,
    ensures
        c.scaled_spec(den, den) == c,
{
    crate::color::lemma_scale_bounded(c.r, den, den);
    crate::color::lemma_scale_bounded(c.g, den, den);
    crate::color::lemma_scale_bounded(c.b, den, den);
}

proof fn lemma_minor_step_exact(i: int, m: int, n: int)
    requires
        0 <= i,
        m == 0 || m == n,
        0 <= n,
    ensures
        minor_step(i, m, n) == if m == 0 {
            0
        } else {
            i
        },
{
    if n > 0 {
        if m == 0 {
            assert(2 * i * m == 0) by (nonlinear_arith)
                requires
                    m == 0,
            ;
            vstd::arithmetic::div_mod::lemma_fundamental_div_mod_converse(n, 2 * n, 0, n);
        } else {
            assert(2 * i * m + n == i * (2 * n) + n) by (nonlinear_arith)
                requires
                    m == n,
            ;
            vstd::arithmetic::div_mod::lemma_fundamental_div_mod_converse(2 * i * m + n, 2 * n, i, n);
        }
    }
}

/// Whether `(x, y)` is the pixel just past the plain line from `p0` to `p1`
/// across its major axis: one row below a line pixel when the line is
/// shallow, one column right of it when it is steep.
pub open spec fn beside_line(p0: PixelLocation, p1: PixelLocation, x: int, y: int) -> bool {
    if line_steep(p0, p1) {
        on_line(p0, p1, x - 1, y)
    } else {
        on_line(p0, p1, x, y - 1)
    }
}

/// Zero coverage turns a colour black.
pub proof fn lemma_zero_coverage(c: Color, den: int)
    requires
        0 < den,
    ensures
        c.scaled_spec(0, den) == Color::black_spec(),
{
    crate::color::lemma_scale_bounded(c.r, 0, den);
    crate::color::lemma_scale_bounded(c.g, 0, den);
    crate::color::lemma_scale_bounded(c.b, 0, den);
}

/// On a horizontal, vertical or 45-degree segment every crossing falls on a
/// pixel centre: the antialiased line writes the pixels of the plain line
/// at the full colour, and the straddling pixel beside each of them at zero
/// coverage, black.
pub proof fn lemma_antialiased_exact_on_axes_and_diagonals(
    p0: PixelLocation,
    p1: PixelLocation,
    c: Color,
    x: int,
    y: int,
)
    requires
        p0.x == p1.x || p0.y == p1.y || abs(p1.x - p0.x) == abs(p1.y - p0.y),
    ensures
        aa_pixel(p0, p1, c, x, y) == if on_line(p0, p1, x, y) {
            Some(c)
        } else if beside_line(p0, p1, x, y) {
            Some(Color::black_spec())
        } else {
            None
        },
{
    let s = aa_span(p0, p1);
    let u = s.major(x, y);
    let den = s.den();
    lemma_full_coverage(c, den);
    lemma_zero_coverage(c, den);
    assert(s.b1 == s.b0 || s.b1 - s.b0 == s.a1 - s.a0 || s.b1 - s.b0 == s.a0 - s.a1);
    if s.b1 == s.b0 {
        assert(s.cross(u) == 0 * den + 0) by (nonlinear_arith)
            requires
                s.cross(u) == (u - s.a0) * (s.b1 - s.b0),
                s.b1 == s.b0,
        ;
        vstd::arithmetic::div_mod::lemma_fundamental_div_mod_converse(s.cross(u), den, 0, 0);
    } else if s.b1 - s.b0 == s.a1 - s.a0 {
        assert(s.cross(u) == (u - s.a0) * den + 0) by (nonlinear_arith)
            requires
                s.cross(u) == (u - s.a0) * (s.b1 - s.b0),
                s.b1 - s.b0 == s.a1 - s.a0,
                den == s.a1 - s.a0,
        ;
        vstd::arithmetic::div_mod::lemma_fundamental_div_mod_converse(s.cross(u), den, u - s.a0, 0);
    } else {
        assert(s.cross(u) == (s.a0 - u) * den + 0) by (nonlinear_arith)
            requires
                s.cross(u) == (u - s.a0) * (s.b1 - s.b0),
                s.b1 - s.b0 == s.a0 - s.a1,
                den == s.a1 - s.a0,
        ;
        vstd::arithmetic::div_mod::lemma_fundamental_div_mod_converse(s.cross(u), den, s.a0 - u, 0);
    }
    let st = line_steep(p0, p1);
    let u0 = major_of(st, p0);
    let u1 = major_of(st, p1);
    let i = steps_to(u0, u1, major_at(st, x, y));
    if i >= 0 {
        lemma_minor_step_exact(i, abs(minor_of(st, p1) - minor_of(st, p0)), abs(u1 - u0));
    }
}

/// A 45-degree line of `k` steps lights one pixel per column, `k + 1` in
/// all: the `i`-th column from `p0` on holds the pixel `i` rows from `p0`
/// towards `p1`.
pub proof fn lemma_diagonal_line_pixels(p0: PixelLocation, p1: PixelLocation, x: int, y: int)
    requires
        abs(p1.x - p0.x) == abs(p1.y - p0.y),
    ensures
        on_line(p0, p1, x, y) <==> ({
            let i = steps_to(p0.x as int, p1.x as int, x);
            &&& 0 <= i <= abs(p1.x - p0.x)
            &&& y == step_from(p0.y as int, p1.y as int, i)
        }),
{
    let i = steps_to(p0.x as int, p1.x as int, x);
    if i >= 0 {
        lemma_minor_step_exact(i, abs(p1.y - p0.y), abs(p1.x - p0.x));
    }
}

/// On a cleared (black) surface an antialiased horizontal, vertical or
/// 45-degree segment leaves exactly what the plain line leaves: its pixels
/// in the full colour and nothing bleeding beside them.
pub proof fn lemma_antialiased_on_black_matches_line(
    v: CanvasView,
    p0: PixelLocation,
    p1: PixelLocation,
    c: Color,
    x: int,
    y: int,
)
    requires
        p0.x == p1.x || p0.y == p1.y || abs(p1.x - p0.x) == abs(p1.y - p0.y),
        v.pixel(x, y) == Color::black_spec(),
    ensures
        overlay(v, x, y, aa_pixel(p0, p1, c, x, y)) == if on_line(p0, p1, x, y) {
            c
        } else {
            v.pixel(x, y)
        },
{
    lemma_antialiased_exact_on_axes_and_diagonals(p0, p1, c, x, y);
}

} // verus!
