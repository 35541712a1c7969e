use vstd::prelude::*;

use crate::canvas::{lemma_plotted_pixel, Canvas, PixelLocation};
use crate::color::Color;
use vstd::string::StrSliceExecFns;

verus! {

/// One glyph of a bitmap font. Row `r` of its bitmap has the pixel of
/// column `c` in bit `31 - c`; only the first `width` columns count.
pub struct Glyph {
    pub codepoint: char,
    pub width: u32,
    pub advance: i32,
    pub rows: Vec<u32>,
}

/// The parsed glyph data of a font: its glyphs, its line height, and the
/// baseline, counted in rows from the top of a glyph.
pub struct LedFont {
    pub glyphs: Vec<Glyph>,
    pub height: i32,
    pub baseline: i32,
}

/// A loaded font, owned by whoever draws with it.
pub struct Font {
    pub font: LedFont,
}

/// The character a font draws in place of one it has no glyph for.
pub const REPLACEMENT: char = '\u{FFFD}';

/// Index of the first glyph from `i` on that draws `ch`.
pub open spec fn glyph_from(gs: Seq<Glyph>, ch: char, i: int) -> Option<int>
    decreases gs.len() - i,
{
    if i < 0 || i >= gs.len() {
        None
    } else if gs[i].codepoint == ch {
        Some(i)
    } else {
        glyph_from(gs, ch, i + 1)
    }
}

/// The glyph a font draws for `ch`: its own, else the replacement glyph, else none.
pub open spec fn glyph_for(f: LedFont, ch: char) -> Option<int> {
    match glyph_from(f.glyphs@, ch, 0) {
        Some(i) => Some(i),
        None => glyph_from(f.glyphs@, REPLACEMENT, 0),
    }
}

pub open spec fn bit_set(row: u32, col: int) -> bool {
    0 <= col < 32 && (row >> ((31 - col) as u32)) & 1 == 1
}

/// Whether the glyph for `ch`, with its top-left corner at `(gx, gy)`, lights `(x, y)`.
pub open spec fn glyph_hits(f: LedFont, ch: char, gx: int, gy: int, x: int, y: int) -> bool {
    match glyph_for(f, ch) {
        Some(i) => {
            let g = f.glyphs@[i];
            let row = y - gy;
            let col = x - gx;
            &&& 0 <= row < g.rows@.len()
            &&& 0 <= col < g.width
            &&& bit_set(g.rows@[row], col)
        },
        None => false,
    }
}

/// How far the pen moves after drawing `ch`: the glyph's advance when
/// writing across, the line height when writing down; then the kerning.
pub open spec fn pen_step(f: LedFont, ch: char, vertical: bool, kerning: int) -> int {
    if vertical {
        f.height + kerning
    } else {
        match glyph_for(f, ch) {
            Some(i) => f.glyphs@[i].advance + kerning,
            None => kerning,
        }
    }
}

/// The pen position (along the writing direction) after the characters `cs`.
pub open spec fn pen_after(f: LedFont, cs: Seq<char>, start: int, vertical: bool, kerning: int) -> int
    decreases cs.len(),
{
    if cs.len() == 0 {
        start
    } else {
        pen_after(f, cs.drop_last(), start, vertical, kerning) + pen_step(f, cs.last(), vertical, kerning)
    }
}

/// Whether the text `cs`, written from `origin` (a point on the baseline),
/// lights `(x, y)`.
pub open spec fn text_hits(
    f: LedFont,
    cs: Seq<char>,
    origin: PixelLocation,
    vertical: bool,
    kerning: int,
    x: int,
    y: int,
) -> bool
    decreases cs.len(),
{
    if cs.len() == 0 {
        false
    } else {
        let start = if vertical { origin.y as int } else { origin.x as int };
        let pen = pen_after(f, cs.drop_last(), start, vertical, kerning);
        let gx = if vertical { origin.x as int } else { pen };
        let gy = (if vertical { pen } else { origin.y as int }) - f.baseline;
        text_hits(f, cs.drop_last(), origin, vertical, kerning, x, y) || glyph_hits(f, cs.last(), gx, gy, x, y)
    }
}

fn find_glyph(f: &LedFont, ch: char) -> (res: Option<usize>)
    ensures
        res matches Some(i) ==> glyph_for(*f, ch) == Some(i as int) && i < f.glyphs@.len(),
        res is None ==> glyph_for(*f, ch) is None,
{
    let own = find_from(&f.glyphs, ch);
    match own {
        Some(i) => Some(i),
        None => find_from(&f.glyphs, REPLACEMENT),
    }
}

fn find_from(gs: &Vec<Glyph>, ch: char) -> (res: Option<usize>)
    ensures
        res matches Some(i) ==> glyph_from(gs@, ch, 0) == Some(i as int) && i < gs@.len(),
        res is None ==> glyph_from(gs@, ch, 0) is None,
{
    let mut i: usize = 0;
    while i < gs.len()
        invariant
            i <= gs@.len(),
            glyph_from(gs@, ch, 0) == glyph_from(gs@, ch, i as int),
        decreases gs@.len() - i,
    {
        if gs[i].codepoint == ch {
            return Some(i);
        }
        i = i + 1;
    }
    None
}

impl Canvas {
    /// One write at coordinates of any size; off the surface it is dropped.
    fn plot_far(&mut self, x: i128, y: i128, c: Color)
        requires
            old(self).wf(),
        ensures
            final(self).wf(),
            final(self)@ == old(self)@.plotted(x as int, y as int, c),
    {
        if 0 <= x && x <= i32::MAX as i128 && 0 <= y && y <= i32::MAX as i128 {
            self.plot(x as i64, y as i64, c);
        }
    }

    /// Draws glyph `g` with its top-left corner at `(gx, gy)`.
    fn draw_glyph(&mut self, g: &Glyph, gx: i128, gy: i128, rgb: Color)
        requires
            old(self).wf(),
            -0x1_0000_0000_0000_0000_0000_0000_0000 <= gx <= 0x1_0000_0000_0000_0000_0000_0000_0000,
            -0x1_0000_0000_0000_0000_0000_0000_0000 <= gy <= 0x1_0000_0000_0000_0000_0000_0000_0000,
        ensures
            final(self).wf(),
            final(self)@.same_surface(old(self)@),
            forall|x: int, y: int| #[trigger]
                final(self)@.in_bounds(x, y) ==> final(self)@.pixel(x, y) == if 0 <= y - gy
                    < g.rows@.len() && 0 <= x - gx < g.width && bit_set(g.rows@[y - gy], x - gx) {
                    rgb
                } else {
                    old(self)@.pixel(x, y)
                },
    {
        let ghost orig = self@;
        let width: u32 = if g.width > 32 { 32 } else { g.width };
        let mut r: usize = 0;
        while r < g.rows.len()
            invariant
                self.wf(),
                self@.same_surface(orig),
                orig.wf(),
                r <= g.rows@.len(),
                width <= 32,
                width <= g.width,
                width < g.width ==> width == 32,
                -0x1_0000_0000_0000_0000_0000_0000_0000 <= gx <= 0x1_0000_0000_0000_0000_0000_0000_0000,
                -0x1_0000_0000_0000_0000_0000_0000_0000 <= gy <= 0x1_0000_0000_0000_0000_0000_0000_0000,
                forall|x: int, y: int| #[trigger]
                    self@.in_bounds(x, y) ==> self@.pixel(x, y) == if 0 <= y - gy < r && 0 <= x
                        - gx < g.width && bit_set(g.rows@[y - gy], x - gx) {
                        rgb
                    } else {
                        orig.pixel(x, y)
                    },
            decreases g.rows@.len() - r,
        {
            let bits: u32 = g.rows[r];
            let mut c: u32 = 0;
            while c < width
                invariant
                    self.wf(),
                    self@.same_surface(orig),
                    orig.wf(),
                    r < g.rows@.len(),
                    bits == g.rows@[r as int],
                    c <= width,
                    width <= 32,
                    width <= g.width,
                    -0x1_0000_0000_0000_0000_0000_0000_0000 <= gx <= 0x1_0000_0000_0000_0000_0000_0000_0000,
                    -0x1_0000_0000_0000_0000_0000_0000_0000 <= gy <= 0x1_0000_0000_0000_0000_0000_0000_0000,
                    forall|x: int, y: int| #[trigger]
                        self@.in_bounds(x, y) ==> self@.pixel(x, y) == if (0 <= y - gy < r && 0
                            <= x - gx < g.width && bit_set(g.rows@[y - gy], x - gx)) || (y - gy
                            == r && 0 <= x - gx < c && bit_set(bits, x - gx)) {
                            rgb
                        } else {
                            orig.pixel(x, y)
                        },
                decreases width - c,
            {
                if (bits >> (31 - c)) & 1 == 1 {
                    let ghost before = self@;
                    self.plot_far(gx + c as i128, gy + r as i128, rgb);
                    proof {
                        assert forall|x: int, y: int| #[trigger]
                            self@.in_bounds(x, y) implies self@.pixel(x, y) == if (0 <= y - gy < r
                                && 0 <= x - gx < g.width && bit_set(g.rows@[y - gy], x - gx)) || (y
                                - gy == r && 0 <= x - gx < c + 1 && bit_set(bits, x - gx)) {
                                rgb
                            } else {
                                orig.pixel(x, y)
                            } by {
                            assert(before.in_bounds(x, y));
                            lemma_plotted_pixel(before, gx + c, gy + r, rgb, x, y);
                        }
                    }
                } else {
                    proof {
                        assert forall|x: int, y: int| #[trigger]
                            self@.in_bounds(x, y) implies self@.pixel(x, y) == if (0 <= y - gy < r
                                && 0 <= x - gx < g.width && bit_set(g.rows@[y - gy], x - gx)) || (y
                                - gy == r && 0 <= x - gx < c + 1 && bit_set(bits, x - gx)) {
                                rgb
                            } else {
                                orig.pixel(x, y)
                            } by {
                            if y - gy == r && x - gx == c {
                                assert(!bit_set(bits, c as int));
                            }
                        }
                    }
                }
                c = c + 1;
            }
            proof {
                assert forall|x: int, y: int| #[trigger]
                    self@.in_bounds(x, y) implies self@.pixel(x, y) == if 0 <= y - gy < r + 1 && 0
                        <= x - gx < g.width && bit_set(g.rows@[y - gy], x - gx) {
                        rgb
                    } else {
                        orig.pixel(x, y)
                    } by {
                    if y - gy == r && 0 <= x - gx < g.width && x - gx >= width {
                        assert(!bit_set(bits, x - gx));
                    }
                }
            }
            r = r + 1;
        }
    }

    /// Writes `text` glyph by glyph from `origin`, a point on the baseline,
    /// moving the pen across or down after each glyph.
    fn draw_text_along(
        &mut self,
        f: &LedFont,
        origin: &PixelLocation,
        rgb: Color,
        text: &str,
        kerning: i32,
        vertical: bool,
    )
        requires
            old(self).wf(),
        ensures
            final(self).wf(),
            final(self)@.same_surface(old(self)@),
            forall|x: int, y: int| #[trigger]
                final(self)@.in_bounds(x, y) ==> final(self)@.pixel(x, y) == if text_hits(
                    *f,
                    text@,
                    *origin,
                    vertical,
                    kerning as int,
                    x,
                    y,
                ) {
                    rgb
                } else {
                    old(self)@.pixel(x, y)
                },
    {
        let ghost orig = self@;
        let n: usize = text.unicode_len();
        let start: i128 = if vertical { origin.y as i128 } else { origin.x as i128 };
        let mut pen: i128 = start;
        let mut k: usize = 0;
        assert(text@.subrange(0, 0) =~= Seq::<char>::empty());
        while k < n
            invariant
                self.wf(),
                self@.same_surface(orig),
                orig.wf(),
                n == text@.len(),
                k <= n,
                start == (if vertical { origin.y as int } else { origin.x as int }),
                pen == pen_after(*f, text@.subrange(0, k as int), start as int, vertical, kerning as int),
                -(k as int) * 0x1_0000_0000 <= pen - start <= k * 0x1_0000_0000,
                forall|x: int, y: int| #[trigger]
                    self@.in_bounds(x, y) ==> self@.pixel(x, y) == if text_hits(
                        *f,
                        text@.subrange(0, k as int),
                        *origin,
                        vertical,
                        kerning as int,
                        x,
                        y,
                    ) {
                        rgb
                    } else {
                        orig.pixel(x, y)
                    },
            decreases n - k,
        {
            let ch = text.get_char(k);
            let found = find_glyph(f, ch);
            let gx: i128 = if vertical { origin.x as i128 } else { pen };
            let gy: i128 = (if vertical { pen } else { origin.y as i128 }) - f.baseline as i128;
            let ghost before = self@;
            let ghost prefix = text@.subrange(0, k as int);
            let ghost next = text@.subrange(0, k + 1);
            assert(next.drop_last() =~= prefix);
            assert(next.last() == ch);
            match found {
                Some(i) => {
                    self.draw_glyph(&f.glyphs[i], gx, gy, rgb);
                },
                None => {},
            }
            proof {
                assert forall|x: int, y: int| #[trigger]
                    self@.in_bounds(x, y) implies self@.pixel(x, y) == if text_hits(
                        *f,
                        next,
                        *origin,
                        vertical,
                        kerning as int,
                        x,
                        y,
                    ) {
                        rgb
                    } else {
                        orig.pixel(x, y)
                    } by {
                    assert(before.in_bounds(x, y));
                }
            }
            let step: i128 = if vertical {
                f.height as i128 + kerning as i128
            } else {
                match found {
                    Some(i) => f.glyphs[i].advance as i128 + kerning as i128,
                    None => kerning as i128,
                }
            };
            pen = pen + step;
            k = k + 1;
        }
        assert(text@.subrange(0, n as int) =~= text@);
    }

    /// Writes `utf8_text` left to right with `font`, starting at
    /// `pixel_start` on the baseline; `kerning_offset` is added between
    /// glyphs and may be negative.
    pub fn draw_text(
        &mut self,
        font: &mut Font,
        pixel_start: &PixelLocation,
        rgb: &Color,
        utf8_text: &str,
        kerning_offset: i32,
    )
        requires
            old(self).wf(),
        ensures
            final(self).wf(),
            final(self)@.same_surface(old(self)@),
            *final(font) == *old(font),
            forall|x: int, y: int| #[trigger]
                final(self)@.in_bounds(x, y) ==> final(self)@.pixel(x, y) == if text_hits(
                    old(font).font,
                    utf8_text@,
                    *pixel_start,
                    false,
                    kerning_offset as int,
                    x,
                    y,
                ) {
                    *rgb
                } else {
                    old(self)@.pixel(x, y)
                },
    {
        self.draw_text_along(&font.font, pixel_start, *rgb, utf8_text, kerning_offset, false);
    }

    /// Writes `utf8_text` top to bottom with `font`, one glyph per line
    /// height, starting at `pixel_start`; `kerning_offset` is added between
    /// glyphs and may be negative.
    pub fn vertical_draw_text(
        &mut self,
        font: &mut Font,
        pixel_start: &PixelLocation,
        rgb: &Color,
        utf8_text: &str,
        kerning_offset: i32,
    )
        requires
            old(self).wf(),
        ensures
            final(self).wf(),
            final(self)@.same_surface(old(self)@),
            *final(font) == *old(font),
            forall|x: int, y: int| #[trigger]
                final(self)@.in_bounds(x, y) ==> final(self)@.pixel(x, y) == if text_hits(
                    old(font).font,
                    utf8_text@,
                    *pixel_start,
                    true,
                    kerning_offset as int,
                    x,
                    y,
                ) {
                    *rgb
                } else {
                    old(self)@.pixel(x, y)
                },
    {
        self.draw_text_along(&font.font, pixel_start, *rgb, utf8_text, kerning_offset, true);
    }
}

/// Why a font file path was refused.
#[derive(Clone, Copy, PartialEq, Eq, Structural, Debug)]
pub enum FontPathError {
    NotFound,
    NotBdf,
    NoExtension,
}

impl FontPathError {
    pub fn message(&self) -> (res: &'static str)
        ensures
            res@ == self.message_spec(),
    {
        match self {
            FontPathError::NotFound => "Filepath does not appear to exist!",
            FontPathError::NotBdf => "Given filepath does not appear to be a .bdf file!",
            FontPathError::NoExtension => "Given filepath doesn't even have a file extension!",
        }
    }

    pub open spec fn message_spec(self) -> Seq<char> {
        match self {
            FontPathError::NotFound => "Filepath does not appear to exist!"@,
            FontPathError::NotBdf => "Given filepath does not appear to be a .bdf file!"@,
            FontPathError::NoExtension => "Given filepath doesn't even have a file extension!"@,
        }
    }
}

/// The largest index in `[lo, hi)` that holds `c`, or -1.
pub open spec fn last_index_of(s: Seq<char>, c: char, lo: int, hi: int) -> int
    decreases hi - lo,
{
    if hi <= lo {
        -1
    } else if s[hi - 1] == c {
        hi - 1
    } else {
        last_index_of(s, c, lo, hi - 1)
    }
}

/// Where the last component of a `/`-separated path starts.
pub open spec fn file_name_start(path: Seq<char>) -> int {
    last_index_of(path, '/', 0, path.len() as int) + 1
}

/// The extension of a path's file name: what follows its last dot, where
/// that dot is not the name's first character.
pub open spec fn extension_of(path: Seq<char>) -> Option<Seq<char>> {
    let f = file_name_start(path);
    let d = last_index_of(path, '.', f, path.len() as int);
    if d > f {
        Some(path.subrange(d + 1, path.len() as int))
    } else {
        None
    }
}

/// The verdict on a font file path: it must exist and name a `.bdf` file.
pub open spec fn font_path_verdict(path: Seq<char>, exists: bool) -> Result<(), FontPathError> {
    if !exists {
        Err(FontPathError::NotFound)
    } else {
        match extension_of(path) {
            None => Err(FontPathError::NoExtension),
            Some(ext) => if ext == "bdf"@ {
                Ok(())
            } else {
                Err(FontPathError::NotBdf)
            },
        }
    }
}

fn last_index(s: &str, c: char, lo: usize, hi: usize) -> (res: i64)
    requires
        lo <= hi <= s@.len(),
        hi < i64::MAX,
    ensures
        res == last_index_of(s@, c, lo as int, hi as int),
{
    let mut i: usize = hi;
    while i > lo
        invariant
            lo <= i <= hi <= s@.len(),
            hi < i64::MAX,
            last_index_of(s@, c, lo as int, hi as int) == last_index_of(s@, c, lo as int, i as int),
        decreases i,
    {
        if s.get_char(i - 1) == c {
            return (i - 1) as i64;
        }
        i = i - 1;
    }
    -1
}

proof fn lemma_last_index_range(s: Seq<char>, c: char, lo: int, hi: int)
    ensures
        last_index_of(s, c, lo, hi) == -1 || lo <= last_index_of(s, c, lo, hi) < hi,
    decreases hi - lo,
{
    if hi > lo && s[hi - 1] != c {
        lemma_last_index_range(s, c, lo, hi - 1);
    }
}

impl Font {
    /// Checks a font file path before the font is loaded from it: the file
    /// must exist (as the caller found) and carry the `bdf` extension.
    pub fn check_path(path: &str, exists: bool) -> (res: Result<(), FontPathError>)
        requires
            path@.len() < i64::MAX,
        ensures
            res == font_path_verdict(path@, exists),
    {
        if !exists {
            return Err(FontPathError::NotFound);
        }
        let n: usize = path.unicode_len();
        let slash = last_index(path, '/', 0, n);
        proof {
            lemma_last_index_range(path@, '/', 0, n as int);
        }
        let f: usize = (slash + 1) as usize;
        let d = last_index(path, '.', f, n);
        proof {
            lemma_last_index_range(path@, '.', f as int, n as int);
            reveal_strlit("bdf");
        }
        if d <= f as i64 {
            return Err(FontPathError::NoExtension);
        }
        let e: usize = (d + 1) as usize;
        let ghost ext = path@.subrange(e as int, n as int);
        if n - e == 3 && path.get_char(e) == 'b' && path.get_char(e + 1) == 'd' && path.get_char(e + 2) == 'f' {
            assert(ext =~= "bdf"@);
            Ok(())
        } else {
            assert(ext != "bdf"@) by {
                if ext == "bdf"@ {
                    assert(ext.len() == 3);
                    assert(ext[0] == 'b' && ext[1] == 'd' && ext[2] == 'f');
                }
            }
            Err(FontPathError::NotBdf)
        }
    }
}

} // verus!
