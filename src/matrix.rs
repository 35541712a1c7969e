use vstd::prelude::*;

use crate::canvas::{Canvas, CanvasView, LedCanvas};
use crate::color::Color;

verus! {

/// How the panels are wired to the controller.
#[derive(Clone, Copy, PartialEq, Eq, Structural, Debug)]
pub enum HardwareMapping {
    Regular,
    AdafruitHat,
    AdafruitHatPWM,
}

/// The order in which a panel expects the colour channels.
#[derive(Clone, Copy, PartialEq, Eq, Structural, Debug)]
pub enum RGBSequence {
    RGB,
    RBG,
    GRB,
    GBR,
    BGR,
    BRG,
}

/// Whether two strings hold the same characters.
fn same_text(a: &str, b: &str) -> (res: bool)
    ensures
        res == (a@ == b@),
{
    let x: &[u8] = a.as_bytes();
    let y: &[u8] = b.as_bytes();
    proof {
        vstd::utf8::encode_utf8_decode_utf8(a@);
        vstd::utf8::encode_utf8_decode_utf8(b@);
    }
    if x.len() != y.len() {
        assert(x@ != y@ && x@ == vstd::utf8::encode_utf8(a@) && y@ == vstd::utf8::encode_utf8(b@));
        return false;
    }
    let mut i: usize = 0;
    while i < x.len()
        invariant
            x@.len() == y@.len(),
            x@ == vstd::utf8::encode_utf8(a@),
            y@ == vstd::utf8::encode_utf8(b@),
            i <= x@.len(),
            forall|j: int| 0 <= j < i ==> x@[j] == y@[j],
        decreases x@.len() - i,
    {
        if x[i] != y[i] {
            assert(x@[i as int] != y@[i as int]);
            return false;
        }
        i = i + 1;
    }
    assert(x@ =~= y@);
    true
}

impl HardwareMapping {
    /// The wiring profile's name in the driver's configuration.
    pub open spec fn name(self) -> Seq<char> {
        match self {
            HardwareMapping::Regular => "regular"@,
            HardwareMapping::AdafruitHat => "adafruit-hat"@,
            HardwareMapping::AdafruitHatPWM => "adafruit-hat-pwm"@,
        }
    }

    /// The profile a name selects; an unknown name selects the regular one.
    pub open spec fn from_name(s: Seq<char>) -> HardwareMapping {
        if s == "adafruit-hat"@ {
            HardwareMapping::AdafruitHat
        } else if s == "adafruit-hat-pwm"@ {
            HardwareMapping::AdafruitHatPWM
        } else {
            HardwareMapping::Regular
        }
    }

    pub fn from_string(string: &str) -> (res: HardwareMapping)
        ensures
            res == HardwareMapping::from_name(string@),
    {
        if same_text(string, "adafruit-hat") {
            HardwareMapping::AdafruitHat
        } else if same_text(string, "adafruit-hat-pwm") {
            HardwareMapping::AdafruitHatPWM
        } else {
            HardwareMapping::Regular
        }
    }

    pub fn to_string(&self) -> (res: &'static str)
        ensures
            res@ == self.name(),
    {
        match self {
            HardwareMapping::Regular => "regular",
            HardwareMapping::AdafruitHat => "adafruit-hat",
            HardwareMapping::AdafruitHatPWM => "adafruit-hat-pwm",
        }
    }
}

/// Reading back the name of a wiring profile gives that profile.
pub proof fn lemma_mapping_name_round_trip(m: HardwareMapping)
    ensures
        HardwareMapping::from_name(m.name()) == m,
{
    reveal_strlit("regular");
    reveal_strlit("adafruit-hat");
    reveal_strlit("adafruit-hat-pwm");
    assert("regular"@.len() == 7 && "adafruit-hat"@.len() == 12 && "adafruit-hat-pwm"@.len() == 16);
}

impl RGBSequence {
    /// The channel order's name in the driver's configuration.
    pub open spec fn name(self) -> Seq<char> {
        match self {
            RGBSequence::RGB => "RGB"@,
            RGBSequence::RBG => "RBG"@,
            RGBSequence::GRB => "GRB"@,
            RGBSequence::GBR => "GBR"@,
            RGBSequence::BGR => "BGR"@,
            RGBSequence::BRG => "BRG"@,
        }
    }

    /// The order a name selects; an unknown name selects RGB.
    pub open spec fn from_name(s: Seq<char>) -> RGBSequence {
        if s == "RBG"@ {
            RGBSequence::RBG
        } else if s == "GRB"@ {
            RGBSequence::GRB
        } else if s == "GBR"@ {
            RGBSequence::GBR
        } else if s == "BGR"@ {
            RGBSequence::BGR
        } else if s == "BRG"@ {
            RGBSequence::BRG
        } else {
            RGBSequence::RGB
        }
    }

    pub fn from_string(string: &str) -> (res: RGBSequence)
        ensures
            res == RGBSequence::from_name(string@),
    {
        if same_text(string, "RBG") {
            RGBSequence::RBG
        } else if same_text(string, "GRB") {
            RGBSequence::GRB
        } else if same_text(string, "GBR") {
            RGBSequence::GBR
        } else if same_text(string, "BGR") {
            RGBSequence::BGR
        } else if same_text(string, "BRG") {
            RGBSequence::BRG
        } else {
            RGBSequence::RGB
        }
    }

    pub fn to_string(&self) -> (res: &'static str)
        ensures
            res@ == self.name(),
    {
        match self {
            RGBSequence::RGB => "RGB",
            RGBSequence::RBG => "RBG",
            RGBSequence::GRB => "GRB",
            RGBSequence::GBR => "GBR",
            RGBSequence::BGR => "BGR",
            RGBSequence::BRG => "BRG",
        }
    }
}

/// Reading back the name of a channel order gives that order.
pub proof fn lemma_sequence_name_round_trip(s: RGBSequence)
    ensures
        RGBSequence::from_name(s.name()) == s,
{
    reveal_strlit("RGB");
    reveal_strlit("RBG");
    reveal_strlit("GRB");
    reveal_strlit("GBR");
    reveal_strlit("BGR");
    reveal_strlit("BRG");
    assert("RGB"@[0] != "GRB"@[0] && "RGB"@[0] != "GBR"@[0] && "RGB"@[0] != "BGR"@[0] && "RGB"@[0] != "BRG"@[0]);
    assert("RGB"@[1] != "RBG"@[1]);
    assert("RBG"@[0] != "GRB"@[0] && "RBG"@[0] != "GBR"@[0] && "RBG"@[0] != "BGR"@[0] && "RBG"@[0] != "BRG"@[0]);
    assert("GRB"@[1] != "GBR"@[1] && "GRB"@[0] != "BGR"@[0] && "GRB"@[0] != "BRG"@[0]);
    assert("GBR"@[0] != "BGR"@[0] && "GBR"@[0] != "BRG"@[0]);
    assert("BGR"@[1] != "BRG"@[1]);
}

/// A panel dimension or count as the driver uses it: a value that is not
/// positive stands for the driver's default.
pub open spec fn or_default(v: i32, default: int) -> int {
    if v > 0 {
        v as int
    } else {
        default
    }
}

/// Rows of one panel when none is given.
pub const DEFAULT_ROWS: i32 = 32;

/// Columns of one panel when none is given.
pub const DEFAULT_COLS: i32 = 32;

/// Configuration of the panel array and of the driver's timing.
#[derive(Clone, Copy, PartialEq, Eq, Structural, Debug)]
pub struct LEDMatrixOptions {
    pub mapping: HardwareMapping,
    pub rows: i32,
    pub cols: i32,
    pub chain_length: i32,
    pub parallel: i32,
    pub pwm_bits: i32,
    pub pwm_lsb_nanoseconds: i32,
    pub pwm_dither_bits: i32,
    pub brightness: u8,
    pub scan_mode: i32,
    pub row_address_type: i32,
    pub multiplexing: i32,
    pub led_rgb_sequence: RGBSequence,
}

impl LEDMatrixOptions {
    /// Width of the whole array: panel columns times the chain length.
    pub open spec fn width_spec(self) -> int {
        or_default(self.cols, DEFAULT_COLS as int) * or_default(self.chain_length, 1)
    }

    /// Height of the whole array: panel rows times the parallel chains.
    pub open spec fn height_spec(self) -> int {
        or_default(self.rows, DEFAULT_ROWS as int) * or_default(self.parallel, 1)
    }

    /// A configuration the driver accepts: a brightness in 1..=100 and a
    /// panel array whose size this machine can address.
    pub open spec fn valid(self) -> bool {
        &&& 1 <= self.brightness <= 100
        &&& self.width_spec() <= i32::MAX
        &&& self.height_spec() <= i32::MAX
        &&& self.width_spec() * self.height_spec() <= usize::MAX
    }

    pub fn new(
        mapping: HardwareMapping,
        rows: i32,
        cols: i32,
        chain_length: i32,
        parallel: i32,
        brightness: u8,
    ) -> (res: LEDMatrixOptions)
        ensures
            res == (LEDMatrixOptions {
                mapping,
                rows,
                cols,
                chain_length,
                parallel,
                pwm_bits: 11,
                pwm_lsb_nanoseconds: 130,
                pwm_dither_bits: 0,
                brightness,
                scan_mode: 0,
                row_address_type: 0,
                multiplexing: 0,
                led_rgb_sequence: RGBSequence::RGB,
            }),
    {
        LEDMatrixOptions {
            mapping,
            rows,
            cols,
            chain_length,
            parallel,
            pwm_bits: 11,
            pwm_lsb_nanoseconds: 130,
            pwm_dither_bits: 0,
            brightness,
            scan_mode: 0,
            row_address_type: 0,
            multiplexing: 0,
            led_rgb_sequence: RGBSequence::RGB,
        }
    }

    /// Width and height of the whole array, or `None` where the
    /// configuration is not valid.
    pub fn display_size(&self) -> (res: Option<(i32, i32)>)
        ensures
            self.valid() ==> (res matches Some(wh) && wh.0 == self.width_spec() && wh.1
                == self.height_spec()),
            !self.valid() ==> res is None,
    {
        let cols: i64 = if self.cols > 0 { self.cols as i64 } else { DEFAULT_COLS as i64 };
        let chain: i64 = if self.chain_length > 0 { self.chain_length as i64 } else { 1 };
        let rows: i64 = if self.rows > 0 { self.rows as i64 } else { DEFAULT_ROWS as i64 };
        let parallel: i64 = if self.parallel > 0 { self.parallel as i64 } else { 1 };
        assert(0 < cols * chain <= 0x4000_0000_0000_0000) by (nonlinear_arith)
            requires
                0 < cols <= 0x8000_0000,
                0 < chain <= 0x8000_0000,
        ;
        assert(0 < rows * parallel <= 0x4000_0000_0000_0000) by (nonlinear_arith)
            requires
                0 < rows <= 0x8000_0000,
                0 < parallel <= 0x8000_0000,
        ;
        let width: i64 = cols * chain;
        let height: i64 = rows * parallel;
        if self.brightness < 1 || self.brightness > 100 || width > i32::MAX as i64 || height
            > i32::MAX as i64 {
            return None;
        }
        assert(0 < width * height <= 0x4000_0000_0000_0000) by (nonlinear_arith)
            requires
                0 < width <= 0x8000_0000,
                0 < height <= 0x8000_0000,
        ;
        let area: u64 = (width as u64) * (height as u64);
        if area as u128 > usize::MAX as u128 {
            return None;
        }
        Some((width as i32, height as i32))
    }

    pub fn is_valid(&self) -> (res: bool)
        ensures
            res == self.valid(),
    {
        self.display_size().is_some()
    }
}

/// What the panel array shows: the frame buffer bound to the display and
/// the brightness it is driven at.
pub struct RGBLedMatrix {
    frame: Canvas,
    brightness: u8,
}

/// The state of a matrix: the displayed frame, the brightness, the next
/// canvas handle to issue and how many canvases are live.
pub struct MatrixView {
    pub options: LEDMatrixOptions,
    pub displayed: CanvasView,
    pub brightness: u8,
    pub next_handle: int,
    pub live: int,
}

impl MatrixView {
    pub open spec fn wf(self) -> bool {
        &&& self.displayed.wf()
        &&& 1 <= self.brightness <= 100
        &&& 0 <= self.displayed.handle.id < self.next_handle <= u64::MAX
        &&& 1 <= self.live <= self.next_handle
    }

    /// A canvas of this display that the caller may present.
    pub open spec fn presentable(self, c: CanvasView) -> bool {
        &&& c.wf()
        &&& c.width == self.displayed.width
        &&& c.height == self.displayed.height
        &&& c.handle.id < self.next_handle
    }

    /// The matrix after `c` is presented at the next refresh.
    pub open spec fn after_swap(self, c: CanvasView) -> MatrixView {
        MatrixView {
            options: self.options,
            displayed: c,
            brightness: self.brightness,
            next_handle: self.next_handle + 1,
            live: self.live,
        }
    }

    /// The canvas handed back by that swap: the frame that was on display,
    /// under a handle never issued before.
    pub open spec fn returned_by_swap(self) -> CanvasView {
        CanvasView { handle: LedCanvas { id: self.next_handle as u64 }, ..self.displayed }
    }
}

/// A display built from chained and parallel panels, with the double
/// buffering that presents finished frames.
pub struct Matrix {
    matrix: RGBLedMatrix,
    options: LEDMatrixOptions,
    next_handle: u64,
    live: u64,
}

impl View for Matrix {
    type V = MatrixView;

    closed spec fn view(&self) -> MatrixView {
        MatrixView {
            options: self.options,
            displayed: self.matrix.frame@,
            brightness: self.matrix.brightness,
            next_handle: self.next_handle as int,
            live: self.live as int,
        }
    }
}

impl Matrix {
    pub open spec fn wf(&self) -> bool {
        self@.wf()
    }

    /// A matrix for a valid configuration, showing a black frame.
    pub fn new_from_options(options: &LEDMatrixOptions) -> (res: Matrix)
        requires
            options.valid(),
        ensures
            res.wf(),
            res@.options == *options,
            res@.displayed.width == options.width_spec(),
            res@.displayed.height == options.height_spec(),
            res@.displayed.handle == (LedCanvas { id: 0 }),
            forall|x: int, y: int| #[trigger]
                res@.displayed.in_bounds(x, y) ==> res@.displayed.pixel(x, y) == Color::black_spec(),
            res@.brightness == options.brightness,
            res@.next_handle == 1,
            res@.live == 1,
    {
        let size = options.display_size();
        let (width, height) = match size {
            Some(wh) => wh,
            None => (0, 0),
        };
        let frame = Canvas::new(LedCanvas { id: 0 }, width, height);
        Matrix {
            matrix: RGBLedMatrix { frame, brightness: options.brightness },
            options: *options,
            next_handle: 1,
            live: 1,
        }
    }

    /// The configuration `Matrix::new` uses: regular wiring, the default
    /// panel width, full brightness.
    pub open spec fn basic_options(rows: i32, chained: i32, parallel: i32) -> LEDMatrixOptions {
        LEDMatrixOptions {
            mapping: HardwareMapping::Regular,
            rows,
            cols: -1i32,
            chain_length: chained,
            parallel,
            pwm_bits: 11,
            pwm_lsb_nanoseconds: 130,
            pwm_dither_bits: 0,
            brightness: 100,
            scan_mode: 0,
            row_address_type: 0,
            multiplexing: 0,
            led_rgb_sequence: RGBSequence::RGB,
        }
    }

    pub fn new(rows: i32, chained: i32, parallel: i32) -> (res: Matrix)
        requires
            Matrix::basic_options(rows, chained, parallel).valid(),
        ensures
            res.wf(),
            res@.options == Matrix::basic_options(rows, chained, parallel),
            res@.displayed.width == Matrix::basic_options(rows, chained, parallel).width_spec(),
            res@.displayed.height == Matrix::basic_options(rows, chained, parallel).height_spec(),
            res@.displayed.handle == (LedCanvas { id: 0 }),
            forall|x: int, y: int| #[trigger]
                res@.displayed.in_bounds(x, y) ==> res@.displayed.pixel(x, y) == Color::black_spec(),
            res@.brightness == 100,
            res@.next_handle == 1,
            res@.live == 1,
    {
        let options = LEDMatrixOptions::new(HardwareMapping::Regular, rows, -1, chained, parallel, 100);
        Matrix::new_from_options(&options)
    }

    /// The configuration the matrix was built from.
    pub fn options(&self) -> (res: &LEDMatrixOptions)
        ensures
            *res == self@.options,
    {
        &self.options
    }

    pub fn get_brightness(&mut self) -> (res: u8)
        ensures
            res == old(self)@.brightness,
            *final(self) == *old(self),
    {
        self.matrix.brightness
    }

    /// Sets the brightness, in percent.
    pub fn set_brightness(&mut self, brightness: u8)
        requires
            old(self).wf(),
            1 <= brightness <= 100,
        ensures
            final(self).wf(),
            final(self)@ == (MatrixView { brightness, ..old(self)@ }),
    {
        self.matrix.brightness = brightness;
    }

    /// The canvas bound to the display.
    pub fn get_canvas(&self) -> (res: &Canvas)
        ensures
            res@ == self@.displayed,
    {
        &self.matrix.frame
    }

    /// How many canvas handles have been issued so far.
    pub fn handles_issued(&self) -> (res: u64)
        ensures
            res == self@.next_handle,
    {
        self.next_handle
    }

    /// How many canvases are live: the displayed one and those handed out.
    pub fn canvas_count(&self) -> (res: u64)
        ensures
            res == self@.live,
    {
        self.live
    }

    /// A new black canvas of the display's size, under a fresh handle.
    pub fn create_offscreen_canvas(&mut self) -> (res: Canvas)
        requires
            old(self).wf(),
            old(self)@.next_handle < u64::MAX,
        ensures
            final(self).wf(),
            final(self)@ == (MatrixView {
                next_handle: old(self)@.next_handle + 1,
                live: old(self)@.live + 1,
                ..old(self)@
            }),
            final(self)@.presentable(res@),
            res@.handle == (LedCanvas { id: old(self)@.next_handle as u64 }),
            forall|x: int, y: int| #[trigger]
                res@.in_bounds(x, y) ==> res@.pixel(x, y) == Color::black_spec(),
    {
        let (width, height) = self.matrix.frame.get_size();
        let res = Canvas::new(LedCanvas { id: self.next_handle }, width, height);
        self.next_handle = self.next_handle + 1;
        self.live = self.live + 1;
        res
    }

    /// Presents `canvas_to_draw` at the next vertical refresh and hands back
    /// the frame that was on display, under a fresh handle, to be drawn into
    /// next. The presented canvas is moved into the display, so the caller
    /// cannot draw into it while it is shown.
    pub fn swap_canvas_on_vsync(&mut self, canvas_to_draw: Canvas) -> (res: Canvas)
        requires
            old(self).wf(),
            old(self)@.presentable(canvas_to_draw@),
            old(self)@.next_handle < u64::MAX,
        ensures
            final(self).wf(),
            final(self)@ == old(self)@.after_swap(canvas_to_draw@),
            res@ == old(self)@.returned_by_swap(),
    {
        let handle = LedCanvas { id: self.next_handle };
        let mut shown = canvas_to_draw;
        core::mem::swap(&mut self.matrix.frame, &mut shown);
        self.next_handle = self.next_handle + 1;
        shown.rehandled(handle)
    }
}

/// A swap shows exactly what was drawn into the presented canvas and hands
/// back the former frame under a handle that neither the presented canvas
/// nor the displayed one had. While handles remain to be issued, the matrix
/// stays well formed and the returned canvas can be presented in turn.
pub proof fn lemma_swap_presents_drawn_frame(m: MatrixView, c: CanvasView)
    requires
        m.wf(),
        m.presentable(c),
    ensures
        m.after_swap(c).displayed == c,
        m.after_swap(c).live == m.live,
        m.returned_by_swap().pixels == m.displayed.pixels,
        m.returned_by_swap().handle != c.handle,
        m.returned_by_swap().handle != m.displayed.handle,
        m.next_handle < u64::MAX ==> m.after_swap(c).wf() && m.after_swap(c).presentable(
            m.returned_by_swap(),
        ),
{
}

/// The matrix and the canvas in hand after each of `frames` is drawn into
/// the canvas in hand and presented, the returned canvas being kept for the
/// next frame.
pub open spec fn swap_cycles(m: MatrixView, held: CanvasView, frames: Seq<Seq<Color>>) -> (MatrixView, CanvasView)
    decreases frames.len(),
{
    if frames.len() == 0 {
        (m, held)
    } else {
        let drawn = CanvasView { pixels: frames[0], ..held };
        swap_cycles(m.after_swap(drawn), m.returned_by_swap(), frames.drop_first())
    }
}

/// Draw-and-swap cycles leak no canvas: the number of live canvases stays
/// as it was and the last frame drawn is the one displayed. While handles
/// remain to be issued, the matrix stays well formed and the canvas in hand
/// can still be presented.
pub proof fn lemma_swap_cycles_keep_live(m: MatrixView, held: CanvasView, frames: Seq<Seq<Color>>)
    ensures
        swap_cycles(m, held, frames).0.live == m.live,
        swap_cycles(m, held, frames).0.next_handle == m.next_handle + frames.len(),
        frames.len() > 0 ==> swap_cycles(m, held, frames).0.displayed.pixels == frames.last(),
        ({
            &&& m.wf()
            &&& m.presentable(held)
            &&& m.next_handle + frames.len() <= u64::MAX
            &&& forall|i: int| 0 <= i < frames.len() ==> #[trigger] frames[i].len() == held.pixels.len()
        }) ==> swap_cycles(m, held, frames).0.wf() && swap_cycles(m, held, frames).0.presentable(
            swap_cycles(m, held, frames).1,
        ),
    decreases frames.len(),
{
    if frames.len() > 0 {
        let drawn = CanvasView { pixels: frames[0], ..held };
        let rest = frames.drop_first();
        lemma_swap_cycles_keep_live(m.after_swap(drawn), m.returned_by_swap(), rest);
        if rest.len() > 0 {
            assert(rest.last() == frames.last());
        }
        if m.wf() && m.presentable(held) && m.next_handle + frames.len() <= u64::MAX && (forall|i: int|
            0 <= i < frames.len() ==> #[trigger] frames[i].len() == held.pixels.len()) {
            assert(frames[0].len() == held.pixels.len());
            lemma_swap_presents_drawn_frame(m, drawn);
            assert forall|i: int| 0 <= i < rest.len() implies #[trigger] rest[i].len()
                == m.returned_by_swap().pixels.len() by {
                assert(rest[i] == frames[i + 1]);
            }
        }
    }
}

} // verus!
