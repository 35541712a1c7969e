use vstd::prelude::*;

verus! {

/// One pixel's colour: three 8-bit channels, no alpha.
#[derive(Clone, Copy, PartialEq, Eq, Structural, Debug)]
pub struct Color {
    pub r: u8,
    pub g: u8,
    pub b: u8,
}

/// One channel scaled by the coverage fraction `num / den`, truncated.
pub open spec fn scale_channel(c: u8, num: int, den: int) -> int {
    (c as int * num) / den
}

/// Largest coverage denominator that the rasterizers hand to `Color::scaled`.
pub const MAX_COVERAGE_DEN: u64 = 0x1_0000_0000_0000;

impl Color {
    /// Every channel scaled by `num / den` (a fraction in `[0, 1]`), truncated.
    pub open spec fn scaled_spec(self, num: int, den: int) -> Color {
        Color {
            r: scale_channel(self.r, num, den) as u8,
            g: scale_channel(self.g, num, den) as u8,
            b: scale_channel(self.b, num, den) as u8,
        }
    }

    pub fn new(r: u8, g: u8, b: u8) -> (res: Color)
        ensures
            res == (Color { r, g, b }),
    {
        Color { r, g, b }
    }

    pub open spec fn black_spec() -> Color {
        Color { r: 0, g: 0, b: 0 }
    }

    pub fn black() -> (res: Color)
        ensures
            res == Color::black_spec(),
    {
        Color { r: 0, g: 0, b: 0 }
    }

    /// Intensity scaling by a coverage fraction; no blending with what is
    /// already on the surface.
    pub fn scaled(self, num: u64, den: u64) -> (res: Color)
        requires
            0 < den <= MAX_COVERAGE_DEN,
            num <= den,
        ensures
            res == self.scaled_spec(num as int, den as int),
    {
        Color {
            r: scale_u8(self.r, num, den),
            g: scale_u8(self.g, num, den),
            b: scale_u8(self.b, num, den),
        }
    }
}

fn scale_u8(c: u8, num: u64, den: u64) -> (res: u8)
    requires
        0 < den <= MAX_COVERAGE_DEN,
        num <= den,
    ensures
        res as int == scale_channel(c, num as int, den as int),
        scale_channel(c, num as int, den as int) <= c,
{
    proof {
        lemma_scale_bounded(c, num as int, den as int);
        assert(c as int * num as int <= 255 * MAX_COVERAGE_DEN) by (nonlinear_arith)
            requires
                c <= 255,
                num <= MAX_COVERAGE_DEN,
        ;
    }
    let p: u64 = (c as u64) * num;
    (p / den) as u8
}

/// Scaling by a fraction in `[0, 1]` never raises a channel.
pub proof fn lemma_scale_bounded(c: u8, num: int, den: int)
    requires
        0 < den,
        0 <= num <= den,
    ensures
        0 <= scale_channel(c, num, den) <= c,
        num == den ==> scale_channel(c, num, den) == c,
        num == 0 ==> scale_channel(c, num, den) == 0,
{
    assert(0 <= c as int * num <= c as int * den) by (nonlinear_arith)
        requires
            0 <= num <= den,
            0 <= c,
    ;
    vstd::arithmetic::div_mod::lemma_div_is_ordered(c as int * num, c as int * den, den);
    vstd::arithmetic::div_mod::lemma_div_multiples_vanish(c as int, den);
    assert(den * (c as int) == c as int * den) by (nonlinear_arith);
    vstd::arithmetic::div_mod::lemma_div_pos_is_pos(c as int * num, den);
}

} // verus!
