use vstd::prelude::*;

verus! {

/// An RGBA color with eight bits per channel.
#[derive(Clone, Copy, Debug, PartialEq, Eq, Structural)]
pub struct Color {
    pub r: u8,
    pub g: u8,
    pub b: u8,
    pub a: u8,
}

impl Color {
    /// The color with the given channels.
    pub open spec fn rgba(r: u8, g: u8, b: u8, a: u8) -> Color {
        Color { r, g, b, a }
    }

    pub open spec fn spec_white() -> Color {
        Color::rgba(255, 255, 255, 255)
    }

    pub open spec fn spec_black() -> Color {
        Color::rgba(0, 0, 0, 255)
    }

    /// The color that marks a texel request outside of an image.
    pub open spec fn spec_magenta() -> Color {
        Color::rgba(255, 0, 255, 255)
    }

    pub open spec fn spec_violet() -> Color {
        Color::rgba(135, 60, 190, 255)
    }

    /// A texel is painted when it has any opacity at all.
    pub open spec fn spec_is_visible(self) -> bool {
        self.a > 0
    }

    /// Each color channel scaled by `num / den`, rounded down, fully opaque.
    pub open spec fn spec_faded(self, num: u64, den: u64) -> Color {
        Color::rgba(
            (self.r as int * num as int / den as int) as u8,
            (self.g as int * num as int / den as int) as u8,
            (self.b as int * num as int / den as int) as u8,
            255,
        )
    }

    pub fn new(r: u8, g: u8, b: u8, a: u8) -> (c: Color)
        ensures
            c == Color::rgba(r, g, b, a),
    {
        Color { r, g, b, a }
    }

    #[verifier::when_used_as_spec(spec_white)]
    pub fn white() -> (c: Color)
        ensures
            c == Color::spec_white(),
    {
        Color { r: 255, g: 255, b: 255, a: 255 }
    }

    #[verifier::when_used_as_spec(spec_black)]
    pub fn black() -> (c: Color)
        ensures
            c == Color::spec_black(),
    {
        Color { r: 0, g: 0, b: 0, a: 255 }
    }

    #[verifier::when_used_as_spec(spec_magenta)]
    pub fn magenta() -> (c: Color)
        ensures
            c == Color::spec_magenta(),
    {
        Color { r: 255, g: 0, b: 255, a: 255 }
    }

    #[verifier::when_used_as_spec(spec_violet)]
    pub fn violet() -> (c: Color)
        ensures
            c == Color::spec_violet(),
    {
        Color { r: 135, g: 60, b: 190, a: 255 }
    }

    #[verifier::when_used_as_spec(spec_is_visible)]
    pub fn is_visible(self) -> (v: bool)
        ensures
            v == self.spec_is_visible(),
    {
        self.a > 0
    }

    /// Darkens the color by the fraction `num / den`, which is at most one.
    #[verifier::when_used_as_spec(spec_faded)]
    pub fn faded(self, num: u64, den: u64) -> (c: Color)
        requires
            0 < den,
            num <= den,
        ensures
            c == self.spec_faded(num, den),
    {
        Color {
            r: fade_channel(self.r, num, den),
            g: fade_channel(self.g, num, den),
            b: fade_channel(self.b, num, den),
            a: 255,
        }
    }
}

fn fade_channel(v: u8, num: u64, den: u64) -> (out: u8)
    requires
        0 < den,
        num <= den,
    ensures
        out == v as int * num as int / den as int,
{
    assert(v as int * num as int <= 255 * 0xffff_ffff_ffff_ffff) by (nonlinear_arith)
        requires
            0 <= v <= 255,
            0 <= num <= 0xffff_ffff_ffff_ffff,
    ;
    let wide: u128 = v as u128 * num as u128;
    proof {
        assert(v as int * num as int <= v as int * den as int) by (nonlinear_arith)
            requires
                num <= den,
                0 <= v,
        ;
        assert(v as int * den as int / den as int == v as int) by (nonlinear_arith)
            requires
                0 < den,
        ;
        assert(v as int * num as int / den as int <= v as int * den as int / den as int)
            by (nonlinear_arith)
            requires
                v as int * num as int <= v as int * den as int,
                0 < den,
        ;
    }
    (wide / den as u128) as u8
}

} // verus!
