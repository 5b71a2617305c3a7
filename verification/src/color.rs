//! Linear RGB colours.

use crate::fixed::{
    lemma_product_sign, lemma_quot_bounds, lemma_unit_interval_is_closed, quot, Fixed, ONE_RAW,
};
use vstd::prelude::*;

verus! {

/// A colour in linear space.  Channels are not clamped.
#[derive(Clone, Copy, PartialEq, Eq, Debug, Structural)]
pub struct Color {
    pub r: Fixed,
    pub g: Fixed,
    pub b: Fixed,
}

/// The byte that encodes a channel: the channel times 255.99, rounded to the
/// nearest whole number (halves upward) and clamped to `0..=255`.
pub open spec fn channel_byte(c: Fixed) -> u8 {
    let scaled = Fixed::from_ratio(25599, 100).mul(c).add(Fixed::from_ratio(1, 2));
    if scaled.raw < 0 {
        0u8
    } else if scaled.raw / ONE_RAW > 255 {
        255u8
    } else {
        (scaled.raw / ONE_RAW) as u8
    }
}

/// The channel that a byte of an image stands for: the byte over 255.99.
pub open spec fn byte_channel(v: u8) -> Fixed {
    Fixed::from_int(v as i32).div(Fixed::from_ratio(25599, 100))
}

/// Encodes one channel as a byte.
pub fn channel_to_byte(c: Fixed) -> (v: u8)
    ensures
        v == channel_byte(c),
{
    let scaled = Fixed::from_ratio(25599, 100).mul(c).add(Fixed::from_ratio(1, 2));
    if scaled.raw < 0 {
        0
    } else {
        let whole: i64 = scaled.raw / ONE_RAW;
        if whole > 255 {
            255
        } else {
            whole as u8
        }
    }
}

/// Decodes one byte of an image into a channel.
pub fn byte_to_channel(v: u8) -> (c: Fixed)
    ensures
        c == byte_channel(v),
{
    Fixed::from_int(v as i32).div(Fixed::from_ratio(25599, 100))
}

impl Color {
    /// The colour with the given channels.
    pub open spec fn spec_new(r: Fixed, g: Fixed, b: Fixed) -> Color {
        Color { r, g, b }
    }

    /// Black: no light.
    pub open spec fn spec_black() -> Color {
        Color { r: Fixed::zero(), g: Fixed::zero(), b: Fixed::zero() }
    }

    /// White: full light in every channel.
    pub open spec fn spec_white() -> Color {
        Color { r: Fixed::one(), g: Fixed::one(), b: Fixed::one() }
    }

    /// Pure red.
    pub open spec fn spec_red() -> Color {
        Color { r: Fixed::one(), g: Fixed::zero(), b: Fixed::zero() }
    }

    /// Pure green.
    pub open spec fn spec_green() -> Color {
        Color { r: Fixed::zero(), g: Fixed::one(), b: Fixed::zero() }
    }

    /// Pure blue.
    pub open spec fn spec_blue() -> Color {
        Color { r: Fixed::zero(), g: Fixed::zero(), b: Fixed::one() }
    }

    /// Gamma-2 encoding: the square root of every channel.
    pub open spec fn spec_gamma2(&self) -> Color {
        Color { r: self.r.sqrt(), g: self.g.sqrt(), b: self.b.sqrt() }
    }

    /// Channelwise sum.
    pub open spec fn spec_add(self, rhs: Color) -> Color {
        Color { r: self.r.add(rhs.r), g: self.g.add(rhs.g), b: self.b.add(rhs.b) }
    }

    /// Channelwise product.
    pub open spec fn spec_mul(self, rhs: Color) -> Color {
        Color { r: self.r.mul(rhs.r), g: self.g.mul(rhs.g), b: self.b.mul(rhs.b) }
    }

    /// Every channel multiplied by `k`.
    pub open spec fn spec_scale(self, k: Fixed) -> Color {
        Color { r: self.r.mul(k), g: self.g.mul(k), b: self.b.mul(k) }
    }

    /// Every channel divided by `k`.
    pub open spec fn spec_div(self, k: Fixed) -> Color {
        Color { r: self.r.div(k), g: self.g.div(k), b: self.b.div(k) }
    }

    /// The three bytes that encode the colour.
    pub open spec fn spec_to_bytes(&self) -> (u8, u8, u8) {
        (channel_byte(self.r), channel_byte(self.g), channel_byte(self.b))
    }

    /// The colour that three bytes of an image stand for.
    pub open spec fn spec_from_bytes(r: u8, g: u8, b: u8) -> Color {
        Color { r: byte_channel(r), g: byte_channel(g), b: byte_channel(b) }
    }

    /// Every channel lies in the closed unit interval.
    pub open spec fn in_unit_range(self) -> bool {
        self.r.in_unit_interval() && self.g.in_unit_interval() && self.b.in_unit_interval()
    }

    /// Computes `spec_new`.
    #[verifier::when_used_as_spec(spec_new)]
    pub fn new(r: Fixed, g: Fixed, b: Fixed) -> (c: Color)
        ensures
            c == Color::spec_new(r, g, b),
    {
        Color { r, g, b }
    }

    /// Computes `spec_black`.
    #[verifier::when_used_as_spec(spec_black)]
    pub fn black() -> (c: Color)
        ensures
            c == Color::spec_black(),
    {
        Color { r: Fixed::zero(), g: Fixed::zero(), b: Fixed::zero() }
    }

    /// Computes `spec_white`.
    #[verifier::when_used_as_spec(spec_white)]
    pub fn white() -> (c: Color)
        ensures
            c == Color::spec_white(),
    {
        Color { r: Fixed::one(), g: Fixed::one(), b: Fixed::one() }
    }

    /// Computes `spec_red`.
    #[verifier::when_used_as_spec(spec_red)]
    pub fn red() -> (c: Color)
        ensures
            c == Color::spec_red(),
    {
        Color { r: Fixed::one(), g: Fixed::zero(), b: Fixed::zero() }
    }

    /// Computes `spec_green`.
    #[verifier::when_used_as_spec(spec_green)]
    pub fn green() -> (c: Color)
        ensures
            c == Color::spec_green(),
    {
        Color { r: Fixed::zero(), g: Fixed::one(), b: Fixed::zero() }
    }

    /// Computes `spec_blue`.
    #[verifier::when_used_as_spec(spec_blue)]
    pub fn blue() -> (c: Color)
        ensures
            c == Color::spec_blue(),
    {
        Color { r: Fixed::zero(), g: Fixed::zero(), b: Fixed::one() }
    }

    /// Computes `spec_gamma2`.
    #[verifier::when_used_as_spec(spec_gamma2)]
    pub fn gamma2(&self) -> (c: Color)
        ensures
            c == self.spec_gamma2(),
    {
        Color::new(self.r.sqrt(), self.g.sqrt(), self.b.sqrt())
    }

    /// Computes `spec_add`.
    #[verifier::when_used_as_spec(spec_add)]
    pub fn add(self, rhs: Color) -> (c: Color)
        ensures
            c == self.spec_add(rhs),
    {
        Color::new(self.r.add(rhs.r), self.g.add(rhs.g), self.b.add(rhs.b))
    }

    /// Computes `spec_mul`.
    #[verifier::when_used_as_spec(spec_mul)]
    pub fn mul(self, rhs: Color) -> (c: Color)
        ensures
            c == self.spec_mul(rhs),
    {
        Color::new(self.r.mul(rhs.r), self.g.mul(rhs.g), self.b.mul(rhs.b))
    }

    /// Computes `spec_scale`.
    #[verifier::when_used_as_spec(spec_scale)]
    pub fn scale(self, k: Fixed) -> (c: Color)
        ensures
            c == self.spec_scale(k),
    {
        Color::new(self.r.mul(k), self.g.mul(k), self.b.mul(k))
    }

    /// Computes `spec_div`.
    #[verifier::when_used_as_spec(spec_div)]
    pub fn div(self, k: Fixed) -> (c: Color)
        ensures
            c == self.spec_div(k),
    {
        Color::new(self.r.div(k), self.g.div(k), self.b.div(k))
    }

    /// Computes `spec_to_bytes`.
    #[verifier::when_used_as_spec(spec_to_bytes)]
    pub fn to_bytes(&self) -> (bytes: (u8, u8, u8))
        ensures
            bytes == self.spec_to_bytes(),
    {
        (channel_to_byte(self.r), channel_to_byte(self.g), channel_to_byte(self.b))
    }

    /// Computes `spec_from_bytes`.
    #[verifier::when_used_as_spec(spec_from_bytes)]
    pub fn from_bytes(r: u8, g: u8, b: u8) -> (c: Color)
        ensures
            c == Color::spec_from_bytes(r, g, b),
    {
        Color::new(byte_to_channel(r), byte_to_channel(g), byte_to_channel(b))
    }
}

/// The channel that a byte stands for lies in the unit interval.
pub proof fn lemma_byte_channel_is_in_unit_interval(v: u8)
    ensures
        byte_channel(v).in_unit_interval(),
{
    let s = ONE_RAW as int;
    let scale = Fixed::from_ratio(25599, 100);
    assert(Fixed::from_int(25599).raw == 25599 * s);
    assert(Fixed::from_int(100).raw == 100 * s);
    assert((25599 * s) * s == 0x63ff_0000_0000_0000_0000);
    assert(0x63ff_0000_0000_0000_0000int / (100 * s) == 0xff_fd70_a3d7);
    assert(scale.raw == 0xff_fd70_a3d7);
    let n = (v as int * s) * s;
    lemma_product_sign(v as int * s, s);
    lemma_quot_bounds(n, scale.raw as int);
    let q = quot(n, scale.raw as int);
    assert(0 <= q <= s) by (nonlinear_arith)
        requires
            q >= 0,
            q * 0xff_fd70_a3d7 <= n,
            n == (v * s) * s,
            0 <= v <= 255,
            s == 0x1_0000_0000,
    ;
}

/// Products and gamma encodings of colours in the unit range, and the
/// colours that bytes stand for, lie in the unit range.
pub proof fn lemma_unit_range_is_closed(a: Color, b: Color)
    requires
        a.in_unit_range(),
        b.in_unit_range(),
    ensures
        a.mul(b).in_unit_range(),
        a.gamma2().in_unit_range(),
        Color::white().in_unit_range(),
        Color::black().in_unit_range(),
{
    lemma_unit_interval_is_closed(a.r, b.r);
    lemma_unit_interval_is_closed(a.g, b.g);
    lemma_unit_interval_is_closed(a.b, b.b);
}

} // verus!
