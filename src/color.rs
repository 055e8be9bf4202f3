use vstd::prelude::*;
use vstd::arithmetic::div_mod::{lemma_div_is_ordered, lemma_div_multiples_vanish, lemma_div_pos_is_pos};

verus! {

/// The largest value of one color channel.
pub const CHANNEL_MAX: u8 = 255;

/// The value of a channel mixed from `a` and `b` at the fraction `num / den`
/// of the way from `a` to `b`, rounded down.
pub open spec fn lerp_channel(a: int, b: int, num: int, den: int) -> int {
    (a * (den - num) + b * num) / den
}

/// A channel multiplied by the fraction `num / den`, rounded down and
/// saturated at the channel's maximum.
pub open spec fn scale_channel(c: int, num: int, den: int) -> int {
    if c * num / den > 255 {
        255
    } else {
        c * num / den
    }
}

/// The sum of two channels, saturated at the channel's maximum.
pub open spec fn add_channel(a: int, b: int) -> int {
    if a + b > 255 {
        255
    } else {
        a + b
    }
}

/// The 24-bit packed value `0xRRGGBB` of three channels.
pub open spec fn packed(r: int, g: int, b: int) -> int {
    r * 65536 + g * 256 + b
}

/// An RGB color with one byte per channel.
#[derive(Clone, Copy, Debug, PartialEq, Eq, Structural)]
pub struct Color {
    pub r: u8,
    pub g: u8,
    pub b: u8,
}

proof fn lemma_lerp_bounds(a: int, b: int, num: int, den: int)
    requires
        0 <= a <= 255,
        0 <= b <= 255,
        0 <= num <= den,
        den > 0,
    ensures
        0 <= lerp_channel(a, b, num, den) <= 255,
{
    assert(0 <= a * (den - num) + b * num <= 255 * den) by (nonlinear_arith)
        requires
            0 <= a <= 255,
            0 <= b <= 255,
            0 <= num <= den,
    ;
    let s = a * (den - num) + b * num;
    assert(s / den <= 255 * den / den) by {
        lemma_div_is_ordered(s, 255 * den, den);
    }
    assert(255 * den == den * 255) by (nonlinear_arith);
    assert(255 * den / den == 255) by {
        lemma_div_multiples_vanish(255, den);
    }
    lemma_div_pos_is_pos(s, den);
}

impl Color {
    pub fn new(r: u8, g: u8, b: u8) -> (c: Color)
        ensures
            c.r == r,
            c.g == g,
            c.b == b,
    {
        Color { r, g, b }
    }

    pub fn black() -> (c: Color)
        ensures
            c.r == 0 && c.g == 0 && c.b == 0,
    {
        Color { r: 0, g: 0, b: 0 }
    }

    /// The color packed as `0xRRGGBB`.
    pub fn to_hex(&self) -> (h: u32)
        ensures
            h == packed(self.r as int, self.g as int, self.b as int),
            h < 0x1000000,
    {
        (self.r as u32) * 65536 + (self.g as u32) * 256 + (self.b as u32)
    }

    /// The color whose packed value is the low 24 bits of `h`.
    pub fn from_hex(h: u32) -> (c: Color)
        ensures
            c.r == (h / 65536) % 256,
            c.g == (h / 256) % 256,
            c.b == h % 256,
            h < 0x1000000 ==> packed(c.r as int, c.g as int, c.b as int) == h,
    {
        let c = Color { r: ((h / 65536) % 256) as u8, g: ((h / 256) % 256) as u8, b: (h % 256) as u8 };
        proof {
            if h < 0x1000000 {
                assert(packed(c.r as int, c.g as int, c.b as int) == h) by (nonlinear_arith)
                    requires
                        c.r == (h / 65536) % 256,
                        c.g == (h / 256) % 256,
                        c.b == h % 256,
                        h < 0x1000000,
                ;
            }
        }
        c
    }

    /// The channel-wise sum of two colors, each channel saturated at its maximum.
    pub fn add(&self, other: &Color) -> (c: Color)
        ensures
            c.r == add_channel(self.r as int, other.r as int),
            c.g == add_channel(self.g as int, other.g as int),
            c.b == add_channel(self.b as int, other.b as int),
    {
        Color {
            r: self.r.saturating_add(other.r),
            g: self.g.saturating_add(other.g),
            b: self.b.saturating_add(other.b),
        }
    }

    /// Each channel multiplied by `num / den` (a light intensity, say), rounded
    /// down and saturated at its maximum.
    pub fn scale(&self, num: u32, den: u32) -> (c: Color)
        requires
            den > 0,
        ensures
            c.r == scale_channel(self.r as int, num as int, den as int),
            c.g == scale_channel(self.g as int, num as int, den as int),
            c.b == scale_channel(self.b as int, num as int, den as int),
    {
        Color {
            r: Self::scale_one(self.r, num, den),
            g: Self::scale_one(self.g, num, den),
            b: Self::scale_one(self.b, num, den),
        }
    }

    fn scale_one(c: u8, num: u32, den: u32) -> (r: u8)
        requires
            den > 0,
        ensures
            r == scale_channel(c as int, num as int, den as int),
    {
        assert((c as u64) * (num as u64) <= 255 * 0xffff_ffff) by (nonlinear_arith)
            requires
                c <= 255,
                num <= 0xffff_ffff,
        ;
        let v: u64 = (c as u64) * (num as u64) / (den as u64);
        if v > 255 {
            255
        } else {
            v as u8
        }
    }

    /// The color at the fraction `num / den` of the way from `self` to
    /// `other`, each channel rounded down.
    pub fn lerp(&self, other: &Color, num: u32, den: u32) -> (c: Color)
        requires
            den > 0,
            num <= den,
        ensures
            c.r == lerp_channel(self.r as int, other.r as int, num as int, den as int),
            c.g == lerp_channel(self.g as int, other.g as int, num as int, den as int),
            c.b == lerp_channel(self.b as int, other.b as int, num as int, den as int),
    {
        Color {
            r: Self::lerp_one(self.r, other.r, num, den),
            g: Self::lerp_one(self.g, other.g, num, den),
            b: Self::lerp_one(self.b, other.b, num, den),
        }
    }

    fn lerp_one(a: u8, b: u8, num: u32, den: u32) -> (r: u8)
        requires
            den > 0,
            num <= den,
        ensures
            r == lerp_channel(a as int, b as int, num as int, den as int),
    {
        let rest: u64 = (den - num) as u64;
        assert((a as u64) * rest + (b as u64) * (num as u64) <= 255 * 0xffff_ffff) by (nonlinear_arith)
            requires
                a <= 255,
                b <= 255,
                rest + num <= 0xffff_ffff,
        ;
        let s: u64 = (a as u64) * rest + (b as u64) * (num as u64);
        proof {
            lemma_lerp_bounds(a as int, b as int, num as int, den as int);
        }
        (s / (den as u64)) as u8
    }
}

/// Mixing at fraction zero gives the first channel, and at fraction one the
/// second.
pub proof fn lemma_lerp_endpoints(a: int, b: int, den: int)
    requires
        0 <= a <= 255,
        0 <= b <= 255,
        den > 0,
    ensures
        lerp_channel(a, b, 0, den) == a,
        lerp_channel(a, b, den, den) == b,
{
    assert(a * (den - 0) + b * 0 == den * a) by (nonlinear_arith);
    assert(a * (den - den) + b * den == den * b) by (nonlinear_arith);
    lemma_div_multiples_vanish(a, den);
    lemma_div_multiples_vanish(b, den);
}

/// Mixing is monotonic in the fraction: moving the fraction towards one moves
/// each channel towards the second color, and it never leaves the range
/// between the two.
pub proof fn lemma_lerp_monotonic(a: int, b: int, n1: int, n2: int, den: int)
    requires
        0 <= a <= 255,
        0 <= b <= 255,
        0 <= n1 <= n2 <= den,
        den > 0,
    ensures
        a <= b ==> a <= lerp_channel(a, b, n1, den) <= lerp_channel(a, b, n2, den) <= b,
        b <= a ==> b <= lerp_channel(a, b, n2, den) <= lerp_channel(a, b, n1, den) <= a,
{
    lemma_lerp_endpoints(a, b, den);
    let s0 = a * (den - 0) + b * 0;
    let s1 = a * (den - n1) + b * n1;
    let s2 = a * (den - n2) + b * n2;
    let s3 = a * (den - den) + b * den;
    if a <= b {
        assert(s0 <= s1 <= s2 <= s3) by (nonlinear_arith)
            requires
                a <= b,
                0 <= n1 <= n2 <= den,
                s0 == a * (den - 0) + b * 0,
                s1 == a * (den - n1) + b * n1,
                s2 == a * (den - n2) + b * n2,
                s3 == a * (den - den) + b * den,
        ;
        lemma_div_is_ordered(s0, s1, den);
        lemma_div_is_ordered(s1, s2, den);
        lemma_div_is_ordered(s2, s3, den);
    }
    if b <= a {
        assert(s3 <= s2 <= s1 <= s0) by (nonlinear_arith)
            requires
                b <= a,
                0 <= n1 <= n2 <= den,
                s0 == a * (den - 0) + b * 0,
                s1 == a * (den - n1) + b * n1,
                s2 == a * (den - n2) + b * n2,
                s3 == a * (den - den) + b * den,
        ;
        lemma_div_is_ordered(s3, s2, den);
        lemma_div_is_ordered(s2, s1, den);
        lemma_div_is_ordered(s1, s0, den);
    }
}

} // verus!
