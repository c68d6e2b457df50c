use vstd::prelude::*;

verus! {

/// An 8-bit-per-channel colour with alpha.
#[derive(Debug, Clone, Copy, PartialEq, Eq, Structural)]
pub struct Color {
    pub r: u8,
    pub g: u8,
    pub b: u8,
    pub a: u8,
}

/// The packed ARGB word of a colour: alpha in the top byte, then red, green, blue.
pub open spec fn argb_word(a: u8, r: u8, g: u8, b: u8) -> int {
    a as int * 0x100_0000 + r as int * 0x1_0000 + g as int * 0x100 + b as int
}

/// Amount that `Color::shift` takes off each colour channel.
pub const SHIFT_AMOUNT: u8 = 10;

impl Color {
    /// The packed ARGB word of this colour.
    pub open spec fn word(self) -> u32 {
        argb_word(self.a, self.r, self.g, self.b) as u32
    }

    pub fn rgb(r: u8, g: u8, b: u8) -> (c: Color)
        ensures
            c == (Color { r, g, b, a: 255 }),
    {
        Color { r, g, b, a: 255 }
    }

    pub fn rgba(r: u8, g: u8, b: u8, a: u8) -> (c: Color)
        ensures
            c == (Color { r, g, b, a }),
    {
        Color { r, g, b, a }
    }

    /// Fully transparent black.
    pub fn clear() -> (c: Color)
        ensures
            c == (Color { r: 0, g: 0, b: 0, a: 0 }),
    {
        Color { r: 0, g: 0, b: 0, a: 0 }
    }

    /// A darker colour: each of red, green and blue loses `SHIFT_AMOUNT`,
    /// stopping at zero; alpha is kept.
    pub fn shift(&self) -> (c: Color)
        ensures
            c.r == if self.r >= SHIFT_AMOUNT { self.r - SHIFT_AMOUNT } else { 0 },
            c.g == if self.g >= SHIFT_AMOUNT { self.g - SHIFT_AMOUNT } else { 0 },
            c.b == if self.b >= SHIFT_AMOUNT { self.b - SHIFT_AMOUNT } else { 0 },
            c.a == self.a,
    {
        Color {
            r: self.r.saturating_sub(SHIFT_AMOUNT),
            g: self.g.saturating_sub(SHIFT_AMOUNT),
            b: self.b.saturating_sub(SHIFT_AMOUNT),
            a: self.a,
        }
    }

    /// Packs the colour as `(a << 24) | (r << 16) | (g << 8) | b`.
    pub fn to_u32(&self) -> (w: u32)
        ensures
            w as int == argb_word(self.a, self.r, self.g, self.b),
            w == self.word(),
    {
        let a = self.a as u32;
        let r = self.r as u32;
        let g = self.g as u32;
        let b = self.b as u32;
        let w = (a << 24u32) | (r << 16u32) | (g << 8u32) | b;
        assert(w == a * 0x100_0000 + r * 0x1_0000 + g * 0x100 + b) by (bit_vector)
            requires
                a < 256,
                r < 256,
                g < 256,
                b < 256,
                w == (a << 24u32) | (r << 16u32) | (g << 8u32) | b,
        ;
        w
    }
}

} // verus!
