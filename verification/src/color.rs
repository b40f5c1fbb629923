//! The colour of an octant, of which the tree reads one thing only: whether
//! its alpha is positive.
use vstd::prelude::*;

verus! {

/// Largest bit pattern of a single-precision number that is not a NaN with
/// its sign bit clear: positive infinity.
pub const POSITIVE_INFINITY_BITS: u32 = 0x7F80_0000;

/// An RGBA colour. Each channel holds the bit pattern of a single-precision
/// number, so a colour passes through the tree without any loss; the tree
/// itself only ever asks whether alpha is positive.
#[derive(Clone, Copy, Debug, PartialEq, Eq, Structural)]
pub struct Color {
    pub red: u32,
    pub green: u32,
    pub blue: u32,
    pub alpha: u32,
}

/// Whether the single-precision number with bit pattern `bits` is greater
/// than zero. Both zeroes, every negative number and every NaN are not.
pub open spec fn bits_positive(bits: u32) -> bool {
    0 < bits <= POSITIVE_INFINITY_BITS
}

impl Color {
    pub fn new(red: u32, green: u32, blue: u32, alpha: u32) -> (c: Color)
        ensures
            c == (Color { red, green, blue, alpha }),
    {
        Color { red, green, blue, alpha }
    }

    /// Whether the alpha channel is greater than zero.
    pub open spec fn alpha_positive(&self) -> bool {
        bits_positive(self.alpha)
    }

    /// Whether the alpha channel is greater than zero.
    pub fn is_alpha_positive(&self) -> (b: bool)
        ensures
            b == self.alpha_positive(),
    {
        0 < self.alpha && self.alpha <= POSITIVE_INFINITY_BITS
    }
}

} // verus!
