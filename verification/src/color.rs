use vstd::prelude::*;

verus! {

/// An RGB colour with eight bits per channel.
#[derive(Clone, Copy, Debug, PartialEq, Eq, Structural)]
pub struct LedColor {
    pub red: u8,
    pub green: u8,
    pub blue: u8,
}

impl LedColor {
    /// The colour of an unlit pixel.
    pub open spec fn zero() -> LedColor {
        LedColor { red: 0, green: 0, blue: 0 }
    }

    /// Builds a colour from its three channels.
    pub fn new(red: u8, green: u8, blue: u8) -> (c: LedColor)
        ensures
            c == (LedColor { red, green, blue }),
    {
        LedColor { red, green, blue }
    }
}

} // verus!
