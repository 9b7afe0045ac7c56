//! Why laying out or drawing a text can fail.

use vstd::prelude::*;

verus! {

/// Why a text could not be laid out.
#[derive(Clone, Copy, Debug, PartialEq, Eq, Structural)]
pub enum TextError {
    /// The text holds a NUL character, which a terminated string cannot
    /// carry.
    Encoding,
    /// The advance of the text does not fit in 32 bits, or the paragraph
    /// is too large to be wrapped.
    TooLong,
}

/// Why a display session could not be configured or created.
#[derive(Clone, Copy, Debug, PartialEq, Eq, Structural)]
pub enum MatrixError {
    /// A panel has no rows.
    InvalidRows,
    /// A panel has no columns.
    InvalidCols,
    /// The chain holds no panel.
    InvalidChainLength,
    /// There is no chain.
    InvalidParallel,
    /// The brightness is above 100 percent.
    InvalidBrightness,
    /// The name of the hardware mapping holds a NUL character, which a
    /// terminated string cannot carry.
    InvalidMapping,
    /// The panels together are larger than a canvas can be.
    TooLarge,
}

} // verus!
