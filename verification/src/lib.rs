//! An RGB LED panel in software.
//!
//! A [`LedMatrix`] is a display session on a chain of panels. It owns the
//! canvas that the panels show and exchanges it for another on
//! [`LedMatrix::swap`], so that a frame can be drawn out of sight and shown
//! whole. A [`LedCanvas`] is a pixel buffer: single pixels, fills, lines,
//! circles and text are drawn on it, and what falls outside it is dropped.
//! Text is drawn in a [`LedFont`], a bitmap font, as [`TextDrawOptions`]
//! say: in a row, in a column, or in rows of words that are broken where
//! the paragraph is least ragged.
//!
//! Every function states what it returns and what it changes, over the
//! frame of pixels that a canvas holds ([`frame::Frame`]), the placements
//! of a text ([`layout::text_placements`]) and the breaks of a paragraph
//! ([`wrap::best_breaks`]), and Verus proves that it does.

pub mod canvas;
pub mod color;
pub mod error;
pub mod font;
pub mod frame;
pub mod layout;
pub mod matrix;
pub mod run;
pub mod shapes;
pub mod wrap;

pub use canvas::{LedCanvas, TextDrawOptions, TextLayout, TextStyle};
pub use color::LedColor;
pub use error::{MatrixError, TextError};
pub use font::{FontError, Glyph, LedFont};
pub use layout::{layout_text, PlacedGlyph, TextPlan};
pub use matrix::{LedMatrix, LedMatrixOptions, LedRuntimeOptions};
pub use wrap::{measure_raggedness, wrap_words};
