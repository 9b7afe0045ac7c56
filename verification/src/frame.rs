//! The mathematical model of a pixel buffer.

use crate::color::LedColor;
use vstd::prelude::*;

verus! {

/// What a canvas holds: a fixed geometry and one colour for every pixel
/// inside it. Coordinates start at the top-left corner; `x` grows to the
/// right and `y` grows downwards.
pub struct Frame {
    pub width: int,
    pub height: int,
    pub pixels: Map<(int, int), LedColor>,
}

impl Frame {
    /// Whether `(x, y)` addresses a pixel of this frame.
    pub open spec fn contains(self, x: int, y: int) -> bool {
        0 <= x < self.width && 0 <= y < self.height
    }

    /// A frame has a positive geometry and a colour for exactly the pixels
    /// inside it.
    pub open spec fn wf(self) -> bool {
        &&& self.width > 0
        &&& self.height > 0
        &&& forall|p: (int, int)| #[trigger] self.pixels.dom().contains(p) <==> self.contains(p.0, p.1)
    }

    /// The colour of the pixel at `(x, y)`.
    pub open spec fn at(self, x: int, y: int) -> LedColor {
        self.pixels[(x, y)]
    }

    /// The frame of the given geometry in which every pixel has colour `c`.
    pub open spec fn filled(width: int, height: int, c: LedColor) -> Frame {
        Frame {
            width,
            height,
            pixels: Map::new(|p: (int, int)| 0 <= p.0 < width && 0 <= p.1 < height, |p: (int, int)| c),
        }
    }

    /// This frame with colour `c` on every pixel of `ink` that lies inside
    /// it. Ink outside the frame is ignored.
    pub open spec fn paint(self, ink: Set<(int, int)>, c: LedColor) -> Frame {
        Frame {
            width: self.width,
            height: self.height,
            pixels: Map::new(
                |p: (int, int)| self.contains(p.0, p.1),
                |p: (int, int)|
                    if ink.contains(p) {
                        c
                    } else {
                        self.pixels[p]
                    },
            ),
        }
    }

    /// This frame with colour `c` at `(x, y)`; unchanged when `(x, y)` lies
    /// outside the frame.
    pub open spec fn put(self, x: int, y: int, c: LedColor) -> Frame {
        self.paint(set![(x, y)], c)
    }
}

/// A filled frame has the geometry it was made with, and every pixel of it
/// reads back the fill colour.
pub proof fn lemma_filled_reads(width: int, height: int, c: LedColor, x: int, y: int)
    requires
        0 <= x < width,
        0 <= y < height,
    ensures
        Frame::filled(width, height, c).wf(),
        Frame::filled(width, height, c).width == width,
        Frame::filled(width, height, c).height == height,
        Frame::filled(width, height, c).contains(x, y),
        Frame::filled(width, height, c).at(x, y) == c,
{
}

/// Painting keeps the geometry, colours the ink and leaves every other
/// pixel as it was.
pub proof fn lemma_paint_reads(f: Frame, ink: Set<(int, int)>, c: LedColor, x: int, y: int)
    requires
        f.wf(),
        f.contains(x, y),
    ensures
        f.paint(ink, c).wf(),
        f.paint(ink, c).width == f.width,
        f.paint(ink, c).height == f.height,
        f.paint(ink, c).at(x, y) == (if ink.contains((x, y)) { c } else { f.at(x, y) }),
{
}

/// Painting with no ink inside the frame changes nothing.
pub proof fn lemma_paint_outside(f: Frame, ink: Set<(int, int)>, c: LedColor)
    requires
        f.wf(),
        forall|p: (int, int)| ink.contains(p) ==> !f.contains(p.0, p.1),
    ensures
        f.paint(ink, c) == f,
{
    assert(f.paint(ink, c).pixels =~= f.pixels);
}

/// Painting two sets of ink in the same colour, one after the other, is
/// painting their union.
pub proof fn lemma_paint_union(f: Frame, a: Set<(int, int)>, b: Set<(int, int)>, c: LedColor)
    ensures
        f.paint(a, c).paint(b, c) == f.paint(a.union(b), c),
{
    assert(f.paint(a, c).paint(b, c).pixels =~= f.paint(a.union(b), c).pixels);
}

/// Only the ink inside the frame matters to a painting.
pub proof fn lemma_paint_same_inside(f: Frame, a: Set<(int, int)>, b: Set<(int, int)>, c: LedColor)
    requires
        forall|p: (int, int)| f.contains(p.0, p.1) ==> (a.contains(p) <==> b.contains(p)),
    ensures
        f.paint(a, c) == f.paint(b, c),
{
    assert(f.paint(a, c).pixels =~= f.paint(b, c).pixels);
}

} // verus!
