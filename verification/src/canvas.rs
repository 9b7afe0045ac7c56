//! The canvas: a fixed-size pixel buffer and the operations that draw on it.

use crate::color::LedColor;
use crate::error::TextError;
use crate::font::{FontView, Glyph, LedFont};
use crate::frame::{lemma_paint_outside, lemma_paint_same_inside, lemma_paint_union, Frame};
use crate::layout::{
    glyph_ink, layout_text, lemma_glyph_ink_in_cell, lemma_text_ink_empty, lemma_text_ink_push, placed,
    text_advance, text_error, text_ink, text_placements, PlacedGlyph, Placement,
};
use crate::shapes::{
    circle_points, dist, lemma_circle_ends, lemma_circle_octants, lemma_rounds_to_unique, line_points,
    minor, nearest_root, octant_points, shallow_points, shallow_row,
};
use vstd::prelude::*;

verus! {

/// How a text is laid out on the canvas.
#[derive(Clone, Copy, Debug, PartialEq, Eq, Structural)]
pub enum TextLayout {
    /// In one row, from left to right.
    Horizontal,
    /// In one column, from top to bottom.
    Vertical,
    /// In rows of words, one below the other, broken so that the rows are
    /// as little ragged as they can be.
    Wrapped {
        /// The width that no row of more than one word exceeds.
        line_width: i32,
    },
}

/// How and where a text is drawn.
pub struct TextDrawOptions<'a> {
    x: i32,
    y: i32,
    color: &'a LedColor,
    layout: TextLayout,
    kerning_offset: i32,
    leading: i32,
}

/// What a `TextDrawOptions` holds.
#[derive(Clone, Copy, Debug, PartialEq, Eq)]
pub struct TextStyle {
    /// The left edge of the first glyph's cell.
    pub x: i32,
    /// The row of the first glyph's baseline.
    pub y: i32,
    /// The colour of the ink.
    pub color: LedColor,
    pub layout: TextLayout,
    /// What is added to the distance between two neighbouring glyphs.
    pub kerning_offset: i32,
    /// What is added to the distance between two rows of a wrapped text.
    pub leading: i32,
}

impl<'a> View for TextDrawOptions<'a> {
    type V = TextStyle;

    closed spec fn view(&self) -> TextStyle {
        TextStyle {
            x: self.x,
            y: self.y,
            color: *self.color,
            layout: self.layout,
            kerning_offset: self.kerning_offset,
            leading: self.leading,
        }
    }
}

impl<'a> TextDrawOptions<'a> {
    /// The options to start from: white ink, in a row that starts at the
    /// origin, with nothing added to the font's spacing.
    pub fn new() -> (o: Self)
        ensures
            o@ == (TextStyle {
                x: 0,
                y: 0,
                color: LedColor { red: 255, green: 255, blue: 255 },
                layout: TextLayout::Horizontal,
                kerning_offset: 0,
                leading: 0,
            }),
    {
        Self {
            x: 0,
            y: 0,
            color: &LedColor { red: 255, green: 255, blue: 255 },
            layout: TextLayout::Horizontal,
            kerning_offset: 0,
            leading: 0,
        }
    }

    /// What these options hold.
    pub fn style(&self) -> (s: TextStyle)
        ensures
            s == self@,
    {
        TextStyle {
            x: self.x,
            y: self.y,
            color: *self.color,
            layout: self.layout,
            kerning_offset: self.kerning_offset,
            leading: self.leading,
        }
    }

    /// These options with the text starting at `(x, y)`.
    pub fn position(self, x: i32, y: i32) -> (o: Self)
        ensures
            o@ == (TextStyle { x, y, ..self@ }),
    {
        let mut o = self;
        o.x = x;
        o.y = y;
        o
    }

    /// These options with ink of the given colour.
    pub fn color(self, color: &'a LedColor) -> (o: Self)
        ensures
            o@ == (TextStyle { color: *color, ..self@ }),
    {
        let mut o = self;
        o.color = color;
        o
    }

    /// These options with the given layout.
    pub fn layout(self, layout: TextLayout) -> (o: Self)
        ensures
            o@ == (TextStyle { layout, ..self@ }),
    {
        let mut o = self;
        o.layout = layout;
        o
    }

    /// These options with `offset` added to the distance between two
    /// neighbouring glyphs.
    pub fn kerning_offset(self, offset: i32) -> (o: Self)
        ensures
            o@ == (TextStyle { kerning_offset: offset, ..self@ }),
    {
        let mut o = self;
        o.kerning_offset = offset;
        o
    }

    /// These options with `leading` added to the distance between two rows
    /// of a wrapped text.
    pub fn leading(self, leading: i32) -> (o: Self)
        ensures
            o@ == (TextStyle { leading, ..self@ }),
    {
        let mut o = self;
        o.leading = leading;
        o
    }
}

impl Default for TextDrawOptions<'_> {
    fn default() -> (o: Self)
        ensures
            o@ == (TextStyle {
                x: 0,
                y: 0,
                color: LedColor { red: 255, green: 255, blue: 255 },
                layout: TextLayout::Horizontal,
                kerning_offset: 0,
                leading: 0,
            }),
    {
        Self::new()
    }
}

/// The ink of the glyph in the rows above row `row` of its cell and in the
/// columns left of column `col` in that row.
spec fn ink_before(font: FontView, p: Placement, row: int, col: int) -> Set<(int, int)> {
    Set::new(
        |q: (int, int)|
            glyph_ink(font, p).contains(q) && (q.1 - (p.y - font.baseline) < row || (q.1 - (p.y
                - font.baseline) == row && q.0 - p.x < col)),
    )
}

/// The pixels of a shallow line in the columns `from..to` (rows, if
/// `steep`).
spec fn shallow_part(x0: int, y0: int, x1: int, y1: int, steep: bool, from: int, to: int) -> Set<
    (int, int),
> {
    Set::new(
        |p: (int, int)|
            shallow_points(x0, y0, x1, y1, steep).contains(p) && from <= (if steep {
                p.1
            } else {
                p.0
            }) < to,
    )
}

/// The pixels of a circle that are less than `b` away from the nearer of
/// the two axes through its centre.
spec fn circle_part(cx: int, cy: int, r: int, b: int) -> Set<(int, int)> {
    Set::new(|p: (int, int)| circle_points(cx, cy, r).contains(p) && minor(cx, cy, p.0, p.1) < b)
}

/// A pixel buffer of fixed geometry.
pub struct LedCanvas {
    width: i32,
    height: i32,
    pixels: Vec<LedColor>,
}

impl View for LedCanvas {
    type V = Frame;

    closed spec fn view(&self) -> Frame {
        Frame {
            width: self.width as int,
            height: self.height as int,
            pixels: Map::new(
                |p: (int, int)| 0 <= p.0 < self.width && 0 <= p.1 < self.height,
                |p: (int, int)| self.pixels@[p.1 * self.width + p.0],
            ),
        }
    }
}

/// Row-major addressing stays inside the buffer and tells pixels apart.
proof fn lemma_index(width: int, height: int, x: int, y: int)
    requires
        0 <= x < width,
        0 <= y < height,
    ensures
        0 <= y * width + x < width * height,
        (y * width + x) / width == y,
        (y * width + x) % width == x,
{
    assert(y * width <= (height - 1) * width) by (nonlinear_arith)
        requires
            0 <= y <= height - 1,
            width > 0,
    ;
    assert((height - 1) * width == width * height - width) by (nonlinear_arith);
    assert(0 <= y * width) by (nonlinear_arith)
        requires
            0 <= y,
            width > 0,
    ;
    vstd::arithmetic::div_mod::lemma_fundamental_div_mod_converse(y * width + x, width, y, x);
}

impl LedCanvas {
    /// The buffer holds one colour per pixel, row after row.
    #[verifier::type_invariant]
    pub closed spec fn wf(&self) -> bool {
        &&& self.width > 0
        &&& self.height > 0
        &&& self.pixels@.len() == self.width * self.height
    }

    /// A canvas of the given geometry with every pixel unlit.
    pub(crate) fn blank(width: i32, height: i32) -> (c: LedCanvas)
        requires
            width > 0,
            height > 0,
            width * height <= usize::MAX,
        ensures
            c@ == Frame::filled(width as int, height as int, LedColor::zero()),
    {
        assert(0 < width * height <= 0x7fff_ffff * 0x7fff_ffff) by (nonlinear_arith)
            requires
                0 < width <= 0x7fff_ffff,
                0 < height <= 0x7fff_ffff,
        ;
        let total: u64 = (width as u64) * (height as u64);
        let n: usize = total as usize;
        let mut pixels: Vec<LedColor> = Vec::new();
        let mut i: usize = 0;
        while i < n
            invariant
                i <= n,
                pixels@.len() == i,
                forall|k: int| 0 <= k < i ==> pixels@[k] == LedColor::zero(),
            decreases n - i,
        {
            pixels.push(LedColor { red: 0, green: 0, blue: 0 });
            i += 1;
        }
        let c = LedCanvas { width, height, pixels };
        proof {
            assert forall|p: (int, int)| 0 <= p.0 < width && 0 <= p.1 < height implies c.pixels@[p.1
                * width + p.0] == LedColor::zero() by {
                lemma_index(width as int, height as int, p.0, p.1);
            }
            assert(c@.pixels =~= Frame::filled(width as int, height as int, LedColor::zero()).pixels);
        }
        c
    }

    /// What a canvas holds is a frame: it has a colour for exactly the
    /// pixels inside its geometry.
    pub proof fn lemma_frame(&self)
        requires
            self.wf(),
        ensures
            self@.wf(),
    {
    }

    /// The width and height of the canvas, in pixels.
    #[must_use]
    pub fn canvas_size(&self) -> (size: (i32, i32))
        ensures
            size.0 == self@.width,
            size.1 == self@.height,
            self@.wf(),
    {
        proof {
            use_type_invariant(self);
        }
        (self.width, self.height)
    }

    /// Position of `(x, y)` in the buffer.
    fn offset(&self, x: i32, y: i32) -> (i: usize)
        requires
            self@.contains(x as int, y as int),
        ensures
            i == y * self.width + x,
            i < self.pixels@.len(),
    {
        proof {
            use_type_invariant(self);
            lemma_index(self.width as int, self.height as int, x as int, y as int);
        }
        assert(self.width * self.height <= 0x7fff_ffff * 0x7fff_ffff) by (nonlinear_arith)
            requires
                0 < self.width <= 0x7fff_ffff,
                0 < self.height <= 0x7fff_ffff,
        ;
        let i: u64 = (y as u64) * (self.width as u64) + (x as u64);
        assert(i < self.pixels.len());
        i as usize
    }

    /// The colour of the pixel at `(x, y)`, or `None` outside the canvas.
    pub fn get(&self, x: i32, y: i32) -> (r: Option<LedColor>)
        ensures
            r == (if self@.contains(x as int, y as int) {
                Some(self@.at(x as int, y as int))
            } else {
                None
            }),
    {
        if 0 <= x && x < self.width && 0 <= y && y < self.height {
            let i = self.offset(x, y);
            Some(self.pixels[i])
        } else {
            None
        }
    }

    /// Sets the pixel at `(x, y)` to `color`. Coordinates outside the canvas
    /// are ignored.
    pub fn set(&mut self, x: i32, y: i32, color: &LedColor)
        ensures
            final(self)@ == old(self)@.put(x as int, y as int, *color),
    {
        proof {
            use_type_invariant(&*self);
        }
        if 0 <= x && x < self.width && 0 <= y && y < self.height {
            let i = self.offset(x, y);
            self.pixels[i] = *color;
            proof {
                let w = self.width as int;
                let h = self.height as int;
                let after = old(self)@.put(x as int, y as int, *color);
                assert forall|p: (int, int)| self@.pixels.dom().contains(p) implies self@.pixels[p]
                    == after.pixels[p] by {
                    lemma_index(w, h, p.0, p.1);
                    lemma_index(w, h, x as int, y as int);
                }
                assert(self@.pixels =~= after.pixels);
            }
        } else {
            proof {
                assert(self@.pixels =~= old(self)@.put(x as int, y as int, *color).pixels);
            }
        }
    }

    /// Sets every pixel to `color`.
    pub fn fill(&mut self, color: &LedColor)
        ensures
            final(self)@ == Frame::filled(old(self)@.width, old(self)@.height, *color),
    {
        proof {
            use_type_invariant(&*self);
        }
        let n = self.pixels.len();
        let mut i: usize = 0;
        while i < n
            invariant
                i <= n,
                n == self.pixels@.len(),
                self.width == old(self).width,
                self.height == old(self).height,
                self.wf(),
                forall|k: int| 0 <= k < i ==> self.pixels@[k] == *color,
            decreases n - i,
        {
            self.pixels[i] = *color;
            i += 1;
        }
        proof {
            assert forall|p: (int, int)| 0 <= p.0 < self.width && 0 <= p.1 < self.height implies self.pixels@[p.1
                * self.width + p.0] == *color by {
                lemma_index(self.width as int, self.height as int, p.0, p.1);
            }
            assert(self@.pixels =~= Frame::filled(self.width as int, self.height as int, *color).pixels);
        }
    }

    /// Sets every pixel to the unlit colour.
    pub fn clear(&mut self)
        ensures
            final(self)@ == Frame::filled(old(self)@.width, old(self)@.height, LedColor::zero()),
    {
        let zero = LedColor { red: 0, green: 0, blue: 0 };
        self.fill(&zero);
    }

    /// Sets the pixel at `(x, y)`, which may lie anywhere, to `color`.
    fn plot(&mut self, x: i64, y: i64, color: &LedColor)
        ensures
            final(self)@ == old(self)@.put(x as int, y as int, *color),
    {
        proof {
            use_type_invariant(&*self);
        }
        if i32::MIN as i64 <= x && x <= i32::MAX as i64 && i32::MIN as i64 <= y && y <= i32::MAX as i64 {
            self.set(x as i32, y as i32, color);
        } else {
            proof {
                lemma_paint_outside(self@, set![(x as int, y as int)], *color);
            }
        }
    }

    /// Draws a line that runs to the right and is no steeper than a
    /// diagonal or, if `steep`, its mirror image in the diagonal.
    fn draw_shallow(&mut self, x0: i32, y0: i32, x1: i32, y1: i32, steep: bool, color: &LedColor)
        requires
            x0 < x1,
            dist(y0 as int, y1 as int) <= x1 - x0,
        ensures
            final(self)@ == old(self)@.paint(
                shallow_points(x0 as int, y0 as int, x1 as int, y1 as int, steep),
                *color,
            ),
    {
        proof {
            use_type_invariant(&*self);
        }
        let ghost start = self@;
        let ghost all = shallow_points(x0 as int, y0 as int, x1 as int, y1 as int, steep);
        let limit = if steep {
            self.height
        } else {
            self.width
        };
        let lo: i32 = if x0 < 0 {
            0
        } else {
            x0
        };
        let hi: i32 = if x1 < limit {
            x1
        } else {
            limit - 1
        };
        let mut x: i64 = lo as i64;
        proof {
            assert(shallow_part(x0 as int, y0 as int, x1 as int, y1 as int, steep, lo as int, lo as int)
                =~= Set::empty());
            lemma_paint_outside(
                start,
                shallow_part(x0 as int, y0 as int, x1 as int, y1 as int, steep, lo as int, lo as int),
                *color,
            );
        }
        while x <= hi as i64
            invariant
                x0 < x1,
                dist(y0 as int, y1 as int) <= x1 - x0,
                x0 <= lo <= x,
                hi <= x1,
                x <= hi + 1 || x == lo,
                start.wf(),
                self@ == start.paint(
                    shallow_part(x0 as int, y0 as int, x1 as int, y1 as int, steep, lo as int, x as int),
                    *color,
                ),
            decreases hi - x + 1,
        {
            let y = shallow_row(x0, y0, x1, y1, x as i32);
            let ghost done = shallow_part(
                x0 as int,
                y0 as int,
                x1 as int,
                y1 as int,
                steep,
                lo as int,
                x as int,
            );
            let ghost next = shallow_part(
                x0 as int,
                y0 as int,
                x1 as int,
                y1 as int,
                steep,
                lo as int,
                x as int + 1,
            );
            let ghost q = if steep {
                (y as int, x as int)
            } else {
                (x as int, y as int)
            };
            proof {
                assert forall|p: (int, int)| next.contains(p) <==> done.union(set![q]).contains(p) by {
                    let along = if steep {
                        p.1
                    } else {
                        p.0
                    };
                    let across = if steep {
                        p.0
                    } else {
                        p.1
                    };
                    if next.contains(p) && along == x {
                        lemma_rounds_to_unique(
                            (y1 - y0) * (x - x0),
                            x1 - x0,
                            across - y0,
                            y as int - y0,
                        );
                    }
                }
                assert(next =~= done.union(set![q]));
                lemma_paint_union(start, done, set![q], *color);
            }
            if steep {
                self.plot(y, x, color);
            } else {
                self.plot(x, y, color);
            }
            x += 1;
        }
        proof {
            let part = shallow_part(x0 as int, y0 as int, x1 as int, y1 as int, steep, lo as int, x as int);
            assert forall|p: (int, int)| start.contains(p.0, p.1) implies (part.contains(p)
                <==> all.contains(p)) by {
            }
            lemma_paint_same_inside(start, part, all, *color);
        }
    }

    /// Draws a straight line, one pixel wide, from `(x0, y0)` to
    /// `(x1, y1)`. The part of the line outside the canvas is dropped.
    pub fn draw_line(&mut self, x0: i32, y0: i32, x1: i32, y1: i32, color: &LedColor)
        ensures
            final(self)@ == old(self)@.paint(
                line_points(x0 as int, y0 as int, x1 as int, y1 as int),
                *color,
            ),
    {
        let ghost line = line_points(x0 as int, y0 as int, x1 as int, y1 as int);
        if x0 == x1 && y0 == y1 {
            proof {
                assert(line =~= set![(x0 as int, y0 as int)]);
            }
            self.set(x0, y0, color);
            return ;
        }
        let across: i64 = if x0 < x1 {
            x1 as i64 - x0 as i64
        } else {
            x0 as i64 - x1 as i64
        };
        let down: i64 = if y0 < y1 {
            y1 as i64 - y0 as i64
        } else {
            y0 as i64 - y1 as i64
        };
        if across >= down {
            if x0 < x1 {
                proof {
                    assert(line =~= shallow_points(x0 as int, y0 as int, x1 as int, y1 as int, false));
                }
                self.draw_shallow(x0, y0, x1, y1, false, color);
            } else {
                proof {
                    assert(line =~= shallow_points(x1 as int, y1 as int, x0 as int, y0 as int, false));
                }
                self.draw_shallow(x1, y1, x0, y0, false, color);
            }
        } else {
            if y0 < y1 {
                proof {
                    assert(line =~= shallow_points(y0 as int, x0 as int, y1 as int, x1 as int, true));
                }
                self.draw_shallow(y0, x0, y1, x1, true, color);
            } else {
                proof {
                    assert(line =~= shallow_points(y1 as int, x1 as int, y0 as int, x0 as int, true));
                }
                self.draw_shallow(y1, x1, y0, x0, true, color);
            }
        }
    }

    /// Sets the four pixels at `(x ± a, y ± b)` to `color`.
    fn plot_four(&mut self, x: i32, y: i32, a: i64, b: i64, color: &LedColor)
        requires
            0 <= a <= u32::MAX,
            0 <= b <= u32::MAX,
        ensures
            final(self)@ == old(self)@.paint(
                Set::new(|p: (int, int)| dist(p.0, x as int) == a && dist(p.1, y as int) == b),
                *color,
            ),
    {
        let ghost start = self@;
        let ghost right_below = (x + a, y + b);
        let ghost left_below = (x - a, y + b);
        let ghost right_above = (x + a, y - b);
        let ghost left_above = (x - a, y - b);
        self.plot(x as i64 + a, y as i64 + b, color);
        self.plot(x as i64 - a, y as i64 + b, color);
        proof {
            lemma_paint_union(start, set![right_below], set![left_below], *color);
        }
        self.plot(x as i64 + a, y as i64 - b, color);
        proof {
            lemma_paint_union(start, set![right_below].union(set![left_below]), set![right_above], *color);
        }
        self.plot(x as i64 - a, y as i64 - b, color);
        proof {
            lemma_paint_union(start, set![right_below].union(set![left_below]).union(set![right_above]), set![left_above], *color);
            assert(set![right_below].union(set![left_below]).union(set![right_above]).union(set![left_above]) =~= Set::new(
                |p: (int, int)| dist(p.0, x as int) == a && dist(p.1, y as int) == b,
            ));
        }
    }

    /// Draws a circle, one pixel wide, of the given radius about `(x, y)`.
    /// The part of the circle outside the canvas is dropped.
    pub fn draw_circle(&mut self, x: i32, y: i32, radius: u32, color: &LedColor)
        ensures
            final(self)@ == old(self)@.paint(circle_points(x as int, y as int, radius as int), *color),
    {
        proof {
            use_type_invariant(&*self);
        }
        let ghost start = self@;
        let ghost cx = x as int;
        let ghost cy = y as int;
        let ghost r = radius as int;
        assert(0 <= r * r <= 0xffff_ffff * 0xffff_ffff) by (nonlinear_arith)
            requires
                0 <= r <= 0xffff_ffff,
        ;
        let mut a: i64 = radius as i64;
        let mut b: i64 = 0;
        let mut n: i128 = (radius as i128) * (radius as i128);
        proof {
            assert(circle_part(cx, cy, r, 0) =~= Set::empty());
            lemma_paint_outside(start, circle_part(cx, cy, r, 0), *color);
        }
        while b <= a
            invariant
                cx == x,
                cy == y,
                r == radius,
                0 <= b <= r + 1,
                0 <= a <= r,
                n == r * r - b * b,
                n <= a * a + a,
                a >= 1 ==> a * a - a < n,
                start.wf(),
                self@ == start.paint(circle_part(cx, cy, r, b as int), *color),
            decreases r + 1 - b,
        {
            let ghost done = circle_part(cx, cy, r, b as int);
            let ghost ring = octant_points(cx, cy, a as int, b as int);
            let ghost before = self@;
            self.plot_four(x, y, a, b, color);
            let ghost between = self@;
            self.plot_four(x, y, b, a, color);
            proof {
                let first = Set::new(|p: (int, int)| dist(p.0, cx) == a && dist(p.1, cy) == b);
                let second = Set::new(|p: (int, int)| dist(p.0, cx) == b && dist(p.1, cy) == a);
                assert(ring =~= first.union(second));
                lemma_paint_union(before, first, second, *color);
                lemma_paint_union(start, done, ring, *color);
                assert(b * b >= 0) by (nonlinear_arith);
                assert(a * a - a >= 0) by (nonlinear_arith)
                    requires
                        a >= 0,
                ;
                assert(b == 0 ==> b * b == 0) by (nonlinear_arith);
                assert(nearest_root(r * r - b * b, a as int));
                assert forall|p: (int, int)|
                    circle_part(cx, cy, r, b as int + 1).contains(p) <==> done.union(ring).contains(
                        p,
                    ) by {
                    lemma_circle_octants(cx, cy, r, a as int, b as int, p);
                }
                assert(circle_part(cx, cy, r, b as int + 1) =~= done.union(ring));
                assert((b + 1) * (b + 1) == b * b + 2 * b + 1) by (nonlinear_arith);
            }
            n = n - (2 * (b as i128) + 1);
            b = b + 1;
            let ghost reach = a;
            assert(0 <= a * a <= 0xffff_ffff * 0xffff_ffff) by (nonlinear_arith)
                requires
                    0 <= a <= 0xffff_ffff,
            ;
            while a > 0 && (a as i128) * (a as i128) - (a as i128) >= n
                invariant
                    0 <= a <= reach <= r,
                    r == radius,
                    n <= a * a + a,
                    0 <= a * a <= 0xffff_ffff * 0xffff_ffff,
                decreases a,
            {
                proof {
                    assert((a - 1) * (a - 1) + (a - 1) == a * a - a) by (nonlinear_arith);
                    assert(0 <= (a - 1) * (a - 1) <= 0xffff_ffff * 0xffff_ffff) by (nonlinear_arith)
                        requires
                            1 <= a <= 0xffff_ffff,
                    ;
                }
                a = a - 1;
            }
        }
        proof {
            let part = circle_part(cx, cy, r, b as int);
            assert forall|p: (int, int)| circle_points(cx, cy, r).contains(p) implies part.contains(
                p,
            ) by {
                lemma_circle_ends(cx, cy, r, a as int, b as int, p);
            }
            assert(part =~= circle_points(cx, cy, r));
        }
    }

    /// Inks one glyph where it is placed.
    fn draw_glyph(&mut self, font: &LedFont, glyph: PlacedGlyph, color: &LedColor)
        ensures
            final(self)@ == old(self)@.paint(glyph_ink(font@, glyph@), *color),
    {
        proof {
            use_type_invariant(&*self);
        }
        let ghost p = glyph@;
        let ghost start = self@;
        let (baseline, height) = font.baseline_and_height();
        let found = font.find(glyph.ch);
        if found.is_none() {
            proof {
                lemma_paint_outside(start, glyph_ink(font@, p), *color);
            }
            return ;
        }
        let g: &Glyph = font.glyph_ref(found.unwrap());
        if glyph.x < i64::MIN as i128 || glyph.x > i64::MAX as i128 || glyph.y < i64::MIN as i128
            || glyph.y > i64::MAX as i128 {
            proof {
                assert forall|q: (int, int)| glyph_ink(font@, p).contains(q) implies !start.contains(
                    q.0,
                    q.1,
                ) by {
                    assert(font@.width_of(p.ch) == g.width);
                    lemma_glyph_ink_in_cell(font@, p, q);
                }
                lemma_paint_outside(start, glyph_ink(font@, p), *color);
            }
            return ;
        }
        let top: i128 = glyph.y - baseline as i128;
        let left: i128 = glyph.x;
        let rows = g.rows.len();
        let mut r: usize = 0;
        proof {
            assert(ink_before(font@, p, 0, 0) =~= Set::empty());
            lemma_paint_outside(start, ink_before(font@, p, 0, 0), *color);
        }
        while r < rows
            invariant
                0 <= r <= rows,
                rows == g.rows@.len(),
                rows == font@.height,
                p == glyph@,
                top == p.y - font@.baseline,
                i64::MIN <= p.x <= i64::MAX,
                i64::MIN <= p.y <= i64::MAX,
                0 < font@.baseline < font@.height <= i32::MAX,
                left == p.x,
                font@.has(p.ch),
                g@ == font@.glyph(p.ch),
                g@.well_shaped(font@.height),
                start.wf(),
                self@ == start.paint(ink_before(font@, p, r as int, 0), *color),
            decreases rows - r,
        {
            let row = &g.rows[r];
            let cols = row.len();
            let mut c: usize = 0;
            proof {
                assert(g@.rows[r as int] == row@);
            }
            while c < cols
                invariant
                    0 <= r < rows,
                    0 <= c <= cols,
                    rows == g.rows@.len(),
                    rows == font@.height,
                    cols == row@.len(),
                    g@.rows[r as int] == row@,
                    p == glyph@,
                    top == p.y - font@.baseline,
                    i64::MIN <= p.x <= i64::MAX,
                    i64::MIN <= p.y <= i64::MAX,
                    0 < font@.baseline < font@.height <= i32::MAX,
                    left == p.x,
                    font@.has(p.ch),
                    g@ == font@.glyph(p.ch),
                    g@.well_shaped(font@.height),
                    start.wf(),
                    self@ == start.paint(ink_before(font@, p, r as int, c as int), *color),
                decreases cols - c,
            {
                let ghost done = ink_before(font@, p, r as int, c as int);
                let ghost next = ink_before(font@, p, r as int, c as int + 1);
                let ghost q = (left as int + c as int, top as int + r as int);
                if row[c] {
                    let px: i128 = left + c as i128;
                    let py: i128 = top + r as i128;
                    proof {
                        assert(glyph_ink(font@, p).contains(q));
                        assert(next =~= done.union(set![q]));
                    }
                    if i32::MIN as i128 <= px && px <= i32::MAX as i128 && i32::MIN as i128 <= py && py
                        <= i32::MAX as i128 {
                        self.set(px as i32, py as i32, color);
                        proof {
                            lemma_paint_union(start, done, set![q], *color);
                        }
                    } else {
                        proof {
                            assert(!start.contains(q.0, q.1));
                            lemma_paint_same_inside(start, done, next, *color);
                        }
                    }
                } else {
                    proof {
                        assert(next =~= done);
                    }
                }
                c += 1;
            }
            proof {
                assert(ink_before(font@, p, r as int, cols as int) =~= ink_before(
                    font@,
                    p,
                    r as int + 1,
                    0,
                ));
            }
            r += 1;
        }
        proof {
            assert(ink_before(font@, p, rows as int, 0) =~= glyph_ink(font@, p));
        }
    }

    /// Draws `text` in `font` as `options` say, and returns how far the
    /// text reaches: to the right for a row, downwards for a column and for
    /// a wrapped text.
    ///
    /// The text starts at the position of the options: the left edge of the
    /// first glyph's cell and the row of its baseline. Ink that falls
    /// outside the canvas is dropped.
    ///
    /// Fails, and leaves the canvas as it is, with `TextError::Encoding`
    /// when the text holds a NUL character, and otherwise with
    /// `TextError::TooLong` when the advance of the text does not fit in 32
    /// bits or, for a wrapped text, when the width of a word does not or
    /// the paragraph is too large for `wrap_words`.
    pub fn draw_text(&mut self, font: &LedFont, text: &str, options: &TextDrawOptions) -> (r: Result<
        i32,
        TextError,
    >)
        ensures
            match r {
                Ok(advance) => {
                    &&& text_error(
                        font@,
                        text@,
                        options@.layout,
                        options@.kerning_offset as int,
                        options@.leading as int,
                    ) is None
                    &&& advance == text_advance(
                        font@,
                        text@,
                        options@.layout,
                        options@.kerning_offset as int,
                        options@.leading as int,
                    )
                    &&& final(self)@ == old(self)@.paint(
                        text_ink(
                            font@,
                            text_placements(
                                font@,
                                text@,
                                options@.x as int,
                                options@.y as int,
                                options@.layout,
                                options@.kerning_offset as int,
                                options@.leading as int,
                            ),
                        ),
                        options@.color,
                    )
                },
                Err(e) => {
                    &&& text_error(
                        font@,
                        text@,
                        options@.layout,
                        options@.kerning_offset as int,
                        options@.leading as int,
                    ) == Some(e)
                    &&& final(self)@ == old(self)@
                },
            },
    {
        proof {
            use_type_invariant(&*self);
        }
        let ghost start = self@;
        let plan = match layout_text(
            font,
            text,
            options.x,
            options.y,
            &options.layout,
            options.kerning_offset,
            options.leading,
        ) {
            Ok(plan) => plan,
            Err(e) => {
                return Err(e);
            },
        };
        let ghost places = placed(plan.glyphs@);
        let n = plan.glyphs.len();
        let mut i: usize = 0;
        proof {
            lemma_text_ink_empty(font@);
            assert(places.take(0) =~= Seq::<Placement>::empty());
            lemma_paint_outside(start, text_ink(font@, places.take(0)), *options.color);
        }
        while i < n
            invariant
                0 <= i <= n,
                n == plan.glyphs@.len(),
                places == placed(plan.glyphs@),
                start.wf(),
                self@ == start.paint(text_ink(font@, places.take(i as int)), *options.color),
            decreases n - i,
        {
            let glyph = plan.glyphs[i];
            self.draw_glyph(font, glyph, options.color);
            proof {
                let done = places.take(i as int);
                assert(places.take(i as int + 1) =~= done.push(places[i as int]));
                lemma_text_ink_push(font@, done, places[i as int]);
                lemma_paint_union(
                    start,
                    text_ink(font@, done),
                    glyph_ink(font@, places[i as int]),
                    *options.color,
                );
            }
            i += 1;
        }
        proof {
            assert(places.take(n as int) =~= places);
        }
        Ok(plan.advance)
    }
}

} // verus!
