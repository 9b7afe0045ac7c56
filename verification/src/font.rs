//! Bitmap fonts: metrics and one bitmap per character.

use vstd::prelude::*;

verus! {

/// The height that stands for a font that was never loaded.
pub const FONT_NOT_LOADED: i32 = -1;

/// Why a font could not be built.
#[derive(Clone, Copy, Debug, PartialEq, Eq, Structural)]
pub enum FontError {
    /// The height is the reserved value of a font that was never loaded.
    NotLoaded,
    /// The height is not positive, or the baseline does not lie strictly
    /// between the top line and the height.
    InvalidMetrics,
    /// A glyph has a negative width, or its bitmap does not have one row
    /// per line of the font and one cell per column of the glyph.
    InvalidGlyph,
    /// Two glyphs draw the same character.
    DuplicateGlyph,
}

/// The bitmap of one character. `rows[r][c]` tells whether the cell in row
/// `r` (from the top) and column `c` (from the left) holds ink.
pub struct Glyph {
    pub ch: char,
    pub width: i32,
    pub rows: Vec<Vec<bool>>,
}

/// A glyph as a mathematical value.
pub struct GlyphView {
    pub ch: char,
    pub width: int,
    pub rows: Seq<Seq<bool>>,
}

impl GlyphView {
    /// The bitmap has `height` rows of `width` cells each.
    pub open spec fn well_shaped(self, height: int) -> bool {
        &&& self.width >= 0
        &&& self.rows.len() == height
        &&& forall|r: int| 0 <= r < self.rows.len() ==> (#[trigger] self.rows[r]).len() == self.width
    }

    /// The inked cells, as `(column, row)` pairs.
    pub open spec fn ink(self) -> Set<(int, int)> {
        Set::new(
            |p: (int, int)|
                0 <= p.1 < self.rows.len() && 0 <= p.0 < self.rows[p.1].len() && self.rows[p.1][p.0],
        )
    }
}

impl View for Glyph {
    type V = GlyphView;

    open spec fn view(&self) -> GlyphView {
        GlyphView {
            ch: self.ch,
            width: self.width as int,
            rows: Seq::new(self.rows@.len(), |r: int| self.rows@[r]@),
        }
    }
}

/// The glyphs of a vector as mathematical values.
pub open spec fn glyph_views(glyphs: Seq<Glyph>) -> Seq<GlyphView> {
    Seq::new(glyphs.len(), |i: int| glyphs[i]@)
}

/// A font as a mathematical value.
pub struct FontView {
    pub height: int,
    pub baseline: int,
    pub glyphs: Seq<GlyphView>,
}

impl FontView {
    /// The height is positive and the baseline lies strictly between the
    /// top line and the height.
    pub open spec fn metrics_ok(self) -> bool {
        0 < self.baseline < self.height <= i32::MAX
    }

    /// Every glyph fills the cell that the font gives it.
    pub open spec fn glyphs_ok(self) -> bool {
        forall|i: int| 0 <= i < self.glyphs.len() ==> (#[trigger] self.glyphs[i]).well_shaped(self.height)
    }

    /// No character has two glyphs.
    pub open spec fn glyphs_distinct(self) -> bool {
        forall|i: int, j: int|
            0 <= i < j < self.glyphs.len() ==> (#[trigger] self.glyphs[i]).ch != (
            #[trigger] self.glyphs[j]).ch
    }

    /// The parts make a font: the metrics are sound, every glyph fills its
    /// cell and no character has two glyphs.
    pub open spec fn wf(self) -> bool {
        &&& self.metrics_ok()
        &&& self.glyphs_ok()
        &&& self.glyphs_distinct()
    }

    /// Why these parts make no font, or `None` when they make one. The
    /// first defect in the order of `FontError` is the one named.
    pub open spec fn defect(self) -> Option<FontError> {
        if self.height == FONT_NOT_LOADED {
            Some(FontError::NotLoaded)
        } else if !self.metrics_ok() {
            Some(FontError::InvalidMetrics)
        } else if !self.glyphs_ok() {
            Some(FontError::InvalidGlyph)
        } else if !self.glyphs_distinct() {
            Some(FontError::DuplicateGlyph)
        } else {
            None
        }
    }

    /// Whether the font has a glyph for `c`.
    pub open spec fn has(self, c: char) -> bool {
        exists|i: int| 0 <= i < self.glyphs.len() && (#[trigger] self.glyphs[i]).ch == c
    }

    /// The glyph for `c`, where the font has one.
    pub open spec fn glyph(self, c: char) -> GlyphView {
        self.glyphs[choose|i: int| 0 <= i < self.glyphs.len() && (#[trigger] self.glyphs[i]).ch == c]
    }

    /// The width of `c`. A character without a glyph has no width.
    pub open spec fn width_of(self, c: char) -> int {
        if self.has(c) {
            self.glyph(c).width
        } else {
            0
        }
    }

    /// The inked cells of `c`, as `(column, row)` pairs counted from the
    /// top-left corner of its cell. A character without a glyph has no ink.
    pub open spec fn ink_of(self, c: char) -> Set<(int, int)> {
        if self.has(c) {
            self.glyph(c).ink()
        } else {
            Set::empty()
        }
    }

    /// The widths of the characters of `text`, in order.
    pub open spec fn widths(self, text: Seq<char>) -> Seq<int> {
        Seq::new(text.len(), |i: int| self.width_of(text[i]))
    }
}

/// In a well-formed font a glyph is found by its character alone.
pub proof fn lemma_glyph_unique(f: FontView, i: int)
    requires
        f.glyphs_distinct(),
        0 <= i < f.glyphs.len(),
    ensures
        f.has(f.glyphs[i].ch),
        f.glyph(f.glyphs[i].ch) == f.glyphs[i],
{
    let c = f.glyphs[i].ch;
    let j = choose|j: int| 0 <= j < f.glyphs.len() && (#[trigger] f.glyphs[j]).ch == c;
    if i < j {
        assert(f.glyphs[i].ch != f.glyphs[j].ch);
    } else if j < i {
        assert(f.glyphs[j].ch != f.glyphs[i].ch);
    }
}

/// Parts make a font exactly when they have no defect, and a font has a
/// positive height and a baseline that lies strictly between the top line
/// and the height.
pub proof fn lemma_font_metrics(parts: FontView)
    ensures
        parts.defect() is None <==> parts.wf(),
        parts.wf() ==> parts.height > 0 && 0 < parts.baseline < parts.height,
{
}

/// The height that was read for a font, or `FontError::NotLoaded` when it
/// is the reserved value of a font that was never loaded.
pub fn loaded_height(measured: i32) -> (r: Result<i32, FontError>)
    ensures
        r == (if measured == FONT_NOT_LOADED {
            Err(FontError::NotLoaded)
        } else {
            Ok(measured)
        }),
{
    if measured == FONT_NOT_LOADED {
        Err(FontError::NotLoaded)
    } else {
        Ok(measured)
    }
}

/// The ink of a glyph lies inside the cell that the font gives it.
pub proof fn lemma_ink_in_cell(font: FontView, c: char, col: int, row: int)
    requires
        font.wf(),
        font.ink_of(c).contains((col, row)),
    ensures
        0 <= col < font.width_of(c),
        0 <= row < font.height,
{
    let i = choose|i: int| 0 <= i < font.glyphs.len() && (#[trigger] font.glyphs[i]).ch == c;
    assert(font.glyphs[i].well_shaped(font.height));
}

/// A bitmap font: a line height, a baseline and the glyphs.
pub struct LedFont {
    height: i32,
    baseline: i32,
    glyphs: Vec<Glyph>,
}

impl View for LedFont {
    type V = FontView;

    closed spec fn view(&self) -> FontView {
        FontView {
            height: self.height as int,
            baseline: self.baseline as int,
            glyphs: glyph_views(self.glyphs@),
        }
    }
}

/// Whether the bitmap of `g` has `height` rows of `g.width` cells.
fn glyph_well_shaped(g: &Glyph, height: i32) -> (ok: bool)
    requires
        height > 0,
    ensures
        ok == g@.well_shaped(height as int),
{
    if g.width < 0 || g.rows.len() != height as usize {
        return false;
    }
    let mut r: usize = 0;
    while r < g.rows.len()
        invariant
            r <= g.rows@.len(),
            g.width >= 0,
            g@.rows.len() == g.rows@.len(),
            forall|k: int| 0 <= k < r ==> (#[trigger] g@.rows[k]).len() == g.width,
        decreases g.rows@.len() - r,
    {
        if g.rows[r].len() != g.width as usize {
            assert(g@.rows[r as int].len() != g.width);
            return false;
        }
        r += 1;
    }
    true
}

impl LedFont {
    /// What a font holds makes a font.
    #[verifier::type_invariant]
    pub closed spec fn wf(&self) -> bool {
        self@.wf()
    }

    /// Builds a font from its metrics and glyphs.
    ///
    /// `height` is the distance in pixels from the top to the bottom of a
    /// glyph cell, `baseline` the distance from the top line to the
    /// baseline.
    pub fn new(height: i32, baseline: i32, glyphs: Vec<Glyph>) -> (r: Result<LedFont, FontError>)
        ensures
            ({
                let parts = FontView {
                    height: height as int,
                    baseline: baseline as int,
                    glyphs: glyph_views(glyphs@),
                };
                match r {
                    Ok(f) => parts.defect() is None && f@ == parts && f.wf(),
                    Err(e) => parts.defect() == Some(e),
                }
            }),
    {
        let ghost parts = FontView {
            height: height as int,
            baseline: baseline as int,
            glyphs: glyph_views(glyphs@),
        };
        if let Err(e) = loaded_height(height) {
            return Err(e);
        }
        if !(0 < baseline && baseline < height) {
            return Err(FontError::InvalidMetrics);
        }
        let n = glyphs.len();
        let mut i: usize = 0;
        while i < n
            invariant
                i <= n,
                n == glyphs@.len(),
                height > 0,
                parts.height == height,
                parts.height != FONT_NOT_LOADED,
                parts.metrics_ok(),
                parts == (FontView {
                    height: height as int,
                    baseline: baseline as int,
                    glyphs: glyph_views(glyphs@),
                }),
                forall|k: int| 0 <= k < i ==> (#[trigger] parts.glyphs[k]).well_shaped(height as int),
            decreases n - i,
        {
            if !glyph_well_shaped(&glyphs[i], height) {
                assert(!parts.glyphs[i as int].well_shaped(parts.height));
                return Err(FontError::InvalidGlyph);
            }
            i += 1;
        }
        let mut j: usize = 0;
        while j < n
            invariant
                j <= n,
                n == glyphs@.len(),
                parts.height != FONT_NOT_LOADED,
                parts.metrics_ok(),
                parts.glyphs_ok(),
                parts == (FontView {
                    height: height as int,
                    baseline: baseline as int,
                    glyphs: glyph_views(glyphs@),
                }),
                forall|a: int, b: int|
                    0 <= a < b < j ==> (#[trigger] parts.glyphs[a]).ch != (#[trigger] parts.glyphs[b]).ch,
            decreases n - j,
        {
            let mut k: usize = 0;
            while k < j
                invariant
                    k <= j < n,
                    n == glyphs@.len(),
                    parts.height != FONT_NOT_LOADED,
                    parts.metrics_ok(),
                    parts.glyphs_ok(),
                    parts == (FontView {
                    height: height as int,
                    baseline: baseline as int,
                    glyphs: glyph_views(glyphs@),
                }),
                    forall|a: int| 0 <= a < k ==> (#[trigger] parts.glyphs[a]).ch != parts.glyphs[j as int].ch,
                decreases j - k,
            {
                if glyphs[k].ch == glyphs[j].ch {
                    assert(parts.glyphs[k as int].ch == parts.glyphs[j as int].ch);
                    return Err(FontError::DuplicateGlyph);
                }
                k += 1;
            }
            j += 1;
        }
        Ok(LedFont { height, baseline, glyphs })
    }

    /// What a font holds makes a font as a mathematical value too.
    pub proof fn lemma_view(&self)
        requires
            self.wf(),
        ensures
            self@.wf(),
    {
    }

    /// The height of a line of text, in pixels.
    pub fn height(&self) -> (r: Result<i32, FontError>)
        ensures
            r matches Ok(h) && h == self@.height && h > 0,
            self@.wf(),
    {
        proof {
            use_type_invariant(self);
        }
        loaded_height(self.height)
    }

    /// The distance from the top line of a glyph cell to the baseline, in
    /// pixels.
    pub fn baseline(&self) -> (r: i32)
        ensures
            r == self@.baseline,
            0 < r < self@.height <= i32::MAX,
            self@.wf(),
    {
        proof {
            use_type_invariant(self);
        }
        self.baseline
    }

    /// The baseline and the height, which every font has.
    pub(crate) fn baseline_and_height(&self) -> (r: (i32, i32))
        ensures
            r.0 == self@.baseline,
            r.1 == self@.height,
            self@.wf(),
    {
        proof {
            use_type_invariant(self);
        }
        (self.baseline, self.height)
    }

    /// The position of the glyph for `c` among the glyphs.
    pub(crate) fn find(&self, c: char) -> (r: Option<usize>)
        ensures
            r is Some <==> self@.has(c),
            r matches Some(i) ==> i < self@.glyphs.len() && self@.glyphs[i as int] == self@.glyph(c),
    {
        proof {
            use_type_invariant(self);
        }
        let mut i: usize = 0;
        while i < self.glyphs.len()
            invariant
                i <= self.glyphs@.len(),
                self@.glyphs.len() == self.glyphs@.len(),
                self@.wf(),
                forall|k: int| 0 <= k < i ==> (#[trigger] self@.glyphs[k]).ch != c,
            decreases self.glyphs@.len() - i,
        {
            if self.glyphs[i].ch == c {
                proof {
                    assert(self@.glyphs[i as int].ch == c);
                    lemma_glyph_unique(self@, i as int);
                }
                return Some(i);
            }
            i += 1;
        }
        None
    }

    /// The glyph at position `i` among the glyphs.
    pub(crate) fn glyph_ref(&self, i: usize) -> (g: &Glyph)
        requires
            i < self@.glyphs.len(),
        ensures
            g@ == self@.glyphs[i as int],
            g@.well_shaped(self@.height),
            0 < self@.baseline < self@.height <= i32::MAX,
    {
        proof {
            use_type_invariant(self);
        }
        &self.glyphs[i]
    }

    /// The width of `c` in pixels; zero for a character without a glyph.
    pub fn glyph_width(&self, c: char) -> (w: i32)
        ensures
            w == self@.width_of(c),
            w >= 0,
    {
        proof {
            use_type_invariant(self);
        }
        match self.find(c) {
            Some(i) => self.glyphs[i].width,
            None => 0,
        }
    }
}

} // verus!
