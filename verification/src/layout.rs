//! Text layout: where each glyph of a text goes, and how far the text
//! reaches.
//!
//! A text is laid out in one of three ways. In a row, the glyphs follow
//! each other to the right and neighbours are `kerning` pixels apart. In a
//! column, they follow each other downwards, one line height plus
//! `kerning` apart. Wrapped, the words of the text are set in rows of
//! least raggedness, one below the other.

use crate::canvas::TextLayout;
use crate::error::TextError;
use crate::font::{lemma_ink_in_cell, FontView, LedFont};
use crate::run::{
    ints, lemma_extent_plain, lemma_span_offset, lemma_span_within, measure_run, positions, range_sum, run_advance,
    run_extent, run_offset, span_offset, span_width,
};
use crate::wrap::{
    best_breaks, fits, is_breaking, is_wrapping, lemma_best_breaks, lemma_best_is_least,
    lemma_breaking_bounds, raggedness, wrap_words,
};
use vstd::prelude::*;

verus! {

/// A glyph and the place where it is drawn. `x` is the left edge of the
/// glyph's cell, `y` the row of its baseline.
pub struct Placement {
    pub ch: char,
    pub x: int,
    pub y: int,
}

impl Placement {
    /// The glyph of `ch` placed at `(x, y)`.
    pub open spec fn new(ch: char, x: int, y: int) -> Placement {
        Placement { ch, x, y }
    }
}

/// A glyph and the place where it is drawn. `x` is the left edge of the
/// glyph's cell, `y` the row of its baseline.
#[derive(Clone, Copy, Debug, PartialEq, Eq)]
pub struct PlacedGlyph {
    pub ch: char,
    pub x: i128,
    pub y: i128,
}

impl PlacedGlyph {
    /// The glyph of `ch` placed at `(x, y)`.
    pub fn new(ch: char, x: i128, y: i128) -> (g: PlacedGlyph)
        ensures
            g == (PlacedGlyph { ch, x, y }),
    {
        PlacedGlyph { ch, x, y }
    }
}

impl View for PlacedGlyph {
    type V = Placement;

    open spec fn view(&self) -> Placement {
        Placement { ch: self.ch, x: self.x as int, y: self.y as int }
    }
}

/// The placed glyphs as mathematical values.
pub open spec fn placed(glyphs: Seq<PlacedGlyph>) -> Seq<Placement> {
    Seq::new(glyphs.len(), |i: int| glyphs[i]@)
}

/// A text laid out: its glyphs in the order of the text, and how far the
/// text reaches.
pub struct TextPlan {
    pub glyphs: Vec<PlacedGlyph>,
    pub advance: i32,
}

/// The glyphs of `text` in a row that starts at `(x, y)`.
pub open spec fn place_row(font: FontView, text: Seq<char>, kerning: int, x: int, y: int) -> Seq<
    Placement,
> {
    Seq::new(
        text.len(),
        |i: int| Placement::new(text[i], x + run_offset(font.widths(text), kerning, i), y),
    )
}

/// The glyphs of `text` in a column that starts at `(x, y)`.
pub open spec fn place_column(font: FontView, text: Seq<char>, kerning: int, x: int, y: int) -> Seq<
    Placement,
> {
    Seq::new(text.len(), |i: int| Placement::new(text[i], x, y + i * (font.height + kerning)))
}

/// The words of `text`: its longest runs of characters other than the
/// space, in order.
pub open spec fn split_words(text: Seq<char>) -> Seq<Seq<char>>
    decreases text.len(),
{
    if text.len() == 0 {
        Seq::empty()
    } else {
        let before = split_words(text.drop_last());
        let c = text.last();
        if c == ' ' {
            before
        } else if text.len() >= 2 && text[text.len() - 2] != ' ' {
            before.drop_last().push(before.last().push(c))
        } else {
            before.push(seq![c])
        }
    }
}

/// The words of a vector as sequences.
pub open spec fn word_views(words: Seq<Vec<char>>) -> Seq<Seq<char>> {
    Seq::new(words.len(), |t: int| words[t]@)
}

/// The width of each word set in a row.
pub open spec fn word_widths(font: FontView, words: Seq<Seq<char>>, kerning: int) -> Seq<int> {
    Seq::new(words.len(), |t: int| run_advance(font.widths(words[t]), kerning))
}

/// The distance between two words of a row: a space with the kerning on
/// either side of it.
pub open spec fn word_gap(font: FontView, kerning: int) -> int {
    font.width_of(' ') + 2 * kerning
}

/// Whether the width of every word fits in 32 bits.
pub open spec fn words_fit(font: FontView, words: Seq<Seq<char>>, kerning: int) -> bool {
    forall|t: int|
        0 <= t < words.len() ==> i32::MIN <= run_advance(font.widths(#[trigger] words[t]), kerning)
            <= i32::MAX
}

/// The glyphs of the words `first..end` in a row that starts at `(x, y)`.
pub open spec fn place_words(
    font: FontView,
    words: Seq<Seq<char>>,
    kerning: int,
    first: int,
    end: int,
    x: int,
    y: int,
) -> Seq<Placement>
    decreases end - first,
{
    if end <= first {
        Seq::empty()
    } else {
        place_words(font, words, kerning, first, end - 1, x, y) + place_row(
            font,
            words[end - 1],
            kerning,
            x + span_offset(word_widths(font, words, kerning), word_gap(font, kerning), first, end - 1),
            y,
        )
    }
}

/// The glyphs of the first `count` rows that `breaks` cuts from `words`,
/// each row `step` below the one before it, the first at `(x, y)`.
pub open spec fn place_lines(
    font: FontView,
    words: Seq<Seq<char>>,
    kerning: int,
    breaks: Seq<int>,
    x: int,
    y: int,
    step: int,
    count: int,
) -> Seq<Placement>
    decreases count,
{
    if count <= 0 {
        Seq::empty()
    } else {
        place_lines(font, words, kerning, breaks, x, y, step, count - 1) + place_words(
            font,
            words,
            kerning,
            breaks[count - 1],
            breaks[count],
            x,
            y + (count - 1) * step,
        )
    }
}

/// Where the rows of the wrapped text begin: the index of the first word
/// of each row, followed by the number of words.
pub open spec fn wrapped_breaks(font: FontView, text: Seq<char>, kerning: int, line_width: int) -> Seq<
    int,
> {
    let words = split_words(text);
    best_breaks(word_widths(font, words, kerning), word_gap(font, kerning), line_width, 0)
}

/// How far a wrapped text reaches downwards: one line height and the
/// leading for each row.
pub open spec fn wrapped_advance(
    font: FontView,
    text: Seq<char>,
    kerning: int,
    leading: int,
    line_width: int,
) -> int {
    (wrapped_breaks(font, text, kerning, line_width).len() - 1) * (font.height + leading)
}

/// Whether the text is small enough to be laid out: in a row or a column
/// its advance fits in 32 bits; wrapped, so do the width of every word, the
/// extent of all words in one row (which `wrap_words` asks for), and the
/// advance.
pub open spec fn text_fits(
    font: FontView,
    text: Seq<char>,
    layout: TextLayout,
    kerning: int,
    leading: int,
) -> bool {
    match layout {
        TextLayout::Horizontal => i32::MIN <= run_advance(font.widths(text), kerning) <= i32::MAX,
        TextLayout::Vertical => i32::MIN <= text.len() * (font.height + kerning) <= i32::MAX,
        TextLayout::Wrapped { line_width } => {
            let words = split_words(text);
            &&& words_fit(font, words, kerning)
            &&& run_extent(word_widths(font, words, kerning), word_gap(font, kerning)) <= i32::MAX
            &&& i32::MIN <= wrapped_advance(font, text, kerning, leading, line_width as int) <= i32::MAX
        },
    }
}

/// Why the text cannot be laid out, or `None` when it can.
pub open spec fn text_error(
    font: FontView,
    text: Seq<char>,
    layout: TextLayout,
    kerning: int,
    leading: int,
) -> Option<TextError> {
    if text.contains('\0') {
        Some(TextError::Encoding)
    } else if !text_fits(font, text, layout, kerning, leading) {
        Some(TextError::TooLong)
    } else {
        None
    }
}

/// Where the glyphs of the text go when it starts at `(x, y)`.
pub open spec fn text_placements(
    font: FontView,
    text: Seq<char>,
    x: int,
    y: int,
    layout: TextLayout,
    kerning: int,
    leading: int,
) -> Seq<Placement> {
    match layout {
        TextLayout::Horizontal => place_row(font, text, kerning, x, y),
        TextLayout::Vertical => place_column(font, text, kerning, x, y),
        TextLayout::Wrapped { line_width } => {
            let breaks = wrapped_breaks(font, text, kerning, line_width as int);
            place_lines(
                font,
                split_words(text),
                kerning,
                breaks,
                x,
                y,
                font.height + leading,
                breaks.len() - 1,
            )
        },
    }
}

/// How far the text reaches. A row reaches to the right, over the widths
/// of its glyphs and the kernings between them. A column reaches
/// downwards, one line height and one kerning for every glyph. A wrapped
/// text reaches downwards, one line height and one leading for every row.
pub open spec fn text_advance(
    font: FontView,
    text: Seq<char>,
    layout: TextLayout,
    kerning: int,
    leading: int,
) -> int {
    match layout {
        TextLayout::Horizontal => run_advance(font.widths(text), kerning),
        TextLayout::Vertical => text.len() * (font.height + kerning),
        TextLayout::Wrapped { line_width } => wrapped_advance(
            font,
            text,
            kerning,
            leading,
            line_width as int,
        ),
    }
}

/// The characters of `text`, each once, in the order in which they first
/// occur.
pub open spec fn first_occurrences(text: Seq<char>) -> Seq<char>
    decreases text.len(),
{
    if text.len() == 0 {
        Seq::empty()
    } else {
        let before = first_occurrences(text.drop_last());
        if before.contains(text.last()) {
            before
        } else {
            before.push(text.last())
        }
    }
}

/// The pixels that the glyph inks where it is placed. The top line of the
/// glyph's cell lies `font.baseline` rows above the placement.
pub open spec fn glyph_ink(font: FontView, p: Placement) -> Set<(int, int)> {
    Set::new(|q: (int, int)| font.ink_of(p.ch).contains((q.0 - p.x, q.1 - (p.y - font.baseline))))
}

/// The pixels that any of the glyphs inks.
pub open spec fn text_ink(font: FontView, glyphs: Seq<Placement>) -> Set<(int, int)> {
    Set::new(
        |q: (int, int)|
            exists|i: int| 0 <= i < glyphs.len() && glyph_ink(font, #[trigger] glyphs[i]).contains(q),
    )
}

/// A row of `k` characters reaches as far as the sum of its `k` glyph
/// widths and the `k - 1` kernings between them, and a row without NUL can
/// be laid out exactly when that fits in 32 bits.
pub proof fn lemma_row_advance(font: FontView, text: Seq<char>, kerning: int, leading: int)
    ensures
        text.len() == 0 ==> text_advance(font, text, TextLayout::Horizontal, kerning, leading) == 0,
        text.len() > 0 ==> text_advance(font, text, TextLayout::Horizontal, kerning, leading)
            == range_sum(font.widths(text), 0, text.len() as int) + (text.len() - 1) * kerning,
        !text.contains('\0') ==> (text_error(font, text, TextLayout::Horizontal, kerning, leading)
            is None <==> i32::MIN <= text_advance(
            font,
            text,
            TextLayout::Horizontal,
            kerning,
            leading,
        ) <= i32::MAX),
{
}

/// A column of `k` characters reaches as far as `k` times the line height
/// and the kerning, and glyph `i` of it stands `i` times that below the
/// first.
pub proof fn lemma_column_advance(
    font: FontView,
    text: Seq<char>,
    kerning: int,
    leading: int,
    x: int,
    y: int,
    i: int,
)
    requires
        0 <= i < text.len(),
    ensures
        text_advance(font, text, TextLayout::Vertical, kerning, leading) == text.len() * (font.height
            + kerning),
        text_advance(font, Seq::empty(), TextLayout::Vertical, kerning, leading) == 0,
        !text.contains('\0') ==> (text_error(font, text, TextLayout::Vertical, kerning, leading)
            is None <==> i32::MIN <= text.len() * (font.height + kerning) <= i32::MAX),
        text_placements(font, text, x, y, TextLayout::Vertical, kerning, leading)[i] == Placement::new(
            text[i],
            x,
            y + i * (font.height + kerning),
        ),
{
    assert(0 * (font.height + kerning) == 0) by (nonlinear_arith);
}

/// No word is empty, no word holds a space, and a text that ends in
/// another character ends in its last word.
pub proof fn lemma_split_words(text: Seq<char>)
    ensures
        forall|t: int|
            0 <= t < split_words(text).len() ==> (#[trigger] split_words(text)[t]).len() > 0 && !split_words(
                text,
            )[t].contains(' '),
        text.len() > 0 && text.last() != ' ' ==> split_words(text).len() > 0 && split_words(
            text,
        ).last().last() == text.last(),
    decreases text.len(),
{
    if text.len() > 0 {
        let before = split_words(text.drop_last());
        let words = split_words(text);
        let c = text.last();
        lemma_split_words(text.drop_last());
        if c != ' ' {
            if text.len() >= 2 && text[text.len() - 2] != ' ' {
                assert(text.drop_last().last() == text[text.len() - 2]);
                let word = before.last().push(c);
                assert forall|t: int| 0 <= t < words.len() implies (#[trigger] words[t]).len() > 0
                    && !words[t].contains(' ') by {
                    if t < words.len() - 1 {
                        assert(words[t] == before[t]);
                    } else {
                        assert(words[t] == word);
                        assert forall|k: int| 0 <= k < word.len() implies word[k] != ' ' by {
                            if k < word.len() - 1 {
                                assert(before.last().contains(word[k]));
                            }
                        }
                    }
                }
            } else {
                let word = seq![c];
                assert forall|t: int| 0 <= t < words.len() implies (#[trigger] words[t]).len() > 0
                    && !words[t].contains(' ') by {
                    if t < words.len() - 1 {
                        assert(words[t] == before[t]);
                    } else {
                        assert(words[t] == word);
                    }
                }
            }
        }
    }
}

/// The rows of a wrapped text are a wrapping of its words: every word is
/// in exactly one row, in order, and no row of more than one word is wider
/// than the line width. No other wrapping of the words is less ragged.
pub proof fn lemma_wrapped_rows(
    font: FontView,
    text: Seq<char>,
    kerning: int,
    line_width: int,
    other: Seq<int>,
)
    ensures
        is_wrapping(
            word_widths(font, split_words(text), kerning),
            word_gap(font, kerning),
            line_width,
            wrapped_breaks(font, text, kerning, line_width),
            0,
        ),
        is_wrapping(
            word_widths(font, split_words(text), kerning),
            word_gap(font, kerning),
            line_width,
            other,
            0,
        ) ==> raggedness(
            word_widths(font, split_words(text), kerning),
            word_gap(font, kerning),
            line_width,
            wrapped_breaks(font, text, kerning, line_width),
        ) <= raggedness(
            word_widths(font, split_words(text), kerning),
            word_gap(font, kerning),
            line_width,
            other,
        ),
{
    let widths = word_widths(font, split_words(text), kerning);
    let gap = word_gap(font, kerning);
    lemma_best_breaks(widths, gap, line_width, 0);
    if is_wrapping(widths, gap, line_width, other, 0) {
        lemma_best_is_least(widths, gap, line_width, other, 0);
    }
}

/// The first occurrences of a text hold every character of the text, and
/// none twice.
pub proof fn lemma_first_occurrences(text: Seq<char>)
    ensures
        forall|c: char| #[trigger] first_occurrences(text).contains(c) <==> text.contains(c),
        forall|a: int, b: int|
            0 <= a < b < first_occurrences(text).len() ==> first_occurrences(text)[a]
                != first_occurrences(text)[b],
    decreases text.len(),
{
    let all = first_occurrences(text);
    if text.len() > 0 {
        let head = text.drop_last();
        let before = first_occurrences(head);
        let last = text.last();
        lemma_first_occurrences(head);
        assert(text =~= head.push(last));
        assert(all == before || all == before.push(last));
        assert forall|c: char| #[trigger] all.contains(c) <==> text.contains(c) by {
            assert(before.contains(c) <==> head.contains(c));
            assert(text.contains(c) <==> head.contains(c) || c == last) by {
                if head.contains(c) {
                    let j = choose|j: int| 0 <= j < head.len() && head[j] == c;
                    assert(text[j] == c);
                }
                if c == last {
                    assert(text[text.len() - 1] == c);
                }
                if text.contains(c) {
                    let j = choose|j: int| 0 <= j < text.len() && text[j] == c;
                    if j < head.len() {
                        assert(head[j] == c);
                    }
                }
            }
            assert(all.contains(c) <==> before.contains(c) || c == last) by {
                if before.contains(c) {
                    let i = choose|i: int| 0 <= i < before.len() && before[i] == c;
                    assert(all[i] == c);
                }
                if c == last && !before.contains(last) {
                    assert(all[before.len() as int] == c);
                }
                if all.contains(c) {
                    let i = choose|i: int| 0 <= i < all.len() && all[i] == c;
                    if i < before.len() {
                        assert(before[i] == c);
                    }
                }
            }
        }
        assert forall|a: int, b: int| 0 <= a < b < all.len() implies all[a] != all[b] by {
            if b == before.len() {
                assert(before[a] == all[a]);
                assert(before.contains(all[a]));
            }
        }
    }
}

/// The ink of a placed glyph lies inside the glyph's cell: `font.baseline`
/// rows above the placement and the rest of the line height below, as wide
/// as the glyph.
pub proof fn lemma_glyph_ink_in_cell(font: FontView, p: Placement, q: (int, int))
    requires
        font.wf(),
        glyph_ink(font, p).contains(q),
    ensures
        p.x <= q.0 < p.x + font.width_of(p.ch),
        p.y - font.baseline <= q.1 < p.y - font.baseline + font.height,
{
    lemma_ink_in_cell(font, p.ch, q.0 - p.x, q.1 - (p.y - font.baseline));
}

/// No glyphs leave no ink.
pub proof fn lemma_text_ink_empty(font: FontView)
    ensures
        text_ink(font, Seq::empty()) == Set::<(int, int)>::empty(),
{
    assert(text_ink(font, Seq::empty()) =~= Set::<(int, int)>::empty());
}

/// The ink of a sequence of glyphs is the ink of all but the last,
/// together with the ink of the last.
pub proof fn lemma_text_ink_push(font: FontView, glyphs: Seq<Placement>, p: Placement)
    ensures
        text_ink(font, glyphs.push(p)) == text_ink(font, glyphs).union(glyph_ink(font, p)),
{
    let all = glyphs.push(p);
    assert forall|q: (int, int)| text_ink(font, all).contains(q) <==> text_ink(font, glyphs).union(
        glyph_ink(font, p),
    ).contains(q) by {
        if text_ink(font, all).contains(q) {
            let i = choose|i: int| 0 <= i < all.len() && glyph_ink(font, #[trigger] all[i]).contains(q);
            if i < glyphs.len() {
                assert(all[i] == glyphs[i]);
            }
        }
        if text_ink(font, glyphs).contains(q) {
            let i = choose|i: int|
                0 <= i < glyphs.len() && glyph_ink(font, #[trigger] glyphs[i]).contains(q);
            assert(all[i] == glyphs[i]);
        }
        if glyph_ink(font, p).contains(q) {
            assert(all[glyphs.len() as int] == p);
        }
    }
    assert(text_ink(font, all) =~= text_ink(font, glyphs).union(glyph_ink(font, p)));
}

/// In a font no glyph has a negative width.
pub proof fn lemma_widths_nonnegative(font: FontView, text: Seq<char>)
    requires
        font.wf(),
    ensures
        forall|i: int| 0 <= i < text.len() ==> #[trigger] font.widths(text)[i] >= 0,
        font.width_of(' ') >= 0,
{
    assert forall|c: char| font.width_of(c) >= 0 by {
        if font.has(c) {
            let i = choose|i: int| 0 <= i < font.glyphs.len() && (#[trigger] font.glyphs[i]).ch == c;
            assert(font.glyphs[i].well_shaped(font.height));
        }
    }
}

proof fn lemma_word_width_nonnegative(font: FontView, word: Seq<char>, kerning: int)
    requires
        font.wf(),
        kerning >= 0,
    ensures
        run_advance(font.widths(word), kerning) >= 0,
{
    if word.len() > 0 {
        lemma_widths_nonnegative(font, word);
        lemma_span_within(font.widths(word), kerning, 0, 0, word.len() as int);
    }
}

/// With a kerning that is not negative, every glyph of a row lies in the
/// row: on its baseline, not left of its start, and with its cell not
/// beyond the advance of the row.
pub proof fn lemma_row_within(font: FontView, text: Seq<char>, kerning: int, x: int, y: int, i: int)
    requires
        font.wf(),
        kerning >= 0,
        0 <= i < text.len(),
    ensures
        place_row(font, text, kerning, x, y)[i].ch == text[i],
        place_row(font, text, kerning, x, y)[i].y == y,
        x <= place_row(font, text, kerning, x, y)[i].x,
        place_row(font, text, kerning, x, y)[i].x + font.width_of(text[i]) <= x + run_advance(
            font.widths(text),
            kerning,
        ),
{
    lemma_widths_nonnegative(font, text);
    lemma_span_within(font.widths(text), kerning, 0, i, text.len() as int);
}

/// With a kerning that is not negative, every glyph of a row of words lies
/// in the row: on its baseline, not left of its start, and with its cell
/// not beyond the width of the row.
pub proof fn lemma_words_within(
    font: FontView,
    words: Seq<Seq<char>>,
    kerning: int,
    first: int,
    end: int,
    x: int,
    y: int,
    i: int,
)
    requires
        font.wf(),
        kerning >= 0,
        0 <= first <= end <= words.len(),
        0 <= i < place_words(font, words, kerning, first, end, x, y).len(),
    ensures
        first < end,
        place_words(font, words, kerning, first, end, x, y)[i].y == y,
        x <= place_words(font, words, kerning, first, end, x, y)[i].x,
        place_words(font, words, kerning, first, end, x, y)[i].x + font.width_of(
            place_words(font, words, kerning, first, end, x, y)[i].ch,
        ) <= x + span_width(word_widths(font, words, kerning), word_gap(font, kerning), first, end),
    decreases end - first,
{
    let ww = word_widths(font, words, kerning);
    let gap = word_gap(font, kerning);
    if first < end {
        let head = place_words(font, words, kerning, first, end - 1, x, y);
        let start = x + span_offset(ww, gap, first, end - 1);
        let row = place_row(font, words[end - 1], kerning, start, y);
        assert(place_words(font, words, kerning, first, end, x, y) == head + row);
        lemma_widths_nonnegative(font, words[end - 1]);
        assert forall|s: int| first <= s < end implies ww[s] >= 0 by {
            lemma_word_width_nonnegative(font, words[s], kerning);
        }
        lemma_span_within(ww, gap, first, end - 1, end);
        if i < head.len() {
            lemma_words_within(font, words, kerning, first, end - 1, x, y, i);
            if first < end - 1 {
                lemma_span_within(ww, gap, first, end - 2, end);
                lemma_span_offset(ww, gap, first, end - 2);
            }
        } else {
            let k = i - head.len();
            assert((head + row)[i] == row[k]);
            lemma_row_within(font, words[end - 1], kerning, start, y, k);
        }
    }
}

/// With a kerning that is not negative, the extent of the words of a text
/// in one row, which bounds what can be wrapped, is the width of that row.
pub proof fn lemma_wrapped_extent(font: FontView, words: Seq<Seq<char>>, kerning: int)
    requires
        font.wf(),
        kerning >= 0,
        words.len() > 0,
    ensures
        run_extent(word_widths(font, words, kerning), word_gap(font, kerning)) == run_advance(
            word_widths(font, words, kerning),
            word_gap(font, kerning),
        ),
{
    let ww = word_widths(font, words, kerning);
    assert forall|t: int| 0 <= t < ww.len() implies ww[t] >= 0 by {
        lemma_word_width_nonnegative(font, words[t], kerning);
    }
    lemma_widths_nonnegative(font, Seq::empty());
    lemma_extent_plain(ww, word_gap(font, kerning), 0, ww.len() as int);
}

/// With a kerning that is not negative, every glyph of a text set in rows
/// lies in one of the rows: on the row's baseline, not left of the start
/// of the rows, and with its cell not beyond the width of its row.
pub proof fn lemma_lines_within(
    font: FontView,
    words: Seq<Seq<char>>,
    kerning: int,
    breaks: Seq<int>,
    x: int,
    y: int,
    step: int,
    count: int,
    i: int,
) -> (row: int)
    requires
        font.wf(),
        kerning >= 0,
        is_breaking(breaks, 0, words.len() as int),
        0 <= count <= breaks.len() - 1,
        0 <= i < place_lines(font, words, kerning, breaks, x, y, step, count).len(),
    ensures
        0 <= row < count,
        place_lines(font, words, kerning, breaks, x, y, step, count)[i].y == y + row * step,
        x <= place_lines(font, words, kerning, breaks, x, y, step, count)[i].x,
        place_lines(font, words, kerning, breaks, x, y, step, count)[i].x + font.width_of(
            place_lines(font, words, kerning, breaks, x, y, step, count)[i].ch,
        ) <= x + span_width(
            word_widths(font, words, kerning),
            word_gap(font, kerning),
            breaks[row],
            breaks[row + 1],
        ),
    decreases count,
{
    let head = place_lines(font, words, kerning, breaks, x, y, step, count - 1);
    let last = place_words(
        font,
        words,
        kerning,
        breaks[count - 1],
        breaks[count],
        x,
        y + (count - 1) * step,
    );
    assert(place_lines(font, words, kerning, breaks, x, y, step, count) == head + last);
    if i < head.len() {
        lemma_lines_within(font, words, kerning, breaks, x, y, step, count - 1, i)
    } else {
        let k = i - head.len();
        assert((head + last)[i] == last[k]);
        lemma_breaking_bounds(breaks, 0, words.len() as int, count - 1);
        lemma_breaking_bounds(breaks, 0, words.len() as int, count);
        assert(breaks[count - 1] < breaks[count - 1 + 1]);
        lemma_words_within(
            font,
            words,
            kerning,
            breaks[count - 1],
            breaks[count],
            x,
            y + (count - 1) * step,
            k,
        );
        count - 1
    }
}

/// With a kerning that is not negative, every glyph of a wrapped text lies
/// in one of its rows, and the row is no wider than the line width unless
/// it holds one word alone.
pub proof fn lemma_wrapped_within(
    font: FontView,
    text: Seq<char>,
    x: int,
    y: int,
    line_width: i32,
    kerning: int,
    leading: int,
    i: int,
) -> (row: int)
    requires
        font.wf(),
        kerning >= 0,
        0 <= i < text_placements(
            font,
            text,
            x,
            y,
            TextLayout::Wrapped { line_width },
            kerning,
            leading,
        ).len(),
    ensures
        0 <= row < wrapped_breaks(font, text, kerning, line_width as int).len() - 1,
        text_placements(font, text, x, y, TextLayout::Wrapped { line_width }, kerning, leading)[i].y
            == y + row * (font.height + leading),
        x <= text_placements(
            font,
            text,
            x,
            y,
            TextLayout::Wrapped { line_width },
            kerning,
            leading,
        )[i].x,
        text_placements(font, text, x, y, TextLayout::Wrapped { line_width }, kerning, leading)[i].x
            + font.width_of(
            text_placements(font, text, x, y, TextLayout::Wrapped { line_width }, kerning, leading)[i].ch,
        ) <= x + line_width || wrapped_breaks(font, text, kerning, line_width as int)[row + 1]
            == wrapped_breaks(font, text, kerning, line_width as int)[row] + 1,
{
    let words = split_words(text);
    let ww = word_widths(font, words, kerning);
    let gap = word_gap(font, kerning);
    let breaks = wrapped_breaks(font, text, kerning, line_width as int);
    lemma_best_breaks(ww, gap, line_width as int, 0);
    let row = lemma_lines_within(
        font,
        words,
        kerning,
        breaks,
        x,
        y,
        font.height + leading,
        breaks.len() - 1,
        i,
    );
    assert(fits(ww, gap, line_width as int, breaks[row], breaks[row + 1]));
    row
}

/// The characters of `text`, or `TextError::Encoding` when one of them is
/// NUL.
pub fn decode(text: &str) -> (r: Result<Vec<char>, TextError>)
    ensures
        match r {
            Ok(chars) => chars@ == text@ && !text@.contains('\0'),
            Err(e) => e == TextError::Encoding && text@.contains('\0'),
        },
{
    let mut chars: Vec<char> = Vec::new();
    for c in it: text.chars()
        invariant
            it.seq() == text@,
            chars@ == text@.take(it.index() as int),
            !chars@.contains('\0'),
    {
        if c == '\0' {
            assert(text@[it.index() as int] == '\0');
            return Err(TextError::Encoding);
        }
        let ghost before = chars@;
        chars.push(c);
        proof {
            assert forall|k: int| 0 <= k < chars@.len() implies chars@[k] != '\0' by {
                if k < before.len() {
                    assert(before.contains(chars@[k]));
                }
            }
        }
    }
    Ok(chars)
}

/// Whether `c` is among `chars`.
fn holds(chars: &Vec<char>, c: char) -> (found: bool)
    ensures
        found == chars@.contains(c),
{
    let mut i: usize = 0;
    while i < chars.len()
        invariant
            i <= chars@.len(),
            forall|k: int| 0 <= k < i ==> chars@[k] != c,
        decreases chars@.len() - i,
    {
        if chars[i] == c {
            return true;
        }
        i += 1;
    }
    false
}

/// The characters of `chars`, each once, in the order in which they first
/// occur.
pub fn distinct(chars: &Vec<char>) -> (r: Vec<char>)
    ensures
        r@ == first_occurrences(chars@),
{
    let mut r: Vec<char> = Vec::new();
    let mut i: usize = 0;
    proof {
        assert(chars@.take(0) =~= Seq::<char>::empty());
    }
    while i < chars.len()
        invariant
            i <= chars@.len(),
            r@ == first_occurrences(chars@.take(i as int)),
        decreases chars@.len() - i,
    {
        let c = chars[i];
        proof {
            let now = chars@.take(i as int + 1);
            assert(now.drop_last() =~= chars@.take(i as int));
            assert(now.last() == c);
        }
        if !holds(&r, c) {
            r.push(c);
        }
        i += 1;
    }
    proof {
        assert(chars@.take(chars@.len() as int) =~= chars@);
    }
    r
}

/// The width of each character of `chars`.
pub(crate) fn glyph_widths(font: &LedFont, chars: &Vec<char>) -> (widths: Vec<i32>)
    ensures
        ints(widths@) == font@.widths(chars@),
{
    let mut widths: Vec<i32> = Vec::new();
    let mut i: usize = 0;
    while i < chars.len()
        invariant
            i <= chars@.len(),
            widths@.len() == i,
            forall|k: int| 0 <= k < i ==> widths@[k] == font@.width_of(chars@[k]),
        decreases chars@.len() - i,
    {
        widths.push(font.glyph_width(chars[i]));
        i += 1;
    }
    assert(ints(widths@) =~= font@.widths(chars@));
    widths
}

/// Appends the glyphs of `chars` in a row that starts at `(x, y)`.
pub(crate) fn push_row(
    out: &mut Vec<PlacedGlyph>,
    font: &LedFont,
    chars: &Vec<char>,
    kerning: i32,
    x: i128,
    y: i128,
)
    requires
        -0x1_0000_0000_0000_0000 <= x <= 0x1_0000_0000_0000_0000,
    ensures
        placed(final(out)@) == placed(old(out)@) + place_row(font@, chars@, kerning as int, x as int, y as int),
{
    let ghost w = font@.widths(chars@);
    let ghost k = kerning as int;
    let n = chars.len();
    let mut cursor: i128 = x;
    let mut i: usize = 0;
    proof {
        assert((0int - 0) * k == 0) by (nonlinear_arith);
        assert(placed(out@) =~= placed(old(out)@) + place_row(font@, chars@, k, x as int, y as int).take(0));
    }
    while i < n
        invariant
            0 <= i <= n,
            n == chars@.len(),
            w == font@.widths(chars@),
            k == kerning as int,
            -0x1_0000_0000_0000_0000 <= x <= 0x1_0000_0000_0000_0000,
            cursor == x + run_offset(w, k, i as int),
            -(i * 0x1_0000_0000) <= cursor - x <= i * 0x1_0000_0000,
            placed(out@) == placed(old(out)@) + place_row(font@, chars@, k, x as int, y as int).take(
                i as int,
            ),
        decreases n - i,
    {
        let c = chars[i];
        let wc = font.glyph_width(c);
        proof {
            lemma_span_offset(w, k, 0, i as int);
        }
        let ghost before = out@;
        let glyph = PlacedGlyph::new(c, cursor, y);
        out.push(glyph);
        proof {
            let row = place_row(font@, chars@, k, x as int, y as int);
            assert(row.take(i as int + 1) =~= row.take(i as int).push(row[i as int]));
            assert(glyph@ == row[i as int]);
            assert(placed(out@) =~= placed(before).push(row[i as int]));
        }
        cursor = cursor + wc as i128 + kerning as i128;
        i += 1;
    }
    proof {
        let row = place_row(font@, chars@, k, x as int, y as int);
        assert(row.take(n as int) =~= row);
    }
}

/// Appends the glyphs of `chars` in a column that starts at `(x, y)`.
pub(crate) fn push_column(
    out: &mut Vec<PlacedGlyph>,
    font: &LedFont,
    chars: &Vec<char>,
    kerning: i32,
    x: i128,
    y: i128,
)
    requires
        -0x1_0000_0000_0000_0000 <= y <= 0x1_0000_0000_0000_0000,
    ensures
        placed(final(out)@) == placed(old(out)@) + place_column(
            font@,
            chars@,
            kerning as int,
            x as int,
            y as int,
        ),
{
    let ghost k = kerning as int;
    let n = chars.len();
    let h = font.baseline_and_height().1;
    let step: i128 = h as i128 + kerning as i128;
    let mut cursor: i128 = y;
    let mut i: usize = 0;
    proof {
        assert(0 * (font@.height + k) == 0) by (nonlinear_arith);
        assert(placed(out@) =~= placed(old(out)@) + place_column(font@, chars@, k, x as int, y as int).take(
            0,
        ));
    }
    while i < n
        invariant
            0 <= i <= n,
            n == chars@.len(),
            k == kerning as int,
            step == font@.height + k,
            -0x1_0000_0000 <= step <= 0x1_0000_0000,
            -0x1_0000_0000_0000_0000 <= y <= 0x1_0000_0000_0000_0000,
            cursor == y + i * (font@.height + k),
            -(i * 0x1_0000_0000) <= cursor - y <= i * 0x1_0000_0000,
            placed(out@) == placed(old(out)@) + place_column(font@, chars@, k, x as int, y as int).take(
                i as int,
            ),
        decreases n - i,
    {
        let c = chars[i];
        let ghost before = out@;
        let glyph = PlacedGlyph::new(c, x, cursor);
        out.push(glyph);
        proof {
            let column = place_column(font@, chars@, k, x as int, y as int);
            assert(column.take(i as int + 1) =~= column.take(i as int).push(column[i as int]));
            assert(glyph@ == column[i as int]);
            assert(placed(out@) =~= placed(before).push(column[i as int]));
            let s = font@.height + k;
            assert((i as int + 1) * s == (i as int) * s + s) by (nonlinear_arith);
        }
        cursor = cursor + step;
        i += 1;
    }
    proof {
        let column = place_column(font@, chars@, k, x as int, y as int);
        assert(column.take(n as int) =~= column);
    }
}

/// Splits `chars` into its words.
pub(crate) fn split(chars: &Vec<char>) -> (words: Vec<Vec<char>>)
    ensures
        word_views(words@) == split_words(chars@),
{
    let n = chars.len();
    let mut words: Vec<Vec<char>> = Vec::new();
    let mut current: Vec<char> = Vec::new();
    let mut i: usize = 0;
    proof {
        assert(chars@.take(0) =~= Seq::<char>::empty());
        assert(word_views(words@) =~= split_words(chars@.take(0)));
    }
    while i < n
        invariant
            0 <= i <= n,
            n == chars@.len(),
            current@.len() > 0 ==> i > 0 && chars@[i - 1] != ' ' && split_words(chars@.take(i as int))
                == word_views(words@).push(current@),
            current@.len() == 0 ==> (i == 0 || chars@[i - 1] == ' ') && split_words(
                chars@.take(i as int),
            ) == word_views(words@),
        decreases n - i,
    {
        let c = chars[i];
        proof {
            let now = chars@.take(i as int + 1);
            assert(now.drop_last() =~= chars@.take(i as int));
            assert(now.last() == c);
            if i > 0 {
                assert(now[now.len() - 2] == chars@[i - 1]);
            }
        }
        if c == ' ' {
            if current.len() > 0 {
                let ghost before = words@;
                let ghost word = current@;
                words.push(current);
                current = Vec::new();
                proof {
                    assert(word_views(words@) =~= word_views(before).push(word));
                }
            }
        } else {
            let ghost before = current@;
            current.push(c);
            proof {
                let done = word_views(words@);
                let now = chars@.take(i as int + 1);
                if before.len() > 0 {
                    assert(done.push(before).drop_last() =~= done);
                    assert(done.push(before).last() == before);
                    assert(split_words(now) == done.push(before.push(c)));
                } else {
                    assert(current@ =~= seq![c]);
                    assert(split_words(now) == done.push(seq![c]));
                }
            }
        }
        i += 1;
    }
    proof {
        assert(chars@.take(n as int) =~= chars@);
    }
    if current.len() > 0 {
        let ghost before = words@;
        let ghost word = current@;
        words.push(current);
        proof {
            assert(word_views(words@) =~= word_views(before).push(word));
        }
    }
    words
}

/// The width of each word of `words` set in a row, or `None` when a word
/// is too large to be laid out.
fn measure_words(font: &LedFont, words: &Vec<Vec<char>>, kerning: i32) -> (r: Option<Vec<i32>>)
    ensures
        r is Some <==> words_fit(font@, word_views(words@), kerning as int),
        r matches Some(widths) ==> ints(widths@) == word_widths(
            font@,
            word_views(words@),
            kerning as int,
        ),
{
    let ghost ws = word_views(words@);
    let ghost k = kerning as int;
    let mut widths: Vec<i32> = Vec::new();
    let mut t: usize = 0;
    while t < words.len()
        invariant
            0 <= t <= words@.len(),
            ws == word_views(words@),
            k == kerning as int,
            widths@.len() == t,
            forall|s: int|
                0 <= s < t ==> i32::MIN <= run_advance(font@.widths(#[trigger] ws[s]), k) <= i32::MAX,
            forall|s: int| 0 <= s < t ==> widths@[s] == run_advance(font@.widths(ws[s]), k),
        decreases words@.len() - t,
    {
        let glyphs = glyph_widths(font, &words[t]);
        proof {
            assert(ws[t as int] == words@[t as int]@);
        }
        match measure_run(&glyphs, kerning) {
            Some(a) => {
                widths.push(a);
            },
            None => {
                proof {
                    assert(!(i32::MIN <= run_advance(font@.widths(ws[t as int]), k) <= i32::MAX));
                }
                return None;
            },
        }
        t += 1;
    }
    proof {
        assert(ints(widths@) =~= word_widths(font@, ws, k));
    }
    Some(widths)
}

/// Appends the glyphs of the words `first..end` in a row that starts at
/// `(x, y)`.
fn push_words(
    out: &mut Vec<PlacedGlyph>,
    font: &LedFont,
    words: &Vec<Vec<char>>,
    widths: &Vec<i32>,
    kerning: i32,
    gap: i64,
    first: usize,
    end: usize,
    x: i32,
    y: i128,
)
    requires
        first <= end <= words@.len(),
        ints(widths@) == word_widths(font@, word_views(words@), kerning as int),
        gap == word_gap(font@, kerning as int),
        run_extent(ints(widths@), gap as int) <= i32::MAX,
    ensures
        placed(final(out)@) == placed(old(out)@) + place_words(
            font@,
            word_views(words@),
            kerning as int,
            first as int,
            end as int,
            x as int,
            y as int,
        ),
{
    let ghost ws = word_views(words@);
    let ghost ww = ints(widths@);
    let ghost k = kerning as int;
    let ghost g = gap as int;
    let mut t: usize = first;
    let mut cursor: i64 = x as i64;
    proof {
        if first < end {
            lemma_span_offset(ww, g, first as int, first as int);
        }
        assert(placed(out@) =~= placed(old(out)@) + place_words(
            font@,
            ws,
            k,
            first as int,
            first as int,
            x as int,
            y as int,
        ));
    }
    while t < end
        invariant
            first <= t <= end <= words@.len(),
            ws == word_views(words@),
            ww == ints(widths@),
            ww == word_widths(font@, ws, k),
            k == kerning as int,
            g == gap as int,
            g == word_gap(font@, k),
            run_extent(ww, g) <= i32::MAX,
            t < end ==> cursor == x + span_offset(ww, g, first as int, t as int),
            placed(out@) == placed(old(out)@) + place_words(
                font@,
                ws,
                k,
                first as int,
                t as int,
                x as int,
                y as int,
            ),
        decreases end - t,
    {
        proof {
            assert(ws[t as int] == words@[t as int]@);
            assert(ww.len() == ws.len());
            lemma_span_offset(ww, g, first as int, t as int);
        }
        let ghost before = placed(out@);
        push_row(out, font, &words[t], kerning, cursor as i128, y);
        proof {
            let row = place_row(font@, ws[t as int], k, cursor as int, y as int);
            let head = place_words(font@, ws, k, first as int, t as int, x as int, y as int);
            assert(place_words(font@, ws, k, first as int, t as int + 1, x as int, y as int) == head
                + row);
            assert(placed(out@) =~= placed(old(out)@) + (head + row));
        }
        if t + 1 < end {
            proof {
                lemma_span_offset(ww, g, first as int, t as int + 1);
                assert(ww[t as int] == widths@[t as int]);
            }
            cursor = cursor + widths[t] as i64 + gap;
        }
        t += 1;
    }
}

/// Appends the glyphs of the rows that `breaks` cuts from `words`.
fn push_lines(
    out: &mut Vec<PlacedGlyph>,
    font: &LedFont,
    words: &Vec<Vec<char>>,
    widths: &Vec<i32>,
    kerning: i32,
    gap: i64,
    breaks: &Vec<usize>,
    x: i32,
    y: i32,
    step: i64,
)
    requires
        is_breaking(positions(breaks@), 0, words@.len() as int),
        ints(widths@) == word_widths(font@, word_views(words@), kerning as int),
        gap == word_gap(font@, kerning as int),
        run_extent(ints(widths@), gap as int) <= i32::MAX,
        i32::MIN <= (breaks@.len() - 1) * step <= i32::MAX,
    ensures
        placed(final(out)@) == placed(old(out)@) + place_lines(
            font@,
            word_views(words@),
            kerning as int,
            positions(breaks@),
            x as int,
            y as int,
            step as int,
            breaks@.len() - 1,
        ),
{
    let ghost ws = word_views(words@);
    let ghost k = kerning as int;
    let ghost pos = positions(breaks@);
    let ghost lines = breaks@.len() - 1;
    let m = breaks.len();
    let mut l: usize = 0;
    let mut cursor: i64 = y as i64;
    proof {
        assert(0 * (step as int) == 0) by (nonlinear_arith);
        assert(placed(out@) =~= placed(old(out)@) + place_lines(
            font@,
            ws,
            k,
            pos,
            x as int,
            y as int,
            step as int,
            0,
        ));
    }
    while l + 1 < m
        invariant
            0 <= l < m,
            m == breaks@.len(),
            lines == m - 1,
            ws == word_views(words@),
            k == kerning as int,
            pos == positions(breaks@),
            is_breaking(pos, 0, words@.len() as int),
            ints(widths@) == word_widths(font@, ws, k),
            gap == word_gap(font@, k),
            run_extent(ints(widths@), gap as int) <= i32::MAX,
            i32::MIN <= lines * step <= i32::MAX,
            cursor == y + l * step,
            placed(out@) == placed(old(out)@) + place_lines(
                font@,
                ws,
                k,
                pos,
                x as int,
                y as int,
                step as int,
                l as int,
            ),
        decreases m - l,
    {
        proof {
            lemma_breaking_bounds(pos, 0, words@.len() as int, l as int);
            lemma_breaking_bounds(pos, 0, words@.len() as int, l as int + 1);
            assert(pos[l as int] < pos[l as int + 1]);
        }
        let first = breaks[l];
        let end = breaks[l + 1];
        push_words(out, font, words, widths, kerning, gap, first, end, x, cursor as i128);
        proof {
            let head = place_lines(font@, ws, k, pos, x as int, y as int, step as int, l as int);
            let row = place_words(font@, ws, k, first as int, end as int, x as int, cursor as int);
            assert(place_lines(font@, ws, k, pos, x as int, y as int, step as int, l as int + 1) == head
                + row);
            assert(placed(out@) =~= placed(old(out)@) + (head + row));
            let s = step as int;
            let a = l as int + 1;
            assert(a * s == (l as int) * s + s) by (nonlinear_arith)
                requires
                    a == l as int + 1,
            ;
            assert(i32::MIN <= a * s <= i32::MAX) by (nonlinear_arith)
                requires
                    0 <= a <= lines,
                    i32::MIN <= lines * s <= i32::MAX,
            ;
        }
        cursor = cursor + step;
        l += 1;
    }
}

/// Lays out the words of `chars` in rows of least raggedness.
fn layout_wrapped(
    font: &LedFont,
    chars: &Vec<char>,
    x: i32,
    y: i32,
    line_width: i32,
    kerning: i32,
    leading: i32,
) -> (r: Option<TextPlan>)
    ensures
        r is Some <==> text_fits(
            font@,
            chars@,
            TextLayout::Wrapped { line_width },
            kerning as int,
            leading as int,
        ),
        r matches Some(plan) ==> placed(plan.glyphs@) == text_placements(
            font@,
            chars@,
            x as int,
            y as int,
            TextLayout::Wrapped { line_width },
            kerning as int,
            leading as int,
        ) && plan.advance == text_advance(
            font@,
            chars@,
            TextLayout::Wrapped { line_width },
            kerning as int,
            leading as int,
        ),
{
    let words = split(chars);
    let ghost ws = word_views(words@);
    let ghost k = kerning as int;
    let widths = match measure_words(font, &words, kerning) {
        Some(widths) => widths,
        None => {
            return None;
        },
    };
    let gap: i64 = font.glyph_width(' ') as i64 + 2 * (kerning as i64);
    let breaks = match wrap_words(&widths, gap, line_width) {
        Ok(breaks) => breaks,
        Err(_) => {
            return None;
        },
    };
    let height = font.baseline_and_height().1;
    let step: i64 = height as i64 + leading as i64;
    proof {
        assert(positions(breaks@).len() == breaks@.len());
        assert(positions(breaks@) == wrapped_breaks(font@, chars@, k, line_width as int));
    }
    let lines = breaks.len() - 1;
    assert(-0x1_0000_0000_0000_0000_0000_0000 <= lines * step <= 0x1_0000_0000_0000_0000_0000_0000)
        by (nonlinear_arith)
        requires
            0 <= lines <= 0xffff_ffff_ffff_ffff,
            -0x1_0000_0000 <= step <= 0x1_0000_0000,
    ;
    let reach: i128 = (lines as i128) * (step as i128);
    if reach < i32::MIN as i128 || reach > i32::MAX as i128 {
        return None;
    }
    let mut glyphs: Vec<PlacedGlyph> = Vec::new();
    push_lines(&mut glyphs, font, &words, &widths, kerning, gap, &breaks, x, y, step);
    proof {
        assert(placed(Seq::<PlacedGlyph>::empty()) =~= Seq::<Placement>::empty());
    }
    Some(TextPlan { glyphs, advance: reach as i32 })
}

/// Lays out `text` in `font`, starting at `(x, y)`: `x` is the left edge of
/// the first glyph's cell and `y` the row of its baseline.
///
/// Fails with `TextError::Encoding` when the text holds a NUL character,
/// and otherwise with `TextError::TooLong` when the advance of the text
/// does not fit in 32 bits or, for a wrapped text, when the width of a
/// word does not or the paragraph is too large for `wrap_words`.
pub fn layout_text(
    font: &LedFont,
    text: &str,
    x: i32,
    y: i32,
    layout: &TextLayout,
    kerning_offset: i32,
    leading: i32,
) -> (r: Result<TextPlan, TextError>)
    ensures
        match r {
            Ok(plan) => {
                &&& text_error(font@, text@, *layout, kerning_offset as int, leading as int) is None
                &&& placed(plan.glyphs@) == text_placements(
                    font@,
                    text@,
                    x as int,
                    y as int,
                    *layout,
                    kerning_offset as int,
                    leading as int,
                )
                &&& plan.advance == text_advance(
                    font@,
                    text@,
                    *layout,
                    kerning_offset as int,
                    leading as int,
                )
            },
            Err(e) => text_error(font@, text@, *layout, kerning_offset as int, leading as int) == Some(e),
        },
{
    let chars = match decode(text) {
        Ok(chars) => chars,
        Err(e) => {
            return Err(e);
        },
    };
    match layout {
        TextLayout::Horizontal => {
            let widths = glyph_widths(font, &chars);
            match measure_run(&widths, kerning_offset) {
                Some(advance) => {
                    let mut glyphs: Vec<PlacedGlyph> = Vec::new();
                    push_row(&mut glyphs, font, &chars, kerning_offset, x as i128, y as i128);
                    proof {
                        assert(placed(Seq::<PlacedGlyph>::empty()) =~= Seq::<Placement>::empty());
                    }
                    Ok(TextPlan { glyphs, advance })
                },
                None => Err(TextError::TooLong),
            }
        },
        TextLayout::Vertical => {
            let count = chars.len();
            let height = font.baseline_and_height().1;
            let step: i128 = height as i128 + kerning_offset as i128;
            assert(-0x1_0000_0000_0000_0000_0000_0000 <= count * step
                <= 0x1_0000_0000_0000_0000_0000_0000) by (nonlinear_arith)
                requires
                    0 <= count <= 0xffff_ffff_ffff_ffff,
                    -0x1_0000_0000 <= step <= 0x1_0000_0000,
            ;
            let reach: i128 = (count as i128) * step;
            if reach < i32::MIN as i128 || reach > i32::MAX as i128 {
                return Err(TextError::TooLong);
            }
            let mut glyphs: Vec<PlacedGlyph> = Vec::new();
            push_column(&mut glyphs, font, &chars, kerning_offset, x as i128, y as i128);
            proof {
                assert(placed(Seq::<PlacedGlyph>::empty()) =~= Seq::<Placement>::empty());
            }
            Ok(TextPlan { glyphs, advance: reach as i32 })
        },
        TextLayout::Wrapped { line_width } => {
            match layout_wrapped(font, &chars, x, y, *line_width, kerning_offset, leading) {
                Some(plan) => Ok(plan),
                None => Err(TextError::TooLong),
            }
        },
    }
}

} // verus!
