use rpi_led_matrix::{
    FontError, Glyph, LedCanvas, LedColor, LedFont, LedMatrix, LedMatrixOptions, TextDrawOptions,
    TextError, TextLayout,
};

const BLACK: LedColor = LedColor { red: 0, green: 0, blue: 0 };

/// Whether the glyph of `ch` holds ink in the given cell: a pattern that
/// tells the characters apart. The space holds none.
fn inked(ch: char, row: usize, col: usize) -> bool {
    ch != ' ' && (row * 7 + col * 3 + ch as usize) % 5 < 2
}

fn glyph(ch: char, width: usize, height: usize) -> Glyph {
    let rows = (0..height).map(|r| (0..width).map(|c| inked(ch, r, c)).collect()).collect();
    Glyph { ch, width: width as i32, rows }
}

/// A font in which every character of `chars` is `width` wide.
fn fixed_font(width: usize, height: usize, baseline: i32, chars: &str) -> LedFont {
    let glyphs = chars.chars().map(|ch| glyph(ch, width, height)).collect();
    LedFont::new(height as i32, baseline, glyphs).unwrap()
}

fn font_10x20() -> LedFont {
    fixed_font(10, 20, 16, "Mahboy! ")
}

fn canvas(cols: u32, rows: u32) -> LedCanvas {
    let mut options = LedMatrixOptions::new();
    options.set_cols(cols).unwrap();
    options.set_rows(rows).unwrap();
    LedMatrix::new(Some(options), None).unwrap().offscreen_canvas()
}

#[test]
fn draw_text() {
    let mut matrix = LedMatrix::new(None, None).unwrap();
    let font = font_10x20();
    let color = LedColor { red: 0, green: 127, blue: 0 };
    let (width, height) = matrix.canvas().canvas_size();
    let text_width = 10 * 9;
    let baseline = height / 2;
    let mut options = TextDrawOptions::new().color(&color);

    let mut canvas = matrix.offscreen_canvas();
    for x in 0..(2 * width) {
        let x = x % (10 * 9);
        canvas.clear();
        options = options.position(x, baseline);
        assert_eq!(canvas.draw_text(&font, "Mah boy! ", &options), Ok(90));
        options = options.position(x - text_width, baseline);
        assert_eq!(canvas.draw_text(&font, "Mah boy! ", &options), Ok(90));
        options = options.position(x + text_width, baseline);
        assert_eq!(canvas.draw_text(&font, "Mah boy! ", &options), Ok(90));
        canvas = matrix.swap(canvas);
    }
}

#[test]
fn text_inks_the_glyph_cells_and_nothing_else() {
    let mut options = LedMatrixOptions::new();
    options.set_cols(64).unwrap();
    options.set_rows(32).unwrap();
    let mut matrix = LedMatrix::new(Some(options), None).unwrap();
    let font = font_10x20();
    let color = LedColor { red: 0, green: 127, blue: 0 };
    let text = "Mah boy! ";
    let draw = TextDrawOptions::new().color(&color).position(0, 16);
    let canvas = matrix.canvas();

    canvas.clear();
    assert_eq!(canvas.draw_text(&font, text, &draw), Ok(90));
    let chars: Vec<char> = text.chars().collect();
    for y in 0..32 {
        for x in 0..64 {
            // The cell of glyph i spans the columns 10 i .. 10 i + 9 and the
            // rows 0 .. 19: its top line is 16 rows above the baseline.
            let expected = y < 20 && inked(chars[x as usize / 10], y as usize, x as usize % 10);
            assert_eq!(canvas.get(x, y), Some(if expected { color } else { BLACK }), "at {x}, {y}");
        }
    }
}

#[test]
fn text_keeps_what_it_does_not_ink() {
    let font = font_10x20();
    let ground = LedColor { red: 9, green: 9, blue: 9 };
    let ink = LedColor { red: 255, green: 0, blue: 0 };
    let mut c = canvas(32, 32);
    c.fill(&ground);
    let draw = TextDrawOptions::new().color(&ink).position(3, 20);
    assert_eq!(c.draw_text(&font, "ab", &draw), Ok(20));
    for y in 0..32 {
        for x in 0..32 {
            let (col, row) = (x - 3, y - 4);
            let on = (0..20).contains(&col) && (0..20).contains(&row)
                && inked(['a', 'b'][col as usize / 10], row as usize, col as usize % 10);
            assert_eq!(c.get(x, y), Some(if on { ink } else { ground }));
        }
    }
}

#[test]
fn row_advance_is_the_widths_and_the_kerning_between() {
    let glyphs = vec![glyph('i', 2, 3), glyph('m', 7, 3), glyph('w', 6, 3)];
    let font = LedFont::new(3, 2, glyphs).unwrap();
    let mut c = canvas(32, 8);
    for kerning in [-1, 0, 1, 4] {
        let draw = TextDrawOptions::new().kerning_offset(kerning);
        assert_eq!(c.draw_text(&font, "", &draw), Ok(0));
        assert_eq!(c.draw_text(&font, "m", &draw), Ok(7));
        assert_eq!(c.draw_text(&font, "mi", &draw), Ok(7 + 2 + kerning));
        assert_eq!(c.draw_text(&font, "wimi", &draw), Ok(6 + 2 + 7 + 2 + 3 * kerning));
    }
}

#[test]
fn a_character_without_a_glyph_has_no_width_and_no_ink() {
    let font = fixed_font(4, 5, 3, "a");
    let mut c = canvas(16, 8);
    let draw = TextDrawOptions::new().position(0, 3).kerning_offset(1);
    assert_eq!(c.draw_text(&font, "?", &draw), Ok(0));
    for y in 0..8 {
        for x in 0..16 {
            assert_eq!(c.get(x, y), Some(BLACK));
        }
    }
    // "a?a": 4 + 0 + 4 and two gaps.
    assert_eq!(c.draw_text(&font, "a?a", &draw), Ok(10));
    assert_eq!(font.glyph_width('?'), 0);
    assert_eq!(font.glyph_width('a'), 4);
}

#[test]
fn column_advance_is_a_height_and_a_kerning_for_each_glyph() {
    let font = fixed_font(4, 5, 3, "ab");
    let mut c = canvas(16, 32);
    let white = LedColor { red: 255, green: 255, blue: 255 };
    let draw = TextDrawOptions::new().layout(TextLayout::Vertical).position(2, 3).kerning_offset(1);
    assert_eq!(c.draw_text(&font, "", &draw), Ok(0));
    assert_eq!(c.draw_text(&font, "a", &draw), Ok(5 + 1));
    c.clear();
    assert_eq!(c.draw_text(&font, "aba", &draw), Ok(3 * (5 + 1)));
    let text = ['a', 'b', 'a'];
    for y in 0..32 {
        for x in 0..16 {
            let (col, row) = (x - 2, y);
            let on = (0..4).contains(&col) && (0..18).contains(&row) && row % 6 < 5
                && inked(text[row as usize / 6], row as usize % 6, col as usize);
            assert_eq!(c.get(x, y), Some(if on { white } else { BLACK }), "at {x}, {y}");
        }
    }
}

#[test]
fn wrapped_text_is_set_in_rows() {
    let font = fixed_font(2, 3, 2, "abcd ");
    let mut c = canvas(32, 32);
    let white = LedColor { red: 255, green: 255, blue: 255 };
    // Words of width 6, 4, 4 and 10 with a gap of 2 on lines of 12: the
    // best rows are "aaa", "bb cc" and "ddddd".
    let draw = TextDrawOptions::new()
        .layout(TextLayout::Wrapped { line_width: 12 })
        .position(1, 2)
        .leading(1);
    assert_eq!(c.draw_text(&font, "aaa bb  cc ddddd ", &draw), Ok(3 * (3 + 1)));
    let rows = ["aaa", "bb cc", "ddddd"];
    for y in 0..32 {
        for x in 0..32 {
            let (col, row) = (x - 1, y);
            let mut on = false;
            if col >= 0 && row < 12 && row % 4 < 3 {
                let line: Vec<char> = rows[row as usize / 4].chars().collect();
                if (col as usize) < 2 * line.len() {
                    on = inked(line[col as usize / 2], row as usize % 4, col as usize % 2);
                }
            }
            assert_eq!(c.get(x, y), Some(if on { white } else { BLACK }), "at {x}, {y}");
        }
    }
}

#[test]
fn wrapped_text_counts_the_kerning_around_the_space() {
    let font = fixed_font(2, 3, 2, "ab ");
    let mut c = canvas(32, 32);
    // "aa" is 2 + 1 + 2 wide, the gap 1 + 2 + 1: "aa bb" is 14 wide.
    let fits = TextDrawOptions::new().layout(TextLayout::Wrapped { line_width: 14 }).kerning_offset(1);
    assert_eq!(c.draw_text(&font, "aa bb", &fits), Ok(3));
    let breaks = TextDrawOptions::new().layout(TextLayout::Wrapped { line_width: 13 }).kerning_offset(1);
    assert_eq!(c.draw_text(&font, "aa bb", &breaks), Ok(6));
}

#[test]
fn wrapped_text_without_words_draws_nothing() {
    let font = fixed_font(2, 3, 2, "ab ");
    let mut c = canvas(8, 8);
    let draw = TextDrawOptions::new().layout(TextLayout::Wrapped { line_width: 14 });
    assert_eq!(c.draw_text(&font, "", &draw), Ok(0));
    assert_eq!(c.draw_text(&font, "   ", &draw), Ok(0));
}

#[test]
fn a_wide_word_stands_alone_unbroken() {
    let font = fixed_font(2, 3, 2, "ab ");
    let mut c = canvas(32, 32);
    let draw = TextDrawOptions::new().layout(TextLayout::Wrapped { line_width: 5 }).position(0, 2);
    assert_eq!(c.draw_text(&font, "a bbbbbb a", &draw), Ok(9));
    // The wide word fills twelve columns of the second row.
    for x in 0..12 {
        let on = inked('b', 1, x as usize % 2);
        assert_eq!(c.get(x, 4) != Some(BLACK), on);
    }
}

#[test]
fn text_with_nul_is_an_encoding_error() {
    let font = fixed_font(4, 5, 3, "ab");
    let mut c = canvas(16, 8);
    let ground = LedColor { red: 1, green: 1, blue: 1 };
    c.fill(&ground);
    for layout in [TextLayout::Horizontal, TextLayout::Vertical, TextLayout::Wrapped { line_width: 9 }] {
        let draw = TextDrawOptions::new().layout(layout);
        assert_eq!(c.draw_text(&font, "a\0b", &draw), Err(TextError::Encoding));
    }
    for y in 0..8 {
        for x in 0..16 {
            assert_eq!(c.get(x, y), Some(ground));
        }
    }
}

#[test]
fn text_beyond_32_bits_is_too_long() {
    let font = fixed_font(4, 5, 3, "ab");
    let mut c = canvas(16, 8);
    let draw = TextDrawOptions::new().kerning_offset(i32::MAX);
    assert_eq!(c.draw_text(&font, "a", &draw), Ok(4));
    assert_eq!(c.draw_text(&font, "ab", &draw), Err(TextError::TooLong));
    // An advance that fits is returned, however far the glyphs overlap.
    let narrow = TextDrawOptions::new().kerning_offset(i32::MIN);
    assert_eq!(c.draw_text(&font, "ab", &narrow), Ok(8 + i32::MIN));
    assert_eq!(c.draw_text(&font, "aba", &narrow), Err(TextError::TooLong));
    let column = TextDrawOptions::new().layout(TextLayout::Vertical).kerning_offset(i32::MAX);
    assert_eq!(c.draw_text(&font, "ab", &column), Err(TextError::TooLong));
    let leading = TextDrawOptions::new()
        .layout(TextLayout::Wrapped { line_width: 1 })
        .leading(i32::MAX);
    assert_eq!(c.draw_text(&font, "a", &leading), Err(TextError::TooLong));
    assert_eq!(c.draw_text(&font, "", &leading), Ok(0));
}

#[test]
fn options_start_white_at_the_origin_in_a_row() {
    let font = fixed_font(2, 3, 2, "a");
    let mut c = canvas(4, 4);
    let expected_ink = LedColor { red: 255, green: 255, blue: 255 };
    for options in [TextDrawOptions::new(), TextDrawOptions::default()] {
        c.clear();
        assert_eq!(c.draw_text(&font, "aa", &options), Ok(4));
        // The baseline is row 0, so only the rows from the baseline down
        // are on the canvas: row 2 of the glyph lands on row 0.
        for x in 0..4 {
            let on = inked('a', 2, x as usize % 2);
            assert_eq!(c.get(x, 0), Some(if on { expected_ink } else { BLACK }));
        }
    }
}

#[test]
fn each_setter_changes_its_own_option() {
    let font = fixed_font(2, 3, 2, "a ");
    let red = LedColor { red: 255, green: 0, blue: 0 };
    let mut c = canvas(16, 16);
    let base = TextDrawOptions::new().position(4, 6).color(&red);
    assert_eq!(c.draw_text(&font, "a", &base), Ok(2));
    let mut lit = Vec::new();
    for y in 0..16 {
        for x in 0..16 {
            if c.get(x, y) != Some(BLACK) {
                assert_eq!(c.get(x, y), Some(red));
                lit.push((x, y));
            }
        }
    }
    assert!(!lit.is_empty());
    assert!(lit.iter().all(|&(x, y)| (4..6).contains(&x) && (4..7).contains(&y)));
    let spaced = TextDrawOptions::new().kerning_offset(3);
    assert_eq!(c.draw_text(&font, "aa", &spaced), Ok(7));
    let led = TextDrawOptions::new().layout(TextLayout::Wrapped { line_width: 2 }).leading(2);
    assert_eq!(c.draw_text(&font, "a a", &led), Ok(10));
}

#[test]
fn well_formed_font_has_sound_metrics() {
    let font = font_10x20();
    let height = font.height().unwrap();
    assert_eq!(height, 20);
    assert!(height > 0);
    assert_eq!(font.baseline(), 16);
    assert!(0 < font.baseline() && font.baseline() < height);
}

#[test]
fn font_that_was_never_loaded_is_refused() {
    assert!(matches!(LedFont::new(-1, 0, vec![]), Err(FontError::NotLoaded)));
    assert!(matches!(LedFont::new(-1, 16, vec![glyph('a', 2, 3)]), Err(FontError::NotLoaded)));
}

#[test]
fn font_with_bad_metrics_is_refused() {
    for (height, baseline) in [(0, 0), (-2, 1), (5, 0), (5, 5), (5, 6), (5, -1), (1, 1), (i32::MIN, 3)] {
        assert!(matches!(LedFont::new(height, baseline, vec![]), Err(FontError::InvalidMetrics)));
    }
    assert!(LedFont::new(2, 1, vec![]).is_ok());
}

#[test]
fn font_with_a_misshapen_glyph_is_refused() {
    let short = Glyph { ch: 'a', width: 2, rows: vec![vec![true, false]; 2] };
    assert!(matches!(LedFont::new(3, 2, vec![short]), Err(FontError::InvalidGlyph)));
    let ragged = Glyph { ch: 'a', width: 2, rows: vec![vec![true, false], vec![true], vec![false, false]] };
    assert!(matches!(LedFont::new(3, 2, vec![ragged]), Err(FontError::InvalidGlyph)));
    let negative = Glyph { ch: 'a', width: -1, rows: vec![vec![]; 3] };
    assert!(matches!(LedFont::new(3, 2, vec![negative]), Err(FontError::InvalidGlyph)));
    let empty = Glyph { ch: 'a', width: 0, rows: vec![vec![]; 3] };
    assert!(LedFont::new(3, 2, vec![empty]).is_ok());
}

#[test]
fn font_with_two_glyphs_for_one_character_is_refused() {
    let glyphs = vec![glyph('a', 2, 3), glyph('b', 2, 3), glyph('a', 2, 3)];
    assert!(matches!(LedFont::new(3, 2, glyphs), Err(FontError::DuplicateGlyph)));
    // A misshapen glyph is named before a repeated one.
    let glyphs = vec![glyph('a', 2, 3), glyph('a', 2, 4)];
    assert!(matches!(LedFont::new(3, 2, glyphs), Err(FontError::InvalidGlyph)));
}
