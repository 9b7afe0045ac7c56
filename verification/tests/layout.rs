use rpi_led_matrix::font::loaded_height;
use rpi_led_matrix::layout::{decode, distinct};
use rpi_led_matrix::run::measure_run;
use rpi_led_matrix::{
    layout_text, FontError, Glyph, LedColor, LedFont, PlacedGlyph, TextDrawOptions, TextError,
    TextLayout,
};

fn blank(ch: char, width: usize, height: usize) -> Glyph {
    Glyph { ch, width: width as i32, rows: vec![vec![false; width]; height] }
}

/// A font of height 8 and baseline 6 with glyphs of different widths.
fn font() -> LedFont {
    let glyphs = vec![blank('i', 2, 8), blank('m', 7, 8), blank('w', 6, 8), blank(' ', 3, 8)];
    LedFont::new(8, 6, glyphs).unwrap()
}

fn at(ch: char, x: i128, y: i128) -> PlacedGlyph {
    PlacedGlyph::new(ch, x, y)
}

#[test]
fn row_places_each_glyph_after_the_one_before() {
    let plan = layout_text(&font(), "wim", 10, 20, &TextLayout::Horizontal, 1, 0).unwrap();
    assert_eq!(plan.glyphs, vec![at('w', 10, 20), at('i', 17, 20), at('m', 20, 20)]);
    assert_eq!(plan.advance, 6 + 1 + 2 + 1 + 7);
}

#[test]
fn row_keeps_spaces() {
    let plan = layout_text(&font(), " i  ", 0, 0, &TextLayout::Horizontal, 0, 0).unwrap();
    assert_eq!(plan.glyphs, vec![at(' ', 0, 0), at('i', 3, 0), at(' ', 5, 0), at(' ', 8, 0)]);
    assert_eq!(plan.advance, 11);
}

#[test]
fn row_with_negative_kerning_overlaps() {
    let plan = layout_text(&font(), "mm", 0, 0, &TextLayout::Horizontal, -3, 0).unwrap();
    assert_eq!(plan.glyphs, vec![at('m', 0, 0), at('m', 4, 0)]);
    assert_eq!(plan.advance, 11);
}

#[test]
fn column_places_each_glyph_below_the_one_before() {
    let plan = layout_text(&font(), "wim", 10, 20, &TextLayout::Vertical, 2, 5).unwrap();
    assert_eq!(plan.glyphs, vec![at('w', 10, 20), at('i', 10, 30), at('m', 10, 40)]);
    assert_eq!(plan.advance, 3 * (8 + 2));
}

#[test]
fn column_counts_the_kerning_once_for_each_glyph() {
    assert_eq!(layout_text(&font(), "", 0, 0, &TextLayout::Vertical, 2, 0).unwrap().advance, 0);
    assert_eq!(layout_text(&font(), "w", 0, 0, &TextLayout::Vertical, 2, 0).unwrap().advance, 10);
    assert_eq!(layout_text(&font(), "wi", 0, 0, &TextLayout::Vertical, 0, 9).unwrap().advance, 16);
    let up = layout_text(&font(), "wim", 0, 0, &TextLayout::Vertical, -10, 0).unwrap();
    assert_eq!(up.glyphs, vec![at('w', 0, 0), at('i', 0, -2), at('m', 0, -4)]);
    assert_eq!(up.advance, -6);
}

#[test]
fn column_at_the_edge_of_32_bits() {
    // One glyph with i32::MAX - 8 added to the height of 8 reaches exactly
    // i32::MAX; one more pixel, or a second glyph, is too much.
    let fits = layout_text(&font(), "m", 0, 0, &TextLayout::Vertical, i32::MAX - 8, 0).unwrap();
    assert_eq!(fits.advance, i32::MAX);
    let r = layout_text(&font(), "m", 0, 0, &TextLayout::Vertical, i32::MAX - 7, 0);
    assert!(matches!(r, Err(TextError::TooLong)));
    let r = layout_text(&font(), "mm", 0, 0, &TextLayout::Vertical, i32::MAX - 8, 0);
    assert!(matches!(r, Err(TextError::TooLong)));
    let down = layout_text(&font(), "m", 0, 0, &TextLayout::Vertical, i32::MIN, 0).unwrap();
    assert_eq!(down.advance, 8 + i32::MIN);
    let r = layout_text(&font(), "mm", 0, 0, &TextLayout::Vertical, i32::MIN, 0);
    assert!(matches!(r, Err(TextError::TooLong)));
}

#[test]
fn wrapped_places_the_rows_one_below_the_other() {
    // Words of width 9, 2 and 7 with a gap of 3 on lines of 14.
    let layout = TextLayout::Wrapped { line_width: 14 };
    let plan = layout_text(&font(), "im i  m", 1, 6, &layout, 0, 2).unwrap();
    let expected = vec![
        at('i', 1, 6), at('m', 3, 6), at('i', 13, 6),
        at('m', 1, 16),
    ];
    assert_eq!(plan.glyphs, expected);
    assert_eq!(plan.advance, 2 * (8 + 2));
}

#[test]
fn wrapped_prefers_even_rows_to_full_ones() {
    // Words of width 6, 4, 4 and 10 with a gap of 3 on lines of 13: filling
    // the first row with two words would leave the second nearly empty.
    let glyphs = vec![blank('a', 2, 8), blank(' ', 3, 8)];
    let font = LedFont::new(8, 6, glyphs).unwrap();
    let layout = TextLayout::Wrapped { line_width: 13 };
    let plan = layout_text(&font, "aaa aa aa aaaaa", 0, 0, &layout, 0, 0).unwrap();
    let rows: Vec<i128> = plan.glyphs.iter().map(|g| g.y).collect();
    assert_eq!(rows, vec![0, 0, 0, 8, 8, 8, 8, 16, 16, 16, 16, 16]);
    let second: Vec<i128> = plan.glyphs[3..7].iter().map(|g| g.x).collect();
    assert_eq!(second, vec![0, 2, 7, 9]);
    assert_eq!(plan.advance, 24);
}

#[test]
fn wrapped_with_negative_leading_reaches_upwards() {
    let layout = TextLayout::Wrapped { line_width: 2 };
    let plan = layout_text(&font(), "i i i", 0, 0, &layout, 0, -10).unwrap();
    assert_eq!(plan.glyphs, vec![at('i', 0, 0), at('i', 0, -2), at('i', 0, -4)]);
    assert_eq!(plan.advance, -6);
}

#[test]
fn layout_refuses_nul_before_it_measures() {
    for layout in [TextLayout::Horizontal, TextLayout::Vertical, TextLayout::Wrapped { line_width: 5 }] {
        let r = layout_text(&font(), "i\0", 0, 0, &layout, i32::MAX, 0);
        assert!(matches!(r, Err(TextError::Encoding)));
    }
}

#[test]
fn layout_at_the_edge_of_32_bits() {
    // Two glyphs of width 7 with i32::MAX - 14 between them reach exactly
    // i32::MAX; one more pixel is too much.
    let fits = layout_text(&font(), "mm", 0, 0, &TextLayout::Horizontal, i32::MAX - 14, 0).unwrap();
    assert_eq!(fits.advance, i32::MAX);
    assert_eq!(fits.glyphs[1], at('m', i32::MAX as i128 - 7, 0));
    let r = layout_text(&font(), "mm", 0, 0, &TextLayout::Horizontal, i32::MAX - 13, 0);
    assert!(matches!(r, Err(TextError::TooLong)));
    // The start does not count: the glyphs are placed on wider coordinates.
    let far = layout_text(&font(), "mm", i32::MAX, i32::MIN, &TextLayout::Horizontal, 1, 0).unwrap();
    assert_eq!(far.glyphs[1], at('m', i32::MAX as i128 + 8, i32::MIN as i128));
    // Only the advance counts: glyphs that overlap by more than 32 bits
    // are placed where they belong.
    let back = layout_text(&font(), "mm", 0, 0, &TextLayout::Horizontal, i32::MIN, 0).unwrap();
    assert_eq!(back.advance, 14 + i32::MIN);
    assert_eq!(back.glyphs, vec![at('m', 0, 0), at('m', 7 + i32::MIN as i128, 0)]);
    let there = layout_text(&font(), "imw", 0, 0, &TextLayout::Horizontal, -(1 << 30), 0).unwrap();
    assert_eq!(there.advance, 15 + i32::MIN);
    assert_eq!(there.glyphs[2], at('w', 9 + i32::MIN as i128, 0));
    let r = layout_text(&font(), "imwm", 0, 0, &TextLayout::Horizontal, -(1 << 30), 0);
    assert!(matches!(r, Err(TextError::TooLong)));
}

#[test]
fn decode_gives_the_characters() {
    assert_eq!(decode(""), Ok(vec![]));
    assert_eq!(decode("aé日"), Ok(vec!['a', 'é', '日']));
    assert_eq!(decode("\0"), Err(TextError::Encoding));
    assert_eq!(decode("ab\0cd"), Err(TextError::Encoding));
}

#[test]
fn distinct_keeps_the_first_of_each_character() {
    assert_eq!(distinct(&vec![]), Vec::<char>::new());
    assert_eq!(distinct(&"Mah boy! ".chars().collect()), "Mah boy!".chars().collect::<Vec<_>>());
    assert_eq!(distinct(&"abcabcaa".chars().collect()), vec!['a', 'b', 'c']);
    assert_eq!(distinct(&"zzz".chars().collect()), vec!['z']);
}

#[test]
fn measure_run_sums_widths_and_gaps() {
    assert_eq!(measure_run(&vec![], 5), Some(0));
    assert_eq!(measure_run(&vec![4], 5), Some(4));
    assert_eq!(measure_run(&vec![4, 6, 1], 5), Some(21));
    assert_eq!(measure_run(&vec![4, 6, 1], -2), Some(7));
    assert_eq!(measure_run(&vec![i32::MAX], 0), Some(i32::MAX));
    assert_eq!(measure_run(&vec![i32::MAX, 1], 0), None);
    assert_eq!(measure_run(&vec![-5, 5], 0), Some(0));
    assert_eq!(measure_run(&vec![0, 0], i32::MIN), Some(i32::MIN));
    assert_eq!(measure_run(&vec![0, 0, 0], i32::MIN), None);
    assert_eq!(measure_run(&vec![i32::MAX, i32::MAX], i32::MIN), Some(i32::MAX - 1));
}

#[test]
fn height_of_a_font_that_was_not_loaded() {
    assert_eq!(loaded_height(-1), Err(FontError::NotLoaded));
    assert_eq!(loaded_height(20), Ok(20));
    assert_eq!(loaded_height(0), Ok(0));
    assert_eq!(loaded_height(-2), Ok(-2));
}

#[test]
fn style_reads_back_what_was_set() {
    let red = LedColor { red: 255, green: 0, blue: 0 };
    let options = TextDrawOptions::new()
        .position(3, -4)
        .color(&red)
        .layout(TextLayout::Wrapped { line_width: 40 })
        .kerning_offset(-1)
        .leading(2);
    let style = options.style();
    assert_eq!((style.x, style.y), (3, -4));
    assert_eq!(style.color, red);
    assert_eq!(style.layout, TextLayout::Wrapped { line_width: 40 });
    assert_eq!((style.kerning_offset, style.leading), (-1, 2));
    let plain = TextDrawOptions::new().style();
    assert_eq!((plain.x, plain.y, plain.kerning_offset, plain.leading), (0, 0, 0, 0));
    assert_eq!(plain.color, LedColor { red: 255, green: 255, blue: 255 });
    assert_eq!(plain.layout, TextLayout::Horizontal);
}
