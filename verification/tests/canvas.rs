use rpi_led_matrix::{LedCanvas, LedColor, LedMatrix, LedMatrixOptions, LedRuntimeOptions};
use std::f64::consts::PI;

const BLACK: LedColor = LedColor { red: 0, green: 0, blue: 0 };

fn led_matrix() -> LedMatrix {
    let mut options = LedMatrixOptions::new();
    let mut rt_options = LedRuntimeOptions::new();
    options.set_hardware_mapping("adafruit-hat-pwm").unwrap();
    options.set_chain_length(2).unwrap();
    options.set_hardware_pulsing(false);
    options.set_refresh_rate(true);
    options.set_brightness(10).unwrap();
    rt_options.set_gpio_slowdown(2);
    LedMatrix::new(Some(options), Some(rt_options)).unwrap()
}

fn small_canvas(cols: u32, rows: u32) -> LedCanvas {
    let mut options = LedMatrixOptions::new();
    options.set_cols(cols).unwrap();
    options.set_rows(rows).unwrap();
    LedMatrix::new(Some(options), None).unwrap().offscreen_canvas()
}

/// The lit pixels of the canvas, row by row.
fn lit(canvas: &LedCanvas) -> Vec<(i32, i32)> {
    let (width, height) = canvas.canvas_size();
    let mut found = Vec::new();
    for y in 0..height {
        for x in 0..width {
            if canvas.get(x, y) != Some(BLACK) {
                found.push((x, y));
            }
        }
    }
    found
}

fn sorted(mut points: Vec<(i32, i32)>) -> Vec<(i32, i32)> {
    points.sort_by_key(|p| (p.1, p.0));
    points.dedup();
    points
}

#[test]
fn size() {
    let mut matrix = led_matrix();
    let canvas = matrix.canvas();
    assert_eq!(canvas.canvas_size(), (64, 32));
}

#[test]
fn draw_line() {
    let mut matrix = led_matrix();
    let canvas = matrix.canvas();
    let (width, height) = canvas.canvas_size();
    let mut color = LedColor { red: 127, green: 0, blue: 0 };

    canvas.clear();
    for x in 0..width {
        color.blue = 255 - 3 * x as u8;
        canvas.draw_line(x, 0, width - 1 - x, height - 1, &color);
    }
    // The last line runs from the top right corner to the bottom left one.
    let last = LedColor { red: 127, green: 0, blue: 255 - 3 * 63 };
    assert_eq!(canvas.get(63, 0), Some(last));
    assert_eq!(canvas.get(0, 31), Some(last));
}

#[test]
fn draw_circle() {
    let mut matrix = led_matrix();
    let canvas = matrix.canvas();
    let (width, height) = canvas.canvas_size();
    let mut color = LedColor { red: 127, green: 0, blue: 0 };
    let (x, y) = (width / 2, height / 2);

    canvas.clear();
    for r in 0..(width / 2) {
        color.green = color.red;
        color.red = color.blue;
        color.blue = (r * r) as u8;
        canvas.draw_circle(x, y, r as u32, &color);
    }
    // The circle of radius 0 is the centre; the next one passes beside it.
    assert_eq!(canvas.get(x, y), Some(LedColor { red: 0, green: 127, blue: 0 }));
    assert_eq!(canvas.get(x + 1, y), Some(LedColor { red: 0, green: 0, blue: 1 }));
}

#[test]
fn gradient() {
    let mut matrix = led_matrix();
    let canvas = matrix.canvas();
    let mut color = LedColor { red: 0, green: 0, blue: 0 };
    let period = 400;

    for t in 0..period {
        let t = t as f64;
        color.red = ((PI * t / period as f64).sin() * 255.) as u8;
        color.green = ((2. * PI * t / period as f64).cos() * 255.) as u8;
        color.blue = ((3. * PI * t / period as f64 + 0.3).cos() * 255.) as u8;
        canvas.fill(&color);
        assert_eq!(canvas.get(0, 0), Some(color));
        assert_eq!(canvas.get(63, 31), Some(color));
    }
}

#[test]
fn canvas_swap() {
    let mut matrix = led_matrix();
    let mut color = LedColor { red: 127, green: 127, blue: 0 };

    matrix.canvas().fill(&color);
    let first = color;
    let mut canvas = matrix.offscreen_canvas();
    color.blue = 127;
    canvas.fill(&color);
    let second = color;
    canvas = matrix.swap(canvas);
    // The canvas that was shown comes back as it was; the other is shown.
    assert_eq!(canvas.get(5, 5), Some(first));
    assert_eq!(matrix.canvas().get(5, 5), Some(second));
    color.red = 0;
    canvas.fill(&color);
    let back = matrix.swap(canvas);
    assert_eq!(back.get(5, 5), Some(second));
    assert_eq!(matrix.canvas().get(5, 5), Some(color));
}

#[test]
fn fresh_canvas_has_the_configured_size() {
    for (cols, rows, chain, parallel) in [(32, 32, 1, 1), (64, 32, 2, 1), (16, 8, 3, 2), (1, 1, 1, 1)] {
        let mut options = LedMatrixOptions::new();
        options.set_cols(cols).unwrap();
        options.set_rows(rows).unwrap();
        options.set_chain_length(chain).unwrap();
        options.set_parallel(parallel).unwrap();
        let mut matrix = LedMatrix::new(Some(options), None).unwrap();
        let expected = ((cols * chain) as i32, (rows * parallel) as i32);
        assert_eq!(matrix.canvas().canvas_size(), expected);
        assert_eq!(matrix.offscreen_canvas().canvas_size(), expected);
    }
}

#[test]
fn fresh_canvas_is_unlit() {
    let canvas = small_canvas(7, 5);
    assert!(lit(&canvas).is_empty());
}

#[test]
fn clear_reads_back_zero_everywhere() {
    let mut canvas = small_canvas(9, 4);
    canvas.fill(&LedColor { red: 9, green: 8, blue: 7 });
    canvas.clear();
    for y in 0..4 {
        for x in 0..9 {
            assert_eq!(canvas.get(x, y), Some(BLACK));
        }
    }
}

#[test]
fn fill_reads_back_the_colour_everywhere() {
    let mut canvas = small_canvas(9, 4);
    let c = LedColor { red: 200, green: 100, blue: 50 };
    canvas.fill(&c);
    for y in 0..4 {
        for x in 0..9 {
            assert_eq!(canvas.get(x, y), Some(c));
        }
    }
}

#[test]
fn get_outside_the_canvas_is_none() {
    let canvas = small_canvas(9, 4);
    assert_eq!(canvas.get(-1, 0), None);
    assert_eq!(canvas.get(0, -1), None);
    assert_eq!(canvas.get(9, 0), None);
    assert_eq!(canvas.get(0, 4), None);
    assert_eq!(canvas.get(i32::MAX, i32::MIN), None);
}

#[test]
fn set_writes_one_pixel() {
    let mut canvas = small_canvas(4, 3);
    let c = LedColor { red: 1, green: 2, blue: 3 };
    canvas.set(2, 1, &c);
    assert_eq!(lit(&canvas), vec![(2, 1)]);
    assert_eq!(canvas.get(2, 1), Some(c));
}

#[test]
fn set_outside_the_canvas_is_ignored() {
    let mut canvas = small_canvas(4, 3);
    let c = LedColor { red: 1, green: 2, blue: 3 };
    canvas.set(-1, 0, &c);
    canvas.set(4, 0, &c);
    canvas.set(0, 3, &c);
    canvas.set(0, -1, &c);
    canvas.set(i32::MAX, i32::MAX, &c);
    canvas.set(i32::MIN, i32::MIN, &c);
    assert!(lit(&canvas).is_empty());
    assert_eq!(canvas.canvas_size(), (4, 3));
}

#[test]
fn line_takes_the_nearest_pixel_in_each_column() {
    let mut canvas = small_canvas(8, 8);
    let c = LedColor { red: 255, green: 0, blue: 0 };
    canvas.draw_line(0, 0, 3, 1, &c);
    assert_eq!(lit(&canvas), vec![(0, 0), (1, 0), (2, 1), (3, 1)]);
}

#[test]
fn line_rounds_a_half_downwards_on_the_panel() {
    let mut canvas = small_canvas(8, 8);
    let c = LedColor { red: 255, green: 0, blue: 0 };
    canvas.draw_line(0, 0, 2, 1, &c);
    assert_eq!(lit(&canvas), vec![(0, 0), (1, 1), (2, 1)]);
}

#[test]
fn line_is_the_same_from_either_end() {
    let c = LedColor { red: 255, green: 0, blue: 0 };
    for (x0, y0, x1, y1) in [(0, 0, 2, 1), (1, 6, 7, 2), (3, 0, 4, 7), (0, 7, 7, 0), (5, 5, 5, 1), (6, 3, 1, 3)] {
        let mut there = small_canvas(8, 8);
        let mut back = small_canvas(8, 8);
        there.draw_line(x0, y0, x1, y1, &c);
        back.draw_line(x1, y1, x0, y0, &c);
        assert_eq!(lit(&there), lit(&back));
        assert_eq!(there.get(x0, y0), Some(c));
        assert_eq!(there.get(x1, y1), Some(c));
    }
}

#[test]
fn steep_line_takes_one_pixel_in_each_row() {
    let mut canvas = small_canvas(8, 8);
    let c = LedColor { red: 255, green: 0, blue: 0 };
    canvas.draw_line(1, 0, 2, 3, &c);
    assert_eq!(lit(&canvas), vec![(1, 0), (1, 1), (2, 2), (2, 3)]);
}

#[test]
fn line_of_one_point() {
    let mut canvas = small_canvas(8, 8);
    let c = LedColor { red: 255, green: 0, blue: 0 };
    canvas.draw_line(4, 5, 4, 5, &c);
    assert_eq!(lit(&canvas), vec![(4, 5)]);
}

#[test]
fn line_is_clipped_to_the_canvas() {
    let mut canvas = small_canvas(4, 4);
    let c = LedColor { red: 255, green: 0, blue: 0 };
    canvas.draw_line(-3, 1, 10, 1, &c);
    assert_eq!(lit(&canvas), vec![(0, 1), (1, 1), (2, 1), (3, 1)]);
    let mut far = small_canvas(4, 4);
    far.draw_line(i32::MIN, i32::MIN, i32::MAX, i32::MAX, &c);
    assert_eq!(lit(&far), vec![(0, 0), (1, 1), (2, 2), (3, 3)]);
    let mut off = small_canvas(4, 4);
    off.draw_line(10, 0, 20, 3, &c);
    assert!(lit(&off).is_empty());
}

#[test]
fn circle_of_radius_zero_is_its_centre() {
    let mut canvas = small_canvas(9, 9);
    let c = LedColor { red: 0, green: 255, blue: 0 };
    canvas.draw_circle(4, 4, 0, &c);
    assert_eq!(lit(&canvas), vec![(4, 4)]);
}

#[test]
fn circle_of_radius_one_and_two() {
    let c = LedColor { red: 0, green: 255, blue: 0 };
    let mut one = small_canvas(9, 9);
    one.draw_circle(4, 4, 1, &c);
    assert_eq!(lit(&one), sorted(vec![(4, 3), (3, 4), (5, 4), (4, 5)]));
    let mut two = small_canvas(9, 9);
    two.draw_circle(4, 4, 2, &c);
    let expected = sorted(vec![
        (6, 4), (2, 4), (4, 6), (4, 2),
        (6, 5), (6, 3), (2, 5), (2, 3),
        (5, 6), (3, 6), (5, 2), (3, 2),
    ]);
    assert_eq!(lit(&two), expected);
}

#[test]
fn circle_of_radius_three() {
    let c = LedColor { red: 0, green: 255, blue: 0 };
    let mut canvas = small_canvas(9, 9);
    canvas.draw_circle(4, 4, 3, &c);
    let mut expected = Vec::new();
    for (a, b) in [(3, 0), (3, 1), (2, 2)] {
        for (sx, sy) in [(1, 1), (1, -1), (-1, 1), (-1, -1)] {
            expected.push((4 + sx * a, 4 + sy * b));
            expected.push((4 + sx * b, 4 + sy * a));
        }
    }
    assert_eq!(lit(&canvas), sorted(expected));
}

#[test]
fn circle_is_clipped_to_the_canvas() {
    let c = LedColor { red: 0, green: 255, blue: 0 };
    let mut canvas = small_canvas(4, 4);
    canvas.draw_circle(0, 0, 2, &c);
    assert_eq!(lit(&canvas), sorted(vec![(2, 0), (0, 2), (2, 1), (1, 2)]));
    let mut off = small_canvas(4, 4);
    off.draw_circle(-100, -100, 5, &c);
    assert!(lit(&off).is_empty());
}

#[test]
fn handles_can_cross_threads() {
    fn movable<T: Send + Sync>() {}
    movable::<LedCanvas>();
    movable::<LedMatrix>();
    movable::<rpi_led_matrix::LedFont>();
}
