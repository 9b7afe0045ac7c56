use rpi_led_matrix::{LedColor, LedMatrix, LedMatrixOptions, LedRuntimeOptions, MatrixError};

#[test]
fn default_session_is_one_panel() {
    let mut matrix = LedMatrix::new(None, None).unwrap();
    assert_eq!(matrix.canvas().canvas_size(), (32, 32));
    assert_eq!(matrix.options().brightness(), 100);
    let mut same = LedMatrix::new(Some(LedMatrixOptions::new()), Some(LedRuntimeOptions::new())).unwrap();
    assert_eq!(same.canvas().canvas_size(), (32, 32));
}

#[test]
fn each_setter_names_what_it_refuses() {
    let mut options = LedMatrixOptions::new();
    assert_eq!(options.set_rows(0), Err(MatrixError::InvalidRows));
    assert_eq!(options.set_cols(0), Err(MatrixError::InvalidCols));
    assert_eq!(options.set_chain_length(0), Err(MatrixError::InvalidChainLength));
    assert_eq!(options.set_parallel(0), Err(MatrixError::InvalidParallel));
    assert_eq!(options.set_brightness(101), Err(MatrixError::InvalidBrightness));
    assert_eq!(options.set_brightness(255), Err(MatrixError::InvalidBrightness));
    assert_eq!(options.set_hardware_mapping("regular\0"), Err(MatrixError::InvalidMapping));
    // Nothing was changed by what was refused.
    let mut matrix = LedMatrix::new(Some(options), None).unwrap();
    assert_eq!(matrix.canvas().canvas_size(), (32, 32));
    assert_eq!(matrix.options().brightness(), 100);
}

#[test]
fn session_keeps_its_options() {
    let mut options = LedMatrixOptions::new();
    let mut rt_options = LedRuntimeOptions::new();
    options.set_hardware_mapping("adafruit-hat-pwm").unwrap();
    options.set_rows(16).unwrap();
    options.set_cols(64).unwrap();
    options.set_chain_length(3).unwrap();
    options.set_parallel(2).unwrap();
    options.set_hardware_pulsing(false);
    options.set_refresh_rate(true);
    rt_options.set_gpio_slowdown(4);
    let mut matrix = LedMatrix::new(Some(options), Some(rt_options)).unwrap();
    assert_eq!(matrix.canvas().canvas_size(), (192, 32));
    let kept = matrix.options();
    assert_eq!(kept.hardware_mapping(), "adafruit-hat-pwm");
    assert_eq!((kept.rows(), kept.cols(), kept.chain_length(), kept.parallel()), (16, 64, 3, 2));
    assert_eq!((kept.hardware_pulsing(), kept.refresh_rate()), (false, true));
    assert_eq!(matrix.runtime_options().gpio_slowdown(), 4);
    let plain = LedMatrix::new(None, None).unwrap();
    assert_eq!(plain.options().hardware_mapping(), "regular");
    assert_eq!((plain.options().hardware_pulsing(), plain.options().refresh_rate()), (true, false));
    assert_eq!(plain.runtime_options().gpio_slowdown(), 1);
}

#[test]
fn brightness_is_a_percentage() {
    for b in [0u8, 1, 50, 100] {
        let mut options = LedMatrixOptions::new();
        assert_eq!(options.set_brightness(b), Ok(()));
        assert_eq!(LedMatrix::new(Some(options), None).unwrap().options().brightness(), b);
    }
}

#[test]
fn panels_too_large_for_a_canvas_are_refused() {
    let mut options = LedMatrixOptions::new();
    options.set_cols(u32::MAX).unwrap();
    assert!(matches!(LedMatrix::new(Some(options), None), Err(MatrixError::TooLarge)));
    let mut options = LedMatrixOptions::new();
    options.set_rows(1 << 16).unwrap();
    options.set_parallel(1 << 15).unwrap();
    assert!(matches!(LedMatrix::new(Some(options), None), Err(MatrixError::TooLarge)));
    let mut options = LedMatrixOptions::new();
    options.set_cols(1 << 20).unwrap();
    options.set_chain_length(1 << 11).unwrap();
    assert!(matches!(LedMatrix::new(Some(options), None), Err(MatrixError::TooLarge)));
}

#[test]
fn drawing_on_the_live_canvas_is_shown_at_once() {
    let mut matrix = LedMatrix::new(None, None).unwrap();
    let c = LedColor { red: 5, green: 6, blue: 7 };
    matrix.canvas().set(3, 4, &c);
    assert_eq!(matrix.canvas().get(3, 4), Some(c));
}

#[test]
fn offscreen_canvas_is_not_shown_before_the_swap() {
    let mut matrix = LedMatrix::new(None, None).unwrap();
    let c = LedColor { red: 5, green: 6, blue: 7 };
    let mut canvas = matrix.offscreen_canvas();
    canvas.fill(&c);
    assert_eq!(matrix.canvas().get(0, 0), Some(LedColor { red: 0, green: 0, blue: 0 }));
    let _ = matrix.swap(canvas);
    assert_eq!(matrix.canvas().get(0, 0), Some(c));
}

#[test]
fn swaps_alternate_the_two_canvases() {
    let mut matrix = LedMatrix::new(None, None).unwrap();
    let a = LedColor { red: 1, green: 0, blue: 0 };
    let b = LedColor { red: 0, green: 1, blue: 0 };
    matrix.canvas().fill(&b);
    let mut held = matrix.offscreen_canvas();
    held.fill(&a);
    for n in 0..9 {
        let (expect_held, expect_live) = if n % 2 == 0 { (a, b) } else { (b, a) };
        assert_eq!(held.get(1, 1), Some(expect_held));
        assert_eq!(matrix.canvas().get(1, 1), Some(expect_live));
        held = matrix.swap(held);
    }
}
