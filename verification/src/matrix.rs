//! The display session: the configured panels, the canvas that they show
//! and the exchange of that canvas for another.

use crate::canvas::LedCanvas;
use crate::color::LedColor;
use crate::error::MatrixError;
use crate::frame::Frame;
use crate::layout::decode;
use vstd::prelude::*;

verus! {

/// What a `LedMatrixOptions` holds.
pub struct PanelSetup {
    /// The name of the wiring between the controller and the panels.
    pub hardware_mapping: Seq<char>,
    /// The rows of one panel.
    pub rows: u32,
    /// The columns of one panel.
    pub cols: u32,
    /// The number of panels in one chain.
    pub chain_length: u32,
    /// The number of chains.
    pub parallel: u32,
    /// The brightness in percent.
    pub brightness: u8,
    pub hardware_pulsing: bool,
    pub refresh_rate: bool,
}

impl PanelSetup {
    /// Every count is positive and the brightness is a percentage.
    pub open spec fn valid(self) -> bool {
        &&& !self.hardware_mapping.contains('\0')
        &&& self.rows > 0
        &&& self.cols > 0
        &&& self.chain_length > 0
        &&& self.parallel > 0
        &&& self.brightness <= 100
    }

    /// The width of the panels together: the columns of one chain.
    pub open spec fn width(self) -> int {
        self.cols * self.chain_length
    }

    /// The height of the panels together: the rows of all chains.
    pub open spec fn height(self) -> int {
        self.rows * self.parallel
    }

    /// Whether a canvas can be as large as the panels together.
    pub open spec fn fits(self) -> bool {
        &&& self.width() <= i32::MAX
        &&& self.height() <= i32::MAX
        &&& self.width() * self.height() <= usize::MAX
    }

    /// One chain of one panel of 32 rows and 32 columns at full
    /// brightness, wired the regular way.
    pub open spec fn initial() -> PanelSetup {
        PanelSetup {
            hardware_mapping: "regular"@,
            rows: 32,
            cols: 32,
            chain_length: 1,
            parallel: 1,
            brightness: 100,
            hardware_pulsing: true,
            refresh_rate: false,
        }
    }
}

/// How the panels are arranged and driven.
pub struct LedMatrixOptions {
    hardware_mapping: String,
    rows: u32,
    cols: u32,
    chain_length: u32,
    parallel: u32,
    brightness: u8,
    hardware_pulsing: bool,
    refresh_rate: bool,
}

impl View for LedMatrixOptions {
    type V = PanelSetup;

    closed spec fn view(&self) -> PanelSetup {
        PanelSetup {
            hardware_mapping: self.hardware_mapping@,
            rows: self.rows,
            cols: self.cols,
            chain_length: self.chain_length,
            parallel: self.parallel,
            brightness: self.brightness,
            hardware_pulsing: self.hardware_pulsing,
            refresh_rate: self.refresh_rate,
        }
    }
}

impl LedMatrixOptions {
    /// The options describe valid panels.
    #[verifier::type_invariant]
    pub closed spec fn wf(&self) -> bool {
        self@.valid()
    }

    /// The options to start from.
    pub fn new() -> (o: Self)
        ensures
            o@ == PanelSetup::initial(),
            o@.valid(),
    {
        proof {
            reveal_strlit("regular");
        }
        LedMatrixOptions {
            hardware_mapping: "regular".to_owned(),
            rows: 32,
            cols: 32,
            chain_length: 1,
            parallel: 1,
            brightness: 100,
            hardware_pulsing: true,
            refresh_rate: false,
        }
    }

    /// The name of the wiring between the controller and the panels.
    pub fn hardware_mapping(&self) -> (name: &str)
        ensures
            name@ == self@.hardware_mapping,
            !name@.contains('\0'),
    {
        proof {
            use_type_invariant(self);
        }
        self.hardware_mapping.as_str()
    }

    /// The rows of one panel.
    pub fn rows(&self) -> (rows: u32)
        ensures
            rows == self@.rows,
            rows > 0,
    {
        proof {
            use_type_invariant(self);
        }
        self.rows
    }

    /// The columns of one panel.
    pub fn cols(&self) -> (cols: u32)
        ensures
            cols == self@.cols,
            cols > 0,
    {
        proof {
            use_type_invariant(self);
        }
        self.cols
    }

    /// The number of panels in one chain.
    pub fn chain_length(&self) -> (chain_length: u32)
        ensures
            chain_length == self@.chain_length,
            chain_length > 0,
    {
        proof {
            use_type_invariant(self);
        }
        self.chain_length
    }

    /// The number of chains.
    pub fn parallel(&self) -> (parallel: u32)
        ensures
            parallel == self@.parallel,
            parallel > 0,
    {
        proof {
            use_type_invariant(self);
        }
        self.parallel
    }

    /// The brightness in percent.
    pub fn brightness(&self) -> (brightness: u8)
        ensures
            brightness == self@.brightness,
            brightness <= 100,
    {
        proof {
            use_type_invariant(self);
        }
        self.brightness
    }

    /// Whether the hardware pulses.
    pub fn hardware_pulsing(&self) -> (enabled: bool)
        ensures
            enabled == self@.hardware_pulsing,
    {
        self.hardware_pulsing
    }

    /// Whether the refresh rate is displayed.
    pub fn refresh_rate(&self) -> (enabled: bool)
        ensures
            enabled == self@.refresh_rate,
    {
        self.refresh_rate
    }

    /// Names the wiring between the controller and the panels. A name with
    /// a NUL character is refused, and the options stay as they are.
    pub fn set_hardware_mapping(&mut self, mapping: &str) -> (r: Result<(), MatrixError>)
        ensures
            !mapping@.contains('\0') ==> r is Ok && final(self)@ == (PanelSetup {
                hardware_mapping: mapping@,
                ..old(self)@
            }),
            mapping@.contains('\0') ==> r == Err::<(), MatrixError>(MatrixError::InvalidMapping) && final(self)@ == old(self)@,
            final(self)@.valid(),
    {
        proof {
            use_type_invariant(&*self);
        }
        if decode(mapping).is_err() {
            return Err(MatrixError::InvalidMapping);
        }
        self.hardware_mapping = mapping.to_owned();
        Ok(())
    }

    /// Sets the rows of one panel. No rows are refused, and the options
    /// stay as they are.
    pub fn set_rows(&mut self, rows: u32) -> (r: Result<(), MatrixError>)
        ensures
            rows > 0 ==> r is Ok && final(self)@ == (PanelSetup { rows, ..old(self)@ }),
            rows == 0 ==> r == Err::<(), MatrixError>(MatrixError::InvalidRows) && final(self)@ == old(self)@,
            final(self)@.valid(),
    {
        proof {
            use_type_invariant(&*self);
        }
        if rows == 0 {
            return Err(MatrixError::InvalidRows);
        }
        self.rows = rows;
        Ok(())
    }

    /// Sets the columns of one panel. No columns are refused, and the
    /// options stay as they are.
    pub fn set_cols(&mut self, cols: u32) -> (r: Result<(), MatrixError>)
        ensures
            cols > 0 ==> r is Ok && final(self)@ == (PanelSetup { cols, ..old(self)@ }),
            cols == 0 ==> r == Err::<(), MatrixError>(MatrixError::InvalidCols) && final(self)@ == old(self)@,
            final(self)@.valid(),
    {
        proof {
            use_type_invariant(&*self);
        }
        if cols == 0 {
            return Err(MatrixError::InvalidCols);
        }
        self.cols = cols;
        Ok(())
    }

    /// Sets the number of panels in one chain. An empty chain is refused,
    /// and the options stay as they are.
    pub fn set_chain_length(&mut self, chain_length: u32) -> (r: Result<(), MatrixError>)
        ensures
            chain_length > 0 ==> r is Ok && final(self)@ == (PanelSetup { chain_length, ..old(self)@ }),
            chain_length == 0 ==> r == Err::<(), MatrixError>(MatrixError::InvalidChainLength) && final(self)@ == old(self)@,
            final(self)@.valid(),
    {
        proof {
            use_type_invariant(&*self);
        }
        if chain_length == 0 {
            return Err(MatrixError::InvalidChainLength);
        }
        self.chain_length = chain_length;
        Ok(())
    }

    /// Sets the number of chains. No chain is refused, and the options stay
    /// as they are.
    pub fn set_parallel(&mut self, parallel: u32) -> (r: Result<(), MatrixError>)
        ensures
            parallel > 0 ==> r is Ok && final(self)@ == (PanelSetup { parallel, ..old(self)@ }),
            parallel == 0 ==> r == Err::<(), MatrixError>(MatrixError::InvalidParallel) && final(self)@
                == old(self)@,
            final(self)@.valid(),
    {
        proof {
            use_type_invariant(&*self);
        }
        if parallel == 0 {
            return Err(MatrixError::InvalidParallel);
        }
        self.parallel = parallel;
        Ok(())
    }

    /// Sets the brightness in percent. More than 100 is refused, and the
    /// options stay as they are.
    pub fn set_brightness(&mut self, brightness: u8) -> (r: Result<(), MatrixError>)
        ensures
            brightness <= 100 ==> r is Ok && final(self)@ == (PanelSetup { brightness, ..old(self)@ }),
            brightness > 100 ==> r == Err::<(), MatrixError>(MatrixError::InvalidBrightness) && final(self)@ == old(self)@,
            final(self)@.valid(),
    {
        proof {
            use_type_invariant(&*self);
        }
        if brightness > 100 {
            return Err(MatrixError::InvalidBrightness);
        }
        self.brightness = brightness;
        Ok(())
    }

    /// Switches the pulsing of the hardware on or off.
    pub fn set_hardware_pulsing(&mut self, enable: bool)
        ensures
            final(self)@ == (PanelSetup { hardware_pulsing: enable, ..old(self)@ }),
            final(self)@.valid(),
    {
        proof {
            use_type_invariant(&*self);
        }
        self.hardware_pulsing = enable;
    }

    /// Switches the display of the refresh rate on or off.
    pub fn set_refresh_rate(&mut self, enable: bool)
        ensures
            final(self)@ == (PanelSetup { refresh_rate: enable, ..old(self)@ }),
            final(self)@.valid(),
    {
        proof {
            use_type_invariant(&*self);
        }
        self.refresh_rate = enable;
    }
}

/// How the controller is driven.
pub struct LedRuntimeOptions {
    gpio_slowdown: u32,
}

impl LedRuntimeOptions {
    /// How many times the writes to the pins are slowed down.
    pub closed spec fn slowdown(&self) -> u32 {
        self.gpio_slowdown
    }

    /// The options to start from: the pins are written at full speed but
    /// for one step.
    pub fn new() -> (o: Self)
        ensures
            o.slowdown() == 1,
    {
        LedRuntimeOptions { gpio_slowdown: 1 }
    }

    /// How many times the writes to the pins are slowed down.
    pub fn gpio_slowdown(&self) -> (gpio_slowdown: u32)
        ensures
            gpio_slowdown == self.slowdown(),
    {
        self.gpio_slowdown
    }

    /// Sets how many times the writes to the pins are slowed down.
    pub fn set_gpio_slowdown(&mut self, gpio_slowdown: u32)
        ensures
            final(self).slowdown() == gpio_slowdown,
    {
        self.gpio_slowdown = gpio_slowdown;
    }
}

/// A display session as a mathematical value: the panels and how they are
/// driven, their size taken together, and the frame that they show.
pub struct Session {
    pub setup: PanelSetup,
    pub gpio_slowdown: u32,
    pub width: int,
    pub height: int,
    pub live: Frame,
}

impl Session {
    /// The session after it has taken `offered` to show, and the frame that
    /// it showed before, which it hands back.
    pub open spec fn swap(self, offered: Frame) -> (Session, Frame) {
        (Session { live: offered, ..self }, self.live)
    }

    /// The session and the frame in the caller's hands after `n` swaps in
    /// which the caller offers what the swap before handed back.
    pub open spec fn swaps(self, held: Frame, n: nat) -> (Session, Frame)
        decreases n,
    {
        if n == 0 {
            (self, held)
        } else {
            let (session, back) = self.swap(held);
            session.swaps(back, (n - 1) as nat)
        }
    }
}

/// The panels to start from are valid and make a square of 32 pixels,
/// which a canvas can hold.
pub proof fn lemma_initial_setup()
    ensures
        PanelSetup::initial().valid(),
        PanelSetup::initial().width() == 32,
        PanelSetup::initial().height() == 32,
        PanelSetup::initial().fits(),
{
    reveal_strlit("regular");
    assert(PanelSetup::initial().width() == 32);
    assert(PanelSetup::initial().height() == 32);
}

/// Valid panels have a positive size, and the unlit frame of that size,
/// which a new session shows and which every new canvas holds, has that
/// size and is unlit everywhere.
pub proof fn lemma_fresh_canvas(setup: PanelSetup, x: int, y: int)
    requires
        setup.valid(),
        0 <= x < setup.width(),
        0 <= y < setup.height(),
    ensures
        Frame::filled(setup.width(), setup.height(), LedColor::zero()).wf(),
        Frame::filled(setup.width(), setup.height(), LedColor::zero()).width == setup.cols
            * setup.chain_length,
        Frame::filled(setup.width(), setup.height(), LedColor::zero()).height == setup.rows
            * setup.parallel,
        Frame::filled(setup.width(), setup.height(), LedColor::zero()).at(x, y) == LedColor::zero(),
{
}

/// A swap hands back the frame that was shown and shows the frame that was
/// offered; a second swap undoes the first.
pub proof fn lemma_swap_round_trip(session: Session, a: Frame)
    ensures
        session.swap(a).1 == session.live,
        session.swap(a).0.live == a,
        session.swap(a).0.swap(session.live) == (session, a),
{
}

/// Over any number of swaps the two frames stay the same two frames: after
/// an even number each is where it was, after an odd number they have
/// changed places. Nothing else about the session changes.
pub proof fn lemma_swaps_keep_frames(session: Session, held: Frame, n: nat)
    ensures
        n % 2 == 0 ==> session.swaps(held, n) == (session, held),
        n % 2 == 1 ==> session.swaps(held, n) == (Session { live: held, ..session }, session.live),
    decreases n,
{
    if n > 0 {
        let (next, back) = session.swap(held);
        lemma_swaps_keep_frames(next, back, (n - 1) as nat);
    }
}

/// The size of the panels together.
struct Geometry {
    width: i32,
    height: i32,
}

impl Geometry {
    /// The size is one that a canvas can have.
    #[verifier::type_invariant]
    spec fn wf(&self) -> bool {
        &&& self.width > 0
        &&& self.height > 0
        &&& self.width * self.height <= usize::MAX
    }
}

/// The panels of a session: those that the options describe, or one panel
/// of 32 rows and 32 columns where there are no options.
pub open spec fn session_setup(options: Option<LedMatrixOptions>) -> PanelSetup {
    match options {
        Some(o) => o@,
        None => PanelSetup::initial(),
    }
}

/// How a session slows down its writes to the pins: as the options say, or
/// one step where there are no options.
pub open spec fn session_slowdown(rt_options: Option<LedRuntimeOptions>) -> u32 {
    match rt_options {
        Some(o) => o.slowdown(),
        None => 1,
    }
}

/// A display session. It owns the canvas that the panels show.
pub struct LedMatrix {
    options: LedMatrixOptions,
    rt_options: LedRuntimeOptions,
    geometry: Geometry,
    live: LedCanvas,
}

impl View for LedMatrix {
    type V = Session;

    closed spec fn view(&self) -> Session {
        Session {
            setup: self.options@,
            gpio_slowdown: self.rt_options.slowdown(),
            width: self.geometry.width as int,
            height: self.geometry.height as int,
            live: self.live@,
        }
    }
}

impl LedMatrix {
    /// Starts a session on the panels that `options` describe, or on one
    /// panel of 32 rows and 32 columns where there are none. The panels
    /// show an unlit canvas of their size.
    ///
    /// Fails with `MatrixError::TooLarge` when the panels together are
    /// larger than a canvas can be.
    pub fn new(options: Option<LedMatrixOptions>, rt_options: Option<LedRuntimeOptions>) -> (r: Result<
        LedMatrix,
        MatrixError,
    >)
        ensures
            r is Ok <==> session_setup(options).fits(),
            r matches Ok(m) ==> m@ == (Session {
                setup: session_setup(options),
                gpio_slowdown: session_slowdown(rt_options),
                width: session_setup(options).width(),
                height: session_setup(options).height(),
                live: Frame::filled(
                    session_setup(options).width(),
                    session_setup(options).height(),
                    LedColor::zero(),
                ),
            }),
            r matches Err(e) ==> e == MatrixError::TooLarge,
    {
        let options = match options {
            Some(o) => o,
            None => LedMatrixOptions::new(),
        };
        let rt_options = match rt_options {
            Some(o) => o,
            None => LedRuntimeOptions::new(),
        };
        proof {
            use_type_invariant(&options);
        }
        let ghost setup = options@;
        assert(0 < setup.width() <= 0xffff_ffff * 0xffff_ffff && 0 < setup.height() <= 0xffff_ffff
            * 0xffff_ffff) by (nonlinear_arith)
            requires
                0 < setup.cols <= 0xffff_ffff,
                0 < setup.chain_length <= 0xffff_ffff,
                0 < setup.rows <= 0xffff_ffff,
                0 < setup.parallel <= 0xffff_ffff,
                setup.width() == setup.cols * setup.chain_length,
                setup.height() == setup.rows * setup.parallel,
        ;
        let width: u64 = options.cols as u64 * options.chain_length as u64;
        let height: u64 = options.rows as u64 * options.parallel as u64;
        if width > i32::MAX as u64 || height > i32::MAX as u64 {
            return Err(MatrixError::TooLarge);
        }
        assert(0 < width * height <= 0x7fff_ffff * 0x7fff_ffff) by (nonlinear_arith)
            requires
                0 < width <= 0x7fff_ffff,
                0 < height <= 0x7fff_ffff,
        ;
        if width * height > usize::MAX as u64 {
            return Err(MatrixError::TooLarge);
        }
        Ok(
            LedMatrix {
                options,
                rt_options,
                geometry: Geometry { width: width as i32, height: height as i32 },
                live: LedCanvas::blank(width as i32, height as i32),
            },
        )
    }

    /// The canvas that the panels show. What is drawn on it is shown at
    /// once.
    pub fn canvas(&mut self) -> (c: &mut LedCanvas)
        ensures
            c@ == old(self)@.live,
            final(self)@ == (Session { live: final(c)@, ..old(self)@ }),
    {
        &mut self.live
    }

    /// A new unlit canvas of the size of the panels, which the panels do
    /// not show.
    pub fn offscreen_canvas(&self) -> (c: LedCanvas)
        ensures
            c@ == Frame::filled(self@.width, self@.height, LedColor::zero()),
    {
        proof {
            use_type_invariant(&self.geometry);
        }
        LedCanvas::blank(self.geometry.width, self.geometry.height)
    }

    /// Shows `canvas` in place of the canvas that the panels show, and
    /// hands that one back.
    pub fn swap(&mut self, canvas: LedCanvas) -> (back: LedCanvas)
        ensures
            (final(self)@, back@) == old(self)@.swap(canvas@),
    {
        let mut canvas = canvas;
        std::mem::swap(&mut self.live, &mut canvas);
        canvas
    }

    /// How the panels of the session are arranged and driven.
    pub fn options(&self) -> (o: &LedMatrixOptions)
        ensures
            o@ == self@.setup,
    {
        &self.options
    }

    /// How the controller of the session is driven.
    pub fn runtime_options(&self) -> (o: &LedRuntimeOptions)
        ensures
            o.slowdown() == self@.gpio_slowdown,
    {
        &self.rt_options
    }
}

} // verus!
