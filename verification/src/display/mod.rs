//! Display hardware layer: the SSD1309 OLED controller over I2C.
//!
//! [`Display`] combines a bus, the SSD1309 controller and a framebuffer into one handle.
mod clock;
pub mod framebuffer;
pub mod gddram;
pub mod i2c_bus;
pub mod scroll;
pub mod ssd1309;

pub use framebuffer::{BlitError, BlitMode, Framebuffer, PageBuffer, HEIGHT, WIDTH};
pub use i2c_bus::{I2cDevice, I2cDeviceFactory};
pub use ssd1309::Ssd1309;
pub use scroll::blend_scroll_frame;

use clock::{duration_as_secs, instant_elapsed, instant_now};
use framebuffer::BUFFER_LEN;
use framebuffer::on_screen;
use scroll::{blend_byte, blended, hscroll_byte, lemma_blend_ends, vscroll_source_row};
use ssd1309::{
    command, commands, frame_ops, hardware_scroll_ops, init_commands_head, init_commands_tail, init_ops, nibbles,
    rotation_commands, lemma_ran_after, lemma_ran_empty, lemma_ran_push, DC_DC_SETTLE_MS, lemma_ran_failed, lemma_ran_one, lemma_ran_then, ran,
    region_ops, BusEvent, BusOp,
};
use crate::error::DriverError;
use std::time::Instant;

use vstd::prelude::*;

verus! {

/// Horizontal scroll direction.
#[derive(Debug, Clone, Copy, PartialEq, Eq)]
pub enum ScrollDirection {
    /// Content moves right.
    Right,
    /// Content moves left.
    Left,
}

/// Vertical scroll direction.
#[derive(Debug, Clone, Copy, PartialEq, Eq)]
pub enum VerticalDirection {
    /// Content moves up (new content enters at the bottom).
    Up,
    /// Content moves down (new content enters at the top).
    Down,
}

/// Panel orientation.
#[derive(Debug, Clone, Copy, PartialEq, Eq)]
pub enum DisplayRotation {
    /// Default orientation (segment remap and COM scan reversed).
    Rotate0,
    /// Rotated by 180°.
    Rotate180,
}

/// Initialisation settings of the display.
#[derive(Debug, Clone, Copy)]
pub struct DisplayConfig {
    /// I2C bus number.
    pub bus_id: u8,
    /// I2C slave address.
    pub addr: u8,
    /// Initial contrast (0-255), default 0xCF.
    pub contrast: u8,
    /// Initial inversion, default off.
    pub inverted: bool,
    /// Whether the display is switched on after initialisation, default on.
    pub display_on: bool,
    /// Panel orientation, default [`DisplayRotation::Rotate0`].
    pub rotation: DisplayRotation,
    /// Clock divide ratio (low nibble of register 0xD5), default 0.
    pub clock_divide_ratio: u8,
    /// Oscillator frequency (high nibble of register 0xD5), default 8.
    pub clock_frequency: u8,
    /// Multiplex ratio (rows - 1), default 0x3F.
    pub multiplex_ratio: u8,
    /// Display offset, default 0.
    pub display_offset: u8,
    /// Display start line (0-63), default 0.
    pub start_line: u8,
    /// Pre-charge phase 1 (low nibble of register 0xD9), default 1.
    pub precharge_phase1: u8,
    /// Pre-charge phase 2 (high nibble of register 0xD9), default 15.
    pub precharge_phase2: u8,
    /// VCOMH deselect level, default 0x40.
    pub vcomh_level: u8,
    /// COM pins hardware configuration, default 0x12.
    pub com_pins_config: u8,
    /// Charge pump enabled, default on.
    pub charge_pump_enabled: bool,
}

/// The default settings for the device at `addr` on bus `bus_id`.
pub open spec fn default_config(bus_id: u8, addr: u8) -> DisplayConfig {
    DisplayConfig {
        bus_id,
        addr,
        contrast: 0xCF,
        inverted: false,
        display_on: true,
        rotation: DisplayRotation::Rotate0,
        clock_divide_ratio: 0,
        clock_frequency: 8,
        multiplex_ratio: 0x3F,
        display_offset: 0,
        start_line: 0,
        precharge_phase1: 1,
        precharge_phase2: 15,
        vcomh_level: 0x40,
        com_pins_config: 0x12,
        charge_pump_enabled: true,
    }
}

impl DisplayConfig {
    /// Default settings for the device at `addr` on bus `bus_id`.
    pub fn new(bus_id: u8, addr: u8) -> (r: Self)
        ensures
            r == default_config(bus_id, addr),
    {
        DisplayConfig {
            bus_id,
            addr,
            contrast: 0xCF,
            inverted: false,
            display_on: true,
            rotation: DisplayRotation::Rotate0,
            clock_divide_ratio: 0,
            clock_frequency: 8,
            multiplex_ratio: 0x3F,
            display_offset: 0,
            start_line: 0,
            precharge_phase1: 1,
            precharge_phase2: 15,
            vcomh_level: 0x40,
            com_pins_config: 0x12,
            charge_pump_enabled: true,
        }
    }
}


/// Builds a [`Display`] from the default configuration, step by step.
pub struct DisplayBuilder {
    pub config: DisplayConfig,
}

impl DisplayBuilder {
    /// Starts from the default settings for the device at `addr` on bus `bus_id`.
    pub fn new(bus_id: u8, addr: u8) -> (r: Self)
        ensures
            r.config == default_config(bus_id, addr),
    {
        DisplayBuilder { config: DisplayConfig::new(bus_id, addr) }
    }

    /// Sets the initial contrast.
    pub fn with_contrast(self, contrast: u8) -> (r: Self)
        ensures
            r.config == (DisplayConfig { contrast, ..self.config }),
    {
        DisplayBuilder { config: DisplayConfig { contrast, ..self.config } }
    }

    /// Sets whether the display starts inverted.
    pub fn with_inverted(self, inverted: bool) -> (r: Self)
        ensures
            r.config == (DisplayConfig { inverted, ..self.config }),
    {
        DisplayBuilder { config: DisplayConfig { inverted, ..self.config } }
    }

    /// Sets whether the display is switched on at the end of initialisation.
    pub fn with_display_on(self, display_on: bool) -> (r: Self)
        ensures
            r.config == (DisplayConfig { display_on, ..self.config }),
    {
        DisplayBuilder { config: DisplayConfig { display_on, ..self.config } }
    }

    /// Sets the orientation.
    pub fn with_rotation(self, rotation: DisplayRotation) -> (r: Self)
        ensures
            r.config == (DisplayConfig { rotation, ..self.config }),
    {
        DisplayBuilder { config: DisplayConfig { rotation, ..self.config } }
    }

    /// Opens the device and initialises the controller with the configuration
    /// built so far (see [`Display::open_config`]).
    pub fn build<B: I2cDevice + I2cDeviceFactory>(self) -> (r: Result<Display<B>, DriverError>)
        ensures
            r matches Ok(d) ==> {
                &&& d.has_driver()
                &&& ran(
                    Seq::empty(),
                    d.trace(),
                    seq![BusOp::Open(self.config.bus_id, self.config.addr)] + init_ops(self.config),
                    true,
                )
                &&& d.config_view() == self.config
                &&& d.fb().bytes() == Seq::new(BUFFER_LEN as nat, |i: int| 0u8)
                &&& d.fb().dirty_view() is None
            },
            r matches Err(e) ==> e is Io,
    {
        Display::open_config(self.config)
    }
}

/// After a failed recovery, [`Display::render_robust`] does not try to recover
/// again for this many seconds.
///
/// This keeps a permanently broken bus from triggering a recovery (closing and
/// reopening the device plus a full initialisation) on every frame; failed
/// frames during the cool-down are skipped and recovery is tried once it ends.
pub const RECOVER_COOLDOWN_SECS: u64 = 2;

/// Outcome of [`Display::render_robust`].
#[derive(Debug, Clone, Copy, PartialEq, Eq)]
pub enum RenderStatus {
    /// The frame was pushed.
    Pushed,
    /// The first push failed; after recovering the bus the retry succeeded.
    Recovered,
    /// The frame was dropped (recovery failed, was not attempted during the
    /// cool-down, or the retry failed).
    Skipped,
}

/// Runtime statistics of the driver.
#[derive(Debug, Clone, Copy, Default, PartialEq, Eq)]
pub struct DriverStats {
    /// Frames pushed successfully.
    pub frames_pushed: u64,
    /// Frames dropped (still failing after recovery).
    pub frames_skipped: u64,
    /// Successful bus recoveries.
    pub recoveries: u64,
    /// Errors seen.
    pub errors: u64,
}

/// Every counter of `s` can grow by `n` without overflowing.
pub open spec fn stats_room(s: DriverStats, n: int) -> bool {
    &&& s.frames_pushed + n <= u64::MAX
    &&& s.frames_skipped + n <= u64::MAX
    &&& s.recoveries + n <= u64::MAX
    &&& s.errors + n <= u64::MAX
}

/// `n` more pushed frames and one more error fit in the counters of `s`.
pub open spec fn push_room(s: DriverStats, n: int) -> bool {
    &&& s.frames_pushed + n <= u64::MAX
    &&& s.errors + 1 <= u64::MAX
}

/// `s` with the counters grown by the given amounts.
pub open spec fn bump(s: DriverStats, pushed: int, skipped: int, recoveries: int, errors: int) -> DriverStats {
    DriverStats {
        frames_pushed: (s.frames_pushed + pushed) as u64,
        frames_skipped: (s.frames_skipped + skipped) as u64,
        recoveries: (s.recoveries + recoveries) as u64,
        errors: (s.errors + errors) as u64,
    }
}

/// The operations of a recovery: reopening the device, then the initialisation
/// with the current settings and the display switched on.
pub open spec fn recover_ops(c: DisplayConfig) -> Seq<BusOp> {
    seq![BusOp::Open(c.bus_id, c.addr)] + init_ops(DisplayConfig { display_on: true, ..c })
}

/// A recovery re-sends every register setting held in `c`: for each setter,
/// the command it sends for the value stored in the configuration is among the
/// operations of the recovery, and the display is switched on.
pub proof fn lemma_recover_replays_settings(c: DisplayConfig)
    ensures
        recover_ops(c).contains(command(seq![0x81u8, c.contrast])),
        recover_ops(c).contains(command(seq![if c.inverted { 0xA7u8 } else { 0xA6u8 }])),
        recover_ops(c).contains(command(seq![0xD3u8, c.display_offset])),
        recover_ops(c).contains(command(seq![0x40u8 | (c.start_line & 0x3F)])),
        recover_ops(c).contains(command(seq![0xA8u8, c.multiplex_ratio])),
        recover_ops(c).contains(command(seq![0xD5u8, nibbles(c.clock_frequency, c.clock_divide_ratio)])),
        recover_ops(c).contains(command(seq![0xD9u8, nibbles(c.precharge_phase2, c.precharge_phase1)])),
        recover_ops(c).contains(command(seq![0xDBu8, c.vcomh_level])),
        recover_ops(c).contains(command(seq![0xDAu8, c.com_pins_config])),
        recover_ops(c).contains(command(seq![0x8Du8, if c.charge_pump_enabled { 0x14u8 } else { 0x10u8 }])),
        recover_ops(c).contains(command(rotation_commands(c.rotation)[0])),
        recover_ops(c).contains(command(rotation_commands(c.rotation)[1])),
        recover_ops(c).contains(command(seq![0xAFu8])),
{
    let on = DisplayConfig { display_on: true, ..c };
    let ops = recover_ops(c);
    let head = commands(init_commands_head(on));
    let tail = commands(init_commands_tail(on));
    assert(ops =~= seq![BusOp::Open(c.bus_id, c.addr)] + head + seq![BusOp::Delay(DC_DC_SETTLE_MS)] + tail);
    assert(ops[2] == command(seq![0xD5u8, nibbles(c.clock_frequency, c.clock_divide_ratio)]));
    assert(ops[3] == command(seq![0xA8u8, c.multiplex_ratio]));
    assert(ops[4] == command(seq![0xD3u8, c.display_offset]));
    assert(ops[5] == command(seq![0x40u8 | (c.start_line & 0x3F)]));
    assert(ops[6] == command(seq![0x8Du8, if c.charge_pump_enabled { 0x14u8 } else { 0x10u8 }]));
    assert(init_commands_tail(on)[1] == rotation_commands(c.rotation)[0]);
    assert(init_commands_tail(on)[2] == rotation_commands(c.rotation)[1]);
    assert(ops[10] == command(rotation_commands(c.rotation)[0]));
    assert(ops[11] == command(rotation_commands(c.rotation)[1]));
    assert(ops[12] == command(seq![0xDAu8, c.com_pins_config]));
    assert(ops[13] == command(seq![0x81u8, c.contrast]));
    assert(ops[14] == command(seq![0xD9u8, nibbles(c.precharge_phase2, c.precharge_phase1)]));
    assert(ops[15] == command(seq![0xDBu8, c.vcomh_level]));
    assert(ops[17] == command(seq![if c.inverted { 0xA7u8 } else { 0xA6u8 }]));
    assert(ops[18] == command(seq![0xAFu8]));
}

/// Whether the recovery cool-down is still running `elapsed_secs` whole
/// seconds after a failed recovery.
pub fn cooldown_running(elapsed_secs: u64) -> (r: bool)
    ensures
        r == (elapsed_secs < RECOVER_COOLDOWN_SECS),
{
    elapsed_secs < RECOVER_COOLDOWN_SECS
}

/// Frame `k` of `steps` of the page turn from `src` to `new`: `k * WIDTH / steps`
/// columns of `new` have entered from the right.
pub open spec fn page_turn_frame(src: Seq<u8>, new: Seq<u8>, steps: int, k: int) -> Seq<u8> {
    Seq::new(BUFFER_LEN as nat, |i: int| blend_byte(src, new, k * WIDTH as int / steps, i))
}

/// The bus operations of the page turn from frame `k` on: each frame is pushed,
/// with a pause of `ms` milliseconds before the next one.
pub open spec fn page_turn_ops(src: Seq<u8>, new: Seq<u8>, steps: int, ms: u64, k: int) -> Seq<BusOp>
    decreases steps - k,
{
    if k >= steps {
        frame_ops(page_turn_frame(src, new, steps, steps))
    } else {
        frame_ops(page_turn_frame(src, new, steps, k)) + seq![BusOp::Delay(ms)] + page_turn_ops(
            src,
            new,
            steps,
            ms,
            k + 1,
        )
    }
}

/// The frame a page turn of `steps` frames starts from: the start frame of the
/// animation in progress when it has the same step count, else the current frame.
pub open spec fn page_turn_source(anim: Option<(Seq<u8>, usize)>, current: Seq<u8>, steps: usize) -> Seq<u8> {
    match anim {
        Some((b, n)) => if n == steps {
            b
        } else {
            current
        },
        None => current,
    }
}

/// `dirty` (half-open bounds) lies inside the region `(x, y, w, h)`.
pub open spec fn region_covers(dirty: Option<(int, int, int, int)>, x: int, y: int, w: int, h: int) -> bool {
    match dirty {
        Some((x0, y0, x1, y1)) => x <= x0 && y <= y0 && x + w >= x1 && y + h >= y1,
        None => false,
    }
}

/// Something the driver reports while it renders robustly or recovers the
/// bus, for logging. The errors are those the bus gave.
#[derive(Debug)]
pub enum DriverEvent {
    /// A frame push failed.
    PushFailed(DriverError),
    /// A bus reset (recovery) started.
    ResetStarted,
    /// The bus reset succeeded.
    ResetSucceeded,
    /// The bus reset failed; the frame is skipped.
    ResetFailed(DriverError),
    /// The push after a successful reset failed too; the frame is skipped.
    RetryFailed(DriverError),
}

/// `post` is `pre` followed by `n` more events.
pub open spec fn events_added(pre: Seq<DriverEvent>, post: Seq<DriverEvent>, n: int) -> bool {
    &&& post.len() == pre.len() + n
    &&& post.subrange(0, pre.len() as int) == pre
}

/// Top-level handle of the OLED display.
///
/// `B` is the I2C device; a real bus, a test double or any other
/// [`I2cDevice`] can be used.
pub struct Display<B: I2cDevice + I2cDeviceFactory> {
    /// `None` after a failed recovery; `recover` drops the old connection before
    /// opening a new one, so that two handles never drive the bus at once.
    driver: Option<Ssd1309<B>>,
    pub framebuffer: Framebuffer,
    /// Bus, address and the current register settings (restored by `recover`).
    config: DisplayConfig,
    stats: DriverStats,
    /// When the last recovery failed; during the cool-down `render_robust` does not recover.
    last_recover_failed: Option<Instant>,
    /// Page-turn animation in progress: the frame it started from and its step count.
    scroll_source: Option<([u8; 1024], usize)>,
    /// Operations issued by earlier controllers and by reopening the device.
    past: Ghost<Seq<BusEvent>>,
    /// Driver events not yet taken by [`take_events`](Display::take_events).
    events: Vec<DriverEvent>,
}

impl<B: I2cDevice + I2cDeviceFactory> Display<B> {
    /// Every bus operation made through this display, oldest first, with its
    /// outcome: those of earlier controllers and device openings, then those
    /// of the current controller.
    pub closed spec fn trace(&self) -> Seq<BusEvent> {
        self.past@ + match self.driver {
            Some(d) => d.log(),
            None => Seq::empty(),
        }
    }

    /// The controller is initialised.
    pub closed spec fn has_driver(&self) -> bool {
        self.driver is Some
    }

    /// The framebuffer.
    pub closed spec fn fb(&self) -> Framebuffer {
        self.framebuffer
    }

    /// The driver events not yet taken, oldest first.
    pub closed spec fn events_view(&self) -> Seq<DriverEvent> {
        self.events@
    }

    pub closed spec fn stats_view(&self) -> DriverStats {
        self.stats
    }

    pub closed spec fn config_view(&self) -> DisplayConfig {
        self.config
    }

    /// When the last recovery failed, if it did.
    pub closed spec fn last_failure(&self) -> Option<Instant> {
        self.last_recover_failed
    }

    /// The page-turn animation in progress: its start frame and step count.
    pub closed spec fn animation(&self) -> Option<(Seq<u8>, usize)> {
        match self.scroll_source {
            Some((b, n)) => Some((b@, n)),
            None => None,
        }
    }

    /// Settings, recovery state, animation and pending events are those of `other`.
    pub open spec fn same_state(&self, other: &Self) -> bool {
        &&& self.config_view() == other.config_view()
        &&& self.last_failure() == other.last_failure()
        &&& self.animation() == other.animation()
        &&& self.events_view() == other.events_view()
    }

    /// `self` is the state after a frame push that started from `pre`, with the
    /// framebuffer holding `bytes` and dirty rectangle `dirty` when the push began.
    pub open spec fn rendered_from(
        &self,
        pre: &Self,
        bytes: Seq<u8>,
        dirty: Option<(int, int, int, int)>,
        r: Result<(), DriverError>,
    ) -> bool {
        &&& self.config_view() == pre.config_view()
        &&& self.last_failure() == pre.last_failure()
        &&& self.events_view() == pre.events_view()
        &&& self.fb().bytes() == bytes
        &&& if !pre.has_driver() {
            &&& r matches Err(DriverError::NotInitialized)
            &&& !self.has_driver()
            &&& self.trace() == pre.trace()
            &&& self.stats_view() == pre.stats_view()
            &&& self.fb().dirty_view() == dirty
        } else {
            &&& self.has_driver()
            &&& ran(pre.trace(), self.trace(), frame_ops(bytes), r is Ok)
            &&& if r is Ok {
                &&& self.stats_view() == bump(pre.stats_view(), 1, 0, 0, 0)
                &&& self.fb().dirty_view() is None
            } else {
                &&& r matches Err(DriverError::Io(_))
                &&& self.stats_view() == bump(pre.stats_view(), 0, 0, 0, 1)
                &&& self.fb().dirty_view() == dirty
            }
        }
    }

    /// Builds a display on an already opened device (custom bus, tests) and
    /// initialises the controller with `config`.
    pub fn from_device(device: B, config: DisplayConfig) -> (r: Result<Self, DriverError>)
        ensures
            r matches Ok(d) ==> {
                &&& d.has_driver()
                &&& ran(Seq::empty(), d.trace(), init_ops(config), true)
                &&& d.config_view() == config
                &&& d.stats_view() == DriverStats {
                    frames_pushed: 0,
                    frames_skipped: 0,
                    recoveries: 0,
                    errors: 0,
                }
                &&& d.fb().bytes() == Seq::new(BUFFER_LEN as nat, |i: int| 0u8)
                &&& d.fb().dirty_view() is None
                &&& d.last_failure() is None
                &&& d.animation() is None
            },
            r matches Err(e) ==> e is Io,
    {
        match Ssd1309::init_with_config(device, &config) {
            Ok(driver) => Ok(Display {
                driver: Some(driver),
                framebuffer: Framebuffer::new(),
                config,
                stats: DriverStats { frames_pushed: 0, frames_skipped: 0, recoveries: 0, errors: 0 },
                last_recover_failed: None,
                scroll_source: None,
                past: Ghost(Seq::empty()),
                events: Vec::new(),
            }),
            Err(e) => Err(DriverError::Io(e)),
        }
    }

    /// Opens the device at `config.addr` on bus `config.bus_id` and initialises
    /// the controller with `config`.
    pub fn open_config(config: DisplayConfig) -> (r: Result<Self, DriverError>)
        ensures
            r matches Ok(d) ==> {
                &&& d.has_driver()
                &&& ran(
                    Seq::empty(),
                    d.trace(),
                    seq![BusOp::Open(config.bus_id, config.addr)] + init_ops(config),
                    true,
                )
                &&& d.config_view() == config
                &&& d.stats_view() == DriverStats {
                    frames_pushed: 0,
                    frames_skipped: 0,
                    recoveries: 0,
                    errors: 0,
                }
                &&& d.fb().bytes() == Seq::new(BUFFER_LEN as nat, |i: int| 0u8)
                &&& d.fb().dirty_view() is None
                &&& d.last_failure() is None
                &&& d.animation() is None
            },
            r matches Err(e) ==> e is Io,
    {
        let opened = B::open(config.bus_id, config.addr);
        let ghost open_ev = BusEvent { op: BusOp::Open(config.bus_id, config.addr), ok: opened is Ok };
        match opened {
            Err(e) => Err(DriverError::Io(e)),
            Ok(bus) => {
                let (res, Ghost(l)) = Ssd1309::init_logged(bus, &config);
                match res {
                    Ok(driver) => {
                        let ghost start = seq![open_ev];
                        proof {
                            lemma_ran_one(Seq::empty(), open_ev);
                            assert(Seq::<BusEvent>::empty().push(open_ev) =~= start);
                            lemma_ran_after(start, Seq::empty(), l, init_ops(config), true);
                            assert(start + Seq::<BusEvent>::empty() =~= start);
                            lemma_ran_then(Seq::empty(), start, start + l, seq![open_ev.op], init_ops(config), true);
                        }
                        Ok(Display {
                            driver: Some(driver),
                            framebuffer: Framebuffer::new(),
                            config,
                            stats: DriverStats { frames_pushed: 0, frames_skipped: 0, recoveries: 0, errors: 0 },
                            last_recover_failed: None,
                            scroll_source: None,
                            past: Ghost(start),
                            events: Vec::new(),
                        })
                    },
                    Err(e) => Err(DriverError::Io(e)),
                }
            },
        }
    }

    /// Opens the device at `addr` on bus `bus_id` with the default configuration
    /// ([`DisplayConfig::new`]).
    pub fn open(bus_id: u8, addr: u8) -> (r: Result<Self, DriverError>)
        ensures
            r matches Ok(d) ==> {
                &&& d.has_driver()
                &&& ran(
                    Seq::empty(),
                    d.trace(),
                    seq![BusOp::Open(bus_id, addr)] + init_ops(default_config(bus_id, addr)),
                    true,
                )
                &&& d.config_view() == default_config(bus_id, addr)
                &&& d.fb().bytes() == Seq::new(BUFFER_LEN as nat, |i: int| 0u8)
                &&& d.fb().dirty_view() is None
            },
            r matches Err(e) ==> e is Io,
    {
        Self::open_config(DisplayConfig::new(bus_id, addr))
    }

    /// The framebuffer, for drawing: what is written through the reference is
    /// the framebuffer afterwards, and nothing else of the display changes.
    pub fn framebuffer_mut(&mut self) -> (r: &mut Framebuffer)
        ensures
            *r == old(self).fb(),
            final(self).fb() == *final(r),
            final(self).trace() == old(self).trace(),
            final(self).has_driver() == old(self).has_driver(),
            final(self).stats_view() == old(self).stats_view(),
            final(self).same_state(old(self)),
    {
        &mut self.framebuffer
    }

    /// Takes the driver events reported since the last call, oldest first, for
    /// logging; none remain pending afterwards.
    pub fn take_events(&mut self) -> (r: Vec<DriverEvent>)
        ensures
            r@ == old(self).events_view(),
            final(self).events_view() == Seq::<DriverEvent>::empty(),
            final(self).trace() == old(self).trace(),
            final(self).has_driver() == old(self).has_driver(),
            final(self).fb() == old(self).fb(),
            final(self).stats_view() == old(self).stats_view(),
            final(self).config_view() == old(self).config_view(),
            final(self).last_failure() == old(self).last_failure(),
            final(self).animation() == old(self).animation(),
    {
        let mut taken: Vec<DriverEvent> = Vec::new();
        std::mem::swap(&mut taken, &mut self.events);
        taken
    }

    /// Runtime statistics (frames, errors, recoveries).
    pub fn stats(&self) -> (r: DriverStats)
        ensures
            r == self.stats_view(),
    {
        self.stats
    }

    /// `self` is the state after pushing region `(x, y, w, h)` starting from `pre`.
    pub open spec fn region_rendered_from(
        &self,
        pre: &Self,
        x: int,
        y: int,
        w: int,
        h: int,
        r: Result<(), DriverError>,
    ) -> bool {
        &&& self.same_state(pre)
        &&& self.fb().bytes() == pre.fb().bytes()
        &&& if !pre.has_driver() {
            &&& r matches Err(DriverError::NotInitialized)
            &&& !self.has_driver()
            &&& self.trace() == pre.trace()
            &&& self.stats_view() == pre.stats_view()
            &&& self.fb().dirty_view() == pre.fb().dirty_view()
        } else {
            &&& self.has_driver()
            &&& ran(pre.trace(), self.trace(), region_ops(pre.fb().bytes(), x, y, w, h), r is Ok)
            &&& if r is Ok {
                &&& self.stats_view() == bump(pre.stats_view(), 1, 0, 0, 0)
                &&& self.fb().dirty_view() == if region_covers(pre.fb().dirty_view(), x, y, w, h) {
                    None
                } else {
                    pre.fb().dirty_view()
                }
            } else {
                &&& r matches Err(DriverError::Io(_))
                &&& self.stats_view() == bump(pre.stats_view(), 0, 0, 0, 1)
                &&& self.fb().dirty_view() == pre.fb().dirty_view()
            }
        }
    }

    /// Pushes region `(x, y, w, h)` only: in page addressing mode just the
    /// pages and columns it covers are written.
    ///
    /// Used with [`Framebuffer::dirty_rect`] this pushes only what changed. The
    /// dirty rectangle is cleared only when the region covers it entirely, so
    /// that changes outside a partial push are not lost.
    pub fn render_region(&mut self, x: usize, y: usize, w: usize, h: usize) -> (r: Result<(), DriverError>)
        requires
            push_room(old(self).stats_view(), 1),
        ensures
            final(self).region_rendered_from(old(self), x as int, y as int, w as int, h as int, r),
    {
        let result = match &mut self.driver {
            Some(driver) => {
                let ghost l0 = driver.log();
                let res = driver.render_region(&self.framebuffer, x, y, w, h);
                proof {
                    lemma_ran_after(
                        self.past@,
                        l0,
                        driver.log(),
                        region_ops(self.framebuffer.bytes(), x as int, y as int, w as int, h as int),
                        res is Ok,
                    );
                }
                res
            },
            None => {
                return Err(DriverError::NotInitialized);
            },
        };
        match result {
            Ok(()) => {
                self.stats.frames_pushed = self.stats.frames_pushed + 1;
                let covered = match self.framebuffer.dirty_rect() {
                    Some((dx, dy, dw, dh)) => {
                        x <= dx && y <= dy && x.saturating_add(w) >= dx.saturating_add(dw)
                            && y.saturating_add(h) >= dy.saturating_add(dh)
                    },
                    None => false,
                };
                if covered {
                    self.framebuffer.clear_dirty();
                }
                Ok(())
            },
            Err(e) => {
                self.stats.errors = self.stats.errors + 1;
                Err(DriverError::Io(e))
            },
        }
    }

    /// Pushes `page` as the whole screen content (an instant page switch).
    ///
    /// With a [`PageBuffer`]: draw the pages, pick one, push it. For an animated
    /// transition use [`scroll_to_page_frame`](Self::scroll_to_page_frame).
    pub fn show_page(&mut self, page: &Framebuffer) -> (r: Result<(), DriverError>)
        requires
            push_room(old(self).stats_view(), 1),
        ensures
            final(self).rendered_from(old(self), page.bytes(), old(self).fb().dirty_view(), r),
            final(self).animation() == old(self).animation(),
    {
        self.framebuffer.copy_bytes_from(page);
        self.render()
    }

    /// Pushes frame `k` (0 to `steps`) of the page-turn animation towards `page`:
    /// the current content leaves to the left while `page` enters from the right,
    /// `k * WIDTH / steps` columns far.
    ///
    /// The first call (or a call with a different `steps`) captures the current
    /// screen content as the start of the animation; `k == steps` finishes it
    /// and forgets that state. The caller paces the frames, so other work can
    /// run in between.
    pub fn scroll_to_page_frame(&mut self, page: &Framebuffer, steps: usize, k: usize) -> (r: Result<
        (),
        DriverError,
    >)
        requires
            push_room(old(self).stats_view(), 1),
            (if k <= steps {
                k as int
            } else {
                steps as int
            }) * WIDTH <= usize::MAX,
        ensures
            ({
                let st = if steps >= 1 {
                    steps
                } else {
                    1
                };
                let src = match old(self).animation() {
                    Some((b, n)) => if n == st {
                        b
                    } else {
                        old(self).fb().bytes()
                    },
                    None => old(self).fb().bytes(),
                };
                let kk = if k <= st {
                    k
                } else {
                    st
                };
                let offset = kk * WIDTH as int / st as int;
                &&& final(self).rendered_from(
                    old(self),
                    Seq::new(BUFFER_LEN as nat, |i: int| blend_byte(src, page.bytes(), offset, i)),
                    old(self).fb().dirty_view(),
                    r,
                )
                &&& final(self).animation() == if r is Ok && kk >= st {
                    None
                } else {
                    Some((src, st))
                }
            }),
    {
        let steps = if steps >= 1 { steps } else { 1 };
        // The animation's start frame is captured on the first call, or when the step count changes.
        let current: [u8; 1024] = match &self.scroll_source {
            Some((b, total)) if *total == steps => *b,
            _ => {
                let snap = self.framebuffer.snapshot();
                self.scroll_source = Some((snap, steps));
                snap
            },
        };
        let k = if k <= steps { k } else { steps };
        proof {
            let ki = k as int;
            let si = steps as int;
            assert(ki * 128 / si <= 128) by (nonlinear_arith)
                requires
                    0 <= ki <= si,
                    si >= 1,
            ;
        }
        let offset = k * WIDTH / steps;
        self.framebuffer.blend_from(&current, page, offset);
        let r = self.render();
        if r.is_err() {
            return r;
        }
        if k >= steps {
            self.scroll_source = None;
        }
        Ok(())
    }

    /// Pauses `ms` milliseconds between two frames, through the device.
    fn pause(&mut self, ms: u64)
        requires
            old(self).has_driver(),
        ensures
            final(self).trace() == old(self).trace().push(BusEvent { op: BusOp::Delay(ms), ok: true }),
            final(self).has_driver(),
            final(self).same_state(old(self)),
            final(self).fb() == old(self).fb(),
            final(self).stats_view() == old(self).stats_view(),
    {
        let ghost t0 = self.trace();
        match &mut self.driver {
            Some(driver) => {
                driver.pause(ms);
            },
            None => {},
        }
        proof {
            assert(self.trace() =~= t0.push(BusEvent { op: BusOp::Delay(ms), ok: true }));
        }
    }

    /// Plays the page-turn animation to `page`: the current content leaves to
    /// the left while `page` enters from the right, over `steps` frames (at
    /// least one) with a pause of `step_ms` milliseconds between frames.
    ///
    /// At the end the screen shows exactly `page`. This blocks for the whole
    /// animation; [`scroll_to_page_frame`](Self::scroll_to_page_frame) drives it
    /// frame by frame instead.
    pub fn scroll_to_page(&mut self, page: &Framebuffer, steps: usize, step_ms: u64) -> (r: Result<
        (),
        DriverError,
    >)
        requires
            push_room(
                old(self).stats_view(),
                if steps >= 1 {
                    steps + 1
                } else {
                    2
                },
            ),
            (if steps >= 1 {
                steps as int
            } else {
                1
            }) * WIDTH <= usize::MAX,
        ensures
            ({
                let st: usize = if steps >= 1 {
                    steps
                } else {
                    1
                };
                let src = page_turn_source(old(self).animation(), old(self).fb().bytes(), st);
                &&& final(self).config_view() == old(self).config_view()
                &&& final(self).last_failure() == old(self).last_failure()
                &&& if old(self).has_driver() {
                    ran(old(self).trace(), final(self).trace(), page_turn_ops(src, page.bytes(), st as int, step_ms, 0), r is Ok)
                } else {
                    &&& r matches Err(DriverError::NotInitialized)
                    &&& final(self).trace() == old(self).trace()
                }
                &&& r is Ok ==> {
                    &&& final(self).fb().bytes() == page.bytes()
                    &&& final(self).fb().dirty_view() is None
                    &&& final(self).animation() is None
                    &&& final(self).stats_view() == bump(old(self).stats_view(), st + 1, 0, 0, 0)
                }
                &&& r is Err ==> (r matches Err(DriverError::NotInitialized) <==> !old(self).has_driver())
            }),
    {
        let st: usize = if steps >= 1 { steps } else { 1 };
        let ghost pre = *self;
        let ghost src = page_turn_source(self.animation(), self.fb().bytes(), st);
        let ghost all = page_turn_ops(src, page.bytes(), st as int, step_ms, 0);
        let ghost mut done: Seq<BusOp> = Seq::empty();
        let mut k: usize = 0;
        let mut result: Result<(), DriverError> = Ok(());
        proof {
            assert(done + all =~= all);
            lemma_ran_empty(pre.trace());
        }
        loop
            invariant_except_break
                result is Ok,
                k <= st,
                st >= 1,
                st * WIDTH <= usize::MAX,
                src == page_turn_source(pre.animation(), pre.fb().bytes(), st),
                all == page_turn_ops(src, page.bytes(), st as int, step_ms, 0),
                done + page_turn_ops(src, page.bytes(), st as int, step_ms, k as int) == all,
                self.stats_view() == bump(pre.stats_view(), k as int, 0, 0, 0),
                push_room(pre.stats_view(), st + 1),
                self.config_view() == pre.config_view(),
                self.last_failure() == pre.last_failure(),
                k == 0 ==> *self == pre,
                k > 0 ==> self.animation() == Some((src, st)) && self.has_driver() && pre.has_driver(),
                pre.has_driver() ==> ran(pre.trace(), self.trace(), done, true),
            ensures
                self.config_view() == pre.config_view(),
                self.last_failure() == pre.last_failure(),
                pre.has_driver() ==> ran(pre.trace(), self.trace(), all, result is Ok),
                !pre.has_driver() ==> (result matches Err(DriverError::NotInitialized) && self.trace() == pre.trace()),
                result is Err ==> (result matches Err(DriverError::NotInitialized) <==> !pre.has_driver()),
                result is Ok ==> {
                    &&& self.fb().bytes() == page_turn_frame(src, page.bytes(), st as int, st as int)
                    &&& self.fb().dirty_view() is None
                    &&& self.animation() is None
                    &&& self.stats_view() == bump(pre.stats_view(), st + 1, 0, 0, 0)
                },
            decreases st - k,
        {
            let ghost before = *self;
            proof {
                assert(k * WIDTH <= st * WIDTH) by (nonlinear_arith)
                    requires
                        k <= st,
                ;
                if k > 0 {
                    assert(page_turn_source(before.animation(), before.fb().bytes(), st) == src);
                }
            }
            let res = self.scroll_to_page_frame(page, st, k);
            let ghost rest = page_turn_ops(src, page.bytes(), st as int, step_ms, k + 1);
            let ghost frame = frame_ops(page_turn_frame(src, page.bytes(), st as int, k as int));
            proof {
                if k < st {
                    assert(page_turn_ops(src, page.bytes(), st as int, step_ms, k as int) == frame + seq![BusOp::Delay(step_ms)] + rest);
                } else {
                    assert(page_turn_ops(src, page.bytes(), st as int, step_ms, k as int) == frame);
                }
            }
            if res.is_err() {
                proof {
                    if before.has_driver() {
                        lemma_ran_then(pre.trace(), before.trace(), self.trace(), done, frame, false);
                        if k < st {
                            lemma_ran_failed(pre.trace(), self.trace(), done + frame, seq![BusOp::Delay(step_ms)] + rest);
                            assert(done + frame + (seq![BusOp::Delay(step_ms)] + rest) =~= all);
                        } else {
                            assert(done + frame =~= all);
                        }
                    }
                }
                result = res;
                break;
            }
            proof {
                lemma_ran_then(pre.trace(), before.trace(), self.trace(), done, frame, true);
                done = done + frame;
            }
            if k == st {
                proof {
                    assert(done =~= all);
                }
                break;
            }
            let ghost mid = self.trace();
            self.pause(step_ms);
            proof {
                lemma_ran_push(pre.trace(), mid, done, BusEvent { op: BusOp::Delay(step_ms), ok: true });
                done = done.push(BusOp::Delay(step_ms));
                assert(done + rest =~= all);
            }
            k = k + 1;
        }
        proof {
            if result is Ok {
                let b = page_turn_frame(src, page.bytes(), st as int, st as int);
                assert(st as int * WIDTH as int / st as int == WIDTH) by (nonlinear_arith)
                    requires
                        st >= 1,
                ;
                pre.framebuffer.lemma_wf();
                page.lemma_wf();
                lemma_blend_ends(src, page.bytes());
                assert(b =~= blended(src, page.bytes(), WIDTH as int));
            }
        }
        result
    }

    /// Pushes only the region modified since the last push; nothing when
    /// nothing was modified.
    pub fn render_dirty(&mut self) -> (r: Result<(), DriverError>)
        requires
            push_room(old(self).stats_view(), 1),
        ensures
            match old(self).fb().dirty_view() {
                None => r is Ok && *final(self) == *old(self),
                Some((x0, y0, x1, y1)) => final(self).region_rendered_from(
                    old(self),
                    x0,
                    y0,
                    x1 - x0,
                    y1 - y0,
                    r,
                ),
            },
    {
        match self.framebuffer.dirty_rect() {
            Some((x, y, w, h)) => self.render_region(x, y, w, h),
            None => Ok(()),
        }
    }

    /// Whether the cool-down after a failed recovery is still running
    /// ([`RECOVER_COOLDOWN_SECS`] since the failure). Never when no recovery failed.
    pub fn recover_in_cooldown(&self) -> (r: bool)
        ensures
            self.last_failure() is None ==> !r,
    {
        match &self.last_recover_failed {
            Some(t) => {
                let elapsed = instant_elapsed(t);
                cooldown_running(duration_as_secs(&elapsed))
            },
            None => false,
        }
    }

    /// Resets the I2C connection and reinitialises the SSD1309.
    ///
    /// The old connection is closed first (its descriptor released), then the
    /// device is reopened and the controller initialised with the current
    /// settings (contrast, inversion, registers) and the display on. For buses
    /// stuck after SDA lock-ups or lost arbitration.
    ///
    /// A failure starts the recovery cool-down; a success ends it. Reports
    /// [`DriverEvent::ResetStarted`], then [`DriverEvent::ResetSucceeded`] on
    /// success.
    pub fn recover(&mut self) -> (r: Result<(), DriverError>)
        ensures
            ran(old(self).trace(), final(self).trace(), recover_ops(old(self).config_view()), r is Ok),
            final(self).has_driver() == r is Ok,
            r is Ok ==> final(self).last_failure() is None,
            r is Err ==> final(self).last_failure() is Some && r matches Err(DriverError::Io(_)),
            final(self).config_view() == old(self).config_view(),
            final(self).stats_view() == old(self).stats_view(),
            final(self).fb() == old(self).fb(),
            final(self).animation() == old(self).animation(),
            final(self).events_view() == if r is Ok {
                old(self).events_view().push(DriverEvent::ResetStarted).push(DriverEvent::ResetSucceeded)
            } else {
                old(self).events_view().push(DriverEvent::ResetStarted)
            },
    {
        self.events.push(DriverEvent::ResetStarted);
        let ghost old_trace = self.trace();
        let ghost ops = recover_ops(self.config);
        proof {
            self.past@ = self.trace();
        }
        // Close the old connection before opening a new one.
        self.driver = None;
        proof {
            assert(self.trace() =~= old_trace);
        }
        let opened = B::open(self.config.bus_id, self.config.addr);
        let ghost open_ev = BusEvent { op: BusOp::Open(self.config.bus_id, self.config.addr), ok: opened is Ok };
        proof {
            self.past@ = self.past@.push(open_ev);
            assert(self.trace() =~= old_trace.push(open_ev));
            lemma_ran_one(old_trace, open_ev);
        }
        match opened {
            Err(e) => {
                proof {
                    lemma_ran_failed(
                        old_trace,
                        self.trace(),
                        seq![open_ev.op],
                        init_ops(DisplayConfig { display_on: true, ..self.config }),
                    );
                }
                self.last_recover_failed = Some(instant_now());
                Err(DriverError::Io(e))
            },
            Ok(bus) => {
                let mut cfg = self.config;
                cfg.display_on = true;
                let (res, Ghost(l)) = Ssd1309::init_logged(bus, &cfg);
                let ghost p = self.past@;
                proof {
                    lemma_ran_after(p, Seq::empty(), l, init_ops(cfg), res is Ok);
                    assert(p + Seq::<BusEvent>::empty() =~= p);
                    lemma_ran_then(old_trace, p, p + l, seq![open_ev.op], init_ops(cfg), res is Ok);
                }
                match res {
                    Ok(d) => {
                        self.driver = Some(d);
                        self.last_recover_failed = None;
                        self.events.push(DriverEvent::ResetSucceeded);
                        Ok(())
                    },
                    Err(e) => {
                        proof {
                            self.past@ = self.past@ + l;
                        }
                        self.last_recover_failed = Some(instant_now());
                        Err(DriverError::Io(e))
                    },
                }
            },
        }
    }

    /// After a failed push, the cool-down keeps `render_robust` from
    /// recovering: a recovery failed before, and only `elapsed_secs` whole
    /// seconds have passed since (see [`cooldown_running`]).
    pub open spec fn cooldown_skips(&self, elapsed_secs: u64) -> bool {
        self.last_failure() is Some && elapsed_secs < RECOVER_COOLDOWN_SECS
    }

    /// What [`retry_after_failure`](Self::retry_after_failure) does from `pre`,
    /// answering `r`, when `elapsed_secs` whole seconds have passed since the
    /// last failed recovery.
    pub open spec fn retry_outcome(&self, pre: &Self, r: RenderStatus, elapsed_secs: u64) -> bool {
        let f = frame_ops(pre.fb().bytes());
        let rec = recover_ops(pre.config_view());
        let skip = pre.cooldown_skips(elapsed_secs);
        let ev = self.events_view();
        let n = pre.events_view().len() as int;
        &&& self.config_view() == pre.config_view()
        &&& self.animation() == pre.animation()
        &&& self.fb().bytes() == pre.fb().bytes()
        &&& match r {
            RenderStatus::Pushed => false,
            RenderStatus::Recovered => {
                &&& !skip
                &&& ran(pre.trace(), self.trace(), rec + f, true)
                &&& self.has_driver()
                &&& self.stats_view() == bump(pre.stats_view(), 1, 0, 1, 0)
                &&& self.fb().dirty_view() is None
                &&& self.last_failure() is None
                &&& ev == pre.events_view().push(DriverEvent::ResetStarted).push(DriverEvent::ResetSucceeded)
            },
            RenderStatus::Skipped => {
                &&& self.fb().dirty_view() == pre.fb().dirty_view()
                &&& {
                    // Still cooling down: no recovery attempt.
                    ||| {
                        &&& skip
                        &&& self.trace() == pre.trace()
                        &&& self.stats_view() == bump(pre.stats_view(), 0, 1, 0, 0)
                        &&& self.has_driver() == pre.has_driver()
                        &&& self.last_failure() == pre.last_failure()
                        &&& ev == pre.events_view()
                    }
                    // The recovery failed.
                    ||| {
                        &&& !skip
                        &&& ran(pre.trace(), self.trace(), rec, false)
                        &&& self.stats_view() == bump(pre.stats_view(), 0, 1, 0, 0)
                        &&& !self.has_driver()
                        &&& self.last_failure() is Some
                        &&& events_added(pre.events_view(), ev, 2)
                        &&& ev[n] is ResetStarted
                        &&& ev[n + 1] is ResetFailed
                    }
                    // The recovery succeeded, the retry failed.
                    ||| {
                        &&& !skip
                        &&& exists|mid: Seq<BusEvent>|
                            #[trigger] ran(pre.trace(), mid, rec, true) && ran(mid, self.trace(), f, false)
                        &&& self.stats_view() == bump(pre.stats_view(), 0, 1, 1, 1)
                        &&& self.has_driver()
                        &&& self.last_failure() is None
                        &&& events_added(pre.events_view(), ev, 3)
                        &&& ev[n] is ResetStarted
                        &&& ev[n + 1] is ResetSucceeded
                        &&& ev[n + 2] is RetryFailed
                    }
                }
            },
        }
    }

    /// The second half of [`render_robust`](Self::render_robust), after a
    /// failed push: with `elapsed_secs` the whole seconds since the last failed
    /// recovery (not used when no recovery failed), the frame is skipped while
    /// the cool-down runs; otherwise the bus is recovered and the push retried
    /// once, and the frame is skipped when either fails.
    pub fn retry_after_failure(&mut self, elapsed_secs: u64) -> (r: RenderStatus)
        requires
            stats_room(old(self).stats_view(), 1),
        ensures
            final(self).retry_outcome(old(self), r, elapsed_secs),
    {
        let ghost pre = *self;
        if self.last_recover_failed.is_some() && cooldown_running(elapsed_secs) {
            self.stats.frames_skipped = self.stats.frames_skipped + 1;
            return RenderStatus::Skipped;
        }
        match self.recover() {
            Ok(()) => {
                self.stats.recoveries = self.stats.recoveries + 1;
                let ghost mid = self.trace();
                let second = self.render();
                proof {
                    lemma_ran_then(
                        pre.trace(),
                        mid,
                        self.trace(),
                        recover_ops(pre.config),
                        frame_ops(pre.framebuffer.bytes()),
                        second is Ok,
                    );
                }
                match second {
                    Ok(()) => RenderStatus::Recovered,
                    Err(e) => {
                        self.events.push(DriverEvent::RetryFailed(e));
                        assert(self.events@.subrange(0, pre.events@.len() as int) =~= pre.events@);
                        self.stats.frames_skipped = self.stats.frames_skipped + 1;
                        assert(ran(pre.trace(), mid, recover_ops(pre.config), true) && ran(
                            mid,
                            self.trace(),
                            frame_ops(pre.framebuffer.bytes()),
                            false,
                        ));
                        RenderStatus::Skipped
                    },
                }
            },
            Err(e) => {
                self.events.push(DriverEvent::ResetFailed(e));
                assert(self.events@.subrange(0, pre.events@.len() as int) =~= pre.events@);
                self.stats.frames_skipped = self.stats.frames_skipped + 1;
                RenderStatus::Skipped
            },
        }
    }

    /// The first push of `render_robust` failed, leaving the trace at `mid`: the
    /// frame was attempted and failed, or there was no controller to push with.
    pub open spec fn first_push_failed(&self, mid: Seq<BusEvent>) -> bool {
        if self.has_driver() {
            ran(self.trace(), mid, frame_ops(self.fb().bytes()), false)
        } else {
            mid == self.trace()
        }
    }

    /// What `render_robust` does from `pre`, answering `r`, when the clock
    /// reads `elapsed_secs` whole seconds since the last failed recovery.
    pub open spec fn robust_outcome(&self, pre: &Self, r: RenderStatus, elapsed_secs: u64) -> bool {
        let f = frame_ops(pre.fb().bytes());
        let rec = recover_ops(pre.config_view());
        let skip = pre.cooldown_skips(elapsed_secs);
        let e1: int = if pre.has_driver() {
            1
        } else {
            0
        };
        let ev = self.events_view();
        let n = pre.events_view().len() as int;
        &&& self.config_view() == pre.config_view()
        &&& self.animation() == pre.animation()
        &&& self.fb().bytes() == pre.fb().bytes()
        &&& match r {
            RenderStatus::Pushed => {
                &&& pre.has_driver()
                &&& self.has_driver()
                &&& ran(pre.trace(), self.trace(), f, true)
                &&& self.stats_view() == bump(pre.stats_view(), 1, 0, 0, 0)
                &&& self.fb().dirty_view() is None
                &&& self.last_failure() == pre.last_failure()
                &&& ev == pre.events_view()
            },
            RenderStatus::Recovered => {
                &&& !skip
                &&& exists|mid: Seq<BusEvent>|
                    #[trigger] pre.first_push_failed(mid) && ran(mid, self.trace(), rec + f, true)
                &&& self.has_driver()
                &&& self.stats_view() == bump(pre.stats_view(), 1, 0, 1, e1)
                &&& self.fb().dirty_view() is None
                &&& self.last_failure() is None
                &&& events_added(pre.events_view(), ev, 3)
                &&& ev[n] is PushFailed
                &&& ev[n + 1] is ResetStarted
                &&& ev[n + 2] is ResetSucceeded
            },
            RenderStatus::Skipped => {
                &&& self.fb().dirty_view() == pre.fb().dirty_view()
                &&& {
                    // Still cooling down: no recovery attempt.
                    ||| {
                        &&& skip
                        &&& pre.first_push_failed(self.trace())
                        &&& self.stats_view() == bump(pre.stats_view(), 0, 1, 0, e1)
                        &&& self.has_driver() == pre.has_driver()
                        &&& self.last_failure() == pre.last_failure()
                        &&& events_added(pre.events_view(), ev, 1)
                        &&& ev[n] is PushFailed
                    }
                    // The recovery failed.
                    ||| {
                        &&& !skip
                        &&& exists|mid: Seq<BusEvent>|
                            #[trigger] pre.first_push_failed(mid) && ran(mid, self.trace(), rec, false)
                        &&& self.stats_view() == bump(pre.stats_view(), 0, 1, 0, e1)
                        &&& !self.has_driver()
                        &&& self.last_failure() is Some
                        &&& events_added(pre.events_view(), ev, 3)
                        &&& ev[n] is PushFailed
                        &&& ev[n + 1] is ResetStarted
                        &&& ev[n + 2] is ResetFailed
                    }
                    // The recovery succeeded, the retry failed.
                    ||| {
                        &&& !skip
                        &&& exists|mid: Seq<BusEvent>, mid2: Seq<BusEvent>|
                            #[trigger] pre.first_push_failed(mid) && ran(mid, mid2, rec, true)
                                && #[trigger] ran(mid2, self.trace(), f, false)
                        &&& self.stats_view() == bump(pre.stats_view(), 0, 1, 1, e1 + 1)
                        &&& self.has_driver()
                        &&& self.last_failure() is None
                        &&& events_added(pre.events_view(), ev, 4)
                        &&& ev[n] is PushFailed
                        &&& ev[n + 1] is ResetStarted
                        &&& ev[n + 2] is ResetSucceeded
                        &&& ev[n + 3] is RetryFailed
                    }
                }
            },
        }
    }

    /// Pushes the frame with automatic recovery (best effort).
    ///
    /// When the push fails, the I2C bus is reset and the push retried once; if
    /// that fails too the frame is dropped, without an error, and later frames
    /// try again. After a failed recovery a cool-down of
    /// [`RECOVER_COOLDOWN_SECS`] starts, during which failed frames are dropped
    /// without recovering, so a permanently broken bus does not cause a reset
    /// on every frame. What happened is reported as [`DriverEvent`]s.
    ///
    /// The outcome is that of [`robust_outcome`](Self::robust_outcome) for the
    /// seconds the clock reads since the last failed recovery.
    pub fn render_robust(&mut self) -> (r: RenderStatus)
        requires
            stats_room(old(self).stats_view(), 2),
        ensures
            exists|elapsed_secs: u64| #[trigger] final(self).robust_outcome(old(self), r, elapsed_secs),
    {
        let ghost pre = *self;
        let first = self.render();
        match first {
            Ok(()) => {
                assert(self.robust_outcome(&pre, RenderStatus::Pushed, 0));
                return RenderStatus::Pushed;
            },
            Err(e) => {
                self.events.push(DriverEvent::PushFailed(e));
            },
        }
        let ghost m = *self;
        assert(pre.first_push_failed(m.trace()));
        let secs: u64 = match &self.last_recover_failed {
            Some(t) => {
                let elapsed = instant_elapsed(t);
                duration_as_secs(&elapsed)
            },
            None => 0,
        };
        let r = self.retry_after_failure(secs);
        proof {
            let n = pre.events_view().len() as int;
            let ev = self.events_view();
            assert(ev.subrange(0, n + 1) == m.events_view());
            assert(ev.subrange(0, n) =~= pre.events_view()) by {
                assert forall|i: int| 0 <= i < n implies ev[i] == pre.events_view()[i] by {
                    assert(ev.subrange(0, n + 1)[i] == ev[i]);
                }
            }
            assert(ev[n] == ev.subrange(0, n + 1)[n]);
            assert(m.cooldown_skips(secs) == pre.cooldown_skips(secs));
            if r is Skipped && !pre.cooldown_skips(secs) && self.has_driver() {
                let mid2 = choose|mid2: Seq<BusEvent>|
                    #[trigger] ran(m.trace(), mid2, recover_ops(pre.config), true) && ran(
                        mid2,
                        self.trace(),
                        frame_ops(pre.framebuffer.bytes()),
                        false,
                    );
                assert(pre.first_push_failed(m.trace()) && ran(m.trace(), mid2, recover_ops(pre.config), true) && ran(
                    mid2,
                    self.trace(),
                    frame_ops(pre.framebuffer.bytes()),
                    false,
                ));
            }
            assert(self.robust_outcome(&pre, r, secs));
        }
        r
    }

    /// Clears the screen: clears the framebuffer and pushes it.
    pub fn clear(&mut self) -> (r: Result<(), DriverError>)
        requires
            push_room(old(self).stats_view(), 1),
        ensures
            final(self).rendered_from(
                old(self),
                Seq::new(BUFFER_LEN as nat, |i: int| 0u8),
                Some((0int, 0int, WIDTH as int, HEIGHT as int)),
                r,
            ),
            final(self).animation() == old(self).animation(),
    {
        self.framebuffer.clear();
        self.render()
    }

    /// Lights the whole screen: fills the framebuffer and pushes it.
    pub fn fill(&mut self) -> (r: Result<(), DriverError>)
        requires
            push_room(old(self).stats_view(), 1),
        ensures
            final(self).rendered_from(
                old(self),
                Seq::new(BUFFER_LEN as nat, |i: int| 0xFFu8),
                Some((0int, 0int, WIDTH as int, HEIGHT as int)),
                r,
            ),
            final(self).animation() == old(self).animation(),
    {
        self.framebuffer.fill_all();
        self.render()
    }

    /// Rotates the framebuffer by `offset` columns (wrapping) and pushes it.
    ///
    /// Scrolling is done in the framebuffer because the panel this driver was
    /// written for ignores the hardware scroll commands; calling this
    /// periodically gives a marquee.
    pub fn software_scroll_horizontal(&mut self, dir: ScrollDirection, offset: usize) -> (r: Result<
        (),
        DriverError,
    >)
        requires
            push_room(old(self).stats_view(), 1),
        ensures
            final(self).rendered_from(
                old(self),
                Seq::new(
                    BUFFER_LEN as nat,
                    |i: int| hscroll_byte(old(self).fb().bytes(), dir, (offset % WIDTH) as int, i),
                ),
                old(self).fb().dirty_view(),
                r,
            ),
            final(self).animation() == old(self).animation(),
    {
        self.framebuffer.rotate_columns(dir, offset);
        self.render()
    }

    /// Rotates the framebuffer by `offset` rows (wrapping) and pushes it.
    ///
    /// Each column's 64 pixels are rotated as one 64-bit integer, so page
    /// boundaries (rows 8, 16, …) are crossed seamlessly.
    pub fn software_scroll_vertical(&mut self, dir: VerticalDirection, offset: usize) -> (r: Result<
        (),
        DriverError,
    >)
        requires
            push_room(old(self).stats_view(), 1),
        ensures
            forall|x: int, y: int|
                on_screen(x, y) ==> final(self).fb().pixel(x, y) == old(self).fb().pixel(
                    x,
                    vscroll_source_row(dir, (offset % HEIGHT) as int, y),
                ),
            final(self).rendered_from(
                old(self),
                final(self).fb().bytes(),
                old(self).fb().dirty_view(),
                r,
            ),
            final(self).animation() == old(self).animation(),
    {
        self.framebuffer.rotate_rows(dir, offset);
        self.render()
    }

    /// `self` is the state after sending `ops` to the controller, starting from
    /// `pre`; on success the settings become `new_config`.
    pub open spec fn sent_from(
        &self,
        pre: &Self,
        ops: Seq<BusOp>,
        new_config: DisplayConfig,
        r: Result<(), DriverError>,
    ) -> bool {
        &&& self.fb() == pre.fb()
        &&& self.stats_view() == pre.stats_view()
        &&& self.last_failure() == pre.last_failure()
        &&& self.animation() == pre.animation()
        &&& self.has_driver() == pre.has_driver()
        &&& self.events_view() == pre.events_view()
        &&& if !pre.has_driver() {
            &&& r matches Err(DriverError::NotInitialized)
            &&& self.trace() == pre.trace()
            &&& self.config_view() == pre.config_view()
        } else {
            &&& ran(pre.trace(), self.trace(), ops, r is Ok)
            &&& self.config_view() == if r is Ok {
                new_config
            } else {
                pre.config_view()
            }
            &&& r is Err ==> r matches Err(DriverError::Io(_))
        }
    }

    /// Sets the contrast (0-255); kept across recoveries.
    pub fn set_contrast(&mut self, val: u8) -> (r: Result<(), DriverError>)
        ensures
            final(self).sent_from(
                old(self),
                seq![command(seq![0x81u8, val])],
                DisplayConfig { contrast: val, ..old(self).config_view() },
                r,
            ),
    {
        let driver = match &mut self.driver {
            Some(d) => d,
            None => {
                return Err(DriverError::NotInitialized);
            },
        };
        let ghost l0 = driver.log();
        let res = driver.set_contrast(val);
        proof {
            lemma_ran_after(self.past@, l0, driver.log(), seq![command(seq![0x81u8, val])], res is Ok);
        }
        match res {
            Ok(()) => {
                self.config.contrast = val;
                Ok(())
            },
            Err(e) => Err(DriverError::Io(e)),
        }
    }

    /// Inverse (0xA7) or normal (0xA6) display; kept across recoveries.
    pub fn set_inverted(&mut self, inverted: bool) -> (r: Result<(), DriverError>)
        ensures
            final(self).sent_from(
                old(self),
                seq![command(seq![if inverted { 0xA7u8 } else { 0xA6u8 }])],
                DisplayConfig { inverted, ..old(self).config_view() },
                r,
            ),
    {
        let driver = match &mut self.driver {
            Some(d) => d,
            None => {
                return Err(DriverError::NotInitialized);
            },
        };
        let ghost l0 = driver.log();
        let res = driver.set_inverted(inverted);
        proof {
            lemma_ran_after(self.past@, l0, driver.log(), seq![command(seq![if inverted { 0xA7u8 } else { 0xA6u8 }])], res is Ok);
        }
        match res {
            Ok(()) => {
                self.config.inverted = inverted;
                Ok(())
            },
            Err(e) => Err(DriverError::Io(e)),
        }
    }

    /// Lights every pixel (0xA5) or shows the RAM content again (0xA4); a quick panel test.
    pub fn set_entire_display_on(&mut self, on: bool) -> (r: Result<(), DriverError>)
        ensures
            final(self).sent_from(
                old(self),
                seq![command(seq![if on { 0xA5u8 } else { 0xA4u8 }])],
                old(self).config_view(),
                r,
            ),
    {
        let driver = match &mut self.driver {
            Some(d) => d,
            None => {
                return Err(DriverError::NotInitialized);
            },
        };
        let ghost l0 = driver.log();
        let res = driver.set_entire_display_on(on);
        proof {
            lemma_ran_after(self.past@, l0, driver.log(), seq![command(seq![if on { 0xA5u8 } else { 0xA4u8 }])], res is Ok);
        }
        match res {
            Ok(()) => {
                Ok(())
            },
            Err(e) => Err(DriverError::Io(e)),
        }
    }

    /// Switches the panel off (sleep mode, 0xAE); the GDDRAM content is kept.
    pub fn sleep(&mut self) -> (r: Result<(), DriverError>)
        ensures
            final(self).sent_from(
                old(self),
                seq![command(seq![0xAEu8])],
                old(self).config_view(),
                r,
            ),
    {
        let driver = match &mut self.driver {
            Some(d) => d,
            None => {
                return Err(DriverError::NotInitialized);
            },
        };
        let ghost l0 = driver.log();
        let res = driver.sleep();
        proof {
            lemma_ran_after(self.past@, l0, driver.log(), seq![command(seq![0xAEu8])], res is Ok);
        }
        match res {
            Ok(()) => {
                Ok(())
            },
            Err(e) => Err(DriverError::Io(e)),
        }
    }

    /// Switches the panel on (0xAF); the counterpart of [`sleep`](Self::sleep).
    pub fn wake(&mut self) -> (r: Result<(), DriverError>)
        ensures
            final(self).sent_from(
                old(self),
                seq![command(seq![0xAFu8])],
                old(self).config_view(),
                r,
            ),
    {
        let driver = match &mut self.driver {
            Some(d) => d,
            None => {
                return Err(DriverError::NotInitialized);
            },
        };
        let ghost l0 = driver.log();
        let res = driver.wake();
        proof {
            lemma_ran_after(self.past@, l0, driver.log(), seq![command(seq![0xAFu8])], res is Ok);
        }
        match res {
            Ok(()) => {
                Ok(())
            },
            Err(e) => Err(DriverError::Io(e)),
        }
    }

    /// Sets the orientation (0° or 180°) without clearing the framebuffer; kept across recoveries.
    pub fn set_rotation(&mut self, rotation: DisplayRotation) -> (r: Result<(), DriverError>)
        ensures
            final(self).sent_from(
                old(self),
                commands(rotation_commands(rotation)),
                DisplayConfig { rotation, ..old(self).config_view() },
                r,
            ),
    {
        let driver = match &mut self.driver {
            Some(d) => d,
            None => {
                return Err(DriverError::NotInitialized);
            },
        };
        let ghost l0 = driver.log();
        let res = driver.set_rotation(rotation);
        proof {
            lemma_ran_after(self.past@, l0, driver.log(), commands(rotation_commands(rotation)), res is Ok);
        }
        match res {
            Ok(()) => {
                self.config.rotation = rotation;
                Ok(())
            },
            Err(e) => Err(DriverError::Io(e)),
        }
    }

    /// Sets the display offset (0-63); kept across recoveries.
    pub fn set_display_offset(&mut self, offset: u8) -> (r: Result<(), DriverError>)
        ensures
            final(self).sent_from(
                old(self),
                seq![command(seq![0xD3u8, offset & 0x3F])],
                DisplayConfig { display_offset: offset & 0x3F, ..old(self).config_view() },
                r,
            ),
    {
        let driver = match &mut self.driver {
            Some(d) => d,
            None => {
                return Err(DriverError::NotInitialized);
            },
        };
        let ghost l0 = driver.log();
        let res = driver.set_display_offset(offset);
        proof {
            lemma_ran_after(self.past@, l0, driver.log(), seq![command(seq![0xD3u8, offset & 0x3F])], res is Ok);
        }
        match res {
            Ok(()) => {
                self.config.display_offset = offset & 0x3F;
                Ok(())
            },
            Err(e) => Err(DriverError::Io(e)),
        }
    }

    /// Sets the start line (0-63); kept across recoveries.
    pub fn set_start_line(&mut self, line: u8) -> (r: Result<(), DriverError>)
        ensures
            final(self).sent_from(
                old(self),
                seq![command(seq![0x40u8 | (line & 0x3F)])],
                DisplayConfig { start_line: line, ..old(self).config_view() },
                r,
            ),
    {
        let driver = match &mut self.driver {
            Some(d) => d,
            None => {
                return Err(DriverError::NotInitialized);
            },
        };
        let ghost l0 = driver.log();
        let res = driver.set_start_line(line);
        proof {
            lemma_ran_after(self.past@, l0, driver.log(), seq![command(seq![0x40u8 | (line & 0x3F)])], res is Ok);
        }
        match res {
            Ok(()) => {
                self.config.start_line = line;
                Ok(())
            },
            Err(e) => Err(DriverError::Io(e)),
        }
    }

    /// Sets the multiplex ratio (rows - 1); kept across recoveries.
    pub fn set_multiplex_ratio(&mut self, ratio: u8) -> (r: Result<(), DriverError>)
        ensures
            final(self).sent_from(
                old(self),
                seq![command(seq![0xA8u8, ratio])],
                DisplayConfig { multiplex_ratio: ratio, ..old(self).config_view() },
                r,
            ),
    {
        let driver = match &mut self.driver {
            Some(d) => d,
            None => {
                return Err(DriverError::NotInitialized);
            },
        };
        let ghost l0 = driver.log();
        let res = driver.set_multiplex_ratio(ratio);
        proof {
            lemma_ran_after(self.past@, l0, driver.log(), seq![command(seq![0xA8u8, ratio])], res is Ok);
        }
        match res {
            Ok(()) => {
                self.config.multiplex_ratio = ratio;
                Ok(())
            },
            Err(e) => Err(DriverError::Io(e)),
        }
    }

    /// Sets the clock divide ratio and oscillator frequency; kept across recoveries.
    pub fn set_clock(&mut self, divide_ratio: u8, frequency: u8) -> (r: Result<(), DriverError>)
        ensures
            final(self).sent_from(
                old(self),
                seq![command(seq![0xD5u8, nibbles(frequency, divide_ratio)])],
                DisplayConfig { clock_divide_ratio: divide_ratio, clock_frequency: frequency, ..old(self).config_view() },
                r,
            ),
    {
        let driver = match &mut self.driver {
            Some(d) => d,
            None => {
                return Err(DriverError::NotInitialized);
            },
        };
        let ghost l0 = driver.log();
        let res = driver.set_clock(divide_ratio, frequency);
        proof {
            lemma_ran_after(self.past@, l0, driver.log(), seq![command(seq![0xD5u8, nibbles(frequency, divide_ratio)])], res is Ok);
        }
        match res {
            Ok(()) => {
                self.config.clock_divide_ratio = divide_ratio;
                self.config.clock_frequency = frequency;
                Ok(())
            },
            Err(e) => Err(DriverError::Io(e)),
        }
    }

    /// Sets the pre-charge period; kept across recoveries.
    pub fn set_precharge_period(&mut self, phase1: u8, phase2: u8) -> (r: Result<(), DriverError>)
        ensures
            final(self).sent_from(
                old(self),
                seq![command(seq![0xD9u8, nibbles(phase2, phase1)])],
                DisplayConfig { precharge_phase1: phase1, precharge_phase2: phase2, ..old(self).config_view() },
                r,
            ),
    {
        let driver = match &mut self.driver {
            Some(d) => d,
            None => {
                return Err(DriverError::NotInitialized);
            },
        };
        let ghost l0 = driver.log();
        let res = driver.set_precharge_period(phase1, phase2);
        proof {
            lemma_ran_after(self.past@, l0, driver.log(), seq![command(seq![0xD9u8, nibbles(phase2, phase1)])], res is Ok);
        }
        match res {
            Ok(()) => {
                self.config.precharge_phase1 = phase1;
                self.config.precharge_phase2 = phase2;
                Ok(())
            },
            Err(e) => Err(DriverError::Io(e)),
        }
    }

    /// Sets the VCOMH deselect level; kept across recoveries.
    pub fn set_vcomh_level(&mut self, level: u8) -> (r: Result<(), DriverError>)
        ensures
            final(self).sent_from(
                old(self),
                seq![command(seq![0xDBu8, level])],
                DisplayConfig { vcomh_level: level, ..old(self).config_view() },
                r,
            ),
    {
        let driver = match &mut self.driver {
            Some(d) => d,
            None => {
                return Err(DriverError::NotInitialized);
            },
        };
        let ghost l0 = driver.log();
        let res = driver.set_vcomh_level(level);
        proof {
            lemma_ran_after(self.past@, l0, driver.log(), seq![command(seq![0xDBu8, level])], res is Ok);
        }
        match res {
            Ok(()) => {
                self.config.vcomh_level = level;
                Ok(())
            },
            Err(e) => Err(DriverError::Io(e)),
        }
    }

    /// Sets the COM pins configuration; kept across recoveries.
    pub fn set_com_pins_config(&mut self, config: u8) -> (r: Result<(), DriverError>)
        ensures
            final(self).sent_from(
                old(self),
                seq![command(seq![0xDAu8, config])],
                DisplayConfig { com_pins_config: config, ..old(self).config_view() },
                r,
            ),
    {
        let driver = match &mut self.driver {
            Some(d) => d,
            None => {
                return Err(DriverError::NotInitialized);
            },
        };
        let ghost l0 = driver.log();
        let res = driver.set_com_pins_config(config);
        proof {
            lemma_ran_after(self.past@, l0, driver.log(), seq![command(seq![0xDAu8, config])], res is Ok);
        }
        match res {
            Ok(()) => {
                self.config.com_pins_config = config;
                Ok(())
            },
            Err(e) => Err(DriverError::Io(e)),
        }
    }

    /// Enables or disables the charge pump; kept across recoveries.
    pub fn set_charge_pump(&mut self, enabled: bool) -> (r: Result<(), DriverError>)
        ensures
            final(self).sent_from(
                old(self),
                seq![command(seq![0x8Du8, if enabled { 0x14u8 } else { 0x10u8 }])],
                DisplayConfig { charge_pump_enabled: enabled, ..old(self).config_view() },
                r,
            ),
    {
        let driver = match &mut self.driver {
            Some(d) => d,
            None => {
                return Err(DriverError::NotInitialized);
            },
        };
        let ghost l0 = driver.log();
        let res = driver.set_charge_pump(enabled);
        proof {
            lemma_ran_after(self.past@, l0, driver.log(), seq![command(seq![0x8Du8, if enabled { 0x14u8 } else { 0x10u8 }])], res is Ok);
        }
        match res {
            Ok(()) => {
                self.config.charge_pump_enabled = enabled;
                Ok(())
            },
            Err(e) => Err(DriverError::Io(e)),
        }
    }

    /// Sets up and starts horizontal hardware scrolling (kept for panels that support it).
    pub fn hardware_scroll_horizontal(&mut self, dir: ScrollDirection, start_page: u8, end_page: u8, speed: u8) -> (r: Result<(), DriverError>)
        ensures
            final(self).sent_from(
                old(self),
                hardware_scroll_ops(dir, start_page, end_page, speed),
                old(self).config_view(),
                r,
            ),
    {
        let driver = match &mut self.driver {
            Some(d) => d,
            None => {
                return Err(DriverError::NotInitialized);
            },
        };
        let ghost l0 = driver.log();
        let res = driver.hardware_scroll_horizontal(dir, start_page, end_page, speed);
        proof {
            lemma_ran_after(self.past@, l0, driver.log(), hardware_scroll_ops(dir, start_page, end_page, speed), res is Ok);
        }
        match res {
            Ok(()) => {
                Ok(())
            },
            Err(e) => Err(DriverError::Io(e)),
        }
    }

    /// Stops hardware scrolling.
    pub fn deactivate_scroll(&mut self) -> (r: Result<(), DriverError>)
        ensures
            final(self).sent_from(
                old(self),
                seq![command(seq![0x2Eu8])],
                old(self).config_view(),
                r,
            ),
    {
        let driver = match &mut self.driver {
            Some(d) => d,
            None => {
                return Err(DriverError::NotInitialized);
            },
        };
        let ghost l0 = driver.log();
        let res = driver.deactivate_scroll();
        proof {
            lemma_ran_after(self.past@, l0, driver.log(), seq![command(seq![0x2Eu8])], res is Ok);
        }
        match res {
            Ok(()) => {
                Ok(())
            },
            Err(e) => Err(DriverError::Io(e)),
        }
    }

    /// Reads the SSD1309 status register (bit 7 = busy, bit 0 = charge pump on).
    ///
    /// For diagnosis: a failed read points at the bus; a read that keeps showing
    /// busy points at a panel that does not respond. See
    /// [`status_busy`](Self::status_busy) and [`status_booster`](Self::status_booster).
    pub fn read_status(&mut self) -> (r: Result<u8, DriverError>)
        ensures
            final(self).trace() == if old(self).has_driver() {
                old(self).trace().push(BusEvent { op: BusOp::StatusRead, ok: r is Ok })
            } else {
                old(self).trace()
            },
            final(self).has_driver() == old(self).has_driver(),
            final(self).fb() == old(self).fb(),
            final(self).stats_view() == old(self).stats_view(),
            final(self).same_state(old(self)),
            !old(self).has_driver() ==> r matches Err(DriverError::NotInitialized),
            old(self).has_driver() ==> (r is Err ==> r matches Err(DriverError::Io(_))),
    {
        let ghost t0 = self.trace();
        let driver = match &mut self.driver {
            Some(d) => d,
            None => {
                return Err(DriverError::NotInitialized);
            },
        };
        let res = driver.read_status();
        proof {
            assert(self.trace() =~= t0.push(BusEvent { op: BusOp::StatusRead, ok: res is Ok }));
        }
        match res {
            Ok(v) => Ok(v),
            Err(e) => Err(DriverError::Io(e)),
        }
    }

    /// The busy flag (bit 7) of a status byte.
    pub fn status_busy(status: u8) -> (r: bool)
        ensures
            r == (status & 0x80 != 0),
    {
        status & 0x80 != 0
    }

    /// The charge pump (DC-DC booster) flag (bit 0) of a status byte.
    pub fn status_booster(status: u8) -> (r: bool)
        ensures
            r == (status & 0x01 != 0),
    {
        status & 0x01 != 0
    }

    /// Pushes the framebuffer to the panel.
    ///
    /// When the controller is not initialised (after a failed recovery) this
    /// returns an error instead of panicking.
    pub fn render(&mut self) -> (r: Result<(), DriverError>)
        requires
            push_room(old(self).stats_view(), 1),
        ensures
            final(self).rendered_from(
                old(self),
                old(self).fb().bytes(),
                old(self).fb().dirty_view(),
                r,
            ),
            final(self).animation() == old(self).animation(),
    {
        let ghost pre_trace = self.trace();
        let result = match &mut self.driver {
            Some(driver) => {
                let ghost l0 = driver.log();
                let res = driver.push_frame(&self.framebuffer);
                proof {
                    lemma_ran_after(self.past@, l0, driver.log(), frame_ops(self.framebuffer.bytes()), res is Ok);
                }
                res
            },
            None => {
                return Err(DriverError::NotInitialized);
            },
        };
        match result {
            Ok(()) => {
                self.stats.frames_pushed = self.stats.frames_pushed + 1;
                self.framebuffer.clear_dirty();
                Ok(())
            },
            Err(e) => {
                self.stats.errors = self.stats.errors + 1;
                Err(DriverError::Io(e))
            },
        }
    }
}

} // verus!
