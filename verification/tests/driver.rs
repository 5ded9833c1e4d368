//! Controller and display tests against a recording mock bus.

use std::io;
use std::sync::atomic::{AtomicU8, AtomicUsize, Ordering};
use std::sync::{Arc, Mutex, MutexGuard};

use i2c_display_driver::display::{
    blend_scroll_frame, cooldown_running, Display, DriverEvent, DisplayBuilder, DisplayConfig, DisplayRotation, Framebuffer, I2cDevice,
    I2cDeviceFactory, PageBuffer, RenderStatus, ScrollDirection, Ssd1309, VerticalDirection, HEIGHT, WIDTH,
};
use i2c_display_driver::graphics::text;
use i2c_display_driver::DriverError;

/// One recorded bus write, with its control byte (0x00 command, 0x40 data).
#[derive(Debug, Clone, PartialEq, Eq)]
struct Write {
    control: u8,
    bytes: Vec<u8>,
}

type Log = Arc<Mutex<Vec<Write>>>;

/// What the next `MockBus::open` uses: its log and how many writes fail.
static FACTORY: Mutex<Option<(Log, Arc<AtomicUsize>)>> = Mutex::new(None);

/// Held by each test for its whole run, so that tests running in parallel do
/// not hand each other their factory settings.
static SERIAL: Mutex<()> = Mutex::new(());

fn serial() -> MutexGuard<'static, ()> {
    let guard = SERIAL.lock().unwrap_or_else(|e| e.into_inner());
    *FACTORY.lock().unwrap_or_else(|e| e.into_inner()) = None;
    guard
}

/// A recording I2C bus that can be told to fail writes.
struct MockBus {
    log: Log,
    failures: Arc<AtomicUsize>,
    status: Arc<AtomicU8>,
}

impl MockBus {
    fn new(log: Log, failures: Arc<AtomicUsize>, status: Arc<AtomicU8>) -> Self {
        Self { log, failures, status }
    }

    /// The log and failure count of the bus the next `open` creates.
    fn set_factory(log: Log, failures: usize) {
        *FACTORY.lock().unwrap() = Some((log, Arc::new(AtomicUsize::new(failures))));
    }

    fn write(&mut self, control: u8, bytes: &[u8]) -> io::Result<()> {
        let n = self.failures.load(Ordering::SeqCst);
        if n > 0 {
            self.failures.store(n - 1, Ordering::SeqCst);
            return Err(io::Error::other("mock: simulated I2C write failure"));
        }
        self.log.lock().unwrap().push(Write { control, bytes: bytes.to_vec() });
        Ok(())
    }
}

impl I2cDevice for MockBus {
    fn write_command(&mut self, bytes: &[u8]) -> io::Result<()> {
        self.write(0x00, bytes)
    }

    fn write_data(&mut self, bytes: &[u8]) -> io::Result<()> {
        self.write(0x40, bytes)
    }

    fn read(&mut self) -> io::Result<u8> {
        Ok(self.status.load(Ordering::SeqCst))
    }

    fn delay_ms(&mut self, _ms: u64) {}
}

impl I2cDeviceFactory for MockBus {
    fn open(_bus_id: u8, _addr: u8) -> io::Result<Self> {
        let (log, failures) = FACTORY
            .lock()
            .unwrap()
            .take()
            .unwrap_or_else(|| (Arc::new(Mutex::new(Vec::new())), Arc::new(AtomicUsize::new(0))));
        Ok(Self { log, failures, status: Arc::new(AtomicU8::new(0x01)) })
    }
}

fn cmd(bytes: Vec<u8>) -> Write {
    Write { control: 0x00, bytes }
}

/// A bus with its own log and no failures.
fn mock_bus() -> (Log, MockBus) {
    let log = Arc::new(Mutex::new(Vec::new()));
    let bus = MockBus::new(Arc::clone(&log), Arc::new(AtomicUsize::new(0)), Arc::new(AtomicU8::new(0x01)));
    (log, bus)
}

/// A bus whose log and failure count the test keeps.
fn new_bus() -> (Log, Arc<AtomicUsize>, MockBus) {
    let log = Arc::new(Mutex::new(Vec::new()));
    let failures = Arc::new(AtomicUsize::new(0));
    let bus = MockBus::new(Arc::clone(&log), Arc::clone(&failures), Arc::new(AtomicU8::new(0x01)));
    (log, failures, bus)
}

fn writes_after_init(log: &Log, init_count: usize) -> Vec<Write> {
    log.lock().unwrap()[init_count..].to_vec()
}

fn display() -> (Log, Arc<AtomicUsize>, Display<MockBus>) {
    let (log, failures, bus) = new_bus();
    let display = Display::<MockBus>::from_device(bus, DisplayConfig::new(1, 0x3C)).unwrap();
    (log, failures, display)
}

// ---------------------------------------------------------------------------
// The controller
// ---------------------------------------------------------------------------

#[test]
fn init_writes_full_sequence() {
    let _serial = serial();
    let (log, bus) = mock_bus();
    Ssd1309::init(bus, 0xCF, false, true).unwrap();
    let w = log.lock().unwrap();
    assert_eq!(w[0], cmd(vec![0xAE]));
    assert_eq!(w[1], cmd(vec![0xD5, 0x80]));
    assert_eq!(w[2], cmd(vec![0xA8, 0x3F]));
    assert_eq!(w[3], cmd(vec![0xD3, 0x00]));
    assert_eq!(w[4], cmd(vec![0x40]));
    assert_eq!(w[5], cmd(vec![0x8D, 0x14]));
    assert_eq!(w[6], cmd(vec![0xAD, 0x8A]));
    assert_eq!(w[7], cmd(vec![0x20, 0x02]));
    assert_eq!(w[8], cmd(vec![0xA1]));
    assert_eq!(w[9], cmd(vec![0xC8]));
    assert_eq!(w[10], cmd(vec![0xDA, 0x12]));
    assert_eq!(w[11], cmd(vec![0x81, 0xCF]));
    assert_eq!(w[12], cmd(vec![0xD9, 0xF1]));
    assert_eq!(w[13], cmd(vec![0xDB, 0x40]));
    assert_eq!(w[14], cmd(vec![0xA4]));
    assert_eq!(w[15], cmd(vec![0xA6]));
    assert_eq!(w[16], cmd(vec![0xAF]));
    assert_eq!(w.len(), 17);
}

#[test]
fn init_honors_custom_config() {
    let _serial = serial();
    let (log, bus) = mock_bus();
    Ssd1309::init(bus, 0x40, true, false).unwrap();
    let w = log.lock().unwrap();
    assert!(w.contains(&cmd(vec![0x81, 0x40])));
    assert!(w.contains(&cmd(vec![0xA7])));
    assert_ne!(w.last().unwrap(), &cmd(vec![0xAF]));
}

#[test]
fn push_frame_writes_8_pages() {
    let _serial = serial();
    let (log, bus) = mock_bus();
    let mut ssd = Ssd1309::init(bus, 0xCF, false, true).unwrap();
    let init_count = log.lock().unwrap().len();

    let mut fb = Framebuffer::new();
    fb.set_pixel(0, 0, true);
    fb.set_pixel(127, 63, true);
    ssd.push_frame(&fb).unwrap();

    let w = writes_after_init(&log, init_count);
    assert_eq!(w.len(), 24);
    for page in 0..8u8 {
        let p = page as usize * 3;
        assert_eq!(w[p], cmd(vec![0xB0 | page]));
        assert_eq!(w[p + 1], cmd(vec![0x00, 0x10]));
        assert_eq!(w[p + 2].control, 0x40);
        assert_eq!(w[p + 2].bytes.len(), WIDTH);
    }
    assert_eq!(w[2].bytes[0], 0x01);
    assert_eq!(w[7 * 3 + 2].bytes[127], 0x80);
}

#[test]
fn render_region_writes_only_covered_pages() {
    let _serial = serial();
    let (log, bus) = mock_bus();
    let mut ssd = Ssd1309::init(bus, 0xCF, false, true).unwrap();
    let init_count = log.lock().unwrap().len();

    let mut fb = Framebuffer::new();
    fb.set_pixel(15, 10, true);
    ssd.render_region(&fb, 10, 5, 20, 10).unwrap();

    let w = writes_after_init(&log, init_count);
    assert_eq!(w.len(), 6);
    assert_eq!(w[0], cmd(vec![0xB0]));
    assert_eq!(w[1], cmd(vec![0x0A, 0x10]));
    assert_eq!(w[2].control, 0x40);
    assert_eq!(w[2].bytes.len(), 20);
    assert_eq!(w[3], cmd(vec![0xB1]));
    assert_eq!(w[4], cmd(vec![0x0A, 0x10]));
    assert_eq!(w[5].control, 0x40);
    assert_eq!(w[5].bytes.len(), 20);
}

#[test]
fn render_region_clips_and_noops() {
    let _serial = serial();
    let (log, bus) = mock_bus();
    let mut ssd = Ssd1309::init(bus, 0xCF, false, true).unwrap();
    let init_count = log.lock().unwrap().len();

    let fb = Framebuffer::new();
    ssd.render_region(&fb, 200, 200, 10, 10).unwrap();
    ssd.render_region(&fb, 0, 0, 0, 10).unwrap();
    assert_eq!(log.lock().unwrap().len(), init_count);
}

#[test]
fn render_region_extreme_height_no_panic() {
    let _serial = serial();
    let (log, bus) = mock_bus();
    let mut ssd = Ssd1309::init(bus, 0xCF, false, true).unwrap();
    let init_count = log.lock().unwrap().len();
    let fb = Framebuffer::new();

    ssd.render_region(&fb, 0, 0, 10, usize::MAX).unwrap();
    ssd.render_region(&fb, 0, 60, 10, usize::MAX).unwrap();

    let w = writes_after_init(&log, init_count);
    assert_eq!(w.len(), (8 + 1) * 3, "8 pages then 1 page, 3 writes each");
    assert_eq!(w[2].bytes.len(), 10);
    assert_eq!(w[8 * 3].bytes[0], 0xB7, "the second region is page 7");
}

#[test]
fn read_status_returns_bus_value() {
    let _serial = serial();
    let (log, bus) = mock_bus();
    let mut ssd = Ssd1309::init(bus, 0xCF, false, true).unwrap();
    assert_eq!(ssd.read_status().unwrap(), 0x01);
    let _ = log;
}

#[test]
fn control_commands_write_expected_bytes() {
    let _serial = serial();
    let (log, bus) = mock_bus();
    let mut ssd = Ssd1309::init(bus, 0xCF, false, true).unwrap();
    let init_count = log.lock().unwrap().len();

    ssd.set_contrast(0x40).unwrap();
    ssd.set_inverted(true).unwrap();
    ssd.set_inverted(false).unwrap();
    ssd.set_entire_display_on(true).unwrap();
    ssd.set_entire_display_on(false).unwrap();
    ssd.sleep().unwrap();
    ssd.wake().unwrap();

    let w = writes_after_init(&log, init_count);
    assert_eq!(w[0], cmd(vec![0x81, 0x40]));
    assert_eq!(w[1], cmd(vec![0xA7]));
    assert_eq!(w[2], cmd(vec![0xA6]));
    assert_eq!(w[3], cmd(vec![0xA5]));
    assert_eq!(w[4], cmd(vec![0xA4]));
    assert_eq!(w[5], cmd(vec![0xAE]));
    assert_eq!(w[6], cmd(vec![0xAF]));
}

#[test]
fn init_with_config_rotation_180_writes_flip_commands() {
    let _serial = serial();
    let (log, bus) = mock_bus();
    let mut config = DisplayConfig::new(0, 0);
    config.rotation = DisplayRotation::Rotate180;
    Ssd1309::init_with_config(bus, &config).unwrap();
    let w = log.lock().unwrap();
    assert!(w.contains(&cmd(vec![0xA0])));
    assert!(w.contains(&cmd(vec![0xC0])));
    assert!(!w.contains(&cmd(vec![0xA1])));
}

#[test]
fn set_rotation_writes_expected_commands() {
    let _serial = serial();
    let (log, bus) = mock_bus();
    let mut ssd = Ssd1309::init(bus, 0xCF, false, true).unwrap();
    let init_count = log.lock().unwrap().len();

    ssd.set_rotation(DisplayRotation::Rotate180).unwrap();
    ssd.set_rotation(DisplayRotation::Rotate0).unwrap();

    let w = writes_after_init(&log, init_count);
    assert_eq!(w[0], cmd(vec![0xA0]));
    assert_eq!(w[1], cmd(vec![0xC0]));
    assert_eq!(w[2], cmd(vec![0xA1]));
    assert_eq!(w[3], cmd(vec![0xC8]));
}

#[test]
fn hardware_scroll_writes_expected_commands() {
    let _serial = serial();
    let (log, bus) = mock_bus();
    let mut ssd = Ssd1309::init(bus, 0xCF, false, true).unwrap();
    let init_count = log.lock().unwrap().len();

    ssd.hardware_scroll_horizontal(ScrollDirection::Right, 0, 7, 0x00).unwrap();
    ssd.deactivate_scroll().unwrap();

    let w = writes_after_init(&log, init_count);
    assert_eq!(w[0], cmd(vec![0x26, 0x00, 0x00, 0x00, 0x07, 0x00, 0xFF]));
    assert_eq!(w[1], cmd(vec![0x2F]));
    assert_eq!(w[2], cmd(vec![0x2E]));
}

#[test]
fn advanced_setters_write_expected_commands() {
    let _serial = serial();
    let (log, bus) = mock_bus();
    let mut ssd = Ssd1309::init(bus, 0xCF, false, true).unwrap();
    let init_count = log.lock().unwrap().len();

    ssd.set_display_offset(0x10).unwrap();
    ssd.set_start_line(0x20).unwrap();
    ssd.set_multiplex_ratio(0x2F).unwrap();
    ssd.set_clock(0x01, 0x07).unwrap();
    ssd.set_precharge_period(0x02, 0x0E).unwrap();
    ssd.set_vcomh_level(0x30).unwrap();
    ssd.set_com_pins_config(0x02).unwrap();
    ssd.set_charge_pump(false).unwrap();

    let w = writes_after_init(&log, init_count);
    assert_eq!(w[0], cmd(vec![0xD3, 0x10]));
    assert_eq!(w[1], cmd(vec![0x40 | 0x20]));
    assert_eq!(w[2], cmd(vec![0xA8, 0x2F]));
    assert_eq!(w[3], cmd(vec![0xD5, 0x71]));
    assert_eq!(w[4], cmd(vec![0xD9, 0xE2]));
    assert_eq!(w[5], cmd(vec![0xDB, 0x30]));
    assert_eq!(w[6], cmd(vec![0xDA, 0x02]));
    assert_eq!(w[7], cmd(vec![0x8D, 0x10]));
}

#[test]
fn init_stops_at_first_failed_write() {
    let _serial = serial();
    let log = Arc::new(Mutex::new(Vec::new()));
    let bus = MockBus::new(Arc::clone(&log), Arc::new(AtomicUsize::new(1)), Arc::new(AtomicU8::new(0x01)));
    assert!(Ssd1309::init(bus, 0xCF, false, true).is_err());
    assert!(log.lock().unwrap().is_empty());
}

#[test]
fn set_display_offset_masks_to_six_bits() {
    let _serial = serial();
    let (log, bus) = mock_bus();
    let mut ssd = Ssd1309::init(bus, 0xCF, false, true).unwrap();
    let init_count = log.lock().unwrap().len();
    ssd.set_display_offset(0xFF).unwrap();
    ssd.set_start_line(0xFF).unwrap();
    let w = writes_after_init(&log, init_count);
    assert_eq!(w[0], cmd(vec![0xD3, 0x3F]));
    assert_eq!(w[1], cmd(vec![0x7F]));
}

#[test]
fn hardware_scroll_left_masks_pages() {
    let _serial = serial();
    let (log, bus) = mock_bus();
    let mut ssd = Ssd1309::init(bus, 0xCF, false, true).unwrap();
    let init_count = log.lock().unwrap().len();
    ssd.hardware_scroll_horizontal(ScrollDirection::Left, 9, 15, 0x03).unwrap();
    let w = writes_after_init(&log, init_count);
    assert_eq!(w[0], cmd(vec![0x27, 0x00, 0x01, 0x03, 0x07, 0x00, 0xFF]));
    assert_eq!(w[1], cmd(vec![0x2F]));
}

// ---------------------------------------------------------------------------
// The display
// ---------------------------------------------------------------------------

#[test]
fn render_robust_ok_when_bus_healthy() {
    let _serial = serial();
    let (log, _failures, mut display) = display();
    display.framebuffer.set_pixel(1, 1, true);
    assert_eq!(display.render_robust(), RenderStatus::Pushed);
    let s = display.stats();
    assert_eq!(s.frames_pushed, 1);
    assert_eq!(s.errors, 0);
    assert_eq!(s.recoveries, 0);
    let _ = log;
}

#[test]
fn render_robust_recovers_after_bus_failure() {
    let _serial = serial();
    let (log, failures, mut display) = display();
    failures.store(usize::MAX, Ordering::SeqCst);
    display.framebuffer.set_pixel(1, 1, true);
    assert_eq!(display.render_robust(), RenderStatus::Recovered);
    let s = display.stats();
    assert_eq!(s.frames_pushed, 1);
    assert_eq!(s.recoveries, 1);
    assert_eq!(s.errors, 1);
    assert_eq!(s.frames_skipped, 0);
    let _ = log;
}

#[test]
fn render_robust_skips_when_recover_fails() {
    let _serial = serial();
    let (_log, failures, mut display) = display();
    failures.store(usize::MAX, Ordering::SeqCst);
    MockBus::set_factory(Arc::new(Mutex::new(Vec::new())), usize::MAX);
    display.framebuffer.set_pixel(1, 1, true);
    assert_eq!(display.render_robust(), RenderStatus::Skipped);
    let s = display.stats();
    assert_eq!(s.frames_pushed, 0);
    assert_eq!(s.recoveries, 0);
    assert_eq!(s.frames_skipped, 1);
    assert!(s.errors >= 1);
}

#[test]
fn recover_restores_contrast_and_inverted() {
    let _serial = serial();
    let (_log, failures, mut display) = display();
    display.set_contrast(0x40).unwrap();
    display.set_inverted(true).unwrap();
    let factory_log = Arc::new(Mutex::new(Vec::new()));
    MockBus::set_factory(Arc::clone(&factory_log), 0);
    failures.store(usize::MAX, Ordering::SeqCst);
    display.framebuffer.set_pixel(1, 1, true);
    assert_eq!(display.render_robust(), RenderStatus::Recovered);
    let w = factory_log.lock().unwrap();
    assert!(w.contains(&cmd(vec![0x81, 0x40])));
    assert!(w.contains(&cmd(vec![0xA7])));
}

#[test]
fn clear_and_fill_push_full_frame() {
    let _serial = serial();
    let (log, _failures, mut display) = display();
    let init_count = log.lock().unwrap().len();

    display.clear().unwrap();
    {
        let guard = log.lock().unwrap();
        let w = &guard[init_count..];
        assert_eq!(w.len(), 24);
        for page in 0..8u8 {
            let p = page as usize * 3;
            assert_eq!(w[p], cmd(vec![0xB0 | page]));
            assert_eq!(w[p + 2].control, 0x40);
            assert!(w[p + 2].bytes.iter().all(|&b| b == 0));
        }
    }

    let init_count2 = log.lock().unwrap().len();
    display.fill().unwrap();
    {
        let guard = log.lock().unwrap();
        let w2 = &guard[init_count2..];
        for page in 0..8u8 {
            assert!(w2[page as usize * 3 + 2].bytes.iter().all(|&b| b == 0xFF));
        }
    }
    assert_eq!(display.stats().frames_pushed, 2);
}

#[test]
fn render_dirty_pushes_only_changed_region() {
    let _serial = serial();
    let (log, _failures, mut display) = display();
    let init_count = log.lock().unwrap().len();

    display.render_dirty().unwrap();
    assert_eq!(log.lock().unwrap().len(), init_count);

    display.framebuffer.set_pixel(5, 5, true);
    display.render_dirty().unwrap();
    {
        let guard = log.lock().unwrap();
        let w = &guard[init_count..];
        assert_eq!(w.len(), 3);
        assert_eq!(w[0], cmd(vec![0xB0]));
        assert_eq!(w[1], cmd(vec![0x05, 0x10]));
        assert_eq!(w[2].control, 0x40);
        assert_eq!(w[2].bytes, vec![0x20]);
    }

    display.render_dirty().unwrap();
    assert_eq!(log.lock().unwrap().len(), init_count + 3);
}

#[test]
fn two_line_render_dirty_matches_feature_check() {
    let _serial = serial();
    let (log, _failures, mut display) = display();
    let init_count = log.lock().unwrap().len();

    text::draw_text(&mut display.framebuffer, 0, 0, "PARTIAL UPDATE");
    display.render_dirty().unwrap();
    {
        let guard = log.lock().unwrap();
        let w = &guard[init_count..];
        assert_eq!(w.len(), 3, "the first line pushes 1 page (3 writes)");
        assert_eq!(w[0], cmd(vec![0xB0]));
        assert_eq!(w[1], cmd(vec![0x00, 0x10]));
        assert_eq!(w[2].control, 0x40);
        assert_eq!(w[2].bytes.len(), 83);
        assert_eq!(w[2].bytes[0], 0x7F, "the first column of 'P' is 0x7F");
        assert_eq!(display.framebuffer.dirty_rect(), None);
    }

    text::draw_text(&mut display.framebuffer, 0, 12, "dirty rect OK");
    let before2 = log.lock().unwrap().len();
    display.render_dirty().unwrap();
    {
        let guard = log.lock().unwrap();
        let w = &guard[before2..];
        assert_eq!(w.len(), 6, "the second line pushes 2 pages (6 writes)");
        assert_eq!(w[0], cmd(vec![0xB1]));
        assert_eq!(w[1], cmd(vec![0x00, 0x10]));
        assert_eq!(w[2].bytes.len(), 77);
        assert_eq!(w[3], cmd(vec![0xB2]));
        assert_eq!(w[5].bytes.len(), 77);
        assert_eq!(display.framebuffer.dirty_rect(), None);
    }
}

#[test]
fn software_scroll_shifts_and_wraps() {
    let _serial = serial();
    let (_log, _failures, mut display) = display();

    display.framebuffer.set_pixel(5, 5, true);
    display.software_scroll_horizontal(ScrollDirection::Right, 1).unwrap();
    assert!(display.framebuffer.get_pixel(6, 5));
    assert!(!display.framebuffer.get_pixel(5, 5));

    display.framebuffer.clear();
    display.framebuffer.set_pixel(WIDTH - 1, 5, true);
    display.software_scroll_horizontal(ScrollDirection::Right, 1).unwrap();
    assert!(display.framebuffer.get_pixel(0, 5));

    display.framebuffer.clear();
    display.framebuffer.set_pixel(0, 5, true);
    display.software_scroll_horizontal(ScrollDirection::Right, 9).unwrap();
    assert!(display.framebuffer.get_pixel(9, 5));

    display.framebuffer.clear();
    display.framebuffer.set_pixel(10, 10, true);
    display.software_scroll_horizontal(ScrollDirection::Right, WIDTH).unwrap();
    assert!(display.framebuffer.get_pixel(10, 10));

    display.framebuffer.clear();
    display.framebuffer.set_pixel(100, 20, true);
    display.software_scroll_horizontal(ScrollDirection::Left, 7).unwrap();
    assert!(display.framebuffer.get_pixel(93, 20));
    assert!(!display.framebuffer.get_pixel(100, 20));
}

#[test]
fn scroll_to_page_animates_and_ends_on_new_page() {
    let _serial = serial();
    let (_log, _failures, mut display) = display();

    display.framebuffer.set_pixel(5, 5, true);
    let mut target = Framebuffer::new();
    target.set_pixel(100, 30, true);

    display.scroll_to_page(&target, 32, 0).unwrap();
    assert!(display.framebuffer.get_pixel(100, 30));
    assert!(!display.framebuffer.get_pixel(5, 5));

    display.scroll_to_page(&target, 16, 0).unwrap();
    assert!(display.framebuffer.get_pixel(100, 30));
}

#[test]
fn blend_frame_midway_splits_src_and_new() {
    let _serial = serial();
    let src = [0u8; WIDTH * HEIGHT / 8];
    let new = [0xFFu8; WIDTH * HEIGHT / 8];
    let mut dst = [0u8; WIDTH * HEIGHT / 8];

    blend_scroll_frame(&mut dst, &src, &new, WIDTH / 2);
    for page_idx in 0..(HEIGHT / 8) {
        for col in 0..WIDTH / 2 {
            assert_eq!(dst[page_idx * WIDTH + col], 0x00, "the left half is the old content");
        }
        for col in WIDTH / 2..WIDTH {
            assert_eq!(dst[page_idx * WIDTH + col], 0xFF, "the right half is the new page");
        }
    }

    blend_scroll_frame(&mut dst, &src, &new, 0);
    assert!(dst.iter().all(|&b| b == 0x00));

    blend_scroll_frame(&mut dst, &src, &new, WIDTH);
    assert!(dst.iter().all(|&b| b == 0xFF));
}

#[test]
fn scroll_to_page_frame_drives_animation_stepwise() {
    let _serial = serial();
    let (_log, _failures, mut display) = display();

    display.framebuffer.set_pixel(5, 5, true);
    let mut target = Framebuffer::new();
    target.set_pixel(100, 30, true);

    display.scroll_to_page_frame(&target, 4, 0).unwrap();
    assert!(display.framebuffer.get_pixel(5, 5));
    assert!(!display.framebuffer.get_pixel(100, 30));

    display.scroll_to_page_frame(&target, 4, 1).unwrap();
    assert!(!display.framebuffer.get_pixel(5, 5), "the old pixel (5,5) has left");
    assert!(!display.framebuffer.get_pixel(100, 30), "the new pixel (100,30) has not entered yet");

    display.scroll_to_page_frame(&target, 4, 4).unwrap();
    assert!(display.framebuffer.get_pixel(100, 30));
    assert!(!display.framebuffer.get_pixel(5, 5));

    display.scroll_to_page_frame(&target, 4, 0).unwrap();
    assert!(display.framebuffer.get_pixel(100, 30), "a new animation starts from the current content");
}

#[test]
fn show_page_pushes_page_content() {
    let _serial = serial();
    let (log, _failures, mut display) = display();

    let mut pages = PageBuffer::<2>::new();
    pages.page().set_pixel(10, 10, true);
    display.show_page(pages.page_at(0).unwrap()).unwrap();
    assert!(display.framebuffer.get_pixel(10, 10));

    pages.next_page();
    pages.page().set_pixel(20, 20, true);
    display.show_page(pages.page_at(1).unwrap()).unwrap();
    assert!(display.framebuffer.get_pixel(20, 20));
    assert!(!display.framebuffer.get_pixel(10, 10));

    display.show_page(pages.page_at(0).unwrap()).unwrap();
    assert!(display.framebuffer.get_pixel(10, 10));
    assert!(!display.framebuffer.get_pixel(20, 20));
    let _ = log;
}

#[test]
fn software_scroll_vertical_shifts_and_wraps() {
    let _serial = serial();
    let (_log, _failures, mut display) = display();

    display.framebuffer.set_pixel(5, 5, true);
    display.software_scroll_vertical(VerticalDirection::Up, 1).unwrap();
    assert!(display.framebuffer.get_pixel(5, 4));
    assert!(!display.framebuffer.get_pixel(5, 5));

    display.framebuffer.clear();
    display.framebuffer.set_pixel(5, 0, true);
    display.software_scroll_vertical(VerticalDirection::Up, 1).unwrap();
    assert!(display.framebuffer.get_pixel(5, HEIGHT - 1));

    display.framebuffer.clear();
    display.framebuffer.set_pixel(5, 8, true);
    display.software_scroll_vertical(VerticalDirection::Up, 1).unwrap();
    assert!(display.framebuffer.get_pixel(5, 7));
    assert!(!display.framebuffer.get_pixel(5, 8));

    display.framebuffer.clear();
    display.framebuffer.set_pixel(5, 5, true);
    display.software_scroll_vertical(VerticalDirection::Down, 1).unwrap();
    assert!(display.framebuffer.get_pixel(5, 6));

    display.framebuffer.clear();
    display.framebuffer.set_pixel(5, 10, true);
    display.software_scroll_vertical(VerticalDirection::Up, HEIGHT).unwrap();
    assert!(display.framebuffer.get_pixel(5, 10));

    display.framebuffer.clear();
    display.framebuffer.set_pixel(5, 10, true);
    display.software_scroll_vertical(VerticalDirection::Up, 3).unwrap();
    assert!(display.framebuffer.get_pixel(5, 7));
}

#[test]
fn render_region_keeps_uncovered_dirty_area() {
    let _serial = serial();
    let (log, _failures, mut display) = display();

    display.framebuffer.set_pixel(5, 5, true);
    display.framebuffer.set_pixel(100, 60, true);
    assert_eq!(display.framebuffer.dirty_rect(), Some((5, 5, 96, 56)));

    display.render_region(0, 0, 20, 20).unwrap();
    assert_eq!(display.framebuffer.dirty_rect(), Some((5, 5, 96, 56)));

    display.render_region(0, 0, 128, 64).unwrap();
    assert_eq!(display.framebuffer.dirty_rect(), None);
    let _ = log;
}

#[test]
fn read_status_returns_bus_status() {
    let _serial = serial();
    let log = Arc::new(Mutex::new(Vec::new()));
    let status = Arc::new(AtomicU8::new(0x81));
    let bus = MockBus::new(Arc::clone(&log), Arc::new(AtomicUsize::new(0)), Arc::clone(&status));
    let mut display = Display::<MockBus>::from_device(bus, DisplayConfig::new(1, 0x3C)).unwrap();

    assert_eq!(display.read_status().unwrap(), 0x81);
    assert!(Display::<MockBus>::status_busy(0x81));
    assert!(Display::<MockBus>::status_booster(0x81));
    assert!(!Display::<MockBus>::status_busy(0x01));
    assert!(!Display::<MockBus>::status_booster(0x80));

    status.store(0x00, Ordering::SeqCst);
    assert_eq!(display.read_status().unwrap(), 0x00);
    assert!(!Display::<MockBus>::status_busy(0x00));
    let _ = log;
}

#[test]
fn render_robust_respects_recover_cooldown() {
    let _serial = serial();
    let (log, failures, mut display) = display();

    failures.store(usize::MAX, Ordering::SeqCst);
    MockBus::set_factory(Arc::new(Mutex::new(Vec::new())), usize::MAX);
    display.framebuffer.set_pixel(1, 1, true);
    assert_eq!(display.render_robust(), RenderStatus::Skipped);
    assert_eq!(display.stats().recoveries, 0);

    let _ = display.render_robust();
    assert_eq!(display.stats().recoveries, 0, "no recovery during the cool-down");
    assert_eq!(display.stats().frames_skipped, 2);
    let _ = log;
}

#[test]
fn recover_success_clears_cooldown() {
    let _serial = serial();
    let (log, failures, mut display) = display();

    failures.store(usize::MAX, Ordering::SeqCst);
    MockBus::set_factory(Arc::new(Mutex::new(Vec::new())), usize::MAX);
    display.framebuffer.set_pixel(1, 1, true);
    assert_eq!(display.render_robust(), RenderStatus::Skipped);

    MockBus::set_factory(Arc::new(Mutex::new(Vec::new())), 0);
    display.recover().unwrap();
    assert!(!display.recover_in_cooldown(), "a successful recovery ends the cool-down");
    let _ = log;
}

// ---------------------------------------------------------------------------
// More behaviour of the display
// ---------------------------------------------------------------------------

#[test]
fn render_after_failed_recovery_reports_not_initialized() {
    let _serial = serial();
    let (_log, failures, mut display) = display();
    failures.store(usize::MAX, Ordering::SeqCst);
    MockBus::set_factory(Arc::new(Mutex::new(Vec::new())), usize::MAX);
    assert!(display.recover().is_err());
    assert!(display.recover_in_cooldown());
    assert!(matches!(display.render(), Err(DriverError::NotInitialized)));
    assert!(matches!(display.set_contrast(1), Err(DriverError::NotInitialized)));
}

#[test]
fn render_error_counts_and_keeps_dirty() {
    let _serial = serial();
    let (_log, failures, mut display) = display();
    display.framebuffer.set_pixel(3, 3, true);
    failures.store(1, Ordering::SeqCst);
    assert!(matches!(display.render(), Err(DriverError::Io(_))));
    assert_eq!(display.stats().errors, 1);
    assert_eq!(display.stats().frames_pushed, 0);
    assert_eq!(display.framebuffer.dirty_rect(), Some((3, 3, 1, 1)));
}

#[test]
fn recover_replays_all_settings() {
    let _serial = serial();
    let (_log, _failures, mut display) = display();
    display.set_display_offset(0x10).unwrap();
    display.set_multiplex_ratio(0x2F).unwrap();
    display.set_vcomh_level(0x30).unwrap();
    display.set_rotation(DisplayRotation::Rotate180).unwrap();
    display.set_charge_pump(false).unwrap();
    let factory_log = Arc::new(Mutex::new(Vec::new()));
    MockBus::set_factory(Arc::clone(&factory_log), 0);
    display.recover().unwrap();
    let w = factory_log.lock().unwrap();
    assert!(w.contains(&cmd(vec![0xD3, 0x10])));
    assert!(w.contains(&cmd(vec![0xA8, 0x2F])));
    assert!(w.contains(&cmd(vec![0xDB, 0x30])));
    assert!(w.contains(&cmd(vec![0xA0])));
    assert!(w.contains(&cmd(vec![0xC0])));
    assert!(w.contains(&cmd(vec![0x8D, 0x10])));
    assert_eq!(w.last().unwrap(), &cmd(vec![0xAF]));
}

#[test]
fn builder_sets_initial_configuration() {
    let _serial = serial();
    let factory_log = Arc::new(Mutex::new(Vec::new()));
    MockBus::set_factory(Arc::clone(&factory_log), 0);
    let display = DisplayBuilder::new(1, 0x3C)
        .with_contrast(0x10)
        .with_inverted(true)
        .with_display_on(false)
        .with_rotation(DisplayRotation::Rotate180)
        .build::<MockBus>()
        .unwrap();
    let w = factory_log.lock().unwrap();
    assert!(w.contains(&cmd(vec![0x81, 0x10])));
    assert!(w.contains(&cmd(vec![0xA7])));
    assert!(w.contains(&cmd(vec![0xA0])));
    assert!(!w.contains(&cmd(vec![0xAF])));
    assert_eq!(display.stats().frames_pushed, 0);
}

#[test]
fn open_uses_default_configuration() {
    let _serial = serial();
    let factory_log = Arc::new(Mutex::new(Vec::new()));
    MockBus::set_factory(Arc::clone(&factory_log), 0);
    let _display = Display::<MockBus>::open(1, 0x3C).unwrap();
    let w = factory_log.lock().unwrap();
    assert_eq!(w.len(), 17);
    assert_eq!(w[11], cmd(vec![0x81, 0xCF]));
}

#[test]
fn scroll_to_page_pushes_every_frame() {
    let _serial = serial();
    let (log, _failures, mut display) = display();
    let init_count = log.lock().unwrap().len();
    let target = Framebuffer::new();
    display.scroll_to_page(&target, 4, 0).unwrap();
    assert_eq!(log.lock().unwrap().len() - init_count, 5 * 24);
    assert_eq!(display.stats().frames_pushed, 5);
    display.scroll_to_page(&target, 0, 0).unwrap();
    assert_eq!(display.stats().frames_pushed, 7);
}

/// Replays recorded writes on a model of the controller's display RAM in page
/// addressing mode.
fn replay(ram: &mut [u8; 1024], writes: &[Write]) {
    let mut page = 0usize;
    let mut col = 0usize;
    for w in writes {
        if w.control == 0x40 {
            for &b in &w.bytes {
                ram[page * 128 + col] = b;
                col = (col + 1) % 128;
            }
        } else if w.bytes.len() == 1 && (0xB0..=0xB7).contains(&w.bytes[0]) {
            page = (w.bytes[0] - 0xB0) as usize;
        } else if w.bytes.len() == 2 && w.bytes[0] <= 0x0F && (0x10..=0x17).contains(&w.bytes[1]) {
            col = ((w.bytes[1] - 0x10) as usize) * 16 + w.bytes[0] as usize;
        }
    }
}

#[test]
fn dirty_pushes_keep_the_screen_in_step() {
    let _serial = serial();
    let (log, _failures, mut display) = display();
    let mut ram = [0x55u8; 1024];
    text::draw_text(&mut display.framebuffer, 3, 3, "HELLO");
    display.render().unwrap();
    replay(&mut ram, &log.lock().unwrap());
    assert_eq!(ram, display.framebuffer.buffer);

    let before = log.lock().unwrap().len();
    display.framebuffer.set_pixel(100, 50, true);
    display.framebuffer.set_pixel(3, 3, false);
    display.framebuffer.set_pixel(60, 30, true);
    display.render_dirty().unwrap();
    replay(&mut ram, &log.lock().unwrap()[before..]);
    assert_eq!(ram, display.framebuffer.buffer);
}

#[test]
fn horizontal_scroll_round_trip() {
    let _serial = serial();
    let (_log, _failures, mut display) = display();
    text::draw_text(&mut display.framebuffer, 0, 0, "SCROLL");
    let start = display.framebuffer.buffer;
    display.software_scroll_horizontal(ScrollDirection::Left, 37).unwrap();
    assert_ne!(display.framebuffer.buffer, start);
    display.software_scroll_horizontal(ScrollDirection::Right, 37).unwrap();
    assert_eq!(display.framebuffer.buffer, start);
}

#[test]
fn vertical_scroll_round_trip() {
    let _serial = serial();
    let (_log, _failures, mut display) = display();
    text::draw_text(&mut display.framebuffer, 0, 20, "SCROLL");
    let start = display.framebuffer.buffer;
    display.software_scroll_vertical(VerticalDirection::Down, 45).unwrap();
    assert_ne!(display.framebuffer.buffer, start);
    display.software_scroll_vertical(VerticalDirection::Up, 45).unwrap();
    assert_eq!(display.framebuffer.buffer, start);
}

#[test]
fn cooldown_is_two_whole_seconds() {
    let _serial = serial();
    assert!(cooldown_running(0));
    assert!(cooldown_running(1));
    assert!(!cooldown_running(2));
}

#[test]
fn render_robust_reports_events() {
    let _serial = serial();
    let (_log, failures, mut display) = display();
    failures.store(usize::MAX, Ordering::SeqCst);
    display.framebuffer.set_pixel(1, 1, true);
    assert_eq!(display.render_robust(), RenderStatus::Recovered);
    let events = display.take_events();
    assert_eq!(events.len(), 3);
    assert!(matches!(events[0], DriverEvent::PushFailed(DriverError::Io(_))));
    assert!(matches!(events[1], DriverEvent::ResetStarted));
    assert!(matches!(events[2], DriverEvent::ResetSucceeded));
    assert!(display.take_events().is_empty());
}

#[test]
fn failed_reset_and_cooldown_events() {
    let _serial = serial();
    let (_log, failures, mut display) = display();
    failures.store(usize::MAX, Ordering::SeqCst);
    MockBus::set_factory(Arc::new(Mutex::new(Vec::new())), usize::MAX);
    assert_eq!(display.render_robust(), RenderStatus::Skipped);
    let events = display.take_events();
    assert_eq!(events.len(), 3);
    assert!(matches!(events[2], DriverEvent::ResetFailed(DriverError::Io(_))));
    assert_eq!(display.render_robust(), RenderStatus::Skipped);
    let events = display.take_events();
    assert_eq!(events.len(), 1);
    assert!(matches!(events[0], DriverEvent::PushFailed(DriverError::NotInitialized)));
}

#[test]
fn retry_after_failure_follows_the_cooldown() {
    let _serial = serial();
    let (_log, failures, mut display) = display();
    failures.store(usize::MAX, Ordering::SeqCst);
    MockBus::set_factory(Arc::new(Mutex::new(Vec::new())), usize::MAX);
    assert_eq!(display.render_robust(), RenderStatus::Skipped);
    // One second after the failed reset: still cooling down, no reset.
    assert_eq!(display.retry_after_failure(1), RenderStatus::Skipped);
    assert_eq!(display.stats().recoveries, 0);
    // Two seconds after: the reset is tried again, and now succeeds.
    MockBus::set_factory(Arc::new(Mutex::new(Vec::new())), 0);
    assert_eq!(display.retry_after_failure(2), RenderStatus::Recovered);
    assert_eq!(display.stats().recoveries, 1);
}

#[test]
fn retry_without_failed_reset_recovers_at_once() {
    let _serial = serial();
    let (_log, _failures, mut display) = display();
    assert_eq!(display.retry_after_failure(0), RenderStatus::Recovered);
    assert_eq!(display.stats().recoveries, 1);
    assert_eq!(display.stats().frames_pushed, 1);
}

#[test]
fn framebuffer_mut_draws_into_the_pushed_frame() {
    let _serial = serial();
    let (_log, _failures, mut display) = display();
    display.framebuffer_mut().clear_dirty();
    display.framebuffer_mut().set_pixel(3, 4, true);
    assert!(display.framebuffer.get_pixel(3, 4));
    assert_eq!(display.framebuffer.dirty_rect(), Some((3, 4, 1, 1)));
}
