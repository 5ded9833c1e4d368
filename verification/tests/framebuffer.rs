//! Framebuffer, bitmap and page-buffer tests.

use std::convert::Infallible;

use embedded_graphics::draw_target::DrawTarget;
use embedded_graphics::geometry::{OriginDimensions, Point, Size};
use embedded_graphics::pixelcolor::BinaryColor;
use embedded_graphics::primitives::{Primitive, PrimitiveStyle, Rectangle};
use embedded_graphics::{Drawable, Pixel};

use i2c_display_driver::display::{BlitError, BlitMode, Framebuffer, PageBuffer, HEIGHT, WIDTH};

/// Lets embedded-graphics draw into a framebuffer.
struct Target<'a>(&'a mut Framebuffer);

impl OriginDimensions for Target<'_> {
    fn size(&self) -> Size {
        let (w, h) = self.0.size();
        Size::new(w, h)
    }
}

impl DrawTarget for Target<'_> {
    type Color = BinaryColor;
    type Error = Infallible;

    fn draw_iter<I>(&mut self, pixels: I) -> Result<(), Self::Error>
    where
        I: IntoIterator<Item = Pixel<Self::Color>>,
    {
        let pixels: Vec<(i32, i32, bool)> =
            pixels.into_iter().map(|Pixel(p, c)| (p.x, p.y, c == BinaryColor::On)).collect();
        self.0.draw_pixels(&pixels);
        Ok(())
    }
}

#[test]
fn new_buffer_is_black() {
    let fb = Framebuffer::new();
    assert_eq!(fb.buffer, [0u8; WIDTH * HEIGHT / 8]);
}

#[test]
fn set_and_get_pixel() {
    let mut fb = Framebuffer::new();
    fb.set_pixel(0, 0, true);
    assert!(fb.get_pixel(0, 0));
    assert!(!fb.get_pixel(1, 0));
}

#[test]
fn out_of_bounds_ignored() {
    let mut fb = Framebuffer::new();
    fb.set_pixel(200, 200, true);
    assert!(fb.buffer.iter().all(|&b| b == 0));
}

#[test]
fn clear_resets_all() {
    let mut fb = Framebuffer::new();
    fb.fill_all();
    fb.clear();
    assert_eq!(fb.buffer, [0u8; WIDTH * HEIGHT / 8]);
}

#[test]
fn draw_target_writes_pixels() {
    let mut fb = Framebuffer::new();
    Rectangle::new(Point::new(0, 0), Size::new(10, 10))
        .into_styled(PrimitiveStyle::with_fill(BinaryColor::On))
        .draw(&mut Target(&mut fb))
        .unwrap();
    assert!(fb.get_pixel(0, 0));
    assert!(fb.get_pixel(9, 9));
    assert!(!fb.get_pixel(10, 0));
}

#[test]
fn draw_target_clips_negative_coords() {
    let mut fb = Framebuffer::new();
    Rectangle::new(Point::new(-5, -5), Size::new(10, 10))
        .into_styled(PrimitiveStyle::with_fill(BinaryColor::On))
        .draw(&mut Target(&mut fb))
        .unwrap();
    assert!(fb.get_pixel(0, 0));
    assert!(fb.get_pixel(4, 4));
}

#[test]
fn dirty_tracks_writes() {
    let mut fb = Framebuffer::new();
    assert_eq!(fb.dirty_rect(), None);
    fb.set_pixel(5, 5, true);
    assert_eq!(fb.dirty_rect(), Some((5, 5, 1, 1)));
    fb.set_pixel(20, 30, true);
    assert_eq!(fb.dirty_rect(), Some((5, 5, 16, 26)));
    fb.clear_dirty();
    assert_eq!(fb.dirty_rect(), None);
}

#[test]
fn dirty_full_on_clear() {
    let mut fb = Framebuffer::new();
    fb.clear();
    assert_eq!(fb.dirty_rect(), Some((0, 0, WIDTH, HEIGHT)));
}

#[test]
fn blit_draws_bitmap_and_tracks_dirty() {
    let mut fb = Framebuffer::new();
    let data = [0b1100_0000, 0b1000_0000];
    fb.blit(10, 10, 2, 2, &data, BlitMode::Overwrite).unwrap();

    assert!(fb.get_pixel(10, 10));
    assert!(fb.get_pixel(11, 10));
    assert!(fb.get_pixel(10, 11));
    assert!(!fb.get_pixel(11, 11), "a 0 bit clears the target in Overwrite mode");
    assert_eq!(fb.dirty_rect(), Some((10, 10, 2, 2)));
}

#[test]
fn blit_set_mode_preserves_zero_bits() {
    let mut fb = Framebuffer::new();
    fb.set_pixel(11, 11, true);
    let data = [0b1100_0000, 0b1000_0000];
    fb.blit(10, 10, 2, 2, &data, BlitMode::SetOnly).unwrap();

    assert!(fb.get_pixel(10, 10));
    assert!(fb.get_pixel(11, 10));
    assert!(fb.get_pixel(10, 11));
    assert!(fb.get_pixel(11, 11), "SetOnly mode keeps a lit pixel under a 0 bit");
}

#[test]
fn blit_clips_to_screen() {
    let mut fb = Framebuffer::new();
    let data = [0b1111_0000];
    fb.blit(124, 0, 8, 1, &data, BlitMode::Overwrite).unwrap();
    assert!(fb.get_pixel(124, 0));
    assert!(fb.get_pixel(127, 0));
    assert!(!fb.get_pixel(123, 0));
    let mut fb2 = Framebuffer::new();
    fb2.blit(200, 200, 8, 8, &data, BlitMode::Overwrite).unwrap();
    assert_eq!(fb2.dirty_rect(), None);
    fb2.blit(0, 0, 0, 8, &data, BlitMode::Overwrite).unwrap();
    assert_eq!(fb2.dirty_rect(), None);
}

#[test]
fn blit_multi_byte_row() {
    let mut fb = Framebuffer::new();
    let data = [0b1111_0000, 0b1100_0000];
    fb.blit(0, 0, 10, 1, &data, BlitMode::Overwrite).unwrap();
    for x in [0, 1, 2, 3, 8, 9] {
        assert!(fb.get_pixel(x, 0), "column {} is lit", x);
    }
    for x in [4, 5, 6, 7] {
        assert!(!fb.get_pixel(x, 0), "column {} is off", x);
    }
    assert!(!fb.get_pixel(10, 0));
}

#[test]
fn blit_rejects_insufficient_data() {
    let mut fb = Framebuffer::new();
    let data = [0b1111_0000];
    let err = fb.blit(0, 0, 10, 1, &data, BlitMode::Overwrite).unwrap_err();
    assert!(matches!(err, BlitError::InsufficientData { required: 2, actual: 1 }));
    assert!(fb.buffer.iter().all(|&b| b == 0));
}

#[test]
fn page_buffer_isolates_pages() {
    let mut pages = PageBuffer::<3>::new();
    assert_eq!(pages.len(), 3);
    assert_eq!(pages.current(), 0);

    pages.page().set_pixel(5, 5, true);
    assert!(pages.page_at(0).unwrap().get_pixel(5, 5));
    assert!(!pages.page_at(1).unwrap().get_pixel(5, 5));
    assert!(!pages.page_at(2).unwrap().get_pixel(5, 5));
}

#[test]
fn page_buffer_draws_each_page_independently() {
    let mut pages = PageBuffer::<3>::new();
    pages.page_at_mut(0).unwrap().set_pixel(0, 0, true);
    pages.page_at_mut(1).unwrap().set_pixel(10, 10, true);
    pages.page_at_mut(2).unwrap().set_pixel(20, 20, true);

    assert!(pages.page_at(0).unwrap().get_pixel(0, 0));
    assert!(!pages.page_at(0).unwrap().get_pixel(10, 10));
    assert!(pages.page_at(1).unwrap().get_pixel(10, 10));
    assert!(!pages.page_at(1).unwrap().get_pixel(20, 20));
    assert!(pages.page_at(2).unwrap().get_pixel(20, 20));
    assert!(!pages.page_at(2).unwrap().get_pixel(0, 0));

    assert!(pages.page_at_mut(3).is_none());
}

#[test]
fn page_buffer_wraps_around() {
    let mut pages = PageBuffer::<3>::new();
    assert_eq!(pages.next_page(), 1);
    assert_eq!(pages.next_page(), 2);
    assert_eq!(pages.next_page(), 0);
    assert_eq!(pages.prev_page(), 2);
    assert_eq!(pages.prev_page(), 1);
    assert_eq!(pages.prev_page(), 0);
}

#[test]
fn page_buffer_zero_pages_no_panic() {
    let mut pages = PageBuffer::<0>::new();
    assert!(pages.is_empty());
    assert_eq!(pages.len(), 0);
    assert_eq!(pages.next_page(), 0);
    assert_eq!(pages.prev_page(), 0);
    assert!(!pages.show(0));
    assert!(pages.page_at(0).is_none());
    assert!(pages.page_at_mut(0).is_none());
}

#[test]
fn page_buffer_show_validates_index() {
    let mut pages = PageBuffer::<3>::new();
    assert!(pages.show(2));
    assert_eq!(pages.current(), 2);
    assert!(!pages.show(3));
    assert_eq!(pages.current(), 2);
    assert!(pages.page_at(3).is_none());
}

// ---------------------------------------------------------------------------
// More behaviour
// ---------------------------------------------------------------------------

#[test]
fn pixel_layout_matches_gddram() {
    let mut fb = Framebuffer::new();
    fb.set_pixel(3, 10, true);
    assert_eq!(fb.as_bytes()[128 + 3], 0b0000_0100);
    fb.set_pixel(127, 63, true);
    assert_eq!(fb.as_bytes()[7 * 128 + 127], 0x80);
    fb.set_pixel(3, 10, false);
    assert_eq!(fb.as_bytes()[128 + 3], 0);
}

#[test]
fn fill_all_lights_everything() {
    let mut fb = Framebuffer::new();
    fb.fill_all();
    assert!(fb.buffer.iter().all(|&b| b == 0xFF));
    assert_eq!(fb.dirty_rect(), Some((0, 0, WIDTH, HEIGHT)));
}

#[test]
fn write_then_read_changes_only_that_pixel() {
    let mut fb = Framebuffer::new();
    fb.fill_all();
    fb.set_pixel(40, 20, false);
    assert!(!fb.get_pixel(40, 20));
    assert!(fb.get_pixel(40, 19));
    assert!(fb.get_pixel(40, 21));
    assert!(fb.get_pixel(39, 20));
}

#[test]
fn draw_pixels_writes_each_colour_and_skips_offscreen() {
    let mut fb = Framebuffer::new();
    fb.draw_pixels(&[(1, 1, true), (-1, 0, true), (2, 2, true), (2, 2, false), (500, 3, true)]);
    assert!(fb.get_pixel(1, 1));
    assert!(!fb.get_pixel(2, 2));
    assert_eq!(fb.dirty_rect(), Some((1, 1, 2, 2)));
}

#[test]
fn size_is_screen_size() {
    let fb = Framebuffer::new();
    assert_eq!(fb.size(), (128, 64));
}

#[test]
fn defaults_are_blank() {
    let fb = Framebuffer::default();
    assert_eq!(fb.dirty_rect(), None);
    assert!(fb.buffer.iter().all(|&b| b == 0));
    let pages = PageBuffer::<2>::default();
    assert_eq!(pages.current(), 0);
    assert_eq!(pages.len(), 2);
}

#[test]
fn blit_reports_dimension_overflow() {
    let mut fb = Framebuffer::new();
    let data = [0u8; 4];
    assert_eq!(fb.blit(0, 0, 16, usize::MAX, &data, BlitMode::Overwrite), Err(BlitError::DimensionOverflow));
    assert_eq!(fb.dirty_rect(), None);
}

#[test]
fn page_turns_round_trip() {
    let mut pages = PageBuffer::<4>::new();
    pages.show(2);
    pages.next_page();
    assert_eq!(pages.prev_page(), 2);
    pages.show(0);
    pages.prev_page();
    assert_eq!(pages.next_page(), 0);
}

#[test]
fn dirty_rect_covers_every_change() {
    let mut fb = Framebuffer::new();
    fb.set_pixel(7, 3, true);
    fb.set_pixel(90, 50, true);
    let (x, y, w, h) = fb.dirty_rect().unwrap();
    for (px, py) in [(7usize, 3usize), (90, 50)] {
        assert!(x <= px && px < x + w && y <= py && py < y + h);
    }
}

#[test]
fn dirty_rect_covers_writes_since_last_clean() {
    let mut fb = Framebuffer::new();
    fb.set_pixel(2, 2, true);
    fb.clear_dirty();
    assert_eq!(fb.dirty_rect(), None);
    fb.set_pixel(10, 20, true);
    fb.draw_pixels(&[(40, 5, false), (-3, 7, true), (200, 9, true)]);
    fb.blit(100, 60, 40, 10, &[0xFF; 50], BlitMode::Overwrite).unwrap();
    assert_eq!(fb.blit(0, 0, 8, 8, &[0xFF; 3], BlitMode::Overwrite), Err(BlitError::InsufficientData { required: 8, actual: 3 }));
    let (x, y, w, h) = fb.dirty_rect().unwrap();
    assert_eq!((x, y, w, h), (10, 5, 118, 59));
    assert!(x + w <= WIDTH && y + h <= HEIGHT);
    for (px, py) in [(10usize, 20usize), (40, 5), (100, 60), (127, 63)] {
        assert!(x <= px && px < x + w && y <= py && py < y + h);
    }
    fb.clear_dirty();
    fb.set_pixel(500, 500, true);
    assert_eq!(fb.dirty_rect(), None);
}
