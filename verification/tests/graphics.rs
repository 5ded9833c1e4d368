//! Shape and text drawing tests.

use i2c_display_driver::display::Framebuffer;
use i2c_display_driver::graphics::canvas::{
    draw_circle, draw_hline, draw_hline_dotted, draw_line, draw_rect, draw_triangle, draw_vline, draw_vline_dotted,
    fill_circle, fill_rect, fill_triangle,
};
use i2c_display_driver::graphics::font::glyph;
use i2c_display_driver::graphics::text::{draw_text, draw_text_inverted, draw_text_packed, text_width};

fn lit(fb: &Framebuffer) -> usize {
    fb.buffer.iter().map(|b| b.count_ones() as usize).sum()
}

// ---------------------------------------------------------------------------
// Shapes
// ---------------------------------------------------------------------------

#[test]
fn rect_does_not_panic_at_bounds() {
    let mut fb = Framebuffer::new();
    draw_rect(&mut fb, 0, 0, 128, 64);
    draw_rect(&mut fb, 200, 200, 50, 50);
}

#[test]
fn fill_rect_works() {
    let mut fb = Framebuffer::new();
    fill_rect(&mut fb, 0, 0, 10, 10);
    assert!(fb.get_pixel(5, 5));
    assert!(!fb.get_pixel(15, 5));
}

#[test]
fn line_draws_endpoints() {
    let mut fb = Framebuffer::new();
    draw_line(&mut fb, 0, 0, 10, 10);
    assert!(fb.get_pixel(0, 0));
    assert!(fb.get_pixel(10, 10));
}

#[test]
fn line_clips_extreme_coordinates() {
    let mut fb = Framebuffer::new();
    draw_line(&mut fb, -1_000_000_000, 10, 1_000_000_000, 10);
    assert!(fb.get_pixel(0, 10));
    assert!(fb.get_pixel(127, 10));
}

#[test]
fn circle_draws_cardinals() {
    let mut fb = Framebuffer::new();
    draw_circle(&mut fb, 32, 32, 10);
    assert!(fb.get_pixel(42, 32));
    assert!(fb.get_pixel(32, 42));
}

#[test]
fn fill_circle_center_filled() {
    let mut fb = Framebuffer::new();
    fill_circle(&mut fb, 32, 32, 10);
    assert!(fb.get_pixel(32, 32));
    assert!(!fb.get_pixel(32, 10));
}

#[test]
fn fill_circle_offscreen_left_no_hang() {
    let mut fb = Framebuffer::new();
    fill_circle(&mut fb, -100, 10, 5);
    assert!(fb.buffer.iter().all(|&b| b == 0));
}

#[test]
fn triangle_draws_edges() {
    let mut fb = Framebuffer::new();
    draw_triangle(&mut fb, 10, 10, 60, 10, 35, 50);
    assert!(fb.get_pixel(10, 10));
    assert!(fb.get_pixel(35, 50));
}

#[test]
fn fill_triangle_fills_center() {
    let mut fb = Framebuffer::new();
    fill_triangle(&mut fb, 10, 10, 60, 10, 35, 50);
    assert!(fb.get_pixel(35, 30));
}

#[test]
fn fill_triangle_offscreen_left_no_hang() {
    let mut fb = Framebuffer::new();
    fill_triangle(&mut fb, -100, 0, -90, 10, -110, 20);
    assert!(fb.buffer.iter().all(|&b| b == 0));
}

#[test]
fn dotted_line_spacing() {
    let mut fb = Framebuffer::new();
    draw_hline_dotted(&mut fb, 0, 0, 10);
    assert!(fb.get_pixel(0, 0));
    assert!(!fb.get_pixel(1, 0));
    assert!(fb.get_pixel(2, 0));
}

#[test]
fn empty_rect_noop() {
    let mut fb = Framebuffer::new();
    fb.set_pixel(10, 10, true);
    draw_rect(&mut fb, 10, 10, 0, 0);
    draw_rect(&mut fb, 10, 10, 1, 0);
    assert!(fb.get_pixel(10, 10));
}

#[test]
fn fill_rect_extreme_size_no_panic() {
    let mut fb = Framebuffer::new();
    fill_rect(&mut fb, 100, 50, usize::MAX, usize::MAX);
    fill_rect(&mut fb, 0, 0, usize::MAX, usize::MAX);
    assert!(fb.get_pixel(127, 63));
}

#[test]
fn hline_huge_len_no_hang() {
    let mut fb = Framebuffer::new();
    draw_hline(&mut fb, 0, 0, usize::MAX);
    assert!(fb.get_pixel(127, 0));
    assert!(!fb.get_pixel(128, 0));
}

#[test]
fn rect_outline_has_hollow_inside() {
    let mut fb = Framebuffer::new();
    draw_rect(&mut fb, 10, 10, 5, 4);
    assert!(fb.get_pixel(10, 10));
    assert!(fb.get_pixel(14, 13));
    assert!(fb.get_pixel(14, 10));
    assert!(fb.get_pixel(10, 13));
    assert!(!fb.get_pixel(12, 11));
    assert_eq!(lit(&fb), 2 * 5 + 2 * 2);
}

#[test]
fn fill_rect_counts_exact_area() {
    let mut fb = Framebuffer::new();
    fill_rect(&mut fb, 120, 60, 20, 20);
    assert_eq!(lit(&fb), 8 * 4);
    assert_eq!(fb.dirty_rect(), Some((120, 60, 8, 4)));
}

#[test]
fn vertical_lines_and_dots() {
    let mut fb = Framebuffer::new();
    draw_vline(&mut fb, 3, 60, 10);
    assert_eq!(lit(&fb), 4);
    let mut fb2 = Framebuffer::new();
    draw_vline_dotted(&mut fb2, 3, 0, 5);
    assert!(fb2.get_pixel(3, 0) && !fb2.get_pixel(3, 1) && fb2.get_pixel(3, 4));
    assert_eq!(lit(&fb2), 3);
}

#[test]
fn line_is_connected_bresenham() {
    let mut fb = Framebuffer::new();
    draw_line(&mut fb, 0, 0, 6, 2);
    for (x, y) in [(0, 0), (1, 0), (2, 1), (3, 1), (4, 1), (5, 2), (6, 2)] {
        assert!(fb.get_pixel(x, y), "({}, {}) is on the line", x, y);
    }
    assert_eq!(lit(&fb), 7);
}

#[test]
fn line_entirely_offscreen_draws_nothing() {
    let mut fb = Framebuffer::new();
    draw_line(&mut fb, -10, -10, -1, 50);
    assert_eq!(lit(&fb), 0);
    draw_line(&mut fb, 200, 0, 300, 63);
    assert_eq!(lit(&fb), 0);
}

#[test]
fn steep_line_clipped_at_bottom() {
    let mut fb = Framebuffer::new();
    draw_line(&mut fb, 5, 0, 5, 1000);
    assert!(fb.get_pixel(5, 0));
    assert!(fb.get_pixel(5, 63));
    assert_eq!(lit(&fb), 64);
}

#[test]
fn circle_radius_zero_is_a_point() {
    let mut fb = Framebuffer::new();
    draw_circle(&mut fb, 50, 20, 0);
    assert_eq!(lit(&fb), 1);
    assert!(fb.get_pixel(50, 20));
    let mut fb2 = Framebuffer::new();
    draw_circle(&mut fb2, 50, 20, -3);
    assert_eq!(lit(&fb2), 0);
}

#[test]
fn huge_circle_takes_the_row_scan() {
    let mut fb = Framebuffer::new();
    // Radius 10000 about (64, 10032): the top of the circle is row 32.
    draw_circle(&mut fb, 64, 10_032, 10_000);
    assert!(fb.get_pixel(64, 32));
    assert!(!fb.get_pixel(64, 31));
    let mut fb2 = Framebuffer::new();
    fill_circle(&mut fb2, 64, 10_032, 10_000);
    assert!(fb2.get_pixel(64, 63));
    assert!(!fb2.get_pixel(64, 31));
}

#[test]
fn fill_circle_row_spans() {
    let mut fb = Framebuffer::new();
    fill_circle(&mut fb, 20, 20, 2);
    for x in 18..=22 {
        assert!(fb.get_pixel(x, 20));
    }
    assert!(!fb.get_pixel(23, 20));
    assert!(!fb.get_pixel(22, 18));
}

#[test]
fn flat_triangle_draws_nothing() {
    let mut fb = Framebuffer::new();
    fill_triangle(&mut fb, 0, 5, 50, 5, 100, 5);
    assert_eq!(lit(&fb), 0);
}

#[test]
fn triangle_with_far_vertex_is_clipped() {
    let mut fb = Framebuffer::new();
    fill_triangle(&mut fb, 0, 0, 127, 0, 64, 1_000_000);
    assert!(fb.get_pixel(64, 63));
    assert!(fb.get_pixel(0, 0));
}

// ---------------------------------------------------------------------------
// Text
// ---------------------------------------------------------------------------

#[test]
fn draw_text_ok() {
    let mut fb = Framebuffer::new();
    draw_text(&mut fb, 0, 0, "OK");
}

#[test]
fn degree_renders() {
    let mut fb = Framebuffer::new();
    draw_text(&mut fb, 0, 0, "48.5°C");
}

#[test]
fn inverted_works() {
    let mut fb = Framebuffer::new();
    for px in 0..40 {
        for py in 0..10 {
            fb.set_pixel(px, py, true);
        }
    }
    draw_text_inverted(&mut fb, 0, 0, "OK");
    assert!(!fb.get_pixel(0, 3));
}

#[test]
fn packed_is_narrower() {
    assert!(text_width("CPU", 0) < text_width("CPU", 1));
}

#[test]
fn oob_no_panic() {
    let mut fb = Framebuffer::new();
    draw_text(&mut fb, 200, 200, "X");
}

#[test]
fn newline_advances_row() {
    let mut fb = Framebuffer::new();
    draw_text(&mut fb, 0, 0, "A\nB");
    assert!(fb.get_pixel(0, 8));
    let mut fb2 = Framebuffer::new();
    draw_text(&mut fb2, 0, 0, "AB");
    assert!(!fb2.get_pixel(0, 8));
}

#[test]
fn text_width_takes_wide_line() {
    assert_eq!(text_width("AB\nCDE", 0), 5 * 3);
    assert_eq!(text_width("", 1), 0);
}

#[test]
fn text_width_matches_draw_impl_formula() {
    assert_eq!(text_width("AB", 1), 11);
    assert_eq!(text_width("ABC", 2), 19);
    assert_eq!(text_width("A", 10), 5);
    assert_eq!(text_width("AB\nCD", 3), 13);
}

#[test]
fn text_width_ignores_carriage_return_before_newline() {
    assert_eq!(text_width("AB\r\nC", 1), 11);
    assert_eq!(text_width("AB\n", 1), 11);
}

#[test]
fn drawn_text_stays_within_text_width() {
    let mut fb = Framebuffer::new();
    draw_text(&mut fb, 10, 0, "MW\nW");
    let w = text_width("MW\nW", 1);
    for x in 0..128 {
        for y in 0..64 {
            if fb.get_pixel(x, y) {
                assert!(10 <= x && x < 10 + w);
            }
        }
    }
}

#[test]
fn packed_text_has_no_gap() {
    let mut fb = Framebuffer::new();
    draw_text_packed(&mut fb, 0, 0, "BB");
    let g = glyph('B');
    for col in 0..5 {
        for row in 0..7 {
            let on = g[col] & (1 << row) != 0;
            assert_eq!(fb.get_pixel(col, row), on);
            assert_eq!(fb.get_pixel(col + 5, row), on);
        }
    }
}

#[test]
fn unknown_characters_draw_the_replacement_glyph() {
    assert_eq!(glyph('\u{1F600}'), glyph('?'));
    assert_eq!(glyph('A'), [0x7E, 0x11, 0x11, 0x11, 0x7E]);
}

#[test]
fn text_stops_at_right_edge() {
    let mut fb = Framebuffer::new();
    draw_text(&mut fb, 125, 0, "HH");
    assert!(fb.get_pixel(125, 3));
    assert!(fb.get_pixel(127, 3));
    for y in 0..8 {
        assert!(!fb.get_pixel(0, y));
    }
}

#[test]
fn rect_edges_beyond_the_screen_are_dropped() {
    let mut fb = Framebuffer::new();
    draw_rect(&mut fb, 100, 10, 50, 5);
    assert!(!fb.get_pixel(127, 12));
    assert!(fb.get_pixel(127, 10));
    assert!(fb.get_pixel(127, 14));
    assert!(fb.get_pixel(100, 12));
    let mut fb2 = Framebuffer::new();
    draw_rect(&mut fb2, 10, 60, 5, 10);
    assert!(!fb2.get_pixel(12, 63));
    assert!(fb2.get_pixel(10, 63));
    assert!(fb2.get_pixel(14, 63));
    assert_eq!(lit(&fb2), 5 + 2 * 3);
}

#[test]
fn line_after_an_over_wide_line_is_drawn() {
    let mut fb = Framebuffer::new();
    let text = "A".repeat(23) + "\nB";
    draw_text(&mut fb, 0, 0, &text);
    assert!(fb.get_pixel(0, 8));
}

#[test]
fn long_text_near_the_bottom_is_drawn_and_clipped() {
    let mut fb = Framebuffer::new();
    let text = "A\nB\nC\nD\nE";
    draw_text(&mut fb, 0, 50, text);
    assert!(lit(&fb) > 0);
    for x in 0..128 {
        for y in 0..50 {
            assert!(!fb.get_pixel(x, y));
        }
    }
}
