//! Drawing primitives: rectangles, lines, circles, triangles, fills and dotted lines.
//!
//! Off-screen coordinates are clipped silently, as with `Framebuffer::set_pixel`.
//! Huge or off-screen inputs are clipped in screen space first, so they cause
//! neither overflow nor long useless loops.
//!
//! Each function is specified as the sequence of points it writes (see
//! [`plot_all`]): the pixels it lights and the growth of the dirty rectangle
//! both follow from that sequence.

pub mod circle;
pub mod triangle;


pub use circle::{draw_circle, fill_circle};
pub use triangle::fill_triangle;

use crate::graphics::intdiv::{abs, div_i64, lemma_tdiv_remainder, lemma_tdiv_scale, tdiv};
use crate::display::framebuffer::{
    lemma_plot_all_append, lemma_plot_all_cons, lemma_plot_all_next, max_int, min_int, on_screen, plot, plot_all, FrameState,
};
use crate::display::{Framebuffer, HEIGHT, WIDTH};
use vstd::prelude::*;

verus! {

// ---------------------------------------------------------------------------
// Point sequences
// ---------------------------------------------------------------------------

/// The points `(x, y)` for `x0 <= x < x1`, left to right.
pub open spec fn span_x(x0: int, x1: int, y: int) -> Seq<(int, int)> {
    if x1 > x0 {
        Seq::new((x1 - x0) as nat, |i: int| (x0 + i, y))
    } else {
        Seq::empty()
    }
}

/// The points `(x, y)` for `y0 <= y < y1`, top to bottom.
pub open spec fn span_y(x: int, y0: int, y1: int) -> Seq<(int, int)> {
    if y1 > y0 {
        Seq::new((y1 - y0) as nat, |i: int| (x, y0 + i))
    } else {
        Seq::empty()
    }
}

/// Every other point `(x0 + 2i, y)` below `x1`.
pub open spec fn dotted_x(x0: int, x1: int, y: int) -> Seq<(int, int)> {
    if x1 > x0 {
        Seq::new(((x1 - x0 + 1) / 2) as nat, |i: int| (x0 + 2 * i, y))
    } else {
        Seq::empty()
    }
}

/// Every other point `(x, y0 + 2i)` below `y1`.
pub open spec fn dotted_y(x: int, y0: int, y1: int) -> Seq<(int, int)> {
    if y1 > y0 {
        Seq::new(((y1 - y0 + 1) / 2) as nat, |i: int| (x, y0 + 2 * i))
    } else {
        Seq::empty()
    }
}

/// The points of `[x0, x1) × [y0, y1)`, row by row.
pub open spec fn rect_area(x0: int, x1: int, y0: int, y1: int) -> Seq<(int, int)>
    decreases y1 - y0,
{
    if y1 <= y0 {
        Seq::empty()
    } else {
        rect_area(x0, x1, y0, y1 - 1) + span_x(x0, x1, y1 - 1)
    }
}

/// The border points of a rectangle, clipped to the screen: the top row `y0`
/// and the bottom row `yb` over columns `x0..=x1`, column by column, then the
/// left column `x0` and the right column `xr` over rows `y0..=y1`, row by row.
/// `x1`/`y1` are the last on-screen column/row of the rectangle; an edge that
/// lies beyond the screen has `xr == WIDTH` or `yb == HEIGHT`, so its points
/// light nothing.
pub open spec fn rect_border(x0: int, x1: int, xr: int, y0: int, y1: int, yb: int) -> Seq<(int, int)> {
    Seq::new(
        (2 * (x1 - x0 + 1)) as nat,
        |i: int|
            if i % 2 == 0 {
                (x0 + i / 2, y0)
            } else {
                (x0 + i / 2, yb)
            },
    ) + Seq::new(
        (2 * (y1 - y0 + 1)) as nat,
        |i: int|
            if i % 2 == 0 {
                (x0, y0 + i / 2)
            } else {
                (xr, y0 + i / 2)
            },
    )
}

// ---------------------------------------------------------------------------
// Rectangles and straight lines
// ---------------------------------------------------------------------------

/// Draws the outline of the `w × h` rectangle at `(x, y)`, clipped to the
/// screen: the parts of its border that lie off the screen are not drawn (a
/// right or bottom edge beyond the screen is dropped, not moved to the edge).
pub fn draw_rect(fb: &mut Framebuffer, x: usize, y: usize, w: usize, h: usize)
    ensures
        if w == 0 || h == 0 || x >= WIDTH || y >= HEIGHT {
            final(fb).state() == old(fb).state()
        } else {
            final(fb).state() == plot_all(
                old(fb).state(),
                rect_border(
                    x as int,
                    min_int(x + w - 1, WIDTH - 1),
                    min_int(x + w - 1, WIDTH as int),
                    y as int,
                    min_int(y + h - 1, HEIGHT - 1),
                    min_int(y + h - 1, HEIGHT as int),
                ),
                true,
            )
        },
{
    if w == 0 || h == 0 || x >= WIDTH || y >= HEIGHT {
        return;
    }
    let xe = x.saturating_add(w - 1);
    let x2 = if xe <= WIDTH - 1 { xe } else { WIDTH - 1 };
    let xr = if xe <= WIDTH { xe } else { WIDTH };
    let ye = y.saturating_add(h - 1);
    let y2 = if ye <= HEIGHT - 1 { ye } else { HEIGHT - 1 };
    let yb = if ye <= HEIGHT { ye } else { HEIGHT };
    let ghost s0 = fb.state();
    let ghost pts = rect_border(x as int, x2 as int, xr as int, y as int, y2 as int, yb as int);
    assert(pts == rect_border(
        x as int,
        min_int(x + w - 1, WIDTH - 1),
        min_int(x + w - 1, WIDTH as int),
        y as int,
        min_int(y + h - 1, HEIGHT - 1),
        min_int(y + h - 1, HEIGHT as int),
    ));
    let ghost nh = 2 * (x2 - x + 1);
    let mut px = x;
    while px <= x2
        invariant
            x <= px <= x2 + 1,
            x2 < WIDTH,
            y <= y2 < HEIGHT,
            yb <= HEIGHT,
            pts == rect_border(x as int, x2 as int, xr as int, y as int, y2 as int, yb as int),
            nh == 2 * (x2 - x + 1),
            fb.state() == plot_all(s0, pts.take(2 * (px - x)), true),
        decreases x2 + 1 - px,
    {
        let ghost k = 2 * (px - x);
        proof {
            assert(pts[k] == (px as int, y as int));
            assert(pts[k + 1] == (px as int, yb as int));
            lemma_plot_all_next(s0, pts, k, true);
            lemma_plot_all_next(s0, pts, k + 1, true);
        }
        fb.set_pixel(px, y, true);
        fb.set_pixel(px, yb, true);
        px = px + 1;
    }
    let mut py = y;
    while py <= y2
        invariant
            y <= py <= y2 + 1,
            x <= x2 < WIDTH,
            xr <= WIDTH,
            y2 < HEIGHT,
            pts == rect_border(x as int, x2 as int, xr as int, y as int, y2 as int, yb as int),
            nh == 2 * (x2 - x + 1),
            fb.state() == plot_all(s0, pts.take(nh + 2 * (py - y)), true),
        decreases y2 + 1 - py,
    {
        let ghost k = nh + 2 * (py - y);
        proof {
            assert(pts[k] == (x as int, py as int));
            assert(pts[k + 1] == (xr as int, py as int));
            lemma_plot_all_next(s0, pts, k, true);
            lemma_plot_all_next(s0, pts, k + 1, true);
        }
        fb.set_pixel(x, py, true);
        fb.set_pixel(xr, py, true);
        py = py + 1;
    }
    proof {
        assert(pts.take(nh + 2 * (py - y)) =~= pts);
    }
}

/// `(px, py)` lies on the border of the `w × h` rectangle at `(x, y)`, whose
/// right column is `x + w - 1` and bottom row `y + h - 1`.
pub open spec fn on_rect_border(x: int, y: int, w: int, h: int, px: int, py: int) -> bool {
    let x2 = x + w - 1;
    let y2 = y + h - 1;
    ||| (px == x || px == x2) && y <= py <= y2
    ||| (py == y || py == y2) && x <= px <= x2
}

/// [`draw_rect`] lights exactly the on-screen pixels of the rectangle's
/// border: nothing of an edge that lies beyond the screen is drawn elsewhere.
pub proof fn lemma_rect_border_pixels(x: int, y: int, w: int, h: int, px: int, py: int)
    requires
        0 <= x < WIDTH,
        0 <= y < HEIGHT,
        w >= 1,
        h >= 1,
        on_screen(px, py),
    ensures
        rect_border(
            x,
            min_int(x + w - 1, WIDTH - 1),
            min_int(x + w - 1, WIDTH as int),
            y,
            min_int(y + h - 1, HEIGHT - 1),
            min_int(y + h - 1, HEIGHT as int),
        ).contains((px, py)) <==> on_rect_border(x, y, w, h, px, py),
{
    let x1 = min_int(x + w - 1, WIDTH - 1);
    let xr = min_int(x + w - 1, WIDTH as int);
    let y1 = min_int(y + h - 1, HEIGHT - 1);
    let yb = min_int(y + h - 1, HEIGHT as int);
    let a = Seq::new(
        (2 * (x1 - x + 1)) as nat,
        |i: int|
            if i % 2 == 0 {
                (x + i / 2, y)
            } else {
                (x + i / 2, yb)
            },
    );
    let b = Seq::new(
        (2 * (y1 - y + 1)) as nat,
        |i: int|
            if i % 2 == 0 {
                (x, y + i / 2)
            } else {
                (xr, y + i / 2)
            },
    );
    let pts = rect_border(x, x1, xr, y, y1, yb);
    assert(pts == a + b);
    if on_rect_border(x, y, w, h, px, py) {
        if (py == y || py == y + h - 1) && x <= px <= x + w - 1 {
            let i = if py == y { 2 * (px - x) } else { 2 * (px - x) + 1 };
            assert(a[i] == (px, py));
            assert(pts[i] == (px, py));
        } else {
            let i = if px == x { 2 * (py - y) } else { 2 * (py - y) + 1 };
            assert(b[i] == (px, py));
            assert(pts[a.len() + i] == (px, py));
        }
    }
    if pts.contains((px, py)) {
        let k = choose|k: int| 0 <= k < pts.len() && pts[k] == (px, py);
        if k < a.len() {
            assert(a[k] == (px, py));
        } else {
            assert(b[k - a.len()] == (px, py));
        }
    }
}

/// Fills the `w × h` rectangle at `(x, y)`, clipped to the screen.
pub fn fill_rect(fb: &mut Framebuffer, x: usize, y: usize, w: usize, h: usize)
    ensures
        if w == 0 || h == 0 || x >= WIDTH || y >= HEIGHT {
            final(fb).state() == old(fb).state()
        } else {
            final(fb).state() == plot_all(
                old(fb).state(),
                rect_area(x as int, min_int(x + w, WIDTH as int), y as int, min_int(y + h, HEIGHT as int)),
                true,
            )
        },
{
    if w == 0 || h == 0 || x >= WIDTH || y >= HEIGHT {
        return;
    }
    let xe = x.saturating_add(w);
    let x2 = if xe <= WIDTH { xe } else { WIDTH };
    let ye = y.saturating_add(h);
    let y2 = if ye <= HEIGHT { ye } else { HEIGHT };
    let ghost s0 = fb.state();
    let mut py = y;
    while py < y2
        invariant
            y <= py <= y2 <= HEIGHT,
            x < x2 <= WIDTH,
            fb.state() == plot_all(s0, rect_area(x as int, x2 as int, y as int, py as int), true),
        decreases y2 - py,
    {
        let ghost row = span_x(x as int, x2 as int, py as int);
        let ghost s1 = fb.state();
        let mut px = x;
        while px < x2
            invariant
                x <= px <= x2 <= WIDTH,
                py < HEIGHT,
                row == span_x(x as int, x2 as int, py as int),
                fb.state() == plot_all(s1, row.take(px - x), true),
            decreases x2 - px,
        {
            proof {
                lemma_plot_all_next(s1, row, px - x, true);
            }
            fb.set_pixel(px, py, true);
            px = px + 1;
        }
        proof {
            assert(row.take(px - x) =~= row);
            lemma_plot_all_append(s0, rect_area(x as int, x2 as int, y as int, py as int), row, true);
        }
        py = py + 1;
    }
}

/// Draws a horizontal line of `len` pixels from `(x, y)` to the right.
pub fn draw_hline(fb: &mut Framebuffer, x: usize, y: usize, len: usize)
    ensures
        if y >= HEIGHT || len == 0 || x >= WIDTH {
            final(fb).state() == old(fb).state()
        } else {
            final(fb).state() == plot_all(
                old(fb).state(),
                span_x(x as int, min_int(x + len, WIDTH as int), y as int),
                true,
            )
        },
{
    if y >= HEIGHT || len == 0 || x >= WIDTH {
        return;
    }
    let e = x.saturating_add(len);
    let end = if e <= WIDTH { e } else { WIDTH };
    let ghost s0 = fb.state();
    let ghost pts = span_x(x as int, end as int, y as int);
    let mut px = x;
    while px < end
        invariant
            x <= px <= end <= WIDTH,
            x < end,
            pts == span_x(x as int, end as int, y as int),
            fb.state() == plot_all(s0, pts.take(px - x), true),
        decreases end - px,
    {
        proof {
            lemma_plot_all_next(s0, pts, px - x, true);
        }
        fb.set_pixel(px, y, true);
        px = px + 1;
    }
    proof {
        assert(pts.take(px - x) =~= pts);
    }
}

/// Draws a vertical line of `len` pixels from `(x, y)` downwards.
pub fn draw_vline(fb: &mut Framebuffer, x: usize, y: usize, len: usize)
    ensures
        if x >= WIDTH || len == 0 || y >= HEIGHT {
            final(fb).state() == old(fb).state()
        } else {
            final(fb).state() == plot_all(
                old(fb).state(),
                span_y(x as int, y as int, min_int(y + len, HEIGHT as int)),
                true,
            )
        },
{
    if x >= WIDTH || len == 0 || y >= HEIGHT {
        return;
    }
    let e = y.saturating_add(len);
    let end = if e <= HEIGHT { e } else { HEIGHT };
    let ghost s0 = fb.state();
    let ghost pts = span_y(x as int, y as int, end as int);
    let mut py = y;
    while py < end
        invariant
            y <= py <= end <= HEIGHT,
            y < end,
            pts == span_y(x as int, y as int, end as int),
            fb.state() == plot_all(s0, pts.take(py - y), true),
        decreases end - py,
    {
        proof {
            lemma_plot_all_next(s0, pts, py - y, true);
        }
        fb.set_pixel(x, py, true);
        py = py + 1;
    }
    proof {
        assert(pts.take(py - y) =~= pts);
    }
}

/// Draws a dotted horizontal line (every other pixel) of `len` pixels from `(x, y)`.
pub fn draw_hline_dotted(fb: &mut Framebuffer, x: usize, y: usize, len: usize)
    ensures
        if y >= HEIGHT || len == 0 || x >= WIDTH {
            final(fb).state() == old(fb).state()
        } else {
            final(fb).state() == plot_all(
                old(fb).state(),
                dotted_x(x as int, min_int(x + len, WIDTH as int), y as int),
                true,
            )
        },
{
    if y >= HEIGHT || len == 0 || x >= WIDTH {
        return;
    }
    let e = x.saturating_add(len);
    let end = if e <= WIDTH { e } else { WIDTH };
    let ghost s0 = fb.state();
    let ghost pts = dotted_x(x as int, end as int, y as int);
    let mut px = x;
    let ghost mut k: int = 0;
    while px < end
        invariant
            x <= px <= end + 1,
            px == x + 2 * k,
            0 <= k <= pts.len(),
            px < end ==> k < pts.len(),
            px >= end ==> k == pts.len(),
            end <= WIDTH,
            x < end,
            pts == dotted_x(x as int, end as int, y as int),
            fb.state() == plot_all(s0, pts.take(k), true),
        decreases end + 1 - px,
    {
        proof {
            lemma_plot_all_next(s0, pts, k, true);
        }
        fb.set_pixel(px, y, true);
        px = px + 2;
        proof {
            k = k + 1;
        }
    }
    proof {
        assert(pts.take(k) =~= pts);
    }
}

/// Draws a dotted vertical line (every other pixel) of `len` pixels from `(x, y)`.
pub fn draw_vline_dotted(fb: &mut Framebuffer, x: usize, y: usize, len: usize)
    ensures
        if x >= WIDTH || len == 0 || y >= HEIGHT {
            final(fb).state() == old(fb).state()
        } else {
            final(fb).state() == plot_all(
                old(fb).state(),
                dotted_y(x as int, y as int, min_int(y + len, HEIGHT as int)),
                true,
            )
        },
{
    if x >= WIDTH || len == 0 || y >= HEIGHT {
        return;
    }
    let e = y.saturating_add(len);
    let end = if e <= HEIGHT { e } else { HEIGHT };
    let ghost s0 = fb.state();
    let ghost pts = dotted_y(x as int, y as int, end as int);
    let mut py = y;
    let ghost mut k: int = 0;
    while py < end
        invariant
            y <= py <= end + 1,
            py == y + 2 * k,
            0 <= k <= pts.len(),
            py < end ==> k < pts.len(),
            py >= end ==> k == pts.len(),
            end <= HEIGHT,
            y < end,
            pts == dotted_y(x as int, y as int, end as int),
            fb.state() == plot_all(s0, pts.take(k), true),
        decreases end + 1 - py,
    {
        proof {
            lemma_plot_all_next(s0, pts, k, true);
        }
        fb.set_pixel(x, py, true);
        py = py + 2;
        proof {
            k = k + 1;
        }
    }
    proof {
        assert(pts.take(k) =~= pts);
    }
}

// ---------------------------------------------------------------------------
// Line clipping (Cohen-Sutherland)
// ---------------------------------------------------------------------------

const INSIDE: u8 = 0;
const LEFT: u8 = 1;
const RIGHT: u8 = 2;
const TOP: u8 = 4;
const BOTTOM: u8 = 8;

/// Horizontal part of an out code: left of, right of, or within the screen columns.
pub open spec fn horizontal_code(x: int) -> u8 {
    if x < 0 {
        1
    } else if x >= 128 {
        2
    } else {
        0
    }
}

/// Vertical part of an out code: above, below, or within the screen rows.
pub open spec fn vertical_code(y: int) -> u8 {
    if y < 0 {
        4
    } else if y >= 64 {
        8
    } else {
        0
    }
}

/// Cohen-Sutherland out code of `(x, y)`: one bit per screen edge it lies beyond.
pub open spec fn out_code(x: int, y: int) -> u8 {
    horizontal_code(x) | vertical_code(y)
}

proof fn lemma_code_bits(a: u8, b: u8)
    requires
        a == 0 || a == 1 || a == 2,
        b == 0 || b == 4 || b == 8,
    ensures
        ((a | b) & 1 != 0) == (a == 1),
        ((a | b) & 2 != 0) == (a == 2),
        ((a | b) & 4 != 0) == (b == 4),
        ((a | b) & 8 != 0) == (b == 8),
        ((a | b) == 0) == (a == 0 && b == 0),
{
    assert(((a | b) & 1 != 0) == (a == 1) && ((a | b) & 2 != 0) == (a == 2) && ((a | b) & 4 != 0)
        == (b == 4) && ((a | b) & 8 != 0) == (b == 8) && ((a | b) == 0) == (a == 0 && b == 0))
        by (bit_vector)
        requires
            a == 0 || a == 1 || a == 2,
            b == 0 || b == 4 || b == 8,
    ;
}

proof fn lemma_codes_meet(a0: u8, b0: u8, a1: u8, b1: u8)
    requires
        a0 == 0 || a0 == 1 || a0 == 2,
        b0 == 0 || b0 == 4 || b0 == 8,
        a1 == 0 || a1 == 1 || a1 == 2,
        b1 == 0 || b1 == 4 || b1 == 8,
    ensures
        (((a0 | b0) & (a1 | b1)) != 0) == ((a0 != 0 && a0 == a1) || (b0 != 0 && b0 == b1)),
{
    assert((((a0 | b0) & (a1 | b1)) != 0) == ((a0 != 0 && a0 == a1) || (b0 != 0 && b0 == b1)))
        by (bit_vector)
        requires
            a0 == 0 || a0 == 1 || a0 == 2,
            b0 == 0 || b0 == 4 || b0 == 8,
            a1 == 0 || a1 == 1 || a1 == 2,
            b1 == 0 || b1 == 4 || b1 == 8,
    ;
}

/// What the out codes say about two endpoints.
pub proof fn lemma_out_codes(x0: int, y0: int, x1: int, y1: int)
    ensures
        (out_code(x0, y0) & 1 != 0) == (x0 < 0),
        (out_code(x0, y0) & 2 != 0) == (x0 >= 128),
        (out_code(x0, y0) & 4 != 0) == (y0 < 0),
        (out_code(x0, y0) & 8 != 0) == (y0 >= 64),
        (out_code(x0, y0) == 0) == (0 <= x0 < 128 && 0 <= y0 < 64),
        (out_code(x0, y0) & out_code(x1, y1) != 0) == ((x0 < 0 && x1 < 0) || (x0 >= 128 && x1
            >= 128) || (y0 < 0 && y1 < 0) || (y0 >= 64 && y1 >= 64)),
{
    lemma_code_bits(horizontal_code(x0), vertical_code(y0));
    lemma_codes_meet(horizontal_code(x0), vertical_code(y0), horizontal_code(x1), vertical_code(y1));
}

/// Where the segment from `(x0, y0)` to `(x1, y1)` meets the screen edge named
/// by the first bit of `out` (top, bottom, right, left, in that order).
pub open spec fn clip_point(x0: int, y0: int, x1: int, y1: int, out: u8) -> (int, int) {
    if out & 4 != 0 {
        (x0 + tdiv((x1 - x0) * (0 - y0), y1 - y0), 0)
    } else if out & 8 != 0 {
        (x0 + tdiv((x1 - x0) * (63 - y0), y1 - y0), 63)
    } else if out & 2 != 0 {
        (127, y0 + tdiv((y1 - y0) * (127 - x0), x1 - x0))
    } else {
        (0, y0 + tdiv((y1 - y0) * (0 - x0), x1 - x0))
    }
}

/// `v` lies between `a` and `b`.
pub open spec fn between(v: int, a: int, b: int) -> bool {
    (a <= v <= b) || (b <= v <= a)
}

/// Size of the segment's bounding box, which every clipping step shrinks.
pub open spec fn clip_measure(x0: int, y0: int, x1: int, y1: int) -> int {
    abs(x1 - x0) + abs(y1 - y0)
}

/// One clipping step moves the chosen endpoint onto a screen edge, inside the
/// segment's bounding box and strictly closer to the other endpoint.
pub proof fn lemma_clip_step(x0: int, y0: int, x1: int, y1: int)
    requires
        out_code(x0, y0) & out_code(x1, y1) == 0,
        !(out_code(x0, y0) == 0 && out_code(x1, y1) == 0),
    ensures
        ({
            let c0 = out_code(x0, y0);
            let c1 = out_code(x1, y1);
            let out = if c0 != 0 {
                c0
            } else {
                c1
            };
            let p = clip_point(x0, y0, x1, y1, out);
            &&& between(p.0, x0, x1)
            &&& between(p.1, y0, y1)
            &&& out == c0 ==> clip_measure(p.0, p.1, x1, y1) < clip_measure(x0, y0, x1, y1)
            &&& out != c0 ==> clip_measure(x0, y0, p.0, p.1) < clip_measure(x0, y0, x1, y1)
            &&& out & 4 != 0 ==> y1 - y0 != 0
            &&& out & 4 == 0 && out & 8 != 0 ==> y1 - y0 != 0
            &&& out & 4 == 0 && out & 8 == 0 ==> x1 - x0 != 0
        }),
{
    lemma_out_codes(x0, y0, x1, y1);
    lemma_out_codes(x1, y1, x0, y0);
    let c0 = out_code(x0, y0);
    let c1 = out_code(x1, y1);
    let out = if c0 != 0 {
        c0
    } else {
        c1
    };
    lemma_code_bits(horizontal_code(if c0 != 0 { x0 } else { x1 }), vertical_code(if c0 != 0 { y0 } else { y1 }));
    if out & 4 != 0 {
        lemma_tdiv_scale(x1 - x0, 0 - y0, y1 - y0);
    } else if out & 8 != 0 {
        lemma_tdiv_scale(x1 - x0, 63 - y0, y1 - y0);
    } else if out & 2 != 0 {
        lemma_tdiv_scale(y1 - y0, 127 - x0, x1 - x0);
    } else {
        lemma_tdiv_scale(y1 - y0, 0 - x0, x1 - x0);
    }
}

/// How far `(px, py)` lies off the line through `(x0, y0)` and `(x1, y1)`,
/// scaled: zero exactly on the line; `|offset| / |y1 - y0|` is the horizontal
/// distance to it, `|offset| / |x1 - x0|` the vertical one.
pub open spec fn line_offset(x0: int, y0: int, x1: int, y1: int, px: int, py: int) -> int {
    (px - x0) * (y1 - y0) - (py - y0) * (x1 - x0)
}

/// A clipped endpoint lies on the line it was clipped from, up to integer
/// rounding: clipped at the top or bottom edge it is less than one column off
/// the line, clipped at the left or right edge less than one row off.
pub proof fn lemma_clip_point_on_line(x0: int, y0: int, x1: int, y1: int, out: u8)
    ensures
        ({
            let p = clip_point(x0, y0, x1, y1, out);
            let e = line_offset(x0, y0, x1, y1, p.0, p.1);
            &&& out & 4 != 0 && y1 != y0 ==> p.1 == 0 && abs(e) < abs(y1 - y0)
            &&& out & 4 == 0 && out & 8 != 0 && y1 != y0 ==> p.1 == 63 && abs(e) < abs(y1 - y0)
            &&& out & 12 == 0 && out & 2 != 0 && x1 != x0 ==> p.0 == 127 && abs(e) < abs(x1 - x0)
            &&& out & 12 == 0 && out & 2 == 0 && x1 != x0 ==> p.0 == 0 && abs(e) < abs(x1 - x0)
        }),
{
    let p = clip_point(x0, y0, x1, y1, out);
    let e = line_offset(x0, y0, x1, y1, p.0, p.1);
    assert(out & 12 == 0 ==> out & 4 == 0 && out & 8 == 0) by (bit_vector);
    if out & 4 != 0 || out & 8 != 0 {
        if y1 != y0 {
            let ey = if out & 4 != 0 { 0int } else { 63int };
            let n = (x1 - x0) * (ey - y0);
            let t = tdiv(n, y1 - y0);
            lemma_tdiv_remainder(n, y1 - y0);
            assert(p == (x0 + t, ey));
            assert(e == t * (y1 - y0) - n) by (nonlinear_arith)
                requires
                    e == (p.0 - x0) * (y1 - y0) - (p.1 - y0) * (x1 - x0),
                    p.0 == x0 + t,
                    p.1 == ey,
                    n == (x1 - x0) * (ey - y0),
            ;
        }
    } else if x1 != x0 {
        let ex = if out & 2 != 0 { 127int } else { 0int };
        let n = (y1 - y0) * (ex - x0);
        let t = tdiv(n, x1 - x0);
        lemma_tdiv_remainder(n, x1 - x0);
        assert(p == (ex, y0 + t));
        assert(e == n - t * (x1 - x0)) by (nonlinear_arith)
            requires
                e == (p.0 - x0) * (y1 - y0) - (p.1 - y0) * (x1 - x0),
                p.0 == ex,
                p.1 == y0 + t,
                n == (y1 - y0) * (ex - x0),
        ;
    }
}

/// The Cohen-Sutherland clipping of the segment from `(x0, y0)` to
/// `(x1, y1)` to the screen: `None` when it is found to miss the screen,
/// otherwise the clipped endpoints.
pub open spec fn clip_segment(x0: int, y0: int, x1: int, y1: int) -> Option<((int, int), (int, int))>
    decreases clip_measure(x0, y0, x1, y1),
{
    let c0 = out_code(x0, y0);
    let c1 = out_code(x1, y1);
    if c0 & c1 != 0 {
        None
    } else if c0 == 0 && c1 == 0 {
        Some(((x0, y0), (x1, y1)))
    } else {
        let out = if c0 != 0 {
            c0
        } else {
            c1
        };
        let p = clip_point(x0, y0, x1, y1, out);
        proof {
            lemma_clip_step(x0, y0, x1, y1);
        }
        if out == c0 {
            clip_segment(p.0, p.1, x1, y1)
        } else {
            clip_segment(x0, y0, p.0, p.1)
        }
    }
}

/// A clipped segment lies on the screen.
pub proof fn lemma_clip_segment_on_screen(x0: int, y0: int, x1: int, y1: int)
    ensures
        clip_segment(x0, y0, x1, y1) matches Some((p, q)) ==> on_screen(p.0, p.1) && on_screen(
            q.0,
            q.1,
        ),
    decreases clip_measure(x0, y0, x1, y1),
{
    let c0 = out_code(x0, y0);
    let c1 = out_code(x1, y1);
    lemma_out_codes(x0, y0, x1, y1);
    lemma_out_codes(x1, y1, x0, y0);
    if c0 & c1 != 0 {
    } else if c0 == 0 && c1 == 0 {
    } else {
        let out = if c0 != 0 {
            c0
        } else {
            c1
        };
        let p = clip_point(x0, y0, x1, y1, out);
        lemma_clip_step(x0, y0, x1, y1);
        if out == c0 {
            lemma_clip_segment_on_screen(p.0, p.1, x1, y1);
        } else {
            lemma_clip_segment_on_screen(x0, y0, p.0, p.1);
        }
    }
}

/// The step's rounding error mixes the endpoints' offsets: a point on an edge
/// between `u` and `v` (at fractions `al` and `be` of the way, `al + be` the
/// whole) is off the line by a weighted mean of theirs, plus the rounding.
proof fn lemma_offset_mix(ow: int, eu: int, ev: int, al: int, be: int, rho: int, d: int, e: int)
    requires
        al >= 0,
        be >= 0,
        al + be > 0,
        -e <= eu <= e,
        -e <= ev <= e,
        -(al + be) < rho < al + be,
        ow * (al + be) == eu * be + al * ev + rho * d,
    ensures
        abs(ow) <= e + abs(d),
{
    let ad = abs(d);
    assert(-(al + be) * ad <= rho * d <= (al + be) * ad) by (nonlinear_arith)
        requires
            -(al + be) < rho < al + be,
            ad == abs(d),
    ;
    assert(-e * (al + be) <= eu * be + al * ev <= e * (al + be)) by (nonlinear_arith)
        requires
            al >= 0,
            be >= 0,
            -e <= eu <= e,
            -e <= ev <= e,
    ;
    assert(-(e + ad) <= ow <= e + ad) by (nonlinear_arith)
        requires
            al + be > 0,
            ow * (al + be) == eu * be + al * ev + rho * d,
            -(al + be) * ad <= rho * d <= (al + be) * ad,
            -e * (al + be) <= eu * be + al * ev <= e * (al + be),
    ;
}

/// The offset of a point cut off the segment `u`–`v`: `w` lies `t` along `x`
/// and `al` along `y` from `u`, where `t * d == dxu * al - rho` (`d` the segment's
/// extent, `dxu` the other extent) and `al + be == d`.
proof fn lemma_offset_cut(ew: int, eu: int, ev: int, t: int, al: int, be: int, d: int, dxu: int, rho: int, dx: int, dy: int)
    requires
        ew == eu + t * dy - al * dx,
        ev == eu + dxu * dy - d * dx,
        d == al + be,
        t * d == dxu * al - rho,
    ensures
        ew * d == eu * be + al * ev + rho * (-dy),
{
    assert(ew * d == eu * d + t * d * dy - al * d * dx) by (nonlinear_arith)
        requires
            ew == eu + t * dy - al * dx,
    ;
    assert(t * d * dy == dxu * al * dy - rho * dy) by (nonlinear_arith)
        requires
            t * d == dxu * al - rho,
    ;
    assert(al * ev == al * eu + dxu * al * dy - al * d * dx) by (nonlinear_arith)
        requires
            ev == eu + dxu * dy - d * dx,
    ;
    assert(eu * d == eu * be + al * eu) by (nonlinear_arith)
        requires
            d == al + be,
    ;
    assert(rho * (-dy) == -(rho * dy)) by (nonlinear_arith);
}

/// Offsets are affine: moving a point by `(mx, my)` changes its offset by
/// `mx * dy - my * dx`.
proof fn lemma_offset_move(x0: int, y0: int, dx: int, dy: int, px: int, py: int, mx: int, my: int)
    ensures
        (px + mx - x0) * dy - (py + my - y0) * dx == (px - x0) * dy - (py - y0) * dx + mx * dy - my * dx,
{
    assert((px + mx - x0) * dy - (py + my - y0) * dx == (px - x0) * dy - (py - y0) * dx + mx * dy - my * dx)
        by (nonlinear_arith);
}

/// The number of screen edges `(x, y)` lies beyond: one for the columns, one
/// for the rows.
pub open spec fn clip_bits(x: int, y: int) -> int {
    (if x < 0 || x >= 128 {
        1int
    } else {
        0int
    }) + (if y < 0 || y >= 64 {
        1int
    } else {
        0int
    })
}

/// One clipping step leaves the moved endpoint beyond fewer screen edges, or
/// makes both endpoints lie beyond one same edge (so the next step rejects the
/// segment).
proof fn lemma_clip_step_progress(x0: int, y0: int, x1: int, y1: int)
    requires
        out_code(x0, y0) & out_code(x1, y1) == 0,
        !(out_code(x0, y0) == 0 && out_code(x1, y1) == 0),
    ensures
        ({
            let c0 = out_code(x0, y0);
            let c1 = out_code(x1, y1);
            let out = if c0 != 0 {
                c0
            } else {
                c1
            };
            let p = clip_point(x0, y0, x1, y1, out);
            &&& out == c0 ==> clip_bits(p.0, p.1) < clip_bits(x0, y0) || out_code(p.0, p.1) & c1 != 0
            &&& out != c0 ==> clip_bits(p.0, p.1) < clip_bits(x1, y1) || c0 & out_code(p.0, p.1) != 0
        }),
{
    let c0 = out_code(x0, y0);
    let c1 = out_code(x1, y1);
    let out = if c0 != 0 {
        c0
    } else {
        c1
    };
    let p = clip_point(x0, y0, x1, y1, out);
    lemma_out_codes(x0, y0, x1, y1);
    lemma_out_codes(x1, y1, x0, y0);
    lemma_out_codes(p.0, p.1, x1, y1);
    lemma_out_codes(x0, y0, p.0, p.1);
    lemma_clip_step(x0, y0, x1, y1);
    lemma_clip_point_on_line(x0, y0, x1, y1, out);
    lemma_code_bits(horizontal_code(if c0 != 0 { x0 } else { x1 }), vertical_code(if c0 != 0 { y0 } else { y1 }));
    assert(out & 12 == 0 <==> out & 4 == 0 && out & 8 == 0) by (bit_vector);
}

/// One clipping step moves an endpoint at most one pixel (along the major
/// axis of the original segment) further off the original line than the
/// current endpoints are.
proof fn lemma_clip_step_offset(ox0: int, oy0: int, ox1: int, oy1: int, x0: int, y0: int, x1: int, y1: int, e: int)
    requires
        out_code(x0, y0) & out_code(x1, y1) == 0,
        !(out_code(x0, y0) == 0 && out_code(x1, y1) == 0),
        abs(line_offset(ox0, oy0, ox1, oy1, x0, y0)) <= e,
        abs(line_offset(ox0, oy0, ox1, oy1, x1, y1)) <= e,
    ensures
        ({
            let c0 = out_code(x0, y0);
            let out = if c0 != 0 {
                c0
            } else {
                out_code(x1, y1)
            };
            let p = clip_point(x0, y0, x1, y1, out);
            abs(line_offset(ox0, oy0, ox1, oy1, p.0, p.1)) <= e + max_int(abs(ox1 - ox0), abs(oy1 - oy0))
        }),
{
    let c0 = out_code(x0, y0);
    let out = if c0 != 0 {
        c0
    } else {
        out_code(x1, y1)
    };
    let p = clip_point(x0, y0, x1, y1, out);
    let dx = ox1 - ox0;
    let dy = oy1 - oy0;
    let eu = line_offset(ox0, oy0, ox1, oy1, x0, y0);
    let ev = line_offset(ox0, oy0, ox1, oy1, x1, y1);
    let ew = line_offset(ox0, oy0, ox1, oy1, p.0, p.1);
    lemma_clip_step(x0, y0, x1, y1);
    lemma_clip_point_on_line(x0, y0, x1, y1, out);
    assert(out & 12 == 0 <==> out & 4 == 0 && out & 8 == 0) by (bit_vector);
    lemma_offset_move(ox0, oy0, dx, dy, x0, y0, x1 - x0, y1 - y0);
    if out & 4 != 0 || out & 8 != 0 {
        let d = y1 - y0;
        let al = p.1 - y0;
        let be = y1 - p.1;
        let t = p.0 - x0;
        let n = (x1 - x0) * al;
        assert(t == tdiv(n, d));
        lemma_tdiv_remainder(n, d);
        let rho = n - t * d;
        lemma_offset_move(ox0, oy0, dx, dy, x0, y0, t, al);
        lemma_offset_cut(ew, eu, ev, t, al, be, d, x1 - x0, rho, dx, dy);
        if d > 0 {
            lemma_offset_mix(ew, eu, ev, al, be, rho, -dy, e);
        } else {
            assert(ew * (-d) == eu * (-be) + (-al) * ev + (-rho) * (-dy)) by (nonlinear_arith)
                requires
                    ew * d == eu * be + al * ev + rho * (-dy),
            ;
            lemma_offset_mix(ew, eu, ev, -al, -be, -rho, -dy, e);
        }
    } else {
        let d = x1 - x0;
        let al = p.0 - x0;
        let be = x1 - p.0;
        let t = p.1 - y0;
        let n = (y1 - y0) * al;
        assert(t == tdiv(n, d));
        lemma_tdiv_remainder(n, d);
        let rho = n - t * d;
        lemma_offset_move(ox0, oy0, dx, dy, x0, y0, al, t);
        lemma_offset_cut(-ew, -eu, -ev, t, al, be, d, y1 - y0, rho, dy, dx);
        if d > 0 {
            lemma_offset_mix(-ew, -eu, -ev, al, be, rho, -dx, e);
        } else {
            assert((-ew) * (-d) == (-eu) * (-be) + (-al) * (-ev) + (-rho) * (-dx)) by (nonlinear_arith)
                requires
                    (-ew) * d == (-eu) * be + al * (-ev) + rho * (-dx),
            ;
            lemma_offset_mix(-ew, -eu, -ev, -al, -be, -rho, -dx, e);
        }
    }
}

/// Clipping from endpoints at most `e` off the original line ends at most one
/// pixel (along the original's major axis) further off for each screen edge
/// the current endpoints lie beyond.
proof fn lemma_clip_offsets(ox0: int, oy0: int, ox1: int, oy1: int, x0: int, y0: int, x1: int, y1: int, e: int)
    requires
        0 <= e,
        abs(line_offset(ox0, oy0, ox1, oy1, x0, y0)) <= e,
        abs(line_offset(ox0, oy0, ox1, oy1, x1, y1)) <= e,
    ensures
        clip_segment(x0, y0, x1, y1) matches Some((p, q)) ==> {
            let m = max_int(abs(ox1 - ox0), abs(oy1 - oy0));
            let k = clip_bits(x0, y0) + clip_bits(x1, y1);
            &&& abs(line_offset(ox0, oy0, ox1, oy1, p.0, p.1)) <= e + k * m
            &&& abs(line_offset(ox0, oy0, ox1, oy1, q.0, q.1)) <= e + k * m
        },
    decreases clip_measure(x0, y0, x1, y1),
{
    let c0 = out_code(x0, y0);
    let c1 = out_code(x1, y1);
    let m = max_int(abs(ox1 - ox0), abs(oy1 - oy0));
    let k = clip_bits(x0, y0) + clip_bits(x1, y1);
    assert(k * m >= 0) by (nonlinear_arith)
        requires
            k >= 0,
            m >= 0,
    ;
    if c0 & c1 != 0 {
    } else if c0 == 0 && c1 == 0 {
    } else {
        let out = if c0 != 0 {
            c0
        } else {
            c1
        };
        let p = clip_point(x0, y0, x1, y1, out);
        lemma_clip_step(x0, y0, x1, y1);
        lemma_clip_step_progress(x0, y0, x1, y1);
        lemma_clip_step_offset(ox0, oy0, ox1, oy1, x0, y0, x1, y1, e);
        if out == c0 {
            lemma_clip_offsets(ox0, oy0, ox1, oy1, p.0, p.1, x1, y1, e + m);
            if clip_segment(p.0, p.1, x1, y1) is Some {
                let k2 = clip_bits(p.0, p.1) + clip_bits(x1, y1);
                assert(e + m + k2 * m <= e + k * m) by (nonlinear_arith)
                    requires
                        k2 <= k - 1,
                        m >= 0,
                ;
            }
        } else {
            lemma_clip_offsets(ox0, oy0, ox1, oy1, x0, y0, p.0, p.1, e + m);
            if clip_segment(x0, y0, p.0, p.1) is Some {
                let k2 = clip_bits(x0, y0) + clip_bits(p.0, p.1);
                assert(e + m + k2 * m <= e + k * m) by (nonlinear_arith)
                    requires
                        k2 <= k - 1,
                        m >= 0,
                ;
            }
        }
    }
}

/// A clipped segment lies on the original line, up to integer rounding: each
/// clipped endpoint `(x, y)` satisfies
/// `|(x - x0) * (y1 - y0) - (y - y0) * (x1 - x0)| <= 4 * max(|x1 - x0|, |y1 - y0|)`,
/// that is, it is at most four pixels along the segment's major axis off the
/// line (each of the at most four clipping steps rounds by less than one).
pub proof fn lemma_clip_segment_on_line(x0: int, y0: int, x1: int, y1: int)
    ensures
        clip_segment(x0, y0, x1, y1) matches Some((p, q)) ==> {
            let m = max_int(abs(x1 - x0), abs(y1 - y0));
            &&& abs(line_offset(x0, y0, x1, y1, p.0, p.1)) <= 4 * m
            &&& abs(line_offset(x0, y0, x1, y1, q.0, q.1)) <= 4 * m
        },
{
    assert(line_offset(x0, y0, x1, y1, x1, y1) == 0) by (nonlinear_arith);
    assert(line_offset(x0, y0, x1, y1, x0, y0) == 0) by (nonlinear_arith);
    lemma_clip_offsets(x0, y0, x1, y1, x0, y0, x1, y1, 0);
    let m = max_int(abs(x1 - x0), abs(y1 - y0));
    let k = clip_bits(x0, y0) + clip_bits(x1, y1);
    assert(k * m <= 4 * m) by (nonlinear_arith)
        requires
            0 <= k <= 4,
            m >= 0,
    ;
}

/// Clipping only shortens a segment: the clipped endpoints lie within the
/// original segment's bounding box, and a segment with both ends on the screen
/// is kept whole.
pub proof fn lemma_clip_segment_within(x0: int, y0: int, x1: int, y1: int)
    ensures
        clip_segment(x0, y0, x1, y1) matches Some((p, q)) ==> {
            &&& between(p.0, x0, x1) && between(p.1, y0, y1)
            &&& between(q.0, x0, x1) && between(q.1, y0, y1)
        },
        on_screen(x0, y0) && on_screen(x1, y1) ==> clip_segment(x0, y0, x1, y1) == Some(
            ((x0, y0), (x1, y1)),
        ),
    decreases clip_measure(x0, y0, x1, y1),
{
    let c0 = out_code(x0, y0);
    let c1 = out_code(x1, y1);
    lemma_out_codes(x0, y0, x1, y1);
    lemma_out_codes(x1, y1, x0, y0);
    if c0 & c1 != 0 {
    } else if c0 == 0 && c1 == 0 {
    } else {
        let out = if c0 != 0 {
            c0
        } else {
            c1
        };
        let p = clip_point(x0, y0, x1, y1, out);
        lemma_clip_step(x0, y0, x1, y1);
        if out == c0 {
            lemma_clip_segment_within(p.0, p.1, x1, y1);
        } else {
            lemma_clip_segment_within(x0, y0, p.0, p.1);
        }
    }
}

fn compute_out_code(x: i64, y: i64) -> (code: u8)
    ensures
        code == out_code(x as int, y as int),
{
    let h = if x < 0 {
        LEFT
    } else if x >= WIDTH as i64 {
        RIGHT
    } else {
        INSIDE
    };
    let v = if y < 0 {
        TOP
    } else if y >= HEIGHT as i64 {
        BOTTOM
    } else {
        INSIDE
    };
    h | v
}

/// A coordinate within the `i32` range.
pub open spec fn in_i32(v: int) -> bool {
    i32::MIN <= v <= i32::MAX
}

/// Clips the segment to the screen (Cohen-Sutherland); `None` when it misses.
fn clip_line(x0: i32, y0: i32, x1: i32, y1: i32) -> (r: Option<((i32, i32), (i32, i32))>)
    ensures
        match clip_segment(x0 as int, y0 as int, x1 as int, y1 as int) {
            None => r is None,
            Some((p, q)) => r == Some(((p.0 as i32, p.1 as i32), (q.0 as i32, q.1 as i32))),
        },
{
    let x_min = 0i64;
    let y_min = 0i64;
    let x_max = (WIDTH - 1) as i64;
    let y_max = (HEIGHT - 1) as i64;
    let ghost goal = clip_segment(x0 as int, y0 as int, x1 as int, y1 as int);
    let mut ax = x0 as i64;
    let mut ay = y0 as i64;
    let mut bx = x1 as i64;
    let mut by = y1 as i64;
    loop
        invariant
            x_min == 0 && y_min == 0 && x_max == 127 && y_max == 63,
            in_i32(ax as int) && in_i32(ay as int) && in_i32(bx as int) && in_i32(by as int),
            clip_segment(ax as int, ay as int, bx as int, by as int) == goal,
            goal == clip_segment(x0 as int, y0 as int, x1 as int, y1 as int),
        decreases clip_measure(ax as int, ay as int, bx as int, by as int),
    {
        let c0 = compute_out_code(ax, ay);
        let c1 = compute_out_code(bx, by);
        // Both endpoints beyond the same edge: the segment is not visible.
        if c0 & c1 != 0 {
            return None;
        }
        // Both endpoints on the screen.
        if c0 == 0 && c1 == 0 {
            proof {
                lemma_out_codes(ax as int, ay as int, bx as int, by as int);
                lemma_out_codes(bx as int, by as int, ax as int, ay as int);
            }
            return Some(((ax as i32, ay as i32), (bx as i32, by as i32)));
        }
        // Move an endpoint that lies outside onto the edge it lies beyond.
        let out = if c0 != 0 { c0 } else { c1 };
        let ghost p = clip_point(ax as int, ay as int, bx as int, by as int, out);
        proof {
            lemma_clip_step(ax as int, ay as int, bx as int, by as int);
            lemma_out_codes(ax as int, ay as int, bx as int, by as int);
            lemma_out_codes(bx as int, by as int, ax as int, ay as int);
            lemma_code_bits(
                horizontal_code(if c0 != 0 { ax as int } else { bx as int }),
                vertical_code(if c0 != 0 { ay as int } else { by as int }),
            );
        }
        let (x, y) = if out & TOP != 0 {
            proof {
                lemma_product_fits(bx - ax, y_min - ay);
            }
            (ax + div_i64((bx - ax) * (y_min - ay), by - ay), y_min)
        } else if out & BOTTOM != 0 {
            proof {
                lemma_product_fits(bx - ax, y_max - ay);
            }
            (ax + div_i64((bx - ax) * (y_max - ay), by - ay), y_max)
        } else if out & RIGHT != 0 {
            proof {
                lemma_product_fits(by - ay, x_max - ax);
            }
            (x_max, ay + div_i64((by - ay) * (x_max - ax), bx - ax))
        } else {
            proof {
                lemma_product_fits(by - ay, x_min - ax);
            }
            (x_min, ay + div_i64((by - ay) * (x_min - ax), bx - ax))
        };
        if out == c0 {
            ax = x;
            ay = y;
        } else {
            bx = x;
            by = y;
        }
    }
}

/// The products of clipping stay far from the `i64` limits.
proof fn lemma_product_fits(d: int, n: int)
    requires
        -0xFFFF_FFFF <= d <= 0xFFFF_FFFF,
        -0x8000_0000 <= n <= 0x8000_0000,
    ensures
        -0x7FFF_FFFF_8000_0000 <= d * n <= 0x7FFF_FFFF_8000_0000,
{
    assert(-0x7FFF_FFFF_8000_0000 <= d * n <= 0x7FFF_FFFF_8000_0000) by (nonlinear_arith)
        requires
            -0xFFFF_FFFF <= d <= 0xFFFF_FFFF,
            -0x8000_0000 <= n <= 0x8000_0000,
    ;
}

// ---------------------------------------------------------------------------
// Straight lines (Bresenham)
// ---------------------------------------------------------------------------

/// The state `(x, y, err)` of a Bresenham walk from `(x0, y0)` to `(x1, y1)`:
/// the point lies in the segment's bounding box, and the error term records how
/// many steps each axis has taken.
pub open spec fn walk_inv(x0: int, y0: int, x1: int, y1: int, x: int, y: int, err: int) -> bool {
    let dx = abs(x1 - x0);
    let ady = abs(y1 - y0);
    &&& between(x, x0, x1)
    &&& between(y, y0, y1)
    &&& err == dx * (abs(y - y0) + 1) - ady * (abs(x - x0) + 1)
}

/// One step of the walk: the next point and error term.
pub open spec fn walk_step(x0: int, y0: int, x1: int, y1: int, x: int, y: int, err: int) -> (int, int, int) {
    let dx = abs(x1 - x0);
    let dy = -abs(y1 - y0);
    let sx: int = if x0 < x1 {
        1
    } else {
        -1
    };
    let sy: int = if y0 < y1 {
        1
    } else {
        -1
    };
    let e2 = 2 * err;
    let (x2, err2) = if e2 >= dy {
        (x + sx, err + dy)
    } else {
        (x, err)
    };
    let (y2, err3) = if e2 <= dx {
        (y + sy, err2 + dx)
    } else {
        (y, err2)
    };
    (x2, y2, err3)
}

/// A step keeps the walk's invariant and brings it strictly closer to the end.
pub proof fn lemma_walk_step(x0: int, y0: int, x1: int, y1: int, x: int, y: int, err: int)
    requires
        walk_inv(x0, y0, x1, y1, x, y, err),
        !(x == x1 && y == y1),
    ensures
        ({
            let (x2, y2, err2) = walk_step(x0, y0, x1, y1, x, y, err);
            &&& walk_inv(x0, y0, x1, y1, x2, y2, err2)
            &&& abs(x1 - x2) + abs(y1 - y2) < abs(x1 - x) + abs(y1 - y)
        }),
{
    let dx = abs(x1 - x0);
    let ady = abs(y1 - y0);
    let kx = abs(x - x0);
    let ky = abs(y - y0);
    let e2 = 2 * err;
    // No step past the end on either axis.
    if x == x1 {
        assert(kx == dx);
        assert(ky < ady);
        assert(dx * ky <= dx * (ady - 1)) by (nonlinear_arith)
            requires
                dx >= 0,
                0 <= ky <= ady - 1,
        ;
        assert(dx * (ky + 1) == dx * ky + dx) by (nonlinear_arith);
        assert(ady * (kx + 1) == ady * dx + ady) by (nonlinear_arith)
            requires
                kx == dx,
        ;
        assert(dx * (ady - 1) == dx * ady - dx) by (nonlinear_arith);
        assert(ady * dx == dx * ady) by (nonlinear_arith);
        assert(e2 < -ady);
    }
    if y == y1 {
        assert(ky == ady);
        assert(kx < dx);
        assert(ady * kx <= ady * (dx - 1)) by (nonlinear_arith)
            requires
                ady >= 0,
                0 <= kx <= dx - 1,
        ;
        assert(ady * (kx + 1) == ady * kx + ady) by (nonlinear_arith);
        assert(dx * (ky + 1) == dx * ady + dx) by (nonlinear_arith)
            requires
                ky == ady,
        ;
        assert(ady * (dx - 1) == ady * dx - ady) by (nonlinear_arith);
        assert(ady * dx == dx * ady) by (nonlinear_arith);
        assert(e2 > dx);
    }
    let xs = e2 >= -ady;
    let ys = e2 <= dx;
    let kx2 = if xs {
        kx + 1
    } else {
        kx
    };
    let ky2 = if ys {
        ky + 1
    } else {
        ky
    };
    let err2 = err + (if xs {
        -ady
    } else {
        0
    }) + (if ys {
        dx
    } else {
        0
    });
    assert(err2 == dx * (ky2 + 1) - ady * (kx2 + 1)) by (nonlinear_arith)
        requires
            err == dx * (ky + 1) - ady * (kx + 1),
            kx2 == kx + (if xs { 1int } else { 0int }),
            ky2 == ky + (if ys { 1int } else { 0int }),
            err2 == err + (if xs { -ady } else { 0 }) + (if ys { dx } else { 0 }),
    ;
}

/// The points a Bresenham walk in state `(x, y, err)` plots, up to and
/// including `(x1, y1)`.
pub open spec fn line_walk(x0: int, y0: int, x1: int, y1: int, x: int, y: int, err: int) -> Seq<
    (int, int),
>
    decreases abs(x1 - x) + abs(y1 - y),
    when walk_inv(x0, y0, x1, y1, x, y, err)
{
    if x == x1 && y == y1 {
        seq![(x, y)]
    } else {
        let (x2, y2, err2) = walk_step(x0, y0, x1, y1, x, y, err);
        proof {
            lemma_walk_step(x0, y0, x1, y1, x, y, err);
        }
        seq![(x, y)] + line_walk(x0, y0, x1, y1, x2, y2, err2)
    }
}

/// The Bresenham line from `(x0, y0)` to `(x1, y1)`.
pub open spec fn line_points(x0: int, y0: int, x1: int, y1: int) -> Seq<(int, int)> {
    line_walk(x0, y0, x1, y1, x0, y0, abs(x1 - x0) - abs(y1 - y0))
}

/// The walk from any valid state starts at that point, ends at `(x1, y1)`, and
/// stays within the segment's bounding box.
pub proof fn lemma_line_walk(x0: int, y0: int, x1: int, y1: int, x: int, y: int, err: int)
    requires
        walk_inv(x0, y0, x1, y1, x, y, err),
    ensures
        line_walk(x0, y0, x1, y1, x, y, err).len() >= 1,
        line_walk(x0, y0, x1, y1, x, y, err)[0] == (x, y),
        line_walk(x0, y0, x1, y1, x, y, err).last() == (x1, y1),
        forall|i: int|
            0 <= i < line_walk(x0, y0, x1, y1, x, y, err).len() ==> between(
                #[trigger] line_walk(x0, y0, x1, y1, x, y, err)[i].0,
                x0,
                x1,
            ) && between(line_walk(x0, y0, x1, y1, x, y, err)[i].1, y0, y1),
    decreases abs(x1 - x) + abs(y1 - y),
{
    if x == x1 && y == y1 {
        assert(line_walk(x0, y0, x1, y1, x, y, err) == seq![(x, y)]);
    } else {
        let (x2, y2, err2) = walk_step(x0, y0, x1, y1, x, y, err);
        lemma_walk_step(x0, y0, x1, y1, x, y, err);
        lemma_line_walk(x0, y0, x1, y1, x2, y2, err2);
        let rest = line_walk(x0, y0, x1, y1, x2, y2, err2);
        let all = line_walk(x0, y0, x1, y1, x, y, err);
        assert(all == seq![(x, y)] + rest);
        assert forall|i: int| 0 <= i < all.len() implies between(#[trigger] all[i].0, x0, x1) && between(
            all[i].1,
            y0,
            y1,
        ) by {
            if i > 0 {
                assert(all[i] == rest[i - 1]);
            }
        }
    }
}

/// The points a walk plots after its current one.
pub open spec fn walk_rest(x0: int, y0: int, x1: int, y1: int, x: int, y: int, err: int) -> Seq<(int, int)> {
    if x == x1 && y == y1 {
        Seq::empty()
    } else {
        let (x2, y2, err2) = walk_step(x0, y0, x1, y1, x, y, err);
        line_walk(x0, y0, x1, y1, x2, y2, err2)
    }
}

/// A walk plots its current point, then the rest.
pub proof fn lemma_walk_unfold(x0: int, y0: int, x1: int, y1: int, x: int, y: int, err: int)
    requires
        walk_inv(x0, y0, x1, y1, x, y, err),
    ensures
        line_walk(x0, y0, x1, y1, x, y, err) == seq![(x, y)] + walk_rest(x0, y0, x1, y1, x, y, err),
{
    if x == x1 && y == y1 {
        assert(seq![(x, y)] + Seq::<(int, int)>::empty() =~= seq![(x, y)]);
    } else {
        let (x2, y2, err2) = walk_step(x0, y0, x1, y1, x, y, err);
        lemma_walk_step(x0, y0, x1, y1, x, y, err);
        assert(line_walk(x0, y0, x1, y1, x, y, err) == seq![(x, y)] + line_walk(x0, y0, x1, y1, x2, y2, err2));
    }
}

/// A walk starts in a valid state.
pub proof fn lemma_walk_start(x0: int, y0: int, x1: int, y1: int)
    ensures
        walk_inv(x0, y0, x1, y1, x0, y0, abs(x1 - x0) - abs(y1 - y0)),
{
    let dx = abs(x1 - x0);
    let ady = abs(y1 - y0);
    assert(abs(x0 - x0) == 0 && abs(y0 - y0) == 0);
    assert(dx * (0 + 1) == dx && ady * (0 + 1) == ady) by (nonlinear_arith);
}

/// The Bresenham line from `(x0, y0)` to `(x1, y1)` starts and ends at the two
/// endpoints and stays within their bounding box.
pub proof fn lemma_line_points(x0: int, y0: int, x1: int, y1: int)
    ensures
        line_points(x0, y0, x1, y1).len() >= 1,
        line_points(x0, y0, x1, y1)[0] == (x0, y0),
        line_points(x0, y0, x1, y1).last() == (x1, y1),
        forall|i: int|
            0 <= i < line_points(x0, y0, x1, y1).len() ==> between(
                #[trigger] line_points(x0, y0, x1, y1)[i].0,
                x0,
                x1,
            ) && between(line_points(x0, y0, x1, y1)[i].1, y0, y1),
{
    lemma_walk_start(x0, y0, x1, y1);
    lemma_line_walk(x0, y0, x1, y1, x0, y0, abs(x1 - x0) - abs(y1 - y0));
}

/// Lights `(x, y)` when it is on the screen.
fn plot_point(fb: &mut Framebuffer, x: i32, y: i32)
    ensures
        final(fb).state() == plot(old(fb).state(), x as int, y as int, true),
{
    if 0 <= x && x < WIDTH as i32 && 0 <= y && y < HEIGHT as i32 {
        fb.set_pixel(x as usize, y as usize, true);
    }
}

/// Lights `(x, y)` when it is on the screen (`i64` coordinates).
fn plot_point_i64(fb: &mut Framebuffer, x: i64, y: i64)
    ensures
        final(fb).state() == plot(old(fb).state(), x as int, y as int, true),
{
    if 0 <= x && x < WIDTH as i64 && 0 <= y && y < HEIGHT as i64 {
        fb.set_pixel(x as usize, y as usize, true);
    }
}

/// Bresenham's line between two on-screen points.
fn draw_line_raw(fb: &mut Framebuffer, x0: i32, y0: i32, x1: i32, y1: i32)
    requires
        on_screen(x0 as int, y0 as int),
        on_screen(x1 as int, y1 as int),
    ensures
        final(fb).state() == plot_all(
            old(fb).state(),
            line_points(x0 as int, y0 as int, x1 as int, y1 as int),
            true,
        ),
{
    let dx = if x1 >= x0 { x1 - x0 } else { x0 - x1 };
    let sx: i32 = if x0 < x1 { 1 } else { -1 };
    let dy = -(if y1 >= y0 { y1 - y0 } else { y0 - y1 });
    let sy: i32 = if y0 < y1 { 1 } else { -1 };
    let mut err = dx + dy;
    let mut x = x0;
    let mut y = y0;
    let ghost target = plot_all(
        fb.state(),
        line_points(x0 as int, y0 as int, x1 as int, y1 as int),
        true,
    );
    proof {
        lemma_walk_start(x0 as int, y0 as int, x1 as int, y1 as int);
    }
    loop
        invariant_except_break
            dx == abs(x1 - x0),
            dy == -abs(y1 - y0),
            sx == (if x0 < x1 { 1int } else { -1int }),
            sy == (if y0 < y1 { 1int } else { -1int }),
            walk_inv(x0 as int, y0 as int, x1 as int, y1 as int, x as int, y as int, err as int),
            plot_all(fb.state(), line_walk(x0 as int, y0 as int, x1 as int, y1 as int, x as int, y as int, err as int), true)
                == target,
            0 <= x0 < 128 && 0 <= x1 < 128 && 0 <= y0 < 64 && 0 <= y1 < 64,
        ensures
            fb.state() == target,
        decreases abs(x1 - x) + abs(y1 - y),
    {
        let ghost rest = walk_rest(x0 as int, y0 as int, x1 as int, y1 as int, x as int, y as int, err as int);
        proof {
            lemma_walk_unfold(x0 as int, y0 as int, x1 as int, y1 as int, x as int, y as int, err as int);
            lemma_plot_all_cons(fb.state(), (x as int, y as int), rest, true);
            assert(err * 2 <= 2 * (128 * 65) && err * 2 >= -2 * (64 * 129)) by (nonlinear_arith)
                requires
                    err == dx * (abs(y - y0) + 1) - (-dy) * (abs(x - x0) + 1),
                    0 <= dx < 128,
                    0 <= -dy < 64,
                    0 <= abs(y - y0) < 64,
                    0 <= abs(x - x0) < 128,
            ;
        }
        plot_point(fb, x, y);
        if x == x1 && y == y1 {
            proof {
                assert(rest =~= Seq::<(int, int)>::empty());
            }
            break;
        }
        proof {
            lemma_walk_step(x0 as int, y0 as int, x1 as int, y1 as int, x as int, y as int, err as int);
        }
        let e2 = 2 * err;
        if e2 >= dy {
            err = err + dy;
            x = x + sx;
        }
        if e2 <= dx {
            err = err + dx;
            y = y + sy;
        }
    }
}

/// Draws the straight line from `(x0, y0)` to `(x1, y1)` (Bresenham).
///
/// The segment is first clipped to the screen (Cohen-Sutherland), so huge
/// coordinates cause neither overflow nor long loops.
pub fn draw_line(fb: &mut Framebuffer, x0: i32, y0: i32, x1: i32, y1: i32)
    ensures
        final(fb).state() == plot_all(old(fb).state(), segment_points(x0 as int, y0 as int, x1 as int, y1 as int), true),
{
    proof {
        lemma_clip_segment_on_screen(x0 as int, y0 as int, x1 as int, y1 as int);
    }
    match clip_line(x0, y0, x1, y1) {
        Some(((cx0, cy0), (cx1, cy1))) => draw_line_raw(fb, cx0, cy0, cx1, cy1),
        None => {},
    }
}

/// The points [`draw_line`] lights: the Bresenham line of the clipped segment.
pub open spec fn segment_points(x0: int, y0: int, x1: int, y1: int) -> Seq<(int, int)> {
    match clip_segment(x0, y0, x1, y1) {
        None => Seq::empty(),
        Some((p, q)) => line_points(p.0, p.1, q.0, q.1),
    }
}

/// A segment with both endpoints on the screen is drawn unclipped: the
/// Bresenham line from one endpoint to the other, lighting both.
pub proof fn lemma_line_on_screen(x0: int, y0: int, x1: int, y1: int)
    requires
        on_screen(x0, y0),
        on_screen(x1, y1),
    ensures
        segment_points(x0, y0, x1, y1) == line_points(x0, y0, x1, y1),
        segment_points(x0, y0, x1, y1).contains((x0, y0)),
        segment_points(x0, y0, x1, y1).contains((x1, y1)),
{
    lemma_out_codes(x0, y0, x1, y1);
    lemma_out_codes(x1, y1, x0, y0);
    lemma_line_points(x0, y0, x1, y1);
    let pts = line_points(x0, y0, x1, y1);
    assert(pts[0] == (x0, y0));
    assert(pts[pts.len() - 1] == (x1, y1));
}

/// Draws the outline of the triangle with the three given corners.
pub fn draw_triangle(fb: &mut Framebuffer, x0: i32, y0: i32, x1: i32, y1: i32, x2: i32, y2: i32)
    ensures
        final(fb).state() == plot_all(
            old(fb).state(),
            segment_points(x0 as int, y0 as int, x1 as int, y1 as int) + segment_points(
                x1 as int,
                y1 as int,
                x2 as int,
                y2 as int,
            ) + segment_points(x2 as int, y2 as int, x0 as int, y0 as int),
            true,
        ),
{
    let ghost s0 = fb.state();
    let ghost a = segment_points(x0 as int, y0 as int, x1 as int, y1 as int);
    let ghost b = segment_points(x1 as int, y1 as int, x2 as int, y2 as int);
    let ghost c = segment_points(x2 as int, y2 as int, x0 as int, y0 as int);
    draw_line(fb, x0, y0, x1, y1);
    draw_line(fb, x1, y1, x2, y2);
    draw_line(fb, x2, y2, x0, y0);
    proof {
        lemma_plot_all_append(s0, a, b, true);
        lemma_plot_all_append(s0, a + b, c, true);
    }
}

// ---------------------------------------------------------------------------
// Row fills shared by the filled shapes
// ---------------------------------------------------------------------------

/// The on-screen points of row `y` between `x0` and `x1` (inclusive), left to right.
pub open spec fn row_span(x0: int, x1: int, y: int) -> Seq<(int, int)> {
    if 0 <= y < HEIGHT {
        span_x(max_int(x0, 0), min_int(x1, WIDTH - 1) + 1, y)
    } else {
        Seq::empty()
    }
}

/// A row span holds every on-screen point of its row between its ends.
pub proof fn lemma_row_span_contains(x0: int, x1: int, y: int, px: int)
    requires
        on_screen(px, y),
        x0 <= px <= x1,
    ensures
        row_span(x0, x1, y).contains((px, y)),
{
    let st = max_int(x0, 0);
    let en = min_int(x1, WIDTH - 1) + 1;
    assert(span_x(st, en, y)[px - st] == (px, y));
}

/// Lights the pixels of row `y` from `x0` to `x1` (inclusive), clipped to the screen.
pub(crate) fn fill_row(fb: &mut Framebuffer, x0: i64, x1: i64, y: i64)
    ensures
        final(fb).state() == plot_all(old(fb).state(), row_span(x0 as int, x1 as int, y as int), true),
{
    if !(0 <= y && y < HEIGHT as i64) {
        return;
    }
    if x1 < 0 || x0 >= WIDTH as i64 {
        return;
    }
    let start: usize = if x0 > 0 { x0 as usize } else { 0 };
    let end: usize = if x1 < (WIDTH - 1) as i64 { x1 as usize + 1 } else { WIDTH };
    let row = y as usize;
    let ghost pts = row_span(x0 as int, x1 as int, y as int);
    if start >= end {
        proof {
            assert(pts =~= Seq::<(int, int)>::empty());
        }
        return;
    }
    let ghost s0 = fb.state();
    let mut px = start;
    while px < end
        invariant
            start <= px <= end <= WIDTH,
            row < HEIGHT,
            row == y,
            pts == span_x(start as int, end as int, y as int),
            fb.state() == plot_all(s0, pts.take(px - start), true),
        decreases end - px,
    {
        proof {
            lemma_plot_all_next(s0, pts, px - start, true);
        }
        fb.set_pixel(px, row, true);
        px = px + 1;
    }
    proof {
        assert(pts.take(px - start) =~= pts);
    }
}

} // verus!
