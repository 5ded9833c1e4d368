//! 1-bit framebuffer, 1024 bytes, laid out like the SSD1309 GDDRAM.
//!
//! Layout: 8 pages × 128 columns. Each byte holds 8 vertical pixels of one
//! column; bit 0 is the topmost pixel of the page.
//!
//! Every write through the framebuffer's methods (`set_pixel`, `draw_pixels`,
//! `clear`, `fill_all`, `blit`) records the modified region in a dirty rectangle,
//! so that only the changed part needs to be pushed to the panel.
use super::scroll::{
    blend_byte, blend_scroll_frame, hscroll_byte, scroll_horizontal_bits, scroll_vertical_bits,
    vscroll_source_row,
};
use super::{ScrollDirection, VerticalDirection};
use vstd::arithmetic::div_mod::{lemma_mod_add_multiples_vanish, lemma_mod_self_0, lemma_small_mod};
use vstd::prelude::*;

verus! {

/// Display width in pixels.
pub const WIDTH: usize = 128;

/// Display height in pixels.
pub const HEIGHT: usize = 64;

/// Size of the framebuffer in bytes (`WIDTH * HEIGHT / 8`).
pub const BUFFER_LEN: usize = 1024;

// ---------------------------------------------------------------------------
// Mathematical model
// ---------------------------------------------------------------------------

/// `(x, y)` lies on the 128×64 screen.
pub open spec fn on_screen(x: int, y: int) -> bool {
    0 <= x < WIDTH && 0 <= y < HEIGHT
}

/// Index of the byte holding pixel `(x, y)`: `page * WIDTH + column`.
pub open spec fn byte_index(x: int, y: int) -> int {
    (y / 8) * 128 + x
}

/// Bit `k` (0 = least significant) of `b` is set.
pub open spec fn bit_set(b: u8, k: u8) -> bool {
    b & (1u8 << k) != 0
}

/// `b` with bit `k` set (`on`) or cleared (`!on`).
pub open spec fn with_bit(b: u8, k: u8, on: bool) -> u8 {
    if on {
        b | (1u8 << k)
    } else {
        b & !(1u8 << k)
    }
}

/// Pixel `(x, y)` of a buffer in GDDRAM layout.
pub open spec fn pixel_of(bytes: Seq<u8>, x: int, y: int) -> bool {
    bit_set(bytes[byte_index(x, y)], (y % 8) as u8)
}

/// The abstract state of a framebuffer: its bytes and its dirty rectangle,
/// given as half-open bounds `(x0, y0, x1, y1)`.
pub struct FrameState {
    pub bytes: Seq<u8>,
    pub dirty: Option<(int, int, int, int)>,
}

pub open spec fn min_int(a: int, b: int) -> int {
    if a <= b {
        a
    } else {
        b
    }
}

pub open spec fn max_int(a: int, b: int) -> int {
    if a >= b {
        a
    } else {
        b
    }
}

/// The dirty rectangle `d` grown to cover the half-open box `[x0, x1) × [y0, y1)`.
pub open spec fn grow_dirty(d: Option<(int, int, int, int)>, x0: int, y0: int, x1: int, y1: int) -> Option<
    (int, int, int, int),
> {
    match d {
        None => Some((x0, y0, x1, y1)),
        Some((a, b, c, e)) => Some((min_int(a, x0), min_int(b, y0), max_int(c, x1), max_int(e, y1))),
    }
}

/// The dirty rectangle `d` grown to cover pixel `(x, y)`.
pub open spec fn grow_dirty_point(d: Option<(int, int, int, int)>, x: int, y: int) -> Option<
    (int, int, int, int),
> {
    grow_dirty(d, x, y, x + 1, y + 1)
}

/// The state after writing pixel `(x, y)` as `on`; off-screen writes change nothing.
pub open spec fn plot(s: FrameState, x: int, y: int, on: bool) -> FrameState {
    if on_screen(x, y) {
        FrameState {
            bytes: s.bytes.update(
                byte_index(x, y),
                with_bit(s.bytes[byte_index(x, y)], (y % 8) as u8, on),
            ),
            dirty: grow_dirty_point(s.dirty, x, y),
        }
    } else {
        s
    }
}

/// The state after writing every point of `pts`, in order, as `on`.
pub open spec fn plot_all(s: FrameState, pts: Seq<(int, int)>, on: bool) -> FrameState
    decreases pts.len(),
{
    if pts.len() == 0 {
        s
    } else {
        plot_all(plot(s, pts[0].0, pts[0].1, on), pts.drop_first(), on)
    }
}

/// The state after writing each pixel `(x, y, on)` of `pixels`, in order.
pub open spec fn draw_all(s: FrameState, pixels: Seq<(i32, i32, bool)>) -> FrameState
    decreases pixels.len(),
{
    if pixels.len() == 0 {
        s
    } else {
        draw_all(plot(s, pixels[0].0 as int, pixels[0].1 as int, pixels[0].2), pixels.drop_first())
    }
}

// ---------------------------------------------------------------------------
// Lemmas about the model
// ---------------------------------------------------------------------------

/// Setting or clearing one bit leaves every other bit as it was.
pub proof fn lemma_with_bit(b: u8, k: u8, j: u8, on: bool)
    requires
        k < 8,
        j < 8,
    ensures
        bit_set(with_bit(b, k, on), j) == if j == k {
            on
        } else {
            bit_set(b, j)
        },
{
    if on {
        assert(bit_set(b | (1u8 << k), j) == if j == k {
            true
        } else {
            bit_set(b, j)
        }) by (bit_vector)
            requires
                k < 8,
                j < 8,
        ;
    } else {
        assert(bit_set(b & !(1u8 << k), j) == if j == k {
            false
        } else {
            bit_set(b, j)
        }) by (bit_vector)
            requires
                k < 8,
                j < 8,
        ;
    }
}

/// Two bytes with the same eight bits are equal.
pub proof fn lemma_bits_determine_byte(a: u8, b: u8)
    requires
        forall|j: u8| j < 8 ==> bit_set(a, j) == bit_set(b, j),
    ensures
        a == b,
{
    assert(bit_set(a, 0) == bit_set(b, 0));
    assert(bit_set(a, 1) == bit_set(b, 1));
    assert(bit_set(a, 2) == bit_set(b, 2));
    assert(bit_set(a, 3) == bit_set(b, 3));
    assert(bit_set(a, 4) == bit_set(b, 4));
    assert(bit_set(a, 5) == bit_set(b, 5));
    assert(bit_set(a, 6) == bit_set(b, 6));
    assert(bit_set(a, 7) == bit_set(b, 7));
    assert(a == b) by (bit_vector)
        requires
            (a & (1u8 << 0u8) != 0) == (b & (1u8 << 0u8) != 0),
            (a & (1u8 << 1u8) != 0) == (b & (1u8 << 1u8) != 0),
            (a & (1u8 << 2u8) != 0) == (b & (1u8 << 2u8) != 0),
            (a & (1u8 << 3u8) != 0) == (b & (1u8 << 3u8) != 0),
            (a & (1u8 << 4u8) != 0) == (b & (1u8 << 4u8) != 0),
            (a & (1u8 << 5u8) != 0) == (b & (1u8 << 5u8) != 0),
            (a & (1u8 << 6u8) != 0) == (b & (1u8 << 6u8) != 0),
            (a & (1u8 << 7u8) != 0) == (b & (1u8 << 7u8) != 0),
    ;
}

/// On-screen pixels map to in-range byte indices, and two on-screen pixels
/// share a byte exactly when they share a column and a page.
pub proof fn lemma_byte_index(x: int, y: int, x2: int, y2: int)
    requires
        on_screen(x, y),
        on_screen(x2, y2),
    ensures
        0 <= byte_index(x, y) < BUFFER_LEN,
        byte_index(x, y) == byte_index(x2, y2) <==> (x == x2 && y / 8 == y2 / 8),
        (x == x2 && y / 8 == y2 / 8 && y % 8 == y2 % 8) ==> y == y2,
        0 <= y % 8 < 8,
{
}

/// Writing one on-screen pixel changes that pixel and no other.
pub proof fn lemma_plot_pixel(s: FrameState, x: int, y: int, on: bool, px: int, py: int)
    requires
        s.bytes.len() == BUFFER_LEN,
        on_screen(px, py),
    ensures
        plot(s, x, y, on).bytes.len() == BUFFER_LEN,
        pixel_of(plot(s, x, y, on).bytes, px, py) == if px == x && py == y {
            on
        } else {
            pixel_of(s.bytes, px, py)
        },
{
    if on_screen(x, y) {
        lemma_byte_index(x, y, px, py);
        let i = byte_index(x, y);
        if byte_index(px, py) == i {
            lemma_with_bit(s.bytes[i], (y % 8) as u8, (py % 8) as u8, on);
        }
    }
}

/// A point lies in `a + b` exactly when it lies in `a` or in `b`.
pub proof fn lemma_contains_append<T>(a: Seq<T>, b: Seq<T>, p: T)
    ensures
        (a + b).contains(p) <==> (a.contains(p) || b.contains(p)),
{
    if (a + b).contains(p) {
        let i = choose|i: int| 0 <= i < (a + b).len() && (a + b)[i] == p;
        if i >= a.len() {
            assert(b[i - a.len()] == p);
        }
    }
    if a.contains(p) {
        let i = choose|i: int| 0 <= i < a.len() && a[i] == p;
        assert((a + b)[i] == p);
    }
    if b.contains(p) {
        let i = choose|i: int| 0 <= i < b.len() && b[i] == p;
        assert((a + b)[i + a.len()] == p);
    }
}

/// Writing a sequence of points in one colour: a pixel takes that colour exactly
/// when it is one of the points, and keeps its old value otherwise.
pub proof fn lemma_plot_all_pixel(s: FrameState, pts: Seq<(int, int)>, on: bool, px: int, py: int)
    requires
        s.bytes.len() == BUFFER_LEN,
        on_screen(px, py),
    ensures
        plot_all(s, pts, on).bytes.len() == BUFFER_LEN,
        pixel_of(plot_all(s, pts, on).bytes, px, py) == if pts.contains((px, py)) {
            on
        } else {
            pixel_of(s.bytes, px, py)
        },
    decreases pts.len(),
{
    if pts.len() > 0 {
        let s1 = plot(s, pts[0].0, pts[0].1, on);
        lemma_plot_pixel(s, pts[0].0, pts[0].1, on, px, py);
        lemma_plot_all_pixel(s1, pts.drop_first(), on, px, py);
        if pts.contains((px, py)) && !pts.drop_first().contains((px, py)) {
            let i = choose|i: int| 0 <= i < pts.len() && pts[i] == (px, py);
            if i > 0 {
                assert(pts.drop_first()[i - 1] == (px, py));
            }
        }
        if pts.drop_first().contains((px, py)) {
            let i = choose|i: int| 0 <= i < pts.drop_first().len() && pts.drop_first()[i] == (px, py);
            assert(pts[i + 1] == (px, py));
        }
    }
}

/// Pixel `(x, y)` lies in the dirty rectangle `d` (half-open bounds).
pub open spec fn in_dirty(d: Option<(int, int, int, int)>, x: int, y: int) -> bool {
    match d {
        Some((x0, y0, x1, y1)) => x0 <= x < x1 && y0 <= y < y1,
        None => false,
    }
}

/// One write keeps what was dirty dirty, and the written on-screen pixel
/// becomes dirty.
proof fn lemma_plot_dirty(s: FrameState, x: int, y: int, on: bool, px: int, py: int)
    ensures
        in_dirty(s.dirty, px, py) ==> in_dirty(plot(s, x, y, on).dirty, px, py),
        on_screen(x, y) ==> in_dirty(plot(s, x, y, on).dirty, x, y),
{
}

/// Dirty tracking is sound: drawing never shrinks the dirty rectangle, and
/// every pixel whose value it changes lies in the dirty rectangle afterwards.
/// Pushing the dirty rectangle therefore pushes every change.
pub proof fn lemma_dirty_covers_changes(s: FrameState, pts: Seq<(int, int)>, on: bool, px: int, py: int)
    requires
        s.bytes.len() == BUFFER_LEN,
        on_screen(px, py),
    ensures
        in_dirty(s.dirty, px, py) ==> in_dirty(plot_all(s, pts, on).dirty, px, py),
        pixel_of(plot_all(s, pts, on).bytes, px, py) != pixel_of(s.bytes, px, py) ==> in_dirty(
            plot_all(s, pts, on).dirty,
            px,
            py,
        ),
    decreases pts.len(),
{
    if pts.len() > 0 {
        let s1 = plot(s, pts[0].0, pts[0].1, on);
        lemma_plot_pixel(s, pts[0].0, pts[0].1, on, px, py);
        lemma_plot_dirty(s, pts[0].0, pts[0].1, on, px, py);
        lemma_dirty_covers_changes(s1, pts.drop_first(), on, px, py);
    }
}

/// Dirty tracking covers every write: after writing `pts`, every on-screen
/// point of `pts` lies in the dirty rectangle, what was dirty stays dirty, and
/// the rectangle is still empty only when nothing was dirty and no point was
/// on the screen.
pub proof fn lemma_dirty_covers_writes(s: FrameState, pts: Seq<(int, int)>, on: bool)
    ensures
        forall|i: int|
            0 <= i < pts.len() && on_screen(pts[i].0, pts[i].1) ==> in_dirty(
                plot_all(s, pts, on).dirty,
                #[trigger] pts[i].0,
                pts[i].1,
            ),
        forall|px: int, py: int| #[trigger] in_dirty(s.dirty, px, py) ==> in_dirty(plot_all(s, pts, on).dirty, px, py),
        plot_all(s, pts, on).dirty is None ==> s.dirty is None && forall|i: int|
            0 <= i < pts.len() ==> !on_screen(#[trigger] pts[i].0, pts[i].1),
    decreases pts.len(),
{
    if pts.len() > 0 {
        let s1 = plot(s, pts[0].0, pts[0].1, on);
        let rest = pts.drop_first();
        lemma_dirty_covers_writes(s1, rest, on);
        assert forall|px: int, py: int| #[trigger] in_dirty(s.dirty, px, py) implies in_dirty(
            plot_all(s, pts, on).dirty,
            px,
            py,
        ) by {
            lemma_plot_dirty(s, pts[0].0, pts[0].1, on, px, py);
        }
        lemma_plot_dirty(s, pts[0].0, pts[0].1, on, pts[0].0, pts[0].1);
        assert forall|i: int| 0 <= i < pts.len() && on_screen(pts[i].0, pts[i].1) implies in_dirty(
            plot_all(s, pts, on).dirty,
            #[trigger] pts[i].0,
            pts[i].1,
        ) by {
            if i > 0 {
                assert(rest[i - 1] == pts[i]);
            }
        }
        if plot_all(s, pts, on).dirty is None {
            assert forall|i: int| 0 <= i < pts.len() implies !on_screen(#[trigger] pts[i].0, pts[i].1) by {
                if i > 0 {
                    assert(rest[i - 1] == pts[i]);
                }
            }
        }
    }
}

/// [`lemma_dirty_covers_writes`] for pixels written in several colours (as by
/// [`Framebuffer::draw_pixels`]).
pub proof fn lemma_dirty_covers_drawn_writes(s: FrameState, pixels: Seq<(i32, i32, bool)>)
    ensures
        forall|i: int|
            0 <= i < pixels.len() && on_screen(pixels[i].0 as int, pixels[i].1 as int) ==> in_dirty(
                draw_all(s, pixels).dirty,
                #[trigger] pixels[i].0 as int,
                pixels[i].1 as int,
            ),
        forall|px: int, py: int| #[trigger] in_dirty(s.dirty, px, py) ==> in_dirty(draw_all(s, pixels).dirty, px, py),
        draw_all(s, pixels).dirty is None ==> s.dirty is None && forall|i: int|
            0 <= i < pixels.len() ==> !on_screen(#[trigger] pixels[i].0 as int, pixels[i].1 as int),
    decreases pixels.len(),
{
    if pixels.len() > 0 {
        let (x, y, on) = pixels[0];
        let s1 = plot(s, x as int, y as int, on);
        let rest = pixels.drop_first();
        lemma_dirty_covers_drawn_writes(s1, rest);
        assert forall|px: int, py: int| #[trigger] in_dirty(s.dirty, px, py) implies in_dirty(
            draw_all(s, pixels).dirty,
            px,
            py,
        ) by {
            lemma_plot_dirty(s, x as int, y as int, on, px, py);
        }
        lemma_plot_dirty(s, x as int, y as int, on, x as int, y as int);
        assert forall|i: int| 0 <= i < pixels.len() && on_screen(pixels[i].0 as int, pixels[i].1 as int) implies in_dirty(
            draw_all(s, pixels).dirty,
            #[trigger] pixels[i].0 as int,
            pixels[i].1 as int,
        ) by {
            if i > 0 {
                assert(rest[i - 1] == pixels[i]);
            }
        }
        if draw_all(s, pixels).dirty is None {
            assert forall|i: int| 0 <= i < pixels.len() implies !on_screen(#[trigger] pixels[i].0 as int, pixels[i].1 as int) by {
                if i > 0 {
                    assert(rest[i - 1] == pixels[i]);
                }
            }
        }
    }
}

/// Drawing a bitmap marks its whole drawn region `[x, x1) × [y, y1)` dirty,
/// and keeps what was dirty.
pub proof fn lemma_blit_dirty(d: Option<(int, int, int, int)>, x: int, y: int, x1: int, y1: int, px: int, py: int)
    requires
        x < x1,
        y < y1,
    ensures
        (x <= px < x1 && y <= py < y1) || in_dirty(d, px, py) ==> in_dirty(
            grow_dirty_point(grow_dirty_point(d, x, y), x1 - 1, y1 - 1),
            px,
            py,
        ),
{
}

/// [`lemma_dirty_covers_changes`] for pixels written in several colours
/// (as by [`Framebuffer::draw_pixels`]).
pub proof fn lemma_dirty_covers_drawn_changes(s: FrameState, pixels: Seq<(i32, i32, bool)>, px: int, py: int)
    requires
        s.bytes.len() == BUFFER_LEN,
        on_screen(px, py),
    ensures
        in_dirty(s.dirty, px, py) ==> in_dirty(draw_all(s, pixels).dirty, px, py),
        pixel_of(draw_all(s, pixels).bytes, px, py) != pixel_of(s.bytes, px, py) ==> in_dirty(
            draw_all(s, pixels).dirty,
            px,
            py,
        ),
    decreases pixels.len(),
{
    if pixels.len() > 0 {
        let (x, y, on) = pixels[0];
        let s1 = plot(s, x as int, y as int, on);
        lemma_plot_pixel(s, x as int, y as int, on, px, py);
        lemma_plot_dirty(s, x as int, y as int, on, px, py);
        lemma_dirty_covers_drawn_changes(s1, pixels.drop_first(), px, py);
    }
}

/// Drawing a bitmap in [`BlitMode::SetOnly`] never clears a lit pixel, and in
/// [`BlitMode::Overwrite`] the pixels of the drawn region depend on the bitmap
/// alone.
pub proof fn lemma_blit_modes(
    a: Seq<u8>,
    b: Seq<u8>,
    data: Seq<u8>,
    x: int,
    y: int,
    w: int,
    x1: int,
    y1: int,
    px: int,
    py: int,
)
    ensures
        pixel_of(a, px, py) ==> blit_pixel(a, data, x, y, w, x1, y1, BlitMode::SetOnly, px, py),
        x <= px < x1 && y <= py < y1 ==> blit_pixel(a, data, x, y, w, x1, y1, BlitMode::Overwrite, px, py)
            == blit_pixel(b, data, x, y, w, x1, y1, BlitMode::Overwrite, px, py),
{
}

/// Writing `a` then `b` is writing `a + b`.
pub proof fn lemma_plot_all_append(s: FrameState, a: Seq<(int, int)>, b: Seq<(int, int)>, on: bool)
    ensures
        plot_all(s, a + b, on) == plot_all(plot_all(s, a, on), b, on),
    decreases a.len(),
{
    if a.len() > 0 {
        assert((a + b).drop_first() =~= a.drop_first() + b);
        lemma_plot_all_append(plot(s, a[0].0, a[0].1, on), a.drop_first(), b, on);
    } else {
        assert(a + b =~= b);
    }
}

/// Writing `pts` then one more point `p` is writing `pts.push(p)`.
pub proof fn lemma_plot_all_push(s: FrameState, pts: Seq<(int, int)>, p: (int, int), on: bool)
    ensures
        plot_all(s, pts.push(p), on) == plot(plot_all(s, pts, on), p.0, p.1, on),
{
    lemma_plot_all_append(s, pts, seq![p], on);
    assert(pts + seq![p] =~= pts.push(p));
    let t = plot_all(s, pts, on);
    assert(seq![p].drop_first() =~= Seq::<(int, int)>::empty());
    assert(plot_all(t, seq![p], on) == plot_all(plot(t, p.0, p.1, on), seq![p].drop_first(), on));
}

/// Writing the first `k + 1` points is writing the first `k`, then point `k`.
pub proof fn lemma_plot_all_next(s: FrameState, pts: Seq<(int, int)>, k: int, on: bool)
    requires
        0 <= k < pts.len(),
    ensures
        plot_all(s, pts.take(k + 1), on) == plot(plot_all(s, pts.take(k), on), pts[k].0, pts[k].1, on),
{
    lemma_plot_all_push(s, pts.take(k), pts[k], on);
    assert(pts.take(k).push(pts[k]) =~= pts.take(k + 1));
}

/// Writing `p` then `rest` is writing `seq![p] + rest`.
pub proof fn lemma_plot_all_cons(s: FrameState, p: (int, int), rest: Seq<(int, int)>, on: bool)
    ensures
        plot_all(s, seq![p] + rest, on) == plot_all(plot(s, p.0, p.1, on), rest, on),
{
    assert((seq![p] + rest).drop_first() =~= rest);
}

// ---------------------------------------------------------------------------
// Bitmaps
// ---------------------------------------------------------------------------

/// Bytes per bitmap row of width `w`: `w` bits rounded up to whole bytes.
pub open spec fn bitmap_row_bytes(w: int) -> int {
    w / 8 + if w % 8 != 0 {
        1int
    } else {
        0int
    }
}

/// Pixel `(sx, sy)` of a row-packed, MSB-first bitmap with `row_bytes` bytes per row.
pub open spec fn bitmap_bit(data: Seq<u8>, row_bytes: int, sx: int, sy: int) -> bool {
    data[sy * row_bytes + sx / 8] & (0x80u8 >> ((sx % 8) as u8)) != 0
}

/// How a bitmap is drawn.
#[derive(Debug, Clone, Copy, PartialEq, Eq)]
pub enum BlitMode {
    /// Both 0 and 1 bits are written (1 lights, 0 clears the target).
    Overwrite,
    /// Only 1 bits are written; 0 bits leave the target unchanged.
    SetOnly,
}

/// Why a bitmap could not be drawn.
#[derive(Debug, Clone, Copy, PartialEq, Eq)]
pub enum BlitError {
    /// `data` is too short for the whole bitmap.
    InsufficientData {
        /// Bytes needed for the `w × h` bitmap.
        required: usize,
        /// Length of the `data` given.
        actual: usize,
    },
    /// The byte count of the bitmap overflows `usize`.
    DimensionOverflow,
}

/// The value pixel `(px, py)` takes when a `w × h` bitmap is drawn at `(x, y)`,
/// where `x1`/`y1` are the right/bottom edges of its on-screen part.
pub open spec fn blit_pixel(
    old_bytes: Seq<u8>,
    data: Seq<u8>,
    x: int,
    y: int,
    w: int,
    x1: int,
    y1: int,
    mode: BlitMode,
    px: int,
    py: int,
) -> bool {
    if x <= px < x1 && y <= py < y1 {
        if bitmap_bit(data, bitmap_row_bytes(w), px - x, py - y) {
            true
        } else if mode == BlitMode::Overwrite {
            false
        } else {
            pixel_of(old_bytes, px, py)
        }
    } else {
        pixel_of(old_bytes, px, py)
    }
}

// ---------------------------------------------------------------------------
// Dirty tracking over a history of calls
// ---------------------------------------------------------------------------

/// A call of a framebuffer method, with the arguments that decide what it
/// writes and how it moves the dirty rectangle.
pub enum FbCall {
    /// `set_pixel(x, y, on)`.
    SetPixel(usize, usize, bool),
    /// `draw_pixels(pixels)`.
    Draw(Seq<(i32, i32, bool)>),
    /// `blit(x, y, w, h, data, _)`.
    Blit(usize, usize, usize, usize, Seq<u8>),
    /// `clear()`.
    Clear,
    /// `fill_all()`.
    FillAll,
    /// `clear_dirty()`.
    ClearDirty,
}

/// The dirty rectangle `d` after a write of pixel `(x, y)`: grown to cover it
/// when it is on the screen, unchanged otherwise.
pub open spec fn point_dirty(d: Option<(int, int, int, int)>, x: int, y: int) -> Option<(int, int, int, int)> {
    if on_screen(x, y) {
        grow_dirty_point(d, x, y)
    } else {
        d
    }
}

/// The dirty rectangle `d` after writing each pixel of `pixels`, in order.
pub open spec fn draw_dirty(d: Option<(int, int, int, int)>, pixels: Seq<(i32, i32, bool)>) -> Option<
    (int, int, int, int),
>
    decreases pixels.len(),
{
    if pixels.len() == 0 {
        d
    } else {
        draw_dirty(point_dirty(d, pixels[0].0 as int, pixels[0].1 as int), pixels.drop_first())
    }
}

/// A `w × h` bitmap drawn at `(x, y)` from `len` bytes of data is actually
/// drawn: its on-screen part is not empty and neither error applies.
pub open spec fn blit_draws(x: int, y: int, w: int, h: int, len: int) -> bool {
    &&& !(w == 0 || h == 0 || x >= WIDTH || y >= HEIGHT)
    &&& bitmap_row_bytes(w) * h <= usize::MAX
    &&& len >= bitmap_row_bytes(w) * h
}

/// The dirty rectangle `d` after call `c`, as the contract of the method
/// called states it.
pub open spec fn call_dirty(d: Option<(int, int, int, int)>, c: FbCall) -> Option<(int, int, int, int)> {
    match c {
        FbCall::SetPixel(x, y, _) => point_dirty(d, x as int, y as int),
        FbCall::Draw(pixels) => draw_dirty(d, pixels),
        FbCall::Blit(x, y, w, h, data) => if blit_draws(x as int, y as int, w as int, h as int, data.len() as int) {
            grow_dirty_point(
                grow_dirty_point(d, x as int, y as int),
                min_int(x + w, WIDTH as int) - 1,
                min_int(y + h, HEIGHT as int) - 1,
            )
        } else {
            d
        },
        FbCall::Clear | FbCall::FillAll => Some((0int, 0int, WIDTH as int, HEIGHT as int)),
        FbCall::ClearDirty => None,
    }
}

/// The dirty rectangle `d` after the calls of `calls`, in order.
pub open spec fn calls_dirty(d: Option<(int, int, int, int)>, calls: Seq<FbCall>) -> Option<
    (int, int, int, int),
>
    decreases calls.len(),
{
    if calls.len() == 0 {
        d
    } else {
        call_dirty(calls_dirty(d, calls.drop_last()), calls.last())
    }
}

/// Call `c` writes the on-screen pixel `(px, py)` (for a bitmap: the pixel lies
/// in its drawn region).
pub open spec fn call_writes(c: FbCall, px: int, py: int) -> bool {
    on_screen(px, py) && match c {
        FbCall::SetPixel(x, y, _) => px == x && py == y,
        FbCall::Draw(pixels) => exists|i: int|
            0 <= i < pixels.len() && #[trigger] pixels[i].0 as int == px && pixels[i].1 as int == py,
        FbCall::Blit(x, y, w, h, data) => {
            &&& blit_draws(x as int, y as int, w as int, h as int, data.len() as int)
            &&& x <= px < min_int(x + w, WIDTH as int)
            &&& y <= py < min_int(y + h, HEIGHT as int)
        },
        FbCall::Clear | FbCall::FillAll => true,
        FbCall::ClearDirty => false,
    }
}

/// Some call of `calls` after its last `ClearDirty` writes the on-screen pixel
/// `(px, py)`.
pub open spec fn written_since_clean(calls: Seq<FbCall>, px: int, py: int) -> bool
    decreases calls.len(),
{
    if calls.len() == 0 {
        false
    } else if calls.last() is ClearDirty {
        false
    } else {
        call_writes(calls.last(), px, py) || written_since_clean(calls.drop_last(), px, py)
    }
}

/// The dirty rectangle `d` is empty or a non-empty rectangle on the screen.
pub open spec fn dirty_bounded(d: Option<(int, int, int, int)>) -> bool {
    match d {
        None => true,
        Some((x0, y0, x1, y1)) => 0 <= x0 < x1 <= WIDTH && 0 <= y0 < y1 <= HEIGHT,
    }
}

/// [`Framebuffer::draw_pixels`] moves the dirty rectangle as [`draw_dirty`] says.
pub proof fn lemma_draw_dirty(s: FrameState, pixels: Seq<(i32, i32, bool)>)
    ensures
        draw_all(s, pixels).dirty == draw_dirty(s.dirty, pixels),
    decreases pixels.len(),
{
    if pixels.len() > 0 {
        lemma_draw_dirty(plot(s, pixels[0].0 as int, pixels[0].1 as int, pixels[0].2), pixels.drop_first());
    }
}

/// Writing pixels keeps a bounded rectangle bounded, keeps what was dirty
/// dirty, and makes every on-screen pixel written dirty.
proof fn lemma_draw_dirty_covers(d: Option<(int, int, int, int)>, pixels: Seq<(i32, i32, bool)>)
    requires
        dirty_bounded(d),
    ensures
        dirty_bounded(draw_dirty(d, pixels)),
        forall|px: int, py: int| #[trigger] in_dirty(d, px, py) ==> in_dirty(draw_dirty(d, pixels), px, py),
        forall|i: int|
            0 <= i < pixels.len() && on_screen(pixels[i].0 as int, pixels[i].1 as int) ==> in_dirty(
                draw_dirty(d, pixels),
                #[trigger] pixels[i].0 as int,
                pixels[i].1 as int,
            ),
    decreases pixels.len(),
{
    if pixels.len() > 0 {
        let d1 = point_dirty(d, pixels[0].0 as int, pixels[0].1 as int);
        let rest = pixels.drop_first();
        lemma_draw_dirty_covers(d1, rest);
        assert forall|px: int, py: int| #[trigger] in_dirty(d, px, py) implies in_dirty(d1, px, py) by {}
        assert(on_screen(pixels[0].0 as int, pixels[0].1 as int) ==> in_dirty(
            d1,
            pixels[0].0 as int,
            pixels[0].1 as int,
        ));
        assert forall|i: int|
            0 <= i < pixels.len() && on_screen(pixels[i].0 as int, pixels[i].1 as int) implies in_dirty(
            draw_dirty(d, pixels),
            #[trigger] pixels[i].0 as int,
            pixels[i].1 as int,
        ) by {
            if i > 0 {
                assert(rest[i - 1] == pixels[i]);
            }
        }
    }
}

/// Dirty tracking over any history of calls: starting from a framebuffer with
/// nothing dirty (as `new()` makes it), after any sequence of `set_pixel`,
/// `draw_pixels`, `blit`, `clear`, `fill_all` and `clear_dirty` calls the dirty
/// rectangle is empty or a non-empty rectangle on the screen, and every
/// on-screen pixel written since the start or the last `clear_dirty` lies in
/// it; when it is empty, no on-screen pixel was written since then.
pub proof fn lemma_dirty_history(calls: Seq<FbCall>)
    ensures
        dirty_bounded(calls_dirty(None, calls)),
        forall|px: int, py: int|
            #[trigger] written_since_clean(calls, px, py) ==> in_dirty(calls_dirty(None, calls), px, py),
        calls_dirty(None, calls) is None ==> forall|px: int, py: int|
            !#[trigger] written_since_clean(calls, px, py),
    decreases calls.len(),
{
    if calls.len() > 0 {
        let prefix = calls.drop_last();
        let c = calls.last();
        let d = calls_dirty(None, prefix);
        lemma_dirty_history(prefix);
        match c {
            FbCall::Draw(pixels) => {
                lemma_draw_dirty_covers(d, pixels);
            },
            _ => {},
        }
        assert forall|px: int, py: int| #[trigger] written_since_clean(calls, px, py) implies in_dirty(
            calls_dirty(None, calls),
            px,
            py,
        ) by {
            if call_writes(c, px, py) {
                match c {
                    FbCall::Draw(pixels) => {
                        let i = choose|i: int|
                            0 <= i < pixels.len() && #[trigger] pixels[i].0 as int == px && pixels[i].1 as int
                                == py;
                        assert(on_screen(pixels[i].0 as int, pixels[i].1 as int));
                    },
                    _ => {},
                }
            } else {
                assert(written_since_clean(prefix, px, py));
                assert(in_dirty(d, px, py));
            }
        }
    }
}

/// `a * b` for `a < c`, bounded by `c * b` less one row.
proof fn lemma_row_offset(a: int, b: int, c: int, d: int)
    requires
        0 <= a < c,
        0 <= d < b,
    ensures
        0 <= a * b,
        a * b + d < c * b,
{
    assert(a * b + b <= c * b) by (nonlinear_arith)
        requires
            0 <= a < c,
            0 <= b,
    ;
    assert(0 <= a * b) by (nonlinear_arith)
        requires
            0 <= a,
            0 <= b,
    ;
}

// ---------------------------------------------------------------------------
// The framebuffer
// ---------------------------------------------------------------------------

/// A non-empty on-screen rectangle with half-open bounds `[x0, x1) × [y0, y1)`.
struct DirtyRect {
    x0: usize,
    y0: usize,
    x1: usize,
    y1: usize,
}

impl DirtyRect {
    #[verifier::type_invariant]
    spec fn inv(self) -> bool {
        &&& self.x0 < self.x1 <= WIDTH
        &&& self.y0 < self.y1 <= HEIGHT
    }

    spec fn bounds(self) -> (int, int, int, int) {
        (self.x0 as int, self.y0 as int, self.x1 as int, self.y1 as int)
    }
}

/// SSD1309 128×64 monochrome framebuffer.
///
/// The internal layout is that of the GDDRAM:
/// * `buffer[page * WIDTH + col]` holds the 8 vertical pixels of column `col` in page `page`;
/// * bit 0 is the top pixel of the page (row 0), bit 7 the bottom one (row 7).
pub struct Framebuffer {
    pub buffer: [u8; 1024],
    /// Region modified since the last push, as half-open bounds.
    dirty: Option<DirtyRect>,
}

impl Framebuffer {
    /// The dirty rectangle as half-open bounds `(x0, y0, x1, y1)`.
    pub closed spec fn dirty_view(&self) -> Option<(int, int, int, int)> {
        match self.dirty {
            None => None,
            Some(d) => Some(d.bounds()),
        }
    }

    /// The bytes of the buffer.
    pub closed spec fn bytes(&self) -> Seq<u8> {
        self.buffer@
    }

    /// The abstract state: bytes and dirty rectangle.
    pub open spec fn state(&self) -> FrameState {
        FrameState { bytes: self.bytes(), dirty: self.dirty_view() }
    }

    /// Pixel `(x, y)` of this framebuffer.
    pub open spec fn pixel(&self, x: int, y: int) -> bool {
        pixel_of(self.bytes(), x, y)
    }

    /// The buffer always holds `BUFFER_LEN` bytes.
    pub proof fn lemma_wf(&self)
        ensures
            self.bytes().len() == BUFFER_LEN,
    {
    }

    /// Creates an all-black framebuffer with nothing dirty.
    pub fn new() -> (fb: Self)
        ensures
            fb.bytes() == Seq::new(BUFFER_LEN as nat, |i: int| 0u8),
            fb.dirty_view() is None,
    {
        let fb = Framebuffer { buffer: [0u8; 1024], dirty: None };
        assert(fb.buffer@ =~= Seq::new(BUFFER_LEN as nat, |i: int| 0u8));
        fb
    }

    /// Clears the whole buffer (all black) and marks the whole screen dirty.
    pub fn clear(&mut self)
        ensures
            final(self).bytes() == Seq::new(BUFFER_LEN as nat, |i: int| 0u8),
            final(self).dirty_view() == Some((0int, 0int, WIDTH as int, HEIGHT as int)),
    {
        self.buffer = [0u8; 1024];
        assert(self.buffer@ =~= Seq::new(BUFFER_LEN as nat, |i: int| 0u8));
        self.mark_all_dirty();
    }

    /// Fills the whole buffer (all white / lit) and marks the whole screen dirty.
    pub fn fill_all(&mut self)
        ensures
            final(self).bytes() == Seq::new(BUFFER_LEN as nat, |i: int| 0xFFu8),
            final(self).dirty_view() == Some((0int, 0int, WIDTH as int, HEIGHT as int)),
    {
        self.buffer = [0xFFu8; 1024];
        assert(self.buffer@ =~= Seq::new(BUFFER_LEN as nat, |i: int| 0xFFu8));
        self.mark_all_dirty();
    }

    /// Sets pixel `(x, y)` on (`true`) or off (`false`) and grows the dirty
    /// rectangle to cover it. Off-screen coordinates are ignored.
    pub fn set_pixel(&mut self, x: usize, y: usize, on: bool)
        ensures
            final(self).state() == plot(old(self).state(), x as int, y as int, on),
    {
        if x >= WIDTH || y >= HEIGHT {
            return;
        }
        write_pixel(&mut self.buffer, x, y, on);
        self.mark_dirty(x, y);
    }

    /// Writes each pixel `(x, y, on)` of `pixels` in order; pixels off the
    /// screen (negative or too large coordinates) are ignored.
    pub fn draw_pixels(&mut self, pixels: &[(i32, i32, bool)])
        ensures
            final(self).state() == draw_all(old(self).state(), pixels@),
    {
        let ghost target = draw_all(self.state(), pixels@);
        let mut i: usize = 0;
        assert(pixels@.skip(0) =~= pixels@);
        while i < pixels.len()
            invariant
                i <= pixels@.len(),
                draw_all(self.state(), pixels@.skip(i as int)) == target,
            decreases pixels@.len() - i,
        {
            let (x, y, on) = pixels[i];
            proof {
                assert(pixels@.skip(i as int).drop_first() =~= pixels@.skip(i + 1));
            }
            if 0 <= x && x < WIDTH as i32 && 0 <= y && y < HEIGHT as i32 {
                self.set_pixel(x as usize, y as usize, on);
            }
            i = i + 1;
        }
        proof {
            assert(pixels@.skip(i as int) =~= Seq::<(i32, i32, bool)>::empty());
        }
    }

    /// The size of the drawing area, `(width, height)` in pixels.
    pub fn size(&self) -> (r: (u32, u32))
        ensures
            r == (WIDTH as u32, HEIGHT as u32),
    {
        (WIDTH as u32, HEIGHT as u32)
    }

    /// Reads pixel `(x, y)`; off-screen pixels read as off.
    pub fn get_pixel(&self, x: usize, y: usize) -> (r: bool)
        ensures
            r == (on_screen(x as int, y as int) && self.pixel(x as int, y as int)),
    {
        if x >= WIDTH || y >= HEIGHT {
            return false;
        }
        proof {
            assert(y >> 3 == y / 8) by (bit_vector);
            assert(y & 0x07 == y % 8) by (bit_vector);
            lemma_byte_index(x as int, y as int, x as int, y as int);
        }
        let page = y >> 3;
        let bit = (y & 0x07) as u8;
        proof {
            assert(page < 8);
            assert(page << 7 == page * 128) by (bit_vector)
                requires
                    page < 8,
            ;
        }
        let idx = (page << 7) + x;
        (self.buffer[idx] & (1u8 << bit)) != 0
    }

    /// The raw buffer.
    pub fn as_bytes(&self) -> (r: &[u8; 1024])
        ensures
            r@ == self.bytes(),
    {
        &self.buffer
    }

    /// The region modified since the last push, as `(x, y, w, h)`; `None` when
    /// nothing was modified. Writing to `buffer` directly does not update it.
    pub fn dirty_rect(&self) -> (r: Option<(usize, usize, usize, usize)>)
        ensures
            r is None <==> self.dirty_view() is None,
            r matches Some((x, y, w, h)) ==> {
                &&& self.dirty_view() == Some((x as int, y as int, x + w, y + h))
                &&& 0 < w && x + w <= WIDTH
                &&& 0 < h && y + h <= HEIGHT
            },
    {
        match &self.dirty {
            None => None,
            Some(d) => {
                proof {
                    use_type_invariant(d);
                }
                Some((d.x0, d.y0, d.x1 - d.x0, d.y1 - d.y0))
            },
        }
    }

    /// Forgets the dirty rectangle.
    pub fn clear_dirty(&mut self)
        ensures
            final(self).bytes() == old(self).bytes(),
            final(self).dirty_view() is None,
    {
        self.dirty = None;
    }

    /// Draws a row-packed 1-bit bitmap at `(x, y)`.
    ///
    /// `data` holds the bitmap row by row: each row of `w` bits is packed into
    /// bytes MSB first, the last byte of a row padded with zero bits; `data` must
    /// hold at least `w.div_ceil(8) * h` bytes. Parts of the bitmap that fall off
    /// the screen are clipped. The dirty rectangle grows to cover the drawn region.
    pub fn blit(&mut self, x: usize, y: usize, w: usize, h: usize, data: &[u8], mode: BlitMode) -> (r:
        Result<(), BlitError>)
        ensures
            ({
                let rb = bitmap_row_bytes(w as int);
                let x1 = min_int(x + w, WIDTH as int);
                let y1 = min_int(y + h, HEIGHT as int);
                if w == 0 || h == 0 || x >= WIDTH || y >= HEIGHT {
                    &&& r is Ok
                    &&& final(self).state() == old(self).state()
                } else if rb * h > usize::MAX {
                    &&& r == Err::<(), BlitError>(BlitError::DimensionOverflow)
                    &&& final(self).state() == old(self).state()
                } else if data@.len() < rb * h {
                    &&& r == Err::<(), BlitError>(
                        BlitError::InsufficientData {
                            required: (rb * h) as usize,
                            actual: data@.len() as usize,
                        },
                    )
                    &&& final(self).state() == old(self).state()
                } else {
                    &&& r is Ok
                    &&& final(self).bytes().len() == BUFFER_LEN
                    &&& forall|px: int, py: int|
                        on_screen(px, py) ==> final(self).pixel(px, py) == blit_pixel(
                            old(self).bytes(),
                            data@,
                            x as int,
                            y as int,
                            w as int,
                            x1,
                            y1,
                            mode,
                            px,
                            py,
                        )
                    &&& final(self).dirty_view() == grow_dirty_point(
                        grow_dirty_point(old(self).dirty_view(), x as int, y as int),
                        x1 - 1,
                        y1 - 1,
                    )
                }
            }),
    {
        if w == 0 || h == 0 {
            return Ok(());
        }
        // Clip to the screen.
        let x0 = if x <= WIDTH { x } else { WIDTH };
        let y0 = if y <= HEIGHT { y } else { HEIGHT };
        let xe = x.saturating_add(w);
        let x1 = if xe <= WIDTH { xe } else { WIDTH };
        let ye = y.saturating_add(h);
        let y1 = if ye <= HEIGHT { ye } else { HEIGHT };
        if x0 >= x1 || y0 >= y1 {
            return Ok(());
        }
        // The length is checked only when data is actually read, so that a fully
        // off-screen draw is not reported as an error.
        let row_bytes = w / 8 + if w % 8 != 0 { 1 } else { 0 };
        let required = match row_bytes.checked_mul(h) {
            Some(n) => n,
            None => {
                return Err(BlitError::DimensionOverflow);
            },
        };
        if data.len() < required {
            return Err(BlitError::InsufficientData { required, actual: data.len() });
        }
        // Offset of the clipped region inside the bitmap.
        let src_x = x0 - x;
        let src_y = y0 - y;
        let ghost old_bytes = self.bytes();
        let ghost dx = data@;
        proof {
            self.lemma_wf();
        }
        let mut row: usize = 0;
        while row < y1 - y0
            invariant
                0 <= row <= y1 - y0,
                x0 == x < x1 <= WIDTH,
                y0 == y < y1 <= HEIGHT,
                x1 <= x + w,
                y1 <= y + h,
                src_x == 0,
                src_y == 0,
                row_bytes == bitmap_row_bytes(w as int),
                required == row_bytes * h,
                required <= data@.len(),
                dx == data@,
                self.bytes().len() == BUFFER_LEN,
                self.dirty_view() == old(self).dirty_view(),
                old_bytes == old(self).bytes(),
                forall|px: int, py: int|
                    on_screen(px, py) ==> self.pixel(px, py) == blit_pixel(
                        old_bytes,
                        dx,
                        x as int,
                        y as int,
                        w as int,
                        x1 as int,
                        y0 + row,
                        mode,
                        px,
                        py,
                    ),
            decreases y1 - y0 - row,
        {
            let mut col: usize = 0;
            while col < x1 - x0
                invariant
                    0 <= row < y1 - y0,
                    0 <= col <= x1 - x0,
                    x0 == x < x1 <= WIDTH,
                    y0 == y < y1 <= HEIGHT,
                    x1 <= x + w,
                    y1 <= y + h,
                    src_x == 0,
                    src_y == 0,
                    row_bytes == bitmap_row_bytes(w as int),
                    required == row_bytes * h,
                    required <= data@.len(),
                    dx == data@,
                    self.bytes().len() == BUFFER_LEN,
                    self.dirty_view() == old(self).dirty_view(),
                    old_bytes == old(self).bytes(),
                    forall|px: int, py: int|
                        on_screen(px, py) ==> self.pixel(px, py) == if py == y0 + row && x0 <= px
                            < x0 + col {
                            blit_pixel(
                                old_bytes,
                                dx,
                                x as int,
                                y as int,
                                w as int,
                                x1 as int,
                                y0 + row + 1,
                                mode,
                                px,
                                py,
                            )
                        } else {
                            blit_pixel(
                                old_bytes,
                                dx,
                                x as int,
                                y as int,
                                w as int,
                                x1 as int,
                                y0 + row,
                                mode,
                                px,
                                py,
                            )
                        },
                decreases x1 - x0 - col,
            {
                let sx = src_x + col;
                let sy = src_y + row;
                proof {
                    lemma_row_offset(sy as int, row_bytes as int, h as int, (sx / 8) as int);
                }
                let byte = data[sy * row_bytes + sx / 8];
                let on = byte & (0x80u8 >> ((sx % 8) as u8)) != 0;
                let px = x0 + col;
                let py = y0 + row;
                let ghost before = self.bytes();
                match mode {
                    BlitMode::Overwrite => {
                        write_pixel(&mut self.buffer, px, py, on);
                    },
                    BlitMode::SetOnly => {
                        if on {
                            write_pixel(&mut self.buffer, px, py, true);
                        }
                    },
                }
                proof {
                    let wrote = on || mode == BlitMode::Overwrite;
                    assert forall|qx: int, qy: int| on_screen(qx, qy) implies self.pixel(qx, qy)
                        == if qx == px && qy == py && wrote {
                        on
                    } else {
                        pixel_of(before, qx, qy)
                    } by {
                        if wrote {
                            lemma_plot_pixel(
                                FrameState { bytes: before, dirty: None },
                                px as int,
                                py as int,
                                on,
                                qx,
                                qy,
                            );
                        }
                    }
                    assert(bitmap_bit(dx, row_bytes as int, sx as int, sy as int) == on);
                }
                col = col + 1;
            }
            row = row + 1;
        }
        // Dirty rectangle: the drawn region (its two corners suffice).
        self.mark_dirty(x0, y0);
        self.mark_dirty(x1 - 1, y1 - 1);
        Ok(())
    }

    /// A copy of the raw buffer.
    pub(crate) fn snapshot(&self) -> (r: [u8; 1024])
        ensures
            r@ == self.bytes(),
    {
        self.buffer
    }

    /// Replaces every byte with those of `other`; the dirty rectangle is kept.
    pub(crate) fn copy_bytes_from(&mut self, other: &Framebuffer)
        ensures
            final(self).bytes() == other.bytes(),
            final(self).dirty_view() == old(self).dirty_view(),
    {
        self.buffer = other.buffer;
    }

    /// Writes the page-turn frame at column `offset` (see [`blend_scroll_frame`]);
    /// the dirty rectangle is kept.
    pub(crate) fn blend_from(&mut self, src: &[u8; 1024], new: &Framebuffer, offset: usize)
        ensures
            final(self).bytes() == Seq::new(
                BUFFER_LEN as nat,
                |i: int|
                    blend_byte(
                        src@,
                        new.bytes(),
                        if offset <= WIDTH {
                            offset as int
                        } else {
                            WIDTH as int
                        },
                        i,
                    ),
            ),
            final(self).dirty_view() == old(self).dirty_view(),
    {
        blend_scroll_frame(&mut self.buffer, src, &new.buffer, offset);
    }

    /// Rotates every page row by `offset` columns (see [`scroll_horizontal_bits`]);
    /// the dirty rectangle is kept.
    pub(crate) fn rotate_columns(&mut self, dir: ScrollDirection, offset: usize)
        ensures
            final(self).bytes() == Seq::new(
                BUFFER_LEN as nat,
                |i: int| hscroll_byte(old(self).bytes(), dir, (offset % WIDTH) as int, i),
            ),
            final(self).dirty_view() == old(self).dirty_view(),
    {
        scroll_horizontal_bits(&mut self.buffer, dir, offset);
    }

    /// Rotates every column by `offset` rows (see [`scroll_vertical_bits`]);
    /// the dirty rectangle is kept.
    pub(crate) fn rotate_rows(&mut self, dir: VerticalDirection, offset: usize)
        ensures
            final(self).bytes().len() == BUFFER_LEN,
            forall|x: int, y: int|
                on_screen(x, y) ==> final(self).pixel(x, y) == old(self).pixel(
                    x,
                    vscroll_source_row(dir, (offset % HEIGHT) as int, y),
                ),
            final(self).dirty_view() == old(self).dirty_view(),
    {
        scroll_vertical_bits(&mut self.buffer, dir, offset);
    }

    /// Grows the dirty rectangle to cover on-screen pixel `(x, y)`.
    fn mark_dirty(&mut self, x: usize, y: usize)
        requires
            x < WIDTH,
            y < HEIGHT,
        ensures
            final(self).bytes() == old(self).bytes(),
            final(self).dirty_view() == grow_dirty_point(old(self).dirty_view(), x as int, y as int),
    {
        let d = match &self.dirty {
            None => DirtyRect { x0: x, y0: y, x1: x + 1, y1: y + 1 },
            Some(d) => {
                proof {
                    use_type_invariant(d);
                }
                DirtyRect {
                    x0: if d.x0 <= x { d.x0 } else { x },
                    y0: if d.y0 <= y { d.y0 } else { y },
                    x1: if d.x1 >= x + 1 { d.x1 } else { x + 1 },
                    y1: if d.y1 >= y + 1 { d.y1 } else { y + 1 },
                }
            },
        };
        self.dirty = Some(d);
    }

    /// Marks the whole screen dirty.
    pub(crate) fn mark_all_dirty(&mut self)
        ensures
            final(self).bytes() == old(self).bytes(),
            final(self).dirty_view() == Some((0int, 0int, WIDTH as int, HEIGHT as int)),
    {
        self.dirty = Some(DirtyRect { x0: 0, y0: 0, x1: WIDTH, y1: HEIGHT });
    }
}

/// Several independent framebuffers ("pages") with a current-page index that
/// wraps around.
///
/// Each page is a full 128×64 framebuffer whose content survives page switches;
/// switching only changes the current-page index.
pub struct PageBuffer<const N: usize> {
    pages: Vec<Framebuffer>,
    current: usize,
}

impl<const N: usize> PageBuffer<N> {
    #[verifier::type_invariant]
    spec fn inv(self) -> bool {
        &&& self.pages.len() == N
        &&& if N == 0 {
            self.current == 0
        } else {
            self.current < N
        }
    }

    /// The pages.
    pub closed spec fn pages_view(&self) -> Seq<Framebuffer> {
        self.pages@
    }

    /// The current page index.
    pub closed spec fn current_view(&self) -> int {
        self.current as int
    }

    /// Creates `N` black pages; the current page is 0.
    pub fn new() -> (r: Self)
        ensures
            r.pages_view().len() == N,
            r.current_view() == 0,
            forall|i: int|
                0 <= i < N ==> {
                    &&& #[trigger] r.pages_view()[i].bytes() == Seq::new(BUFFER_LEN as nat, |j: int| 0u8)
                    &&& r.pages_view()[i].dirty_view() is None
                },
    {
        let mut pages: Vec<Framebuffer> = Vec::new();
        let mut i: usize = 0;
        while i < N
            invariant
                i <= N,
                pages@.len() == i,
                forall|k: int|
                    0 <= k < i ==> {
                        &&& #[trigger] pages@[k].bytes() == Seq::new(BUFFER_LEN as nat, |j: int| 0u8)
                        &&& pages@[k].dirty_view() is None
                    },
            decreases N - i,
        {
            pages.push(Framebuffer::new());
            i = i + 1;
        }
        PageBuffer { pages, current: 0 }
    }

    /// The current page, for drawing.
    ///
    /// This is always the *current* page: to fill several pages, use
    /// [`page_at_mut`](Self::page_at_mut) or switch with [`show`](Self::show) first.
    /// Requires at least one page.
    pub fn page(&mut self) -> (r: &mut Framebuffer)
        requires
            N >= 1,
        ensures
            *r == old(self).pages_view()[old(self).current_view()],
            final(self).pages_view() == old(self).pages_view().update(
                old(self).current_view(),
                *final(r),
            ),
            final(self).current_view() == old(self).current_view(),
    {
        proof {
            use_type_invariant(&*self);
        }
        &mut self.pages[self.current]
    }

    /// Page `index`, or `None` when out of range.
    pub fn page_at(&self, index: usize) -> (r: Option<&Framebuffer>)
        ensures
            index < N ==> r == Some(&self.pages_view()[index as int]),
            index >= N ==> r is None,
    {
        proof {
            use_type_invariant(self);
        }
        if index < self.pages.len() {
            Some(&self.pages[index])
        } else {
            None
        }
    }

    /// Page `index` for drawing, or `None` when out of range.
    ///
    /// The way to fill several pages without switching the current page.
    pub fn page_at_mut(&mut self, index: usize) -> (r: Option<&mut Framebuffer>)
        ensures
            index >= N ==> r is None && final(self).pages_view() == old(self).pages_view(),
            index < N ==> r is Some && *r->0 == old(self).pages_view()[index as int]
                && final(self).pages_view() == old(self).pages_view().update(index as int, *final(r->0)),
            final(self).current_view() == old(self).current_view(),
    {
        proof {
            use_type_invariant(&*self);
        }
        if index < self.pages.len() {
            Some(&mut self.pages[index])
        } else {
            None
        }
    }

    /// The current page index (0-based).
    pub fn current(&self) -> (r: usize)
        ensures
            r == self.current_view(),
            N == 0 ==> r == 0,
            N > 0 ==> r < N,
    {
        proof {
            use_type_invariant(self);
        }
        self.current
    }

    /// Number of pages.
    pub fn len(&self) -> (r: usize)
        ensures
            r == N,
    {
        N
    }

    /// Whether there are no pages (always `true` when `N == 0`).
    pub fn is_empty(&self) -> (r: bool)
        ensures
            r == (N == 0),
    {
        N == 0
    }

    /// Switches to page `index`; out of range, nothing changes and `false` is returned.
    pub fn show(&mut self, index: usize) -> (r: bool)
        ensures
            r == (index < N),
            final(self).pages_view() == old(self).pages_view(),
            final(self).current_view() == if index < N {
                index as int
            } else {
                old(self).current_view()
            },
    {
        proof {
            use_type_invariant(&*self);
        }
        if index < N {
            self.current = index;
            true
        } else {
            false
        }
    }

    /// Turns to the next page, wrapping from the last to the first; returns the
    /// new index. With no pages it returns 0.
    pub fn next_page(&mut self) -> (r: usize)
        ensures
            final(self).pages_view() == old(self).pages_view(),
            r == final(self).current_view(),
            r == if N == 0 {
                0
            } else {
                (old(self).current_view() + 1) % (N as int)
            },
    {
        proof {
            use_type_invariant(&*self);
        }
        if N == 0 {
            return 0;
        }
        self.current = (self.current + 1) % N;
        self.current
    }

    /// Turns to the previous page, wrapping from the first to the last; returns
    /// the new index. With no pages it returns 0.
    pub fn prev_page(&mut self) -> (r: usize)
        ensures
            final(self).pages_view() == old(self).pages_view(),
            r == final(self).current_view(),
            r == if N == 0 {
                0
            } else {
                (old(self).current_view() + N - 1) % (N as int)
            },
    {
        proof {
            use_type_invariant(&*self);
        }
        if N == 0 {
            return 0;
        }
        // (current + N - 1) % N, without the intermediate sum.
        proof {
            let c = self.current as int;
            let n = N as int;
            if c == 0 {
                assert((c + n - 1) % n == n - 1) by (nonlinear_arith)
                    requires
                        c == 0,
                        n >= 1,
                ;
            } else {
                assert((c + n - 1) % n == c - 1) by (nonlinear_arith)
                    requires
                        1 <= c < n,
                ;
            }
        }
        self.current = if self.current == 0 {
            N - 1
        } else {
            self.current - 1
        };
        self.current
    }
}

/// Writes one pixel bit; the caller guarantees that `(x, y)` is on screen.
///
/// Page layout: `buffer[page * WIDTH + col]`, bit 0 is the top pixel of the page.
fn write_pixel(buffer: &mut [u8; 1024], x: usize, y: usize, on: bool)
    requires
        x < WIDTH,
        y < HEIGHT,
    ensures
        final(buffer)@ == old(buffer)@.update(
            byte_index(x as int, y as int),
            with_bit(old(buffer)@[byte_index(x as int, y as int)], (y % 8) as u8, on),
        ),
{
    proof {
        assert(y >> 3 == y / 8) by (bit_vector);
        assert(y & 0x07 == y % 8) by (bit_vector);
        lemma_byte_index(x as int, y as int, x as int, y as int);
    }
    let page = y >> 3;
    let bit = (y & 0x07) as u8;
    let idx = page * WIDTH + x;
    if on {
        buffer[idx] = buffer[idx] | (1u8 << bit);
    } else {
        buffer[idx] = buffer[idx] & !(1u8 << bit);
    }
}

impl Default for Framebuffer {
    /// An all-black framebuffer with nothing dirty, as [`Framebuffer::new`].
    fn default() -> (fb: Self)
        ensures
            fb.bytes() == Seq::new(BUFFER_LEN as nat, |i: int| 0u8),
            fb.dirty_view() is None,
    {
        Self::new()
    }
}

impl<const N: usize> Default for PageBuffer<N> {
    /// `N` black pages with page 0 current, as [`PageBuffer::new`].
    fn default() -> (r: Self)
        ensures
            r.pages_view().len() == N,
            r.current_view() == 0,
            forall|i: int|
                0 <= i < N ==> {
                    &&& #[trigger] r.pages_view()[i].bytes() == Seq::new(BUFFER_LEN as nat, |j: int| 0u8)
                    &&& r.pages_view()[i].dirty_view() is None
                },
    {
        Self::new()
    }
}

/// Turning pages is cyclic: the next page then the previous one (or the other
/// way round) comes back to the page one started on.
pub proof fn lemma_page_turn_round_trip(n: int, c: int)
    requires
        0 <= c < n,
    ensures
        ((c + 1) % n + n - 1) % n == c,
        ((c + n - 1) % n + 1) % n == c,
{
    if c + 1 < n {
        lemma_small_mod((c + 1) as nat, n as nat);
        lemma_mod_add_multiples_vanish(c, n);
        lemma_small_mod(c as nat, n as nat);
        assert(c + 1 + n - 1 == n + c);
    } else {
        lemma_mod_self_0(n);
        lemma_small_mod((n - 1) as nat, n as nat);
        assert(0 + n - 1 == n - 1);
    }
    if c == 0 {
        lemma_small_mod((n - 1) as nat, n as nat);
        lemma_mod_self_0(n);
        assert(c + n - 1 == n - 1);
    } else {
        lemma_mod_add_multiples_vanish(c - 1, n);
        lemma_small_mod((c - 1) as nat, n as nat);
        lemma_small_mod(c as nat, n as nat);
        assert(c + n - 1 == n + (c - 1));
    }
}

} // verus!
