//! A model of the controller's display RAM (GDDRAM) in page addressing mode,
//! and what the frame and region transfers write into it.
//!
//! In page addressing mode the controller keeps a page pointer (set by
//! `0xB0..=0xB7`) and a column pointer (set by a lower-nibble command
//! `0x00..=0x0F` and a higher-nibble command `0x10..=0x17`). Each data byte is
//! written at the pointers, and the column pointer advances, wrapping at the
//! end of the row. The other commands the driver sends do not write display RAM.
use super::framebuffer::{
    bit_set, byte_index, draw_all, in_dirty, lemma_bits_determine_byte, lemma_dirty_covers_changes,
    lemma_dirty_covers_drawn_changes, on_screen, pixel_of, plot_all, FrameState, BUFFER_LEN,
};
use super::ssd1309::{frame_ops, page_ops, pages_ops, region_ops, BusOp};
use vstd::prelude::*;

verus! {

/// Display RAM contents and the write pointers.
pub struct Gddram {
    pub ram: Seq<u8>,
    pub page: int,
    pub col: int,
}

/// The RAM holds a whole frame and the pointers are in range.
pub open spec fn gddram_ok(g: Gddram) -> bool {
    &&& g.ram.len() == BUFFER_LEN
    &&& 0 <= g.page < 8
    &&& 0 <= g.col < 128
}

/// A command as it acts on the display RAM: page and column address commands
/// move the pointers; any other command leaves RAM and pointers alone.
pub open spec fn apply_command(g: Gddram, bytes: Seq<u8>) -> Gddram {
    if bytes.len() == 1 && 0xB0 <= bytes[0] <= 0xB7 {
        Gddram { page: bytes[0] - 0xB0, ..g }
    } else if bytes.len() == 2 && bytes[0] <= 0x0F && 0x10 <= bytes[1] <= 0x17 {
        Gddram { col: (bytes[1] - 0x10) * 16 + bytes[0], ..g }
    } else {
        g
    }
}

/// Data bytes written at the pointers, the column advancing (and wrapping) after each.
pub open spec fn write_data(g: Gddram, data: Seq<u8>) -> Gddram
    decreases data.len(),
{
    if data.len() == 0 {
        g
    } else {
        write_data(
            Gddram { ram: g.ram.update(g.page * 128 + g.col, data[0]), page: g.page, col: (g.col + 1) % 128 },
            data.drop_first(),
        )
    }
}

/// One bus operation as it acts on the display RAM.
pub open spec fn apply_op(g: Gddram, op: BusOp) -> Gddram {
    match op {
        BusOp::Command(bytes) => apply_command(g, bytes),
        BusOp::Data(data) => write_data(g, data),
        _ => g,
    }
}

/// A sequence of bus operations, in order, as it acts on the display RAM.
pub open spec fn apply_ops(g: Gddram, ops: Seq<BusOp>) -> Gddram
    decreases ops.len(),
{
    if ops.len() == 0 {
        g
    } else {
        apply_ops(apply_op(g, ops[0]), ops.drop_first())
    }
}

/// Running `a` then `b` is running `a + b`.
pub proof fn lemma_apply_ops_append(g: Gddram, a: Seq<BusOp>, b: Seq<BusOp>)
    ensures
        apply_ops(g, a + b) == apply_ops(apply_ops(g, a), b),
    decreases a.len(),
{
    if a.len() > 0 {
        assert((a + b).drop_first() =~= a.drop_first() + b);
        lemma_apply_ops_append(apply_op(g, a[0]), a.drop_first(), b);
    } else {
        assert(a + b =~= b);
    }
}

/// Writing `data` from the column pointer, within one row, replaces exactly
/// those bytes.
proof fn lemma_write_data(g: Gddram, data: Seq<u8>)
    requires
        gddram_ok(g),
        g.col + data.len() <= 128,
    ensures
        gddram_ok(write_data(g, data)),
        write_data(g, data).page == g.page,
        forall|k: int|
            0 <= k < BUFFER_LEN ==> #[trigger] write_data(g, data).ram[k] == if g.page * 128 + g.col <= k < g.page
                * 128 + g.col + data.len() {
                data[k - g.page * 128 - g.col]
            } else {
                g.ram[k]
            },
    decreases data.len(),
{
    if data.len() > 0 {
        let g1 = Gddram { ram: g.ram.update(g.page * 128 + g.col, data[0]), page: g.page, col: (g.col + 1) % 128 };
        let rest = data.drop_first();
        if data.len() == 1 {
            assert(rest.len() == 0);
            assert(write_data(g, data) == write_data(g1, rest));
        } else {
            assert(g1.col == g.col + 1);
            lemma_write_data(g1, rest);
            assert forall|k: int| 0 <= k < BUFFER_LEN implies #[trigger] write_data(g, data).ram[k] == if g.page * 128
                + g.col <= k < g.page * 128 + g.col + data.len() {
                data[k - g.page * 128 - g.col]
            } else {
                g.ram[k]
            } by {
                if g.page * 128 + g.col + 1 <= k < g.page * 128 + g.col + data.len() {
                    assert(rest[k - g.page * 128 - g1.col] == data[k - g.page * 128 - g.col]);
                }
            }
        }
    }
}

/// The byte operations of one page transfer.
proof fn lemma_page_addressing(p: u8, x: u8)
    requires
        p < 8,
        x < 128,
    ensures
        0xB0 <= (0xB0u8 | p) <= 0xB7,
        (0xB0u8 | p) - 0xB0 == p,
        (x & 0x0F) <= 0x0F,
        0x10 <= (0x10u8 | ((x >> 4u8) & 0x07)) <= 0x17,
        ((0x10u8 | ((x >> 4u8) & 0x07)) - 0x10) * 16 + (x & 0x0F) == x,
{
    assert(0xB0 <= (0xB0u8 | p) <= 0xB7 && (0xB0u8 | p) - 0xB0 == p) by (bit_vector)
        requires
            p < 8,
    ;
    assert((x & 0x0F) <= 0x0F && 0x10 <= (0x10u8 | ((x >> 4u8) & 0x07)) <= 0x17) by (bit_vector);
    assert(((0x10u8 | ((x >> 4u8) & 0x07)) - 0x10) * 16 + (x & 0x0F) == x) by (bit_vector)
        requires
            x < 128,
    ;
}

/// One page transfer writes exactly columns `[x, x + w)` of page `p`.
proof fn lemma_page_ops(g: Gddram, bytes: Seq<u8>, p: int, x: int, w: int)
    requires
        gddram_ok(g),
        bytes.len() == BUFFER_LEN,
        0 <= p < 8,
        0 <= x < 128,
        0 <= w,
        x + w <= 128,
    ensures
        gddram_ok(apply_ops(g, page_ops(bytes, p, x, w))),
        forall|k: int|
            0 <= k < BUFFER_LEN ==> #[trigger] apply_ops(g, page_ops(bytes, p, x, w)).ram[k] == if k / 128 == p && x
                <= k % 128 < x + w {
                bytes[k]
            } else {
                g.ram[k]
            },
{
    let ops = page_ops(bytes, p, x, w);
    lemma_page_addressing(p as u8, x as u8);
    let g1 = apply_op(g, ops[0]);
    let g2 = apply_op(g1, ops[1]);
    let data = bytes.subrange(p * 128 + x, p * 128 + x + w);
    assert(g1 == Gddram { page: p, ..g });
    assert(g2 == Gddram { page: p, col: x, ..g });
    lemma_write_data(g2, data);
    let g3 = write_data(g2, data);
    let d1 = ops.drop_first();
    let d2 = d1.drop_first();
    let d3 = d2.drop_first();
    assert(d1[0] == ops[1] && d2[0] == ops[2]);
    assert(d3 =~= Seq::<BusOp>::empty());
    assert(apply_op(g2, ops[2]) == g3);
    assert(apply_ops(g3, d3) == g3);
    assert(apply_ops(g2, d2) == apply_ops(apply_op(g2, d2[0]), d3));
    assert(apply_ops(g1, d1) == apply_ops(apply_op(g1, d1[0]), d2));
    assert(apply_ops(g, ops) == apply_ops(apply_op(g, ops[0]), d1));
    assert(apply_ops(g, ops) == g3);
    assert forall|k: int| 0 <= k < BUFFER_LEN implies #[trigger] g3.ram[k] == if k / 128 == p && x <= k % 128 < x
        + w {
        bytes[k]
    } else {
        g.ram[k]
    } by {
        assert((p * 128 + x <= k < p * 128 + x + w) == (k / 128 == p && x <= k % 128 < x + w));
    }
}

/// The transfers of pages `first..=last` write exactly columns `[x, x + w)` of those pages.
proof fn lemma_pages_ops(g: Gddram, bytes: Seq<u8>, first: int, last: int, x: int, w: int)
    requires
        gddram_ok(g),
        bytes.len() == BUFFER_LEN,
        0 <= first,
        last < 8,
        0 <= x < 128,
        0 <= w,
        x + w <= 128,
    ensures
        gddram_ok(apply_ops(g, pages_ops(bytes, first, last, x, w))),
        forall|k: int|
            0 <= k < BUFFER_LEN ==> #[trigger] apply_ops(g, pages_ops(bytes, first, last, x, w)).ram[k] == if first
                <= k / 128 <= last && x <= k % 128 < x + w {
                bytes[k]
            } else {
                g.ram[k]
            },
    decreases last - first + 1,
{
    if last >= first {
        let before = pages_ops(bytes, first, last - 1, x, w);
        lemma_pages_ops(g, bytes, first, last - 1, x, w);
        let g1 = apply_ops(g, before);
        lemma_page_ops(g1, bytes, last, x, w);
        lemma_apply_ops_append(g, before, page_ops(bytes, last, x, w));
    }
}

// ---------------------------------------------------------------------------
// Laws
// ---------------------------------------------------------------------------

/// A full frame push leaves the display RAM holding exactly the frame,
/// whatever it held before.
pub proof fn lemma_frame_push_shows_frame(g: Gddram, bytes: Seq<u8>)
    requires
        gddram_ok(g),
        bytes.len() == BUFFER_LEN,
    ensures
        apply_ops(g, frame_ops(bytes)).ram == bytes,
{
    lemma_pages_ops(g, bytes, 0, 7, 0, 128);
    assert(apply_ops(g, frame_ops(bytes)).ram =~= bytes);
}

/// The bytes a region push of `(x, y, w, h)` writes: the columns of the region
/// (clipped to the screen) in every page its rows touch.
pub open spec fn region_covers_byte(x: int, y: int, w: int, h: int, k: int) -> bool {
    let cx = if x <= 128 { x } else { 128 };
    let cw = if w <= 128 - cx { w } else { 128 - cx };
    let y0 = if y <= 64 { y } else { 64 };
    let y1 = if y + h <= 64 { y + h } else { 64 };
    &&& cw > 0
    &&& y0 < y1
    &&& y0 / 8 <= k / 128 <= (y1 - 1) / 8
    &&& cx <= k % 128 < cx + cw
}

/// A region push writes the region's bytes from the frame and leaves every
/// other byte of display RAM as it was.
pub proof fn lemma_region_push(g: Gddram, bytes: Seq<u8>, x: int, y: int, w: int, h: int)
    requires
        gddram_ok(g),
        bytes.len() == BUFFER_LEN,
        0 <= x,
        0 <= y,
        0 <= w,
        0 <= h,
    ensures
        gddram_ok(apply_ops(g, region_ops(bytes, x, y, w, h))),
        forall|k: int|
            0 <= k < BUFFER_LEN ==> #[trigger] apply_ops(g, region_ops(bytes, x, y, w, h)).ram[k] == if region_covers_byte(
                x,
                y,
                w,
                h,
                k,
            ) {
                bytes[k]
            } else {
                g.ram[k]
            },
{
    let cx = if x <= 128 { x } else { 128 };
    let cw = if w <= 128 - cx { w } else { 128 - cx };
    let y0 = if y <= 64 { y } else { 64 };
    let y1 = if y + h <= 64 { y + h } else { 64 };
    if cw > 0 && y0 < y1 {
        lemma_pages_ops(g, bytes, y0 / 8, (y1 - 1) / 8, cx, cw);
    }
}

/// The display RAM differs from the frame only at pixels inside the frame's
/// dirty rectangle.
pub open spec fn differs_only_in_dirty(ram: Seq<u8>, s: FrameState) -> bool {
    forall|px: int, py: int|
        on_screen(px, py) && #[trigger] pixel_of(ram, px, py) != pixel_of(s.bytes, px, py) ==> in_dirty(
            s.dirty,
            px,
            py,
        )
}

/// Drawing keeps the screen and the framebuffer apart only inside the dirty
/// rectangle: what the screen has not been sent yet stays marked dirty.
pub proof fn lemma_drawing_keeps_changes_dirty(ram: Seq<u8>, s: FrameState, pts: Seq<(int, int)>, on: bool)
    requires
        s.bytes.len() == BUFFER_LEN,
        differs_only_in_dirty(ram, s),
    ensures
        differs_only_in_dirty(ram, plot_all(s, pts, on)),
{
    assert forall|px: int, py: int|
        on_screen(px, py) && #[trigger] pixel_of(ram, px, py) != pixel_of(plot_all(s, pts, on).bytes, px, py) implies in_dirty(
        plot_all(s, pts, on).dirty,
        px,
        py,
    ) by {
        lemma_dirty_covers_changes(s, pts, on, px, py);
    }
}

/// [`lemma_drawing_keeps_changes_dirty`] for pixels written in several colours.
pub proof fn lemma_pixel_drawing_keeps_changes_dirty(ram: Seq<u8>, s: FrameState, pixels: Seq<(i32, i32, bool)>)
    requires
        s.bytes.len() == BUFFER_LEN,
        differs_only_in_dirty(ram, s),
    ensures
        differs_only_in_dirty(ram, draw_all(s, pixels)),
{
    assert forall|px: int, py: int|
        on_screen(px, py) && #[trigger] pixel_of(ram, px, py) != pixel_of(draw_all(s, pixels).bytes, px, py) implies in_dirty(
        draw_all(s, pixels).dirty,
        px,
        py,
    ) by {
        lemma_dirty_covers_drawn_changes(s, pixels, px, py);
    }
}

/// Pushing only the dirty rectangle brings the screen up to date: when the
/// display RAM differs from the frame only inside the dirty rectangle
/// `[x0, x1) × [y0, y1)`, pushing that region leaves it holding exactly the frame.
pub proof fn lemma_dirty_push_completes(g: Gddram, s: FrameState, x0: int, y0: int, x1: int, y1: int)
    requires
        gddram_ok(g),
        s.bytes.len() == BUFFER_LEN,
        s.dirty == Some((x0, y0, x1, y1)),
        0 <= x0 < x1 <= 128,
        0 <= y0 < y1 <= 64,
        differs_only_in_dirty(g.ram, s),
    ensures
        apply_ops(g, region_ops(s.bytes, x0, y0, x1 - x0, y1 - y0)).ram == s.bytes,
{
    let bytes = s.bytes;
    let g2 = apply_ops(g, region_ops(bytes, x0, y0, x1 - x0, y1 - y0));
    lemma_region_push(g, bytes, x0, y0, x1 - x0, y1 - y0);
    assert forall|k: int| 0 <= k < BUFFER_LEN implies #[trigger] g2.ram[k] == bytes[k] by {
        if !region_covers_byte(x0, y0, x1 - x0, y1 - y0, k) {
            let p = k / 128;
            let c = k % 128;
            assert forall|j: u8| j < 8 implies bit_set(g.ram[k], j) == bit_set(bytes[k], j) by {
                let py = 8 * p + j;
                assert(on_screen(c, py));
                assert(byte_index(c, py) == k);
                assert(py % 8 == j);
                if pixel_of(g.ram, c, py) != pixel_of(bytes, c, py) {
                    assert(in_dirty(s.dirty, c, py));
                    assert(y0 / 8 <= p <= (y1 - 1) / 8);
                }
            }
            lemma_bits_determine_byte(g.ram[k], bytes[k]);
        }
    }
    assert(g2.ram =~= bytes);
}

} // verus!
