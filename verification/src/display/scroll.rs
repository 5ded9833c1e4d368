//! Whole-buffer transformations: software scrolling and page-turn animation frames.
//!
//! All of them work on a buffer in GDDRAM layout (`buffer[page * WIDTH + col]`,
//! bit 0 of a byte is the top row of its page) and wrap around: what leaves the
//! screen on one side enters on the other.
use super::framebuffer::{bit_set, byte_index as byte_index_of, on_screen, pixel_of, BUFFER_LEN, HEIGHT, WIDTH};
use super::{ScrollDirection, VerticalDirection};
use vstd::prelude::*;

verus! {

/// Byte `i` of the page-turn frame at column offset `off`: the left part is
/// `src` shifted left by `off` columns, the right part the first columns of `new`.
pub open spec fn blend_byte(src: Seq<u8>, new: Seq<u8>, off: int, i: int) -> u8 {
    let page = i / 128;
    let col = i % 128;
    if col + off < 128 {
        src[page * 128 + col + off]
    } else {
        new[page * 128 + col + off - 128]
    }
}

/// Byte `i` after every page row is rotated by `off` columns in direction `dir`.
pub open spec fn hscroll_byte(old: Seq<u8>, dir: ScrollDirection, off: int, i: int) -> u8 {
    let page = i / 128;
    let col = i % 128;
    match dir {
        ScrollDirection::Right => old[page * 128 + (col - off + 128) % 128],
        ScrollDirection::Left => old[page * 128 + (col + off) % 128],
    }
}

/// The row whose pixels row `y` shows after a vertical rotation by `off` rows.
pub open spec fn vscroll_source_row(dir: VerticalDirection, off: int, y: int) -> int {
    match dir {
        VerticalDirection::Up => (y + off) % 64,
        VerticalDirection::Down => (y - off + 64) % 64,
    }
}

/// Writes the page-turn frame at column offset `offset` into `dst`: the old
/// content `src` leaves to the left and the new page `new` enters from the right.
///
/// `offset = 0` gives `src`, `offset >= WIDTH` gives `new`, and the values in
/// between form the frames of the transition.
pub fn blend_scroll_frame(dst: &mut [u8; 1024], src: &[u8; 1024], new: &[u8; 1024], offset: usize)
    ensures
        final(dst)@ == Seq::new(
            BUFFER_LEN as nat,
            |i: int|
                blend_byte(
                    src@,
                    new@,
                    if offset <= WIDTH {
                        offset as int
                    } else {
                        WIDTH as int
                    },
                    i,
                ),
        ),
{
    let offset = if offset <= WIDTH { offset } else { WIDTH };
    let ghost target = Seq::new(BUFFER_LEN as nat, |i: int| blend_byte(src@, new@, offset as int, i));
    let mut page_idx: usize = 0;
    while page_idx < HEIGHT / 8
        invariant
            page_idx <= 8,
            offset <= 128,
            target == Seq::new(BUFFER_LEN as nat, |i: int| blend_byte(src@, new@, offset as int, i)),
            forall|i: int| 0 <= i < page_idx * 128 ==> dst@[i] == target[i],
        decreases 8 - page_idx,
    {
        let mut col: usize = 0;
        while col < WIDTH
            invariant
                page_idx < 8,
                col <= 128,
                offset <= 128,
                target == Seq::new(
                    BUFFER_LEN as nat,
                    |i: int| blend_byte(src@, new@, offset as int, i),
                ),
                forall|i: int| 0 <= i < page_idx * 128 + col ==> dst@[i] == target[i],
            decreases 128 - col,
        {
            let src_col = col + offset;
            let idx = page_idx * WIDTH + col;
            proof {
                assert(idx / 128 == page_idx && idx % 128 == col) by (nonlinear_arith)
                    requires
                        idx == page_idx * 128 + col,
                        col < 128,
                ;
            }
            dst[idx] = if src_col < WIDTH {
                src[page_idx * WIDTH + src_col]
            } else {
                new[page_idx * WIDTH + src_col - WIDTH]
            };
            col = col + 1;
        }
        page_idx = page_idx + 1;
    }
    assert(dst@ =~= target);
}

/// Rotates every page row of `buffer` by `offset` columns (wrapping around).
///
/// Each byte is one column of 8 vertical pixels, so a horizontal shift is a
/// rotation of each page's 128 bytes; no bit manipulation is needed.
pub fn scroll_horizontal_bits(buffer: &mut [u8; 1024], dir: ScrollDirection, offset: usize)
    ensures
        final(buffer)@ == Seq::new(
            BUFFER_LEN as nat,
            |i: int| hscroll_byte(old(buffer)@, dir, (offset % WIDTH) as int, i),
        ),
{
    let ghost old_bytes = buffer@;
    let offset = offset % WIDTH;
    let ghost target = Seq::new(BUFFER_LEN as nat, |i: int| hscroll_byte(old_bytes, dir, offset as int, i));
    if offset == 0 {
        assert forall|i: int| 0 <= i < BUFFER_LEN implies buffer@[i] == target[i] by {
            let page = i / 128;
            let col = i % 128;
            assert((col - 0 + 128) % 128 == col);
            assert((col + 0) % 128 == col);
            assert(page * 128 + col == i);
        }
        assert(buffer@ =~= target);
        return;
    }
    let mut page: usize = 0;
    while page < HEIGHT / 8
        invariant
            page <= 8,
            0 < offset < 128,
            target == Seq::new(BUFFER_LEN as nat, |i: int| hscroll_byte(old_bytes, dir, offset as int, i)),
            forall|i: int| 0 <= i < page * 128 ==> buffer@[i] == target[i],
            forall|i: int| page * 128 <= i < BUFFER_LEN ==> buffer@[i] == old_bytes[i],
        decreases 8 - page,
    {
        let base = page * WIDTH;
        // Copy of the row, then rotate it back into place.
        let mut row = [0u8; 128];
        let mut c: usize = 0;
        while c < WIDTH
            invariant
                page < 8,
                base == page * 128,
                c <= 128,
                forall|j: int| 0 <= j < c ==> row@[j] == buffer@[base + j],
            decreases 128 - c,
        {
            row[c] = buffer[base + c];
            c = c + 1;
        }
        let mut c: usize = 0;
        while c < WIDTH
            invariant
                page < 8,
                base == page * 128,
                c <= 128,
                0 < offset < 128,
                target == Seq::new(
                    BUFFER_LEN as nat,
                    |i: int| hscroll_byte(old_bytes, dir, offset as int, i),
                ),
                forall|j: int| 0 <= j < 128 ==> row@[j] == old_bytes[base + j],
                forall|i: int| 0 <= i < base + c ==> buffer@[i] == target[i],
                forall|i: int| base + c <= i < BUFFER_LEN ==> buffer@[i] == old_bytes[i],
            decreases 128 - c,
        {
            let from = match dir {
                ScrollDirection::Right => (c + WIDTH - offset) % WIDTH,
                ScrollDirection::Left => (c + offset) % WIDTH,
            };
            proof {
                let i = base + c;
                assert(i / 128 == page && i % 128 == c) by (nonlinear_arith)
                    requires
                        i == page * 128 + c,
                        c < 128,
                ;
                assert((c - offset + 128) % 128 == (c + 128 - offset) % 128);
            }
            buffer[base + c] = row[from];
            c = c + 1;
        }
        page = page + 1;
    }
    assert(buffer@ =~= target);
}

/// Rotates every column of `buffer` by `offset` rows (wrapping around).
///
/// The 64 pixels of a column span its 8 page bytes (bits 0..7 of the byte of
/// page `p` are rows `8p..8p+7`); they are packed into a 64-bit integer,
/// rotated, and unpacked again, so page boundaries need no special case.
pub fn scroll_vertical_bits(buffer: &mut [u8; 1024], dir: VerticalDirection, offset: usize)
    ensures
        forall|x: int, y: int|
            on_screen(x, y) ==> pixel_of(final(buffer)@, x, y) == pixel_of(
                old(buffer)@,
                x,
                vscroll_source_row(dir, (offset % HEIGHT) as int, y),
            ),
{
    let ghost old_bytes = buffer@;
    let offset = offset % HEIGHT;
    if offset == 0 {
        assert forall|x: int, y: int| on_screen(x, y) implies pixel_of(buffer@, x, y) == pixel_of(
            old_bytes,
            x,
            vscroll_source_row(dir, 0, y),
        ) by {
            assert((y + 0) % 64 == y);
            assert((y - 0 + 64) % 64 == y);
        }
        return;
    }
    let k = offset as u64;
    let mut col: usize = 0;
    while col < WIDTH
        invariant
            col <= 128,
            0 < k < 64,
            k == offset,
            forall|x: int, y: int|
                on_screen(x, y) && x < col ==> pixel_of(buffer@, x, y) == pixel_of(
                    old_bytes,
                    x,
                    vscroll_source_row(dir, offset as int, y),
                ),
            forall|i: int| 0 <= i < BUFFER_LEN && i % 128 >= col ==> buffer@[i] == old_bytes[i],
        decreases 128 - col,
    {
        // Pack the column: bit r of v is row r of column col.
        let mut v: u64 = 0;
        proof {
            assert(0u64 >> 0u64 == 0) by (bit_vector);
        }
        let mut page: usize = 0;
        while page < HEIGHT / 8
            invariant
                col < 128,
                page <= 8,
                forall|i: int| 0 <= i < BUFFER_LEN && i % 128 >= col ==> buffer@[i] == old_bytes[i],
                forall|r: u64| r < 8 * page ==> #[trigger] u64_bit(v, r) == pixel_of(old_bytes, col as int, r as int),
                page < 8 ==> v >> ((8 * page) as u64) == 0,
            decreases 8 - page,
        {
            let idx = page * WIDTH + col;
            proof {
                assert(idx % 128 == col) by (nonlinear_arith)
                    requires
                        idx == page * 128 + col,
                        col < 128,
                ;
            }
            let b = buffer[idx];
            proof {
                lemma_pack_byte(v, b, page as u64);
                assert forall|r: u64| r < 8 * (page + 1) implies #[trigger] u64_bit(
                    v | ((b as u64) << ((8 * page) as u64)),
                    r,
                ) == pixel_of(old_bytes, col as int, r as int) by {
                    if r >= 8 * page {
                        let j = (r - 8 * page) as u8;
                        assert(r == (8 * page + j as u64) as u64);
                        assert(bit_set(b, j) == u64_bit(
                            v | ((b as u64) << ((8 * page) as u64)),
                            (8 * page + j as u64) as u64,
                        ));
                        assert((r as int) / 8 == page && (r as int) % 8 == j);
                        assert(byte_index_of(col as int, r as int) == idx);
                        assert(b == old_bytes[idx as int]);
                    } else {
                        assert(u64_bit(v | ((b as u64) << ((8 * page) as u64)), r) == u64_bit(v, r));
                    }
                }
            }
            v = v | ((b as u64) << ((page * 8) as u64));
            page = page + 1;
        }
        // Rotate: row y shows the old row (y + offset) % 64 (up) or (y - offset) % 64 (down).
        let w = match dir {
            VerticalDirection::Up => (v >> k) | (v << (64 - k)),
            VerticalDirection::Down => (v << k) | (v >> (64 - k)),
        };
        proof {
            match dir {
                VerticalDirection::Up => lemma_rotate_right(v, k),
                VerticalDirection::Down => lemma_rotate_left(v, k),
            }
            assert forall|r: u64| r < 64 implies #[trigger] u64_bit(w, r) == pixel_of(
                old_bytes,
                col as int,
                vscroll_source_row(dir, offset as int, r as int),
            ) by {
                match dir {
                    VerticalDirection::Up => {
                        let src = ((r + k) % 64) as u64;
                        assert(u64_bit(v, src) == pixel_of(old_bytes, col as int, src as int));
                    },
                    VerticalDirection::Down => {
                        let src = ((r + 64 - k) % 64) as u64;
                        assert(u64_bit(v, src) == pixel_of(old_bytes, col as int, src as int));
                        assert((r - k + 64) % 64 == (r + 64 - k) % 64);
                    },
                }
            }
        }
        // Unpack into the 8 pages.
        let ghost start = buffer@;
        let mut page: usize = 0;
        while page < HEIGHT / 8
            invariant
                col < 128,
                page <= 8,
                forall|i: int|
                    0 <= i < BUFFER_LEN && (i % 128 != col || i / 128 >= page) ==> buffer@[i]
                        == start[i],
                forall|i: int| 0 <= i < BUFFER_LEN && i % 128 >= col ==> start[i] == old_bytes[i],
                forall|x: int, y: int|
                    on_screen(x, y) && x < col ==> pixel_of(start, x, y) == pixel_of(
                        old_bytes,
                        x,
                        vscroll_source_row(dir, offset as int, y),
                    ),
                forall|p: int, j: u8|
                    0 <= p < page && j < 8 ==> #[trigger] bit_set(buffer@[p * 128 + col], j)
                        == u64_bit(w, (8 * p + j) as u64),
            decreases 8 - page,
        {
            let idx = page * WIDTH + col;
            proof {
                assert(idx % 128 == col && idx / 128 == page) by (nonlinear_arith)
                    requires
                        idx == page * 128 + col,
                        col < 128,
                ;
                lemma_unpack_byte(w, page as u64);
            }
            buffer[idx] = (w >> ((page * 8) as u64)) as u8;
            proof {
                assert forall|i: int|
                    0 <= i < BUFFER_LEN && (i % 128 != col || i / 128 >= page + 1) implies buffer@[i]
                    == start[i] by {
                    if i == idx {
                        assert(false);
                    }
                }
                assert forall|p: int, j: u8|
                    0 <= p < page + 1 && j < 8 implies #[trigger] bit_set(buffer@[p * 128 + col], j)
                    == u64_bit(w, (8 * p + j) as u64) by {
                    if p == page {
                        assert(p * 128 + col == idx);
                    } else {
                        assert(p * 128 + col != idx);
                    }
                }
            }
            page = page + 1;
        }
        proof {
            assert forall|x: int, y: int| on_screen(x, y) && x < col + 1 implies pixel_of(
                buffer@,
                x,
                y,
            ) == pixel_of(old_bytes, x, vscroll_source_row(dir, offset as int, y)) by {
                let i = byte_index_of(x, y);
                assert(i % 128 == x && i / 128 == y / 8) by (nonlinear_arith)
                    requires
                        i == (y / 8) * 128 + x,
                        0 <= x < 128,
                        0 <= y < 64,
                ;
                if x < col {
                    assert(buffer@[i] == start[i]);
                } else {
                    let p = y / 8;
                    let j = (y % 8) as u8;
                    assert(bit_set(buffer@[p * 128 + col], j) == u64_bit(w, (8 * p + j) as u64));
                    assert((8 * p + j) as u64 == y as u64);
                }
            }
            assert forall|i: int| 0 <= i < BUFFER_LEN && i % 128 >= col + 1 implies buffer@[i]
                == old_bytes[i] by {}
        }
        col = col + 1;
    }
}

/// Bit `i` of `v`.
pub open spec fn u64_bit(v: u64, i: u64) -> bool {
    (v >> i) & 1 == 1
}

/// Adding one byte above the bits already packed keeps those bits and places
/// the byte's bits at `8p ..= 8p + 7`.
proof fn lemma_pack_byte(v: u64, b: u8, p: u64)
    requires
        p < 8,
        v >> ((8 * p) as u64) == 0,
    ensures
        forall|i: u64| i < 8 * p ==> u64_bit(v | ((b as u64) << ((8 * p) as u64)), i) == u64_bit(v, i),
        forall|j: u8|
            j < 8 ==> u64_bit(v | ((b as u64) << ((8 * p) as u64)), (8 * p + j as u64) as u64)
                == #[trigger] bit_set(b, j),
        p < 7 ==> (v | ((b as u64) << ((8 * p) as u64))) >> ((8 * (p + 1)) as u64) == 0,
{
    let s = (8 * p) as u64;
    assert(forall|i: u64| i < s ==> u64_bit(v | ((b as u64) << s), i) == u64_bit(v, i))
        by (bit_vector)
        requires
            s < 64,
            v >> s == 0,
    ;
    assert(forall|j: u8|
        j < 8 ==> (((v | ((b as u64) << s)) >> ((s + j as u64) as u64)) & 1 == 1) == (b & #[trigger] (1u8 << j) != 0))
        by (bit_vector)
        requires
            s < 64,
            s % 8 == 0,
            v >> s == 0,
    ;
    if p < 7 {
        assert((v | ((b as u64) << s)) >> ((s + 8) as u64) == 0) by (bit_vector)
            requires
                s < 56,
                v >> s == 0,
        ;
    }
}

/// Rotating right by `k` moves bit `(i + k) % 64` to bit `i`.
proof fn lemma_rotate_right(v: u64, k: u64)
    requires
        0 < k < 64,
    ensures
        forall|i: u64|
            i < 64 ==> #[trigger] u64_bit((v >> k) | (v << ((64 - k) as u64)), i) == u64_bit(
                v,
                ((i + k) % 64) as u64,
            ),
{
    let kk: u64 = (64 - k) as u64;
    assert(forall|i: u64|
        i < 64 ==> ((#[trigger] (((v >> k) | (v << kk)) >> i)) & 1 == 1 <==> (v >> (((i + k) % 64)
            as u64)) & 1 == 1)) by (bit_vector)
        requires
            0 < k < 64,
            kk == 64 - k,
    ;
}

/// Rotating left by `k` moves bit `(i + 64 - k) % 64` to bit `i`.
proof fn lemma_rotate_left(v: u64, k: u64)
    requires
        0 < k < 64,
    ensures
        forall|i: u64|
            i < 64 ==> #[trigger] u64_bit((v << k) | (v >> ((64 - k) as u64)), i) == u64_bit(
                v,
                ((i + 64 - k) % 64) as u64,
            ),
{
    let kk: u64 = (64 - k) as u64;
    assert(forall|i: u64|
        i < 64 ==> ((#[trigger] (((v << k) | (v >> kk)) >> i)) & 1 == 1 <==> (v >> (((i + 64 - k)
            % 64) as u64)) & 1 == 1)) by (bit_vector)
        requires
            0 < k < 64,
            kk == 64 - k,
    ;
}

/// Taking byte `p` of `v` gives bits `8p ..= 8p + 7`.
proof fn lemma_unpack_byte(v: u64, p: u64)
    requires
        p < 8,
    ensures
        forall|j: u8| j < 8 ==> #[trigger] bit_set((v >> ((8 * p) as u64)) as u8, j) == u64_bit(v, (8 * p + j as u64) as u64),
{
    let s = (8 * p) as u64;
    assert(forall|j: u8| j < 8 ==> (((v >> s) as u8) & #[trigger] (1u8 << j) != 0) == ((v >> ((s + j as u64) as u64)) & 1 == 1))
        by (bit_vector)
        requires
            s < 64,
    ;
}

// ---------------------------------------------------------------------------
// Laws
// ---------------------------------------------------------------------------

/// The buffer after rotating every page row of `b` by `k` columns in direction `dir`.
pub open spec fn hscrolled(b: Seq<u8>, dir: ScrollDirection, k: int) -> Seq<u8> {
    Seq::new(BUFFER_LEN as nat, |i: int| hscroll_byte(b, dir, k, i))
}

/// Horizontal scrolling is cyclic: rotating `k` columns one way and then `k`
/// columns the other way gives back the buffer.
pub proof fn lemma_hscroll_round_trip(b: Seq<u8>, k: int)
    requires
        b.len() == BUFFER_LEN,
        0 <= k < WIDTH,
    ensures
        hscrolled(hscrolled(b, ScrollDirection::Left, k), ScrollDirection::Right, k) == b,
        hscrolled(hscrolled(b, ScrollDirection::Right, k), ScrollDirection::Left, k) == b,
{
    let l = hscrolled(b, ScrollDirection::Left, k);
    let r = hscrolled(b, ScrollDirection::Right, k);
    assert forall|i: int| 0 <= i < BUFFER_LEN implies #[trigger] hscrolled(l, ScrollDirection::Right, k)[i] == b[i]
        && hscrolled(r, ScrollDirection::Left, k)[i] == b[i] by {
        let page = i / 128;
        let col = i % 128;
        let c1 = (col - k + 128) % 128;
        let c2 = (col + k) % 128;
        assert((c1 + k) % 128 == col);
        assert((c2 - k + 128) % 128 == col);
        assert((page * 128 + c1) / 128 == page && (page * 128 + c1) % 128 == c1);
        assert((page * 128 + c2) / 128 == page && (page * 128 + c2) % 128 == c2);
        assert(page * 128 + col == i);
    }
    assert(hscrolled(l, ScrollDirection::Right, k) =~= b);
    assert(hscrolled(r, ScrollDirection::Left, k) =~= b);
}

/// Horizontal scrolling moves every pixel of every row, on all 64 rows:
/// scrolling right by `k` columns puts pixel `(x, y)` at `((x + k) mod 128, y)`,
/// scrolling left puts it at `((x - k) mod 128, y)`.
pub proof fn lemma_hscroll_moves_pixels(b: Seq<u8>, k: int)
    requires
        b.len() == BUFFER_LEN,
        0 <= k < WIDTH,
    ensures
        forall|x: int, y: int|
            on_screen(x, y) ==> #[trigger] pixel_of(b, x, y) == pixel_of(
                hscrolled(b, ScrollDirection::Right, k),
                (x + k) % 128,
                y,
            ),
        forall|x: int, y: int|
            on_screen(x, y) ==> #[trigger] pixel_of(b, x, y) == pixel_of(
                hscrolled(b, ScrollDirection::Left, k),
                (x - k + 128) % 128,
                y,
            ),
{
    assert forall|x: int, y: int| on_screen(x, y) implies #[trigger] pixel_of(b, x, y) == pixel_of(
        hscrolled(b, ScrollDirection::Right, k),
        (x + k) % 128,
        y,
    ) && pixel_of(b, x, y) == pixel_of(hscrolled(b, ScrollDirection::Left, k), (x - k + 128) % 128, y) by {
        let page = y / 8;
        let cr = (x + k) % 128;
        let cl = (x - k + 128) % 128;
        assert(0 <= page < 8);
        assert((cr - k + 128) % 128 == x);
        assert((cl + k) % 128 == x);
        assert((page * 128 + cr) / 128 == page && (page * 128 + cr) % 128 == cr);
        assert((page * 128 + cl) / 128 == page && (page * 128 + cl) % 128 == cl);
        assert(byte_index_of(cr, y) == page * 128 + cr);
        assert(byte_index_of(cl, y) == page * 128 + cl);
        assert(hscrolled(b, ScrollDirection::Right, k)[page * 128 + cr] == b[page * 128 + x]);
        assert(hscrolled(b, ScrollDirection::Left, k)[page * 128 + cl] == b[page * 128 + x]);
    }
}

/// Scrolling by a whole screen width (an offset of 0 after reduction) changes nothing.
pub proof fn lemma_hscroll_zero(b: Seq<u8>, dir: ScrollDirection)
    requires
        b.len() == BUFFER_LEN,
    ensures
        hscrolled(b, dir, 0) == b,
{
    assert forall|i: int| 0 <= i < BUFFER_LEN implies #[trigger] hscrolled(b, dir, 0)[i] == b[i] by {
        assert((i % 128 + 128) % 128 == i % 128);
        assert(i / 128 * 128 + i % 128 == i);
    }
    assert(hscrolled(b, dir, 0) =~= b);
}

/// Scrolling by a whole screen height (an offset of 0 after reduction) shows
/// every row where it was.
pub proof fn lemma_vscroll_zero(dir: VerticalDirection, y: int)
    requires
        0 <= y < HEIGHT,
    ensures
        vscroll_source_row(dir, 0, y) == y,
{
}

/// `after` shows `before` rotated by `k` rows in direction `dir`.
pub open spec fn vscrolled(after: Seq<u8>, before: Seq<u8>, dir: VerticalDirection, k: int) -> bool {
    forall|x: int, y: int|
        on_screen(x, y) ==> #[trigger] pixel_of(after, x, y) == pixel_of(before, x, vscroll_source_row(dir, k, y))
}

/// Vertical scrolling moves every pixel of every column, across page
/// boundaries: scrolling down by `k` rows puts pixel `(x, y)` at
/// `(x, (y + k) mod 64)`, scrolling up puts it at `(x, (y - k) mod 64)`.
pub proof fn lemma_vscroll_moves_pixels(after: Seq<u8>, before: Seq<u8>, dir: VerticalDirection, k: int)
    requires
        0 <= k < HEIGHT,
        vscrolled(after, before, dir, k),
    ensures
        forall|x: int, y: int|
            on_screen(x, y) ==> #[trigger] pixel_of(before, x, y) == pixel_of(
                after,
                x,
                match dir {
                    VerticalDirection::Down => (y + k) % 64,
                    VerticalDirection::Up => (y - k + 64) % 64,
                },
            ),
{
    assert forall|x: int, y: int| on_screen(x, y) implies #[trigger] pixel_of(before, x, y) == pixel_of(
        after,
        x,
        match dir {
            VerticalDirection::Down => (y + k) % 64,
            VerticalDirection::Up => (y - k + 64) % 64,
        },
    ) by {
        let y2 = match dir {
            VerticalDirection::Down => (y + k) % 64,
            VerticalDirection::Up => (y - k + 64) % 64,
        };
        assert(on_screen(x, y2));
        assert(vscroll_source_row(dir, k, y2) == y);
        assert(pixel_of(after, x, y2) == pixel_of(before, x, vscroll_source_row(dir, k, y2)));
    }
}

/// Vertical scrolling is cyclic: rotating `k` rows one way and then `k` rows
/// the other way shows the starting picture again.
pub proof fn lemma_vscroll_round_trip(
    b0: Seq<u8>,
    b1: Seq<u8>,
    b2: Seq<u8>,
    first: VerticalDirection,
    second: VerticalDirection,
    k: int,
)
    requires
        0 <= k < HEIGHT,
        first != second,
        vscrolled(b1, b0, first, k),
        vscrolled(b2, b1, second, k),
    ensures
        forall|x: int, y: int| on_screen(x, y) ==> #[trigger] pixel_of(b2, x, y) == pixel_of(b0, x, y),
{
    assert forall|x: int, y: int| on_screen(x, y) implies #[trigger] pixel_of(b2, x, y) == pixel_of(b0, x, y) by {
        let y1 = vscroll_source_row(second, k, y);
        lemma_vscroll_rows(first, second, k, y);
        assert(pixel_of(b2, x, y) == pixel_of(b1, x, y1));
        assert(pixel_of(b1, x, y1) == pixel_of(b0, x, vscroll_source_row(first, k, y1)));
    }
}

/// Rotating rows one way and then the other brings every row back.
proof fn lemma_vscroll_rows(first: VerticalDirection, second: VerticalDirection, k: int, y: int)
    requires
        0 <= k < HEIGHT,
        0 <= y < HEIGHT,
        first != second,
    ensures
        0 <= vscroll_source_row(second, k, y) < HEIGHT,
        vscroll_source_row(first, k, vscroll_source_row(second, k, y)) == y,
{
}

/// The page-turn frame at offset `off`.
pub open spec fn blended(src: Seq<u8>, new: Seq<u8>, off: int) -> Seq<u8> {
    Seq::new(BUFFER_LEN as nat, |i: int| blend_byte(src, new, off, i))
}

/// The page-turn animation starts on the old page and ends on the new one.
pub proof fn lemma_blend_ends(src: Seq<u8>, new: Seq<u8>)
    requires
        src.len() == BUFFER_LEN,
        new.len() == BUFFER_LEN,
    ensures
        blended(src, new, 0) == src,
        blended(src, new, WIDTH as int) == new,
{
    assert forall|i: int| 0 <= i < BUFFER_LEN implies #[trigger] blended(src, new, 0)[i] == src[i] && blended(
        src,
        new,
        WIDTH as int,
    )[i] == new[i] by {
        assert(i / 128 * 128 + i % 128 == i);
    }
    assert(blended(src, new, 0) =~= src);
    assert(blended(src, new, WIDTH as int) =~= new);
}

} // verus!
