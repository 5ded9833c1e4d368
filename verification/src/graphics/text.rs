//! Text rendering with the 5×7 font.
//!
//! * `draw_text` / `draw_text_packed` — lit glyphs, with or without a 1-pixel gap
//! * `draw_text_inverted` — cleared glyphs, for text on a filled background
//!
//! `'\n'` starts a new line (back to the start column, 8 rows lower). The
//! characters of a line that would start at or beyond the right edge are
//! skipped up to the next `'\n'`; drawing stops once a line starts at or below
//! the bottom edge. Glyph columns and rows beyond the edges are clipped.
use super::font::{glyph, glyph_of, CHAR_HEIGHT, CHAR_WIDTH};
use crate::display::framebuffer::{
    bit_set, lemma_contains_append, lemma_plot_all_cons, lemma_plot_all_pixel, max_int, on_screen, pixel_of, plot, plot_all,
    FrameState, BUFFER_LEN,
};
use crate::display::Framebuffer;
use vstd::prelude::*;

verus! {

enum DrawMode {
    /// Glyph pixels are lit.
    Lit,
    /// Glyph pixels are cleared.
    Clear,
}

/// The lit rows of glyph column `bits` drawn at column `px` from row `cy`,
/// from row `bit` of the glyph on, stopping at the bottom edge.
pub open spec fn column_points(bits: u8, px: int, cy: int, bit: int) -> Seq<(int, int)>
    decreases 7 - bit,
{
    if bit >= 7 || cy + bit >= 64 {
        Seq::empty()
    } else {
        (if bit_set(bits, bit as u8) {
            seq![(px, cy + bit)]
        } else {
            Seq::empty()
        }) + column_points(bits, px, cy, bit + 1)
    }
}

/// The points of glyph `g` drawn at `(cx, cy)`, from column `col` on,
/// stopping at the right edge.
pub open spec fn glyph_points(g: [u8; 5], cx: int, cy: int, col: int) -> Seq<(int, int)>
    decreases 5 - col,
{
    if col >= 5 || cx + col >= 128 {
        Seq::empty()
    } else {
        column_points(g[col], cx + col, cy, 0) + glyph_points(g, cx, cy, col + 1)
    }
}

/// The points of `chars[i..]` drawn with the cursor at `(cx, cy)`, lines
/// starting at column `x`, `gap` pixels between characters.
pub open spec fn text_points(chars: Seq<char>, i: int, x: int, cx: int, cy: int, gap: int) -> Seq<
    (int, int),
>
    decreases chars.len() - i,
{
    if i < 0 || i >= chars.len() {
        Seq::empty()
    } else if chars[i] == '\n' {
        text_points(chars, i + 1, x, x, cy + 8, gap)
    } else if cy >= 64 {
        Seq::empty()
    } else if cx >= 128 {
        text_points(chars, i + 1, x, cx, cy, gap)
    } else {
        glyph_points(glyph_of(chars[i]), cx, cy, 0) + text_points(chars, i + 1, x, cx + 5 + gap, cy, gap)
    }
}

/// The points of a glyph column: row `cy + b` of column `px`, for each set bit
/// `b` from `bit` on (bit 0 at the top), above the bottom edge.
proof fn lemma_column_points(bits: u8, px: int, cy: int, bit: int, q: (int, int))
    requires
        0 <= bit,
    ensures
        column_points(bits, px, cy, bit).contains(q) <==> {
            &&& q.0 == px
            &&& bit <= q.1 - cy < 7
            &&& q.1 < 64
            &&& bit_set(bits, (q.1 - cy) as u8)
        },
    decreases 7 - bit,
{
    if !(bit >= 7 || cy + bit >= 64) {
        let head = if bit_set(bits, bit as u8) {
            seq![(px, cy + bit)]
        } else {
            Seq::empty()
        };
        lemma_contains_append(head, column_points(bits, px, cy, bit + 1), q);
        lemma_column_points(bits, px, cy, bit + 1, q);
        if head.contains(q) {
            assert(head[0] == q);
        }
        if q == (px, cy + bit) && bit_set(bits, bit as u8) {
            assert(head[0] == q);
        }
    }
}

/// The points of a glyph: pixel `(cx + c, cy + b)` for each column `c` from
/// `col` on and each set bit `b` of that column (bit 0 at the top), clipped at
/// the right and bottom edges.
proof fn lemma_glyph_points(g: [u8; 5], cx: int, cy: int, col: int, q: (int, int))
    requires
        0 <= col,
    ensures
        glyph_points(g, cx, cy, col).contains(q) <==> {
            &&& col <= q.0 - cx < 5
            &&& q.0 < 128
            &&& 0 <= q.1 - cy < 7
            &&& q.1 < 64
            &&& bit_set(g[q.0 - cx], (q.1 - cy) as u8)
        },
    decreases 5 - col,
{
    if !(col >= 5 || cx + col >= 128) {
        lemma_contains_append(column_points(g[col], cx + col, cy, 0), glyph_points(g, cx, cy, col + 1), q);
        lemma_column_points(g[col], cx + col, cy, 0, q);
        lemma_glyph_points(g, cx, cy, col + 1, q);
    }
}

/// Every point drawn for `chars[i..]` from the cursor `(cx, cy)` lies on a
/// later line (8 rows or more lower), or on the cursor's line at or right of
/// the cursor.
proof fn lemma_text_points_after(chars: Seq<char>, i: int, x: int, cx: int, cy: int, gap: int, q: (int, int))
    requires
        0 <= gap,
        text_points(chars, i, x, cx, cy, gap).contains(q),
    ensures
        q.1 >= cy + 8 || (q.0 >= cx && cy <= q.1 < cy + 7),
    decreases chars.len() - i,
{
    if 0 <= i < chars.len() {
        if chars[i] == '\n' {
            lemma_text_points_after(chars, i + 1, x, x, cy + 8, gap, q);
        } else if cy >= 64 {
        } else if cx >= 128 {
            lemma_text_points_after(chars, i + 1, x, cx, cy, gap, q);
        } else {
            let g = glyph_points(glyph_of(chars[i]), cx, cy, 0);
            let rest = text_points(chars, i + 1, x, cx + 5 + gap, cy, gap);
            lemma_contains_append(g, rest, q);
            if g.contains(q) {
                lemma_glyph_points(glyph_of(chars[i]), cx, cy, 0, q);
            } else {
                lemma_text_points_after(chars, i + 1, x, cx + 5 + gap, cy, gap, q);
            }
        }
    }
}

/// The glyph of `chars[i]` drawn at the cursor `(cx, cy)`: its pixel
/// `(cx + col, cy + b)` is among the points drawn for `chars[i..]` exactly when
/// bit `b` of column `col` of the glyph is set.
proof fn lemma_cursor_glyph(chars: Seq<char>, i: int, x: int, cx: int, cy: int, gap: int, col: int, b: int)
    requires
        0 <= i < chars.len(),
        chars[i] != '\n',
        0 <= gap,
        0 <= col < 5,
        0 <= b < 7,
        on_screen(cx + col, cy + b),
    ensures
        text_points(chars, i, x, cx, cy, gap).contains((cx + col, cy + b)) == bit_set(
            glyph_of(chars[i])[col],
            b as u8,
        ),
{
    let q = (cx + col, cy + b);
    let g = glyph_points(glyph_of(chars[i]), cx, cy, 0);
    let rest = text_points(chars, i + 1, x, cx + 5 + gap, cy, gap);
    assert(text_points(chars, i, x, cx, cy, gap) == g + rest);
    lemma_contains_append(g, rest, q);
    lemma_glyph_points(glyph_of(chars[i]), cx, cy, 0, q);
    if rest.contains(q) {
        lemma_text_points_after(chars, i + 1, x, cx + 5 + gap, cy, gap, q);
    }
}

/// Glyphs are drawn upright from the font: when a text starting with a
/// character `ch` other than `'\n'` is drawn at `(x, y)`, the on-screen pixel
/// `(x + col, y + b)` of its first glyph (`col < 5`, `b < 7`) is written exactly
/// when bit `b` (bit 0 = top row) of column `col` of `ch`'s glyph is set, and
/// keeps its old value otherwise.
pub proof fn lemma_text_glyph_pixels(
    s: FrameState,
    chars: Seq<char>,
    x: int,
    y: int,
    gap: int,
    on: bool,
    col: int,
    b: int,
)
    requires
        s.bytes.len() == BUFFER_LEN,
        chars.len() > 0,
        chars[0] != '\n',
        0 <= gap,
        0 <= col < 5,
        0 <= b < 7,
        on_screen(x + col, y + b),
    ensures
        text_points(chars, 0, x, x, y, gap).contains((x + col, y + b)) == bit_set(
            glyph_of(chars[0])[col],
            b as u8,
        ),
        pixel_of(plot_all(s, text_points(chars, 0, x, x, y, gap), on).bytes, x + col, y + b) == if bit_set(
            glyph_of(chars[0])[col],
            b as u8,
        ) {
            on
        } else {
            pixel_of(s.bytes, x + col, y + b)
        },
{
    lemma_cursor_glyph(chars, 0, x, x, y, gap, col, b);
    lemma_plot_all_pixel(s, text_points(chars, 0, x, x, y, gap), on, x + col, y + b);
}

/// Text layout: the second character of a line starts `5 + gap` columns right
/// of the first, and a character after a `'\n'` starts back at column `x`,
/// 8 rows lower. Their pixels `(col < 5, b < 7)` are written exactly where
/// their glyphs have set bits.
pub proof fn lemma_text_layout(chars: Seq<char>, x: int, y: int, gap: int, col: int, b: int)
    requires
        chars.len() >= 2,
        chars[0] != '\n',
        0 <= x < 128,
        0 <= y < 64,
        0 <= gap,
        0 <= col < 5,
        0 <= b < 7,
    ensures
        chars[1] != '\n' && on_screen(x + 5 + gap + col, y + b) ==> text_points(chars, 0, x, x, y, gap).contains(
            (x + 5 + gap + col, y + b),
        ) == bit_set(glyph_of(chars[1])[col], b as u8),
        chars.len() >= 3 && chars[1] == '\n' && chars[2] != '\n' && on_screen(x + col, y + 8 + b)
            ==> text_points(chars, 0, x, x, y, gap).contains((x + col, y + 8 + b)) == bit_set(
            glyph_of(chars[2])[col],
            b as u8,
        ),
{
    let g = glyph_points(glyph_of(chars[0]), x, y, 0);
    let rest = text_points(chars, 1, x, x + 5 + gap, y, gap);
    assert(text_points(chars, 0, x, x, y, gap) == g + rest);
    if chars[1] != '\n' && on_screen(x + 5 + gap + col, y + b) {
        let q = (x + 5 + gap + col, y + b);
        lemma_contains_append(g, rest, q);
        lemma_glyph_points(glyph_of(chars[0]), x, y, 0, q);
        lemma_cursor_glyph(chars, 1, x, x + 5 + gap, y, gap, col, b);
    }
    if chars.len() >= 3 && chars[1] == '\n' && chars[2] != '\n' && on_screen(x + col, y + 8 + b) {
        let q = (x + col, y + 8 + b);
        lemma_contains_append(g, rest, q);
        lemma_glyph_points(glyph_of(chars[0]), x, y, 0, q);
        assert(rest == text_points(chars, 2, x, x, y + 8, gap));
        lemma_cursor_glyph(chars, 2, x, x, y + 8, gap, col, b);
    }
}

/// Drawing `chars[i..]` from `(cx, cy)` keeps the cursor within `usize`.
pub open spec fn text_fits(chars: Seq<char>, i: int, x: int, cx: int, cy: int, gap: int) -> bool
    decreases chars.len() - i,
{
    if i < 0 || i >= chars.len() {
        true
    } else if chars[i] == '\n' {
        cy + 8 <= usize::MAX && text_fits(chars, i + 1, x, x, cy + 8, gap)
    } else if cy >= 64 {
        true
    } else if cx >= 128 {
        text_fits(chars, i + 1, x, cx, cy, gap)
    } else {
        cx + 5 + gap <= usize::MAX && text_fits(chars, i + 1, x, cx + 5 + gap, cy, gap)
    }
}

/// A simple bound that makes any text fit: the cursor row stays within `usize`
/// when every remaining character could be a `'\n'` (8 rows each), and the gap
/// is small enough that a glyph started left of the right edge ends within
/// `usize`. With `y + 8 * text.len() <= usize::MAX` this covers every call of
/// [`draw_text`], [`draw_text_packed`] and [`draw_text_inverted`].
pub proof fn lemma_text_fits(chars: Seq<char>, i: int, x: int, cx: int, cy: int, gap: int)
    requires
        0 <= gap,
        gap + 133 <= usize::MAX,
        cy + 8 * (chars.len() - i) <= usize::MAX,
    ensures
        text_fits(chars, i, x, cx, cy, gap),
    decreases chars.len() - i,
{
    if 0 <= i < chars.len() {
        if chars[i] == '\n' {
            lemma_text_fits(chars, i + 1, x, x, cy + 8, gap);
        } else if cy >= 64 {
        } else if cx >= 128 {
            lemma_text_fits(chars, i + 1, x, cx, cy, gap);
        } else {
            lemma_text_fits(chars, i + 1, x, cx + 5 + gap, cy, gap);
        }
    }
}

/// Draws `text` at `(x, y)` with a 1-pixel gap between characters.
pub fn draw_text(fb: &mut Framebuffer, x: usize, y: usize, text: &str)
    requires
        text_fits(text@, 0, x as int, x as int, y as int, 1),
    ensures
        final(fb).state() == plot_all(
            old(fb).state(),
            text_points(text@, 0, x as int, x as int, y as int, 1),
            true,
        ),
{
    draw_impl(fb, x, y, text, 1, DrawMode::Lit);
}

/// Draws `text` at `(x, y)` with no gap between characters.
pub fn draw_text_packed(fb: &mut Framebuffer, x: usize, y: usize, text: &str)
    requires
        text_fits(text@, 0, x as int, x as int, y as int, 0),
    ensures
        final(fb).state() == plot_all(
            old(fb).state(),
            text_points(text@, 0, x as int, x as int, y as int, 0),
            true,
        ),
{
    draw_impl(fb, x, y, text, 0, DrawMode::Lit);
}

/// Draws `text` at `(x, y)` by clearing the glyph pixels (the background must
/// be filled first), with a 1-pixel gap between characters.
pub fn draw_text_inverted(fb: &mut Framebuffer, x: usize, y: usize, text: &str)
    requires
        text_fits(text@, 0, x as int, x as int, y as int, 1),
    ensures
        final(fb).state() == plot_all(
            old(fb).state(),
            text_points(text@, 0, x as int, x as int, y as int, 1),
            false,
        ),
{
    draw_impl(fb, x, y, text, 1, DrawMode::Clear);
}

fn draw_impl(fb: &mut Framebuffer, x: usize, y: usize, text: &str, gap: usize, mode: DrawMode)
    requires
        text_fits(text@, 0, x as int, x as int, y as int, gap as int),
    ensures
        final(fb).state() == plot_all(
            old(fb).state(),
            text_points(text@, 0, x as int, x as int, y as int, gap as int),
            mode is Lit,
        ),
{
    let on = match mode {
        DrawMode::Lit => true,
        DrawMode::Clear => false,
    };
    let ghost target = plot_all(
        fb.state(),
        text_points(text@, 0, x as int, x as int, y as int, gap as int),
        on,
    );
    let mut cx = x;
    let mut cy = y;
    // Set once the cursor leaves the screen: the rest of the text is not drawn.
    let mut stopped = false;
    for ch in it: text.chars()
        invariant
            it.seq() == text@,
            on == (mode is Lit),
            stopped ==> fb.state() == target,
            !stopped ==> {
                &&& plot_all(
                    fb.state(),
                    text_points(text@, it.index() as int, x as int, cx as int, cy as int, gap as int),
                    on,
                ) == target
                &&& text_fits(text@, it.index() as int, x as int, cx as int, cy as int, gap as int)
            },
    {
        let ghost i = it.index() as int;
        if !stopped {
            if ch == '\n' {
                // New line: back to the start column, one glyph height plus one row lower.
                cx = x;
                cy = cy + CHAR_HEIGHT + 1;
            } else if cy >= 64 {
                // The line is past the bottom edge: nothing more is visible.
                stopped = true;
            } else if cx >= 128 {
                // Past the right edge: skip the rest of this line.
            } else {
                let g = glyph(ch);
                let ghost rest = text_points(text@, i + 1, x as int, cx + 5 + gap, cy as int, gap as int);
                let mut col: usize = 0;
                while col < CHAR_WIDTH && cx + col < 128
                    invariant
                        col <= 5,
                        cx < 128,
                        cy < 64,
                        plot_all(fb.state(), glyph_points(g, cx as int, cy as int, col as int) + rest, on)
                            == target,
                    decreases 5 - col,
                {
                    let px = cx + col;
                    let col_data = g[col];
                    let ghost after = glyph_points(g, cx as int, cy as int, col + 1) + rest;
                    proof {
                        assert(glyph_points(g, cx as int, cy as int, col as int) + rest
                            =~= column_points(col_data, px as int, cy as int, 0) + after);
                    }
                    let mut bit: usize = 0;
                    while bit < CHAR_HEIGHT && cy + bit < 64
                        invariant
                            bit <= 7,
                            cy < 64,
                            px < 128,
                            plot_all(fb.state(), column_points(col_data, px as int, cy as int, bit as int) + after, on)
                                == target,
                        decreases 7 - bit,
                    {
                        let py = cy + bit;
                        let b = bit as u8;
                        if (col_data & (1u8 << b)) != 0 {
                            proof {
                                assert(column_points(col_data, px as int, cy as int, bit as int) + after
                                    =~= seq![(px as int, py as int)] + (column_points(
                                    col_data,
                                    px as int,
                                    cy as int,
                                    bit + 1,
                                ) + after));
                                lemma_plot_all_cons(
                                    fb.state(),
                                    (px as int, py as int),
                                    column_points(col_data, px as int, cy as int, bit + 1) + after,
                                    on,
                                );
                            }
                            fb.set_pixel(px, py, on);
                        } else {
                            proof {
                                assert(column_points(col_data, px as int, cy as int, bit as int) + after
                                    =~= column_points(col_data, px as int, cy as int, bit + 1) + after);
                            }
                        }
                        bit = bit + 1;
                    }
                    proof {
                        assert(column_points(col_data, px as int, cy as int, bit as int) + after =~= after);
                    }
                    col = col + 1;
                }
                proof {
                    assert(glyph_points(g, cx as int, cy as int, col as int) + rest =~= rest);
                }
                cx = cx + CHAR_WIDTH + gap;
            }
        }
    }
    proof {
        if !stopped {
            assert(text_points(text@, text@.len() as int, x as int, cx as int, cy as int, gap as int)
                =~= Seq::<(int, int)>::empty());
        }
    }
}

/// Width in pixels of a line of `n` characters with `gap` pixels between
/// them (none after the last).
pub open spec fn line_width(n: int, gap: int) -> int {
    if n <= 0 {
        0
    } else {
        n * 5 + (n - 1) * gap
    }
}

/// The widest line of `chars`, scanning from index `i` with `cur` characters
/// in the current line and `best` the widest line so far.
///
/// Lines end at `'\n'`; a `'\r'` right before a `'\n'` is not part of the line.
pub open spec fn widest_line(chars: Seq<char>, i: int, cur: int, best: int, gap: int) -> int
    decreases chars.len() - i,
{
    if i < 0 || i >= chars.len() {
        max_int(best, line_width(cur, gap))
    } else if chars[i] == '\n' {
        let n = if cur > 0 && chars[i - 1] == '\r' {
            cur - 1
        } else {
            cur
        };
        widest_line(chars, i + 1, 0, max_int(best, line_width(n, gap)), gap)
    } else {
        widest_line(chars, i + 1, cur + 1, best, gap)
    }
}

/// The scan never reports less than what it has seen: the widest line so far,
/// and (but for a final `'\r'`) the line in progress.
proof fn lemma_widest_line_bounds(chars: Seq<char>, i: int, cur: int, best: int, gap: int)
    requires
        0 <= i,
        0 <= cur,
        0 <= best,
        0 <= gap,
    ensures
        widest_line(chars, i, cur, best, gap) >= best,
        widest_line(chars, i, cur, best, gap) >= line_width(cur - 1, gap),
    decreases chars.len() - i,
{
    assert(line_width(cur - 1, gap) <= line_width(cur, gap)) by (nonlinear_arith)
        requires
            0 <= cur,
            0 <= gap,
    ;
    if i < chars.len() {
        if chars[i] == '\n' {
            let n = if cur > 0 && chars[i - 1] == '\r' {
                cur - 1
            } else {
                cur
            };
            lemma_widest_line_bounds(chars, i + 1, 0, max_int(best, line_width(n, gap)), gap);
        } else {
            lemma_widest_line_bounds(chars, i + 1, cur + 1, best, gap);
            assert(line_width(cur - 1, gap) <= line_width(cur, gap));
        }
    }
}

/// Width in pixels of the widest line of `text` with `gap` pixels between
/// characters; the same layout as the drawing functions (`n * 5 + (n - 1) * gap`
/// for a line of `n` characters).
pub fn text_width(text: &str, gap: usize) -> (r: usize)
    requires
        widest_line(text@, 0, 0, 0, gap as int) <= usize::MAX,
    ensures
        r == widest_line(text@, 0, 0, 0, gap as int),
{
    let ghost target = widest_line(text@, 0, 0, 0, gap as int);
    let mut best: usize = 0;
    let mut cur: usize = 0;
    let mut prev_cr = false;
    for ch in it: text.chars()
        invariant
            it.seq() == text@,
            target == widest_line(text@, 0, 0, 0, gap as int),
            target <= usize::MAX,
            widest_line(text@, it.index() as int, cur as int, best as int, gap as int) == target,
            it.index() > 0 ==> prev_cr == (text@[it.index() - 1] == '\r'),
            cur > 0 ==> it.index() > 0,
    {
        let ghost i = it.index() as int;
        proof {
            lemma_widest_line_bounds(text@, i, cur as int, best as int, gap as int);
        }
        if ch == '\n' {
            let n = if cur > 0 && prev_cr { cur - 1 } else { cur };
            proof {
                lemma_widest_line_bounds(text@, i + 1, 0, max_int(best as int, line_width(n as int, gap as int)), gap as int);
                if n >= 1 {
                    assert(n * 5 <= line_width(n as int, gap as int) && (n - 1) * gap <= line_width(
                        n as int,
                        gap as int,
                    )) by (nonlinear_arith)
                        requires
                            line_width(n as int, gap as int) == n * 5 + (n - 1) * gap,
                            n >= 1,
                            gap >= 0,
                    ;
                }
            }
            let w = if n == 0 { 0 } else { n * CHAR_WIDTH + (n - 1) * gap };
            if w > best {
                best = w;
            }
            cur = 0;
        } else {
            proof {
                lemma_widest_line_bounds(text@, i + 1, cur + 1, best as int, gap as int);
                assert(cur * 5 <= line_width(cur as int, gap as int) || cur == 0) by (nonlinear_arith)
                    requires
                        cur >= 1 ==> line_width(cur as int, gap as int) == cur * 5 + (cur - 1) * gap,
                        gap >= 0,
                ;
            }
            cur = cur + 1;
        }
        prev_cr = ch == '\r';
    }
    proof {
        assert(cur * 5 <= line_width(cur as int, gap as int) && (cur - 1) * gap <= line_width(cur as int, gap as int) || cur == 0)
            by (nonlinear_arith)
            requires
                cur >= 1 ==> line_width(cur as int, gap as int) == cur * 5 + (cur - 1) * gap,
                cur >= 1 ==> gap >= 0,
        ;
    }
    let w = if cur == 0 { 0 } else { cur * CHAR_WIDTH + (cur - 1) * gap };
    if w > best { w } else { best }
}

// ---------------------------------------------------------------------------
// Width and layout agree
// ---------------------------------------------------------------------------

/// `chars` holds no carriage return.
pub open spec fn no_carriage_return(chars: Seq<char>) -> bool {
    forall|j: int| 0 <= j < chars.len() ==> chars[j] != '\r'
}

/// A glyph column lies in its column.
proof fn lemma_column_points_x(bits: u8, px: int, cy: int, bit: int)
    ensures
        forall|k: int|
            0 <= k < column_points(bits, px, cy, bit).len() ==> #[trigger] column_points(bits, px, cy, bit)[k].0
                == px,
    decreases 7 - bit,
{
    if !(bit >= 7 || cy + bit >= 64) {
        lemma_column_points_x(bits, px, cy, bit + 1);
        let head = if bit_set(bits, bit as u8) {
            seq![(px, cy + bit)]
        } else {
            Seq::<(int, int)>::empty()
        };
        let rest = column_points(bits, px, cy, bit + 1);
        assert forall|k: int| 0 <= k < (head + rest).len() implies #[trigger] (head + rest)[k].0 == px by {
            if k >= head.len() {
                assert((head + rest)[k] == rest[k - head.len()]);
            }
        }
    }
}

/// A glyph drawn at column `cx` lies in columns `cx + col ..= cx + 4`.
proof fn lemma_glyph_points_x(g: [u8; 5], cx: int, cy: int, col: int)
    requires
        0 <= col,
    ensures
        forall|k: int|
            0 <= k < glyph_points(g, cx, cy, col).len() ==> cx + col <= #[trigger] glyph_points(g, cx, cy, col)[k].0
                <= cx + 4,
    decreases 5 - col,
{
    if !(col >= 5 || cx + col >= 128) {
        lemma_column_points_x(g[col], cx + col, cy, 0);
        lemma_glyph_points_x(g, cx, cy, col + 1);
        let head = column_points(g[col], cx + col, cy, 0);
        let rest = glyph_points(g, cx, cy, col + 1);
        assert forall|k: int| 0 <= k < (head + rest).len() implies cx + col <= #[trigger] (head + rest)[k].0 <= cx
            + 4 by {
            if k >= head.len() {
                assert((head + rest)[k] == rest[k - head.len()]);
            } else {
                assert(head[k].0 == cx + col);
            }
        }
    }
}

/// Without carriage returns, the widest-line scan is at least the widest line
/// so far and the line in progress.
proof fn lemma_widest_line_no_cr(chars: Seq<char>, i: int, cur: int, best: int, gap: int)
    requires
        no_carriage_return(chars),
        0 <= i,
        0 <= cur,
        cur > 0 ==> i > 0,
        0 <= best,
        0 <= gap,
    ensures
        widest_line(chars, i, cur, best, gap) >= best,
        widest_line(chars, i, cur, best, gap) >= line_width(cur, gap),
    decreases chars.len() - i,
{
    if i < chars.len() {
        if chars[i] == '\n' {
            if cur > 0 {
                assert(chars[i - 1] != '\r');
            }
            lemma_widest_line_no_cr(chars, i + 1, 0, max_int(best, line_width(cur, gap)), gap);
        } else {
            lemma_widest_line_no_cr(chars, i + 1, cur + 1, best, gap);
            assert(line_width(cur, gap) <= line_width(cur + 1, gap)) by (nonlinear_arith)
                requires
                    0 <= cur,
                    0 <= gap,
            ;
        }
    }
}

/// The points of `chars[i..]`, with the cursor no further than `cur`
/// characters into its line, lie between the line start `x` and `x` plus the
/// widest line.
proof fn lemma_text_points_x(chars: Seq<char>, i: int, x: int, cx: int, cy: int, gap: int, cur: int, best: int)
    requires
        no_carriage_return(chars),
        0 <= i,
        0 <= cur,
        cur > 0 ==> i > 0,
        0 <= best,
        0 <= gap,
        x <= cx <= x + cur * (5 + gap),
    ensures
        forall|k: int|
            0 <= k < text_points(chars, i, x, cx, cy, gap).len() ==> x <= #[trigger] text_points(
                chars,
                i,
                x,
                cx,
                cy,
                gap,
            )[k].0 < x + widest_line(chars, i, cur, best, gap),
    decreases chars.len() - i,
{
    if i < chars.len() {
        if chars[i] == '\n' {
            if cur > 0 {
                assert(chars[i - 1] != '\r');
            }
            assert(text_points(chars, i, x, cx, cy, gap) == text_points(chars, i + 1, x, x, cy + 8, gap));
            assert(widest_line(chars, i, cur, best, gap) == widest_line(
                chars,
                i + 1,
                0,
                max_int(best, line_width(cur, gap)),
                gap,
            ));
            assert(x == x + 0 * (5 + gap));
            lemma_text_points_x(chars, i + 1, x, x, cy + 8, gap, 0, max_int(best, line_width(cur, gap)));
        } else if cy >= 64 {
        } else if cx >= 128 {
            assert(cx <= x + (cur + 1) * (5 + gap)) by (nonlinear_arith)
                requires
                    cx <= x + cur * (5 + gap),
                    0 <= gap,
            ;
            lemma_text_points_x(chars, i + 1, x, cx, cy, gap, cur + 1, best);
            assert(text_points(chars, i, x, cx, cy, gap) == text_points(chars, i + 1, x, cx, cy, gap));
            assert(widest_line(chars, i, cur, best, gap) == widest_line(chars, i + 1, cur + 1, best, gap));
        } else {
            let g = glyph_points(glyph_of(chars[i]), cx, cy, 0);
            let rest = text_points(chars, i + 1, x, cx + 5 + gap, cy, gap);
            lemma_glyph_points_x(glyph_of(chars[i]), cx, cy, 0);
            assert(x <= cx + 5 + gap <= x + (cur + 1) * (5 + gap)) by (nonlinear_arith)
                requires
                    x <= cx <= x + cur * (5 + gap),
                    0 <= gap,
            ;
            assert(cx + 4 < x + line_width(cur + 1, gap) && x <= cx) by (nonlinear_arith)
                requires
                    x <= cx <= x + cur * (5 + gap),
                    0 <= cur,
                    0 <= gap,
                    line_width(cur + 1, gap) == (cur + 1) * 5 + cur * gap,
            ;
            lemma_widest_line_no_cr(chars, i + 1, cur + 1, best, gap);
            lemma_text_points_x(chars, i + 1, x, cx + 5 + gap, cy, gap, cur + 1, best);
            assert(text_points(chars, i, x, cx, cy, gap) == g + rest);
            assert(widest_line(chars, i, cur, best, gap) == widest_line(chars, i + 1, cur + 1, best, gap));
            assert forall|k: int| 0 <= k < (g + rest).len() implies x <= #[trigger] (g + rest)[k].0 < x + widest_line(
                chars,
                i,
                cur,
                best,
                gap,
            ) by {
                if k >= g.len() {
                    assert((g + rest)[k] == rest[k - g.len()]);
                }
            }
        }
    }
}

/// Text and [`text_width`] agree: every pixel the drawing functions write for
/// `text` at column `x` lies in columns `x .. x + width`, where `width` is what
/// `text_width` reports for the same gap (text without carriage returns).
pub proof fn lemma_text_within_width(chars: Seq<char>, x: int, y: int, gap: int)
    requires
        no_carriage_return(chars),
        0 <= gap,
    ensures
        forall|k: int|
            0 <= k < text_points(chars, 0, x, x, y, gap).len() ==> x <= #[trigger] text_points(chars, 0, x, x, y, gap)[k].0
                < x + widest_line(chars, 0, 0, 0, gap),
{
    lemma_text_points_x(chars, 0, x, x, y, gap, 0, 0);
}

} // verus!
