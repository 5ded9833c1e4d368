//! Filled triangles, by horizontal scan lines.
use super::{fill_row, lemma_row_span_contains, row_span, span_x};
use crate::display::framebuffer::{
    lemma_contains_append, lemma_plot_all_append, lemma_plot_all_pixel, max_int, min_int, on_screen, pixel_of, plot_all,
    FrameState, BUFFER_LEN,
};
use crate::display::{Framebuffer, HEIGHT, WIDTH};
use crate::graphics::intdiv::{abs, div_i64, lemma_tdiv_exact, lemma_tdiv_remainder, lemma_tdiv_scale, tdiv};
use vstd::prelude::*;

verus! {

/// A point with `i64`-sized coordinates, as a pair of integers.
pub type Vertex = (int, int);

/// The three corners ordered by `y`, corners with equal `y` keeping their
/// given order.
pub open spec fn sort_by_y(p0: Vertex, p1: Vertex, p2: Vertex) -> (Vertex, Vertex, Vertex) {
    if p0.1 <= p1.1 {
        if p1.1 <= p2.1 {
            (p0, p1, p2)
        } else if p0.1 <= p2.1 {
            (p0, p2, p1)
        } else {
            (p2, p0, p1)
        }
    } else {
        if p0.1 <= p2.1 {
            (p1, p0, p2)
        } else if p1.1 <= p2.1 {
            (p1, p2, p0)
        } else {
            (p2, p1, p0)
        }
    }
}

/// The `x` of the edge from `a` to `b` on row `y`, by integer interpolation
/// rounded toward zero; `a.0` for a horizontal edge.
pub open spec fn edge_x(a: Vertex, b: Vertex, y: int) -> int {
    if b.1 == a.1 {
        a.0
    } else {
        a.0 + tdiv((b.0 - a.0) * (y - a.1), b.1 - a.1)
    }
}

/// The second edge crossing row `y`: `a`–`b` above `b`, `b`–`c` from `b` down.
pub open spec fn short_edge_x(a: Vertex, b: Vertex, c: Vertex, y: int) -> int {
    if y < b.1 {
        edge_x(a, b, y)
    } else {
        edge_x(b, c, y)
    }
}

/// The points of the triangle (corners sorted by `y`) on row `y`.
pub open spec fn triangle_row(a: Vertex, b: Vertex, c: Vertex, y: int) -> Seq<(int, int)> {
    let l = edge_x(a, c, y);
    let r = short_edge_x(a, b, c, y);
    row_span(min_int(l, r), max_int(l, r), y)
}

/// The points of rows `y0..=y1`, top to bottom.
pub open spec fn triangle_rows(a: Vertex, b: Vertex, c: Vertex, y0: int, y1: int) -> Seq<(int, int)>
    decreases y1 - y0 + 1,
{
    if y1 < y0 {
        Seq::empty()
    } else {
        triangle_rows(a, b, c, y0, y1 - 1) + triangle_row(a, b, c, y1)
    }
}

/// The first visible row of the sorted triangle.
pub open spec fn first_row(a: Vertex) -> int {
    max_int(a.1, 0)
}

/// The last visible row of the sorted triangle.
pub open spec fn last_row(c: Vertex) -> int {
    min_int(c.1, HEIGHT - 1)
}

/// The points [`fill_triangle`] lights.
pub open spec fn triangle_fill_points(x0: int, y0: int, x1: int, y1: int, x2: int, y2: int) -> Seq<
    (int, int),
> {
    let (a, b, c) = sort_by_y((x0, y0), (x1, y1), (x2, y2));
    if c.1 == a.1 {
        Seq::empty()
    } else {
        triangle_rows(a, b, c, first_row(a), last_row(c))
    }
}

/// `v` fits in an `i64`.
pub open spec fn in_i64(v: int) -> bool {
    i64::MIN <= v <= i64::MAX
}

/// The interpolation products of row `y` fit in an `i64`.
pub open spec fn row_fits(a: Vertex, b: Vertex, c: Vertex, y: int) -> bool {
    &&& in_i64((c.0 - a.0) * (y - a.1))
    &&& y < b.1 ==> in_i64((b.0 - a.0) * (y - a.1))
    &&& y >= b.1 && c.1 != b.1 ==> in_i64((c.0 - b.0) * (y - b.1))
}

/// The arithmetic of [`fill_triangle`] stays within `i64` on every visible row.
pub open spec fn triangle_fits(x0: int, y0: int, x1: int, y1: int, x2: int, y2: int) -> bool {
    let (a, b, c) = sort_by_y((x0, y0), (x1, y1), (x2, y2));
    c.1 == a.1 || forall|y: int| first_row(a) <= y <= last_row(c) ==> #[trigger] row_fits(a, b, c, y)
}

/// `x` of the edge `a`–`b` on a row `y` between `ya` and `yb`.
fn interpolate_x(x_a: i64, y_a: i64, x_b: i64, y_b: i64, y: i64) -> (r: i64)
    requires
        i32::MIN <= x_a <= i32::MAX,
        i32::MIN <= x_b <= i32::MAX,
        i32::MIN <= y_a <= i32::MAX,
        i32::MIN <= y_b <= i32::MAX,
        y_a <= y <= y_b,
        y_b != y_a ==> in_i64((x_b - x_a) * (y - y_a)),
    ensures
        r == edge_x((x_a as int, y_a as int), (x_b as int, y_b as int), y as int),
{
    let dy = y_b - y_a;
    if dy == 0 {
        return x_a;
    }
    let d = x_b - x_a;
    proof {
        lemma_tdiv_scale(d as int, y - y_a, dy as int);
    }
    let q = div_i64(d * (y - y_a), dy);
    x_a + q
}

/// Fills the triangle with the three given corners, row by row.
///
/// Only the rows on the screen are scanned; on each, the span between the
/// long edge and the short edge crossing it is lit. Corners on one row draw
/// nothing.
pub fn fill_triangle(fb: &mut Framebuffer, x0: i32, y0: i32, x1: i32, y1: i32, x2: i32, y2: i32)
    requires
        triangle_fits(x0 as int, y0 as int, x1 as int, y1 as int, x2 as int, y2 as int),
    ensures
        final(fb).state() == plot_all(
            old(fb).state(),
            triangle_fill_points(x0 as int, y0 as int, x1 as int, y1 as int, x2 as int, y2 as int),
            true,
        ),
{
    let p0 = (x0 as i64, y0 as i64);
    let p1 = (x1 as i64, y1 as i64);
    let p2 = (x2 as i64, y2 as i64);
    let (a, b, c) = if p0.1 <= p1.1 {
        if p1.1 <= p2.1 {
            (p0, p1, p2)
        } else if p0.1 <= p2.1 {
            (p0, p2, p1)
        } else {
            (p2, p0, p1)
        }
    } else {
        if p0.1 <= p2.1 {
            (p1, p0, p2)
        } else if p1.1 <= p2.1 {
            (p1, p2, p0)
        } else {
            (p2, p1, p0)
        }
    };
    let (ax, ay) = a;
    let (bx, by) = b;
    let (cx, cy) = c;
    let ghost va: Vertex = (ax as int, ay as int);
    let ghost vb: Vertex = (bx as int, by as int);
    let ghost vc: Vertex = (cx as int, cy as int);
    assert(sort_by_y((x0 as int, y0 as int), (x1 as int, y1 as int), (x2 as int, y2 as int)) == (va, vb, vc));
    if cy == ay {
        return;
    }
    let y_start = if ay > 0 { ay } else { 0 };
    let y_end = if cy < (HEIGHT - 1) as i64 { cy } else { (HEIGHT - 1) as i64 };
    let ghost s0 = fb.state();
    if y_start > y_end {
        proof {
            assert(triangle_rows(va, vb, vc, y_start as int, y_end as int) =~= Seq::<(int, int)>::empty());
        }
        return;
    }
    let mut y = y_start;
    while y <= y_end
        invariant
            y_start <= y <= y_end + 1,
            y_end <= HEIGHT - 1,
            y_start == first_row(va),
            y_end == last_row(vc),
            va == (ax as int, ay as int),
            vb == (bx as int, by as int),
            vc == (cx as int, cy as int),
            ay <= by <= cy,
            ay < cy,
            i32::MIN <= ax <= i32::MAX && i32::MIN <= bx <= i32::MAX && i32::MIN <= cx <= i32::MAX,
            i32::MIN <= ay <= i32::MAX && i32::MIN <= by <= i32::MAX && i32::MIN <= cy <= i32::MAX,
            forall|yy: int| first_row(va) <= yy <= last_row(vc) ==> #[trigger] row_fits(va, vb, vc, yy),
            fb.state() == plot_all(s0, triangle_rows(va, vb, vc, y_start as int, y - 1), true),
        decreases y_end + 1 - y,
    {
        assert(row_fits(va, vb, vc, y as int));
        let left = interpolate_x(ax, ay, cx, cy, y);
        let right = if y < by {
            interpolate_x(ax, ay, bx, by, y)
        } else {
            interpolate_x(bx, by, cx, cy, y)
        };
        let (l, r) = if left <= right {
            (left, right)
        } else {
            (right, left)
        };
        let ghost before = fb.state();
        fill_row(fb, l, r, y);
        proof {
            lemma_plot_all_append(s0, triangle_rows(va, vb, vc, y_start as int, y - 1), triangle_row(va, vb, vc, y as int), true);
        }
        y = y + 1;
    }
}

// ---------------------------------------------------------------------------
// Laws
// ---------------------------------------------------------------------------

/// Twice the signed area of the triangle `p`, `q`, `(px, py)`: its sign says on
/// which side of the line from `p` to `q` the point `(px, py)` lies.
pub open spec fn edge_side(p: Vertex, q: Vertex, px: int, py: int) -> int {
    (q.0 - p.0) * (py - p.1) - (q.1 - p.1) * (px - p.0)
}

/// `(px, py)` lies on the inner side of the edge from `p` to `q` of a triangle
/// of orientation `o`, at least one column away from the edge (strictly inside
/// for a horizontal edge).
pub open spec fn inside_edge(p: Vertex, q: Vertex, o: int, px: int, py: int) -> bool {
    let s = edge_side(p, q, px, py);
    let m = max_int(abs(q.1 - p.1), 1);
    &&& o > 0 ==> s >= m
    &&& o < 0 ==> -s >= m
}

/// `(px, py)` lies inside the non-degenerate triangle `p0`, `p1`, `p2`, on the
/// inner side of all three edges and at least one column away from each.
pub open spec fn inside_triangle(p0: Vertex, p1: Vertex, p2: Vertex, px: int, py: int) -> bool {
    let o = edge_side(p0, p1, p2.0, p2.1);
    &&& o != 0
    &&& inside_edge(p0, p1, o, px, py)
    &&& inside_edge(p1, p2, o, px, py)
    &&& inside_edge(p2, p0, o, px, py)
}

proof fn lemma_edge_side_rotate(ax: int, ay: int, bx: int, by: int, cx: int, cy: int)
    ensures
        (cx - bx) * (ay - by) - (cy - by) * (ax - bx) == (bx - ax) * (cy - ay) - (by - ay) * (cx - ax),
        (ax - cx) * (by - cy) - (ay - cy) * (bx - cx) == (bx - ax) * (cy - ay) - (by - ay) * (cx - ax),
{
    assert((cx - bx) * (ay - by) - (cy - by) * (ax - bx) == (bx - ax) * (cy - ay) - (by - ay) * (cx - ax))
        by (nonlinear_arith);
    assert((ax - cx) * (by - cy) - (ay - cy) * (bx - cx) == (bx - ax) * (cy - ay) - (by - ay) * (cx - ax))
        by (nonlinear_arith);
}

/// The twice-areas of the three triangles a point makes with the sides of a
/// triangle weigh its corners to give the point (relative to corner `a`).
proof fn lemma_barycentric(ux: int, uy: int, vx: int, vy: int, wx: int, wy: int)
    ensures
        (ux * vy - uy * vx) * wy == (vy * wx - vx * wy) * uy + (ux * wy - uy * wx) * vy,
        (ux * vy - uy * vx) * (vy - wy) == ((vx - ux) * (wy - uy) - (vy - uy) * (wx - ux)) * vy + (vy * wx - vx * wy) * (vy - uy),
{
    assert((ux * vy - uy * vx) * wy == (vy * wx - vx * wy) * uy + (ux * wy - uy * wx) * vy) by (nonlinear_arith);
    let o = ux * vy - uy * vx;
    let s_ab = ux * wy - uy * wx;
    let s_bc = (vx - ux) * (wy - uy) - (vy - uy) * (wx - ux);
    let s_ca = vy * wx - vx * wy;
    assert(o == s_ab + s_bc + s_ca) by (nonlinear_arith)
        requires
            o == ux * vy - uy * vx,
            s_ab == ux * wy - uy * wx,
            s_bc == (vx - ux) * (wy - uy) - (vy - uy) * (wx - ux),
            s_ca == vy * wx - vx * wy,
    ;
    assert(o * (vy - wy) == s_bc * vy + s_ca * (vy - uy)) by (nonlinear_arith)
        requires
            o == s_ab + s_bc + s_ca,
            o * wy == s_ca * uy + s_ab * vy,
    ;
}

proof fn lemma_edge_side_reverse(p: Vertex, q: Vertex, px: int, py: int)
    ensures
        edge_side(q, p, px, py) == -edge_side(p, q, px, py),
        abs(p.1 - q.1) == abs(q.1 - p.1),
{
    assert(edge_side(q, p, px, py) == -edge_side(p, q, px, py)) by (nonlinear_arith);
}

/// Being inside does not depend on the order in which the corners are given.
proof fn lemma_inside_permutations(p0: Vertex, p1: Vertex, p2: Vertex, px: int, py: int)
    requires
        inside_triangle(p0, p1, p2, px, py),
    ensures
        inside_triangle(p1, p2, p0, px, py),
        inside_triangle(p2, p0, p1, px, py),
        inside_triangle(p1, p0, p2, px, py),
        inside_triangle(p0, p2, p1, px, py),
        inside_triangle(p2, p1, p0, px, py),
{
    lemma_edge_side_rotate(p0.0, p0.1, p1.0, p1.1, p2.0, p2.1);
    lemma_edge_side_reverse(p0, p1, px, py);
    lemma_edge_side_reverse(p1, p2, px, py);
    lemma_edge_side_reverse(p2, p0, px, py);
    lemma_edge_side_reverse(p0, p1, p2.0, p2.1);
    lemma_edge_side_reverse(p1, p2, p0.0, p0.1);
    lemma_edge_side_reverse(p2, p0, p1.0, p1.1);
}

/// A point at least one column to the inner side of an edge crossing its row
/// lies strictly on that side of the edge's rounded crossing.
proof fn lemma_edge_x_side(p: Vertex, q: Vertex, px: int, py: int)
    requires
        p.1 < q.1,
    ensures
        edge_side(p, q, px, py) >= q.1 - p.1 ==> px < edge_x(p, q, py),
        -edge_side(p, q, px, py) >= q.1 - p.1 ==> px > edge_x(p, q, py),
{
    let n = (q.0 - p.0) * (py - p.1);
    let d = q.1 - p.1;
    let t = tdiv(n, d);
    lemma_tdiv_remainder(n, d);
    let u = px - p.0;
    assert(edge_side(p, q, px, py) == n - d * u);
    if n - d * u >= d {
        assert(u < t) by (nonlinear_arith)
            requires
                n - d * u >= d,
                n - t * d < d,
                d > 0,
        ;
    }
    if d * u - n >= d {
        assert(u > t) by (nonlinear_arith)
            requires
                d * u - n >= d,
                t * d - n < d,
                d > 0,
        ;
    }
}

/// A point inside the triangle with corners sorted by `y` lies strictly between
/// its first and last rows, and between the two edges crossing its row.
proof fn lemma_inside_sorted(a: Vertex, b: Vertex, c: Vertex, px: int, py: int)
    requires
        a.1 <= b.1 <= c.1,
        inside_triangle(a, b, c, px, py),
    ensures
        a.1 < py < c.1,
        min_int(edge_x(a, c, py), short_edge_x(a, b, c, py)) <= px <= max_int(
            edge_x(a, c, py),
            short_edge_x(a, b, c, py),
        ),
{
    let o = edge_side(a, b, c.0, c.1);
    let s_ab = edge_side(a, b, px, py);
    let s_bc = edge_side(b, c, px, py);
    let s_ca = edge_side(c, a, px, py);
    if a.1 == c.1 {
        assert(o == 0) by (nonlinear_arith)
            requires
                o == (b.0 - a.0) * (c.1 - a.1) - (b.1 - a.1) * (c.0 - a.0),
                a.1 <= b.1 <= c.1,
                a.1 == c.1,
        ;
    }
    let (ux, uy, vx, vy, wx, wy) = (b.0 - a.0, b.1 - a.1, c.0 - a.0, c.1 - a.1, px - a.0, py - a.1);
    lemma_barycentric(ux, uy, vx, vy, wx, wy);
    assert(s_ca == vy * wx - vx * wy) by (nonlinear_arith)
        requires
            s_ca == (a.0 - c.0) * (py - c.1) - (a.1 - c.1) * (px - c.0),
            vx == c.0 - a.0,
            vy == c.1 - a.1,
            wx == px - a.0,
            wy == py - a.1,
    ;
    assert(s_bc == (vx - ux) * (wy - uy) - (vy - uy) * (wx - ux));
    assert(o * (py - a.1) == s_ca * (b.1 - a.1) + s_ab * (c.1 - a.1));
    assert(o * (c.1 - py) == s_bc * (c.1 - a.1) + s_ca * (c.1 - b.1));
    if o > 0 {
        assert(a.1 < py < c.1) by (nonlinear_arith)
            requires
                o > 0,
                s_ab >= 1,
                s_bc >= 1,
                s_ca >= 1,
                a.1 <= b.1 <= c.1,
                a.1 < c.1,
                o * (py - a.1) == s_ca * (b.1 - a.1) + s_ab * (c.1 - a.1),
                o * (c.1 - py) == s_bc * (c.1 - a.1) + s_ca * (c.1 - b.1),
        ;
    } else {
        assert(a.1 < py < c.1) by (nonlinear_arith)
            requires
                o < 0,
                s_ab <= -1,
                s_bc <= -1,
                s_ca <= -1,
                a.1 <= b.1 <= c.1,
                a.1 < c.1,
                o * (py - a.1) == s_ca * (b.1 - a.1) + s_ab * (c.1 - a.1),
                o * (c.1 - py) == s_bc * (c.1 - a.1) + s_ca * (c.1 - b.1),
        ;
    }
    lemma_edge_side_reverse(a, c, px, py);
    lemma_edge_x_side(a, c, px, py);
    if py < b.1 {
        lemma_edge_x_side(a, b, px, py);
    } else {
        lemma_edge_x_side(b, c, px, py);
    }
}

/// The rows `y0..=y1` hold the points of each of their rows.
proof fn lemma_triangle_rows_contains(a: Vertex, b: Vertex, c: Vertex, y0: int, y1: int, y: int, q: (int, int))
    requires
        y0 <= y <= y1,
        triangle_row(a, b, c, y).contains(q),
    ensures
        triangle_rows(a, b, c, y0, y1).contains(q),
    decreases y1 - y0 + 1,
{
    lemma_contains_append(triangle_rows(a, b, c, y0, y1 - 1), triangle_row(a, b, c, y1), q);
    if y < y1 {
        lemma_triangle_rows_contains(a, b, c, y0, y1 - 1, y, q);
    }
}

/// A filled triangle covers its inside: every on-screen pixel inside the
/// triangle with corners `(x0, y0)`, `(x1, y1)`, `(x2, y2)` (on the inner side
/// of all three edges, at least one column away from each) is lit by
/// [`fill_triangle`], whatever the order of the corners.
pub proof fn lemma_fill_triangle_covers_inside(
    s: FrameState,
    x0: int,
    y0: int,
    x1: int,
    y1: int,
    x2: int,
    y2: int,
    px: int,
    py: int,
)
    requires
        s.bytes.len() == BUFFER_LEN,
        on_screen(px, py),
        inside_triangle((x0, y0), (x1, y1), (x2, y2), px, py),
    ensures
        triangle_fill_points(x0, y0, x1, y1, x2, y2).contains((px, py)),
        pixel_of(plot_all(s, triangle_fill_points(x0, y0, x1, y1, x2, y2), true).bytes, px, py),
{
    let (a, b, c) = sort_by_y((x0, y0), (x1, y1), (x2, y2));
    lemma_inside_permutations((x0, y0), (x1, y1), (x2, y2), px, py);
    lemma_inside_sorted(a, b, c, px, py);
    let l = edge_x(a, c, py);
    let r = short_edge_x(a, b, c, py);
    let st = max_int(min_int(l, r), 0);
    let en = min_int(max_int(l, r), WIDTH - 1) + 1;
    assert(triangle_row(a, b, c, py) == span_x(st, en, py));
    assert(span_x(st, en, py)[px - st] == (px, py));
    lemma_triangle_rows_contains(a, b, c, first_row(a), last_row(c), py, (px, py));
    lemma_plot_all_pixel(s, triangle_fill_points(x0, y0, x1, y1, x2, y2), true, px, py);
}

/// An edge's rounded crossing of a row between its ends lies between the
/// ends' columns.
proof fn lemma_edge_x_between(p: Vertex, q: Vertex, y: int)
    requires
        p.1 <= y <= q.1,
    ensures
        min_int(p.0, q.0) <= edge_x(p, q, y) <= max_int(p.0, q.0),
{
    if q.1 != p.1 {
        lemma_tdiv_scale(q.0 - p.0, y - p.1, q.1 - p.1);
    }
}

/// The points of the rows `y0..=y1` of a triangle with corners sorted by `y`
/// lie on the screen, within the corners' columns and rows.
proof fn lemma_triangle_rows_within(a: Vertex, b: Vertex, c: Vertex, y0: int, y1: int, q: (int, int))
    requires
        a.1 <= b.1 <= c.1,
        a.1 <= y0,
        y1 <= c.1,
        triangle_rows(a, b, c, y0, y1).contains(q),
    ensures
        on_screen(q.0, q.1),
        min_int(a.0, min_int(b.0, c.0)) <= q.0 <= max_int(a.0, max_int(b.0, c.0)),
        a.1 <= q.1 <= c.1,
    decreases y1 - y0 + 1,
{
    if y1 >= y0 {
        let rows = triangle_rows(a, b, c, y0, y1 - 1);
        let row = triangle_row(a, b, c, y1);
        lemma_contains_append(rows, row, q);
        if rows.contains(q) {
            lemma_triangle_rows_within(a, b, c, y0, y1 - 1, q);
        } else {
            let l = edge_x(a, c, y1);
            let r = short_edge_x(a, b, c, y1);
            lemma_edge_x_between(a, c, y1);
            if y1 < b.1 {
                lemma_edge_x_between(a, b, y1);
            } else {
                lemma_edge_x_between(b, c, y1);
            }
            let st = max_int(min_int(l, r), 0);
            let en = min_int(max_int(l, r), WIDTH - 1) + 1;
            assert(row == span_x(st, en, y1));
            let k = choose|k: int| 0 <= k < row.len() && row[k] == q;
            assert(row[k] == (st + k, y1));
        }
    }
}

/// A filled triangle stays within its corners: every pixel [`fill_triangle`]
/// lights is on the screen, between the leftmost and rightmost corner columns
/// and between the top and bottom corner rows.
pub proof fn lemma_fill_triangle_within(x0: int, y0: int, x1: int, y1: int, x2: int, y2: int, q: (int, int))
    requires
        triangle_fill_points(x0, y0, x1, y1, x2, y2).contains(q),
    ensures
        on_screen(q.0, q.1),
        min_int(x0, min_int(x1, x2)) <= q.0 <= max_int(x0, max_int(x1, x2)),
        min_int(y0, min_int(y1, y2)) <= q.1 <= max_int(y0, max_int(y1, y2)),
{
    let (a, b, c) = sort_by_y((x0, y0), (x1, y1), (x2, y2));
    lemma_triangle_rows_within(a, b, c, first_row(a), last_row(c), q);
}

/// The sorted triangle's rows hold each of its on-screen corners.
proof fn lemma_sorted_corners(a: Vertex, b: Vertex, c: Vertex)
    requires
        a.1 <= b.1 <= c.1,
        a.1 < c.1,
    ensures
        on_screen(a.0, a.1) ==> triangle_rows(a, b, c, first_row(a), last_row(c)).contains(a),
        on_screen(b.0, b.1) ==> triangle_rows(a, b, c, first_row(a), last_row(c)).contains(b),
        on_screen(c.0, c.1) ==> triangle_rows(a, b, c, first_row(a), last_row(c)).contains(c),
{
    lemma_tdiv_exact(0, c.1 - a.1);
    lemma_tdiv_exact(c.0 - a.0, c.1 - a.1);
    if b.1 > a.1 {
        lemma_tdiv_exact(0, b.1 - a.1);
    }
    if c.1 > b.1 {
        lemma_tdiv_exact(0, c.1 - b.1);
        lemma_tdiv_exact(c.0 - b.0, c.1 - b.1);
    }
    // Row `a.1` spans from `a` to the short edge, which starts at `a` (or at
    // `b` when `b` shares the row).
    let la = edge_x(a, c, a.1);
    let ra = short_edge_x(a, b, c, a.1);
    assert(la == a.0);
    assert(b.1 == a.1 ==> ra == b.0);
    assert(b.1 > a.1 ==> ra == a.0);
    // Row `c.1` spans from `c` to the short edge, which ends at `c` (or at `b`
    // when `b` shares the row).
    let lc = edge_x(a, c, c.1);
    let rc = short_edge_x(a, b, c, c.1);
    assert(lc == c.0);
    assert(b.1 == c.1 ==> rc == b.0);
    assert(b.1 < c.1 ==> rc == c.0);
    // Row `b.1` ends on the short edge at `b`.
    let rb = short_edge_x(a, b, c, b.1);
    assert(b.1 < c.1 ==> rb == b.0);
    if on_screen(a.0, a.1) {
        lemma_row_span_contains(min_int(la, ra), max_int(la, ra), a.1, a.0);
        lemma_triangle_rows_contains(a, b, c, first_row(a), last_row(c), a.1, a);
    }
    if on_screen(c.0, c.1) {
        lemma_row_span_contains(min_int(lc, rc), max_int(lc, rc), c.1, c.0);
        lemma_triangle_rows_contains(a, b, c, first_row(a), last_row(c), c.1, c);
    }
    if on_screen(b.0, b.1) {
        let lb = edge_x(a, c, b.1);
        if b.1 == a.1 {
            lemma_row_span_contains(min_int(la, ra), max_int(la, ra), a.1, b.0);
        } else if b.1 == c.1 {
            lemma_row_span_contains(min_int(lc, rc), max_int(lc, rc), c.1, b.0);
        } else {
            lemma_row_span_contains(min_int(lb, rb), max_int(lb, rb), b.1, b.0);
        }
        lemma_triangle_rows_contains(a, b, c, first_row(a), last_row(c), b.1, b);
    }
}

/// A filled triangle lights its corners: unless all three corners lie on one
/// row (which draws nothing), every corner on the screen is lit by
/// [`fill_triangle`].
pub proof fn lemma_fill_triangle_corners(x0: int, y0: int, x1: int, y1: int, x2: int, y2: int)
    requires
        !(y0 == y1 && y1 == y2),
    ensures
        on_screen(x0, y0) ==> triangle_fill_points(x0, y0, x1, y1, x2, y2).contains((x0, y0)),
        on_screen(x1, y1) ==> triangle_fill_points(x0, y0, x1, y1, x2, y2).contains((x1, y1)),
        on_screen(x2, y2) ==> triangle_fill_points(x0, y0, x1, y1, x2, y2).contains((x2, y2)),
{
    let (a, b, c) = sort_by_y((x0, y0), (x1, y1), (x2, y2));
    lemma_sorted_corners(a, b, c);
}

} // verus!
