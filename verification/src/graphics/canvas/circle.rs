//! Circles: the midpoint algorithm for ordinary radii, and a per-row scan of
//! the screen for radii far larger than the screen.
use super::{fill_row, lemma_row_span_contains, plot_point, plot_point_i64, row_span};
use crate::display::framebuffer::{
    lemma_contains_append, lemma_plot_all_append, lemma_plot_all_next, lemma_plot_all_push, max_int, on_screen, plot, plot_all,
};
use crate::graphics::intdiv::abs;
use crate::display::{Framebuffer, HEIGHT, WIDTH};
use vstd::arithmetic::div_mod::lemma_fundamental_div_mod;
use vstd::prelude::*;

verus! {

/// Above this radius a circle is far larger than the screen: the midpoint walk
/// would take a long useless loop, so the screen's rows are scanned instead.
pub const LARGE_RADIUS_FALLBACK: i32 = 4096;

/// The circle's bounding box meets the screen.
pub open spec fn circle_on_screen(cx: int, cy: int, r: int) -> bool {
    cx - r < WIDTH && cx + r >= 0 && cy - r < HEIGHT && cy + r >= 0
}

// ---------------------------------------------------------------------------
// The midpoint walk
// ---------------------------------------------------------------------------

/// The midpoint decision value at `(x, y)`: negative when the midpoint between
/// the next two candidate pixels lies inside the circle of radius `r`.
pub open spec fn midpoint_err(r: int, x: int, y: int) -> int {
    x * x - x + (y + 1) * (y + 1) - r * r
}

/// The step after `(x, y)`: down one row, and one column in when the
/// midpoint lies outside the circle.
pub open spec fn circle_next(r: int, x: int, y: int) -> (int, int) {
    if midpoint_err(r, x, y) < 0 {
        (x, y + 1)
    } else {
        (x - 1, y + 1)
    }
}

/// The eight symmetric points of `(x, y)` about `(cx, cy)`, in drawing order.
pub open spec fn octant_points(cx: int, cy: int, x: int, y: int) -> Seq<(int, int)> {
    seq![
        (cx + x, cy + y),
        (cx - x, cy + y),
        (cx + x, cy - y),
        (cx - x, cy - y),
        (cx + y, cy + x),
        (cx - y, cy + x),
        (cx + y, cy - x),
        (cx - y, cy - x),
    ]
}

/// The points of the midpoint walk from `(x, y)` until `x < y`.
pub open spec fn circle_walk(cx: int, cy: int, r: int, x: int, y: int) -> Seq<(int, int)>
    decreases x - y + 2,
{
    if x < y {
        Seq::empty()
    } else {
        let (nx, ny) = circle_next(r, x, y);
        octant_points(cx, cy, x, y) + circle_walk(cx, cy, r, nx, ny)
    }
}

/// The four rows spanned at step `(x, y)` of the walk, in filling order.
pub open spec fn octant_rows(cx: int, cy: int, x: int, y: int) -> Seq<(int, int)> {
    row_span(cx - x, cx + x, cy + y) + row_span(cx - x, cx + x, cy - y) + row_span(cx - y, cx + y, cy + x)
        + row_span(cx - y, cx + y, cy - x)
}

/// The rows filled along the midpoint walk from `(x, y)` until `x < y`.
pub open spec fn disc_walk(cx: int, cy: int, r: int, x: int, y: int) -> Seq<(int, int)>
    decreases x - y + 2,
{
    if x < y {
        Seq::empty()
    } else {
        let (nx, ny) = circle_next(r, x, y);
        octant_rows(cx, cy, x, y) + disc_walk(cx, cy, r, nx, ny)
    }
}

/// `p` lies in the bounding box of the circle of radius `r` about `(cx, cy)`.
pub open spec fn in_circle_box(p: (int, int), cx: int, cy: int, r: int) -> bool {
    cx - r <= p.0 <= cx + r && cy - r <= p.1 <= cy + r
}

/// The points of the midpoint walk lie in the circle's bounding box.
proof fn lemma_circle_walk_bounded(cx: int, cy: int, r: int, x: int, y: int)
    requires
        0 <= y,
        x <= r,
    ensures
        forall|i: int|
            0 <= i < circle_walk(cx, cy, r, x, y).len() ==> in_circle_box(
                #[trigger] circle_walk(cx, cy, r, x, y)[i],
                cx,
                cy,
                r,
            ),
    decreases x - y + 2,
{
    if x >= y {
        let (nx, ny) = circle_next(r, x, y);
        lemma_circle_walk_bounded(cx, cy, r, nx, ny);
        let a = octant_points(cx, cy, x, y);
        let b = circle_walk(cx, cy, r, nx, ny);
        assert(circle_walk(cx, cy, r, x, y) == a + b);
        assert forall|i: int| 0 <= i < (a + b).len() implies in_circle_box(#[trigger] (a + b)[i], cx, cy, r) by {
            if i >= a.len() {
                assert((a + b)[i] == b[i - a.len()]);
            }
        }
    }
}

/// The points of a row span lie on its row, between its ends.
proof fn lemma_row_span_bounded(x0: int, x1: int, y: int)
    ensures
        forall|k: int|
            0 <= k < row_span(x0, x1, y).len() ==> x0 <= #[trigger] row_span(x0, x1, y)[k].0 <= x1
                && row_span(x0, x1, y)[k].1 == y,
{
}

/// The rows filled along the midpoint walk lie in the disc's bounding box.
proof fn lemma_disc_walk_bounded(cx: int, cy: int, r: int, x: int, y: int)
    requires
        0 <= y,
        x <= r,
    ensures
        forall|i: int|
            0 <= i < disc_walk(cx, cy, r, x, y).len() ==> in_circle_box(
                #[trigger] disc_walk(cx, cy, r, x, y)[i],
                cx,
                cy,
                r,
            ),
    decreases x - y + 2,
{
    if x >= y {
        let (nx, ny) = circle_next(r, x, y);
        lemma_disc_walk_bounded(cx, cy, r, nx, ny);
        let r1 = row_span(cx - x, cx + x, cy + y);
        let r2 = row_span(cx - x, cx + x, cy - y);
        let r3 = row_span(cx - y, cx + y, cy + x);
        let r4 = row_span(cx - y, cx + y, cy - x);
        lemma_row_span_bounded(cx - x, cx + x, cy + y);
        lemma_row_span_bounded(cx - x, cx + x, cy - y);
        lemma_row_span_bounded(cx - y, cx + y, cy + x);
        lemma_row_span_bounded(cx - y, cx + y, cy - x);
        let a = r1 + r2 + r3 + r4;
        let b = disc_walk(cx, cy, r, nx, ny);
        assert(disc_walk(cx, cy, r, x, y) == a + b);
        assert forall|i: int| 0 <= i < (a + b).len() implies in_circle_box(#[trigger] (a + b)[i], cx, cy, r) by {
            if i >= a.len() {
                assert((a + b)[i] == b[i - a.len()]);
            } else if i >= r1.len() + r2.len() + r3.len() {
                assert(a[i] == r4[i - r1.len() - r2.len() - r3.len()]);
            } else if i >= r1.len() + r2.len() {
                assert(a[i] == r3[i - r1.len() - r2.len()]);
            } else if i >= r1.len() {
                assert(a[i] == r2[i - r1.len()]);
            } else {
                assert(a[i] == r1[i]);
            }
        }
    }
}

/// A circle or disc of ordinary radius (the midpoint walk) lights nothing
/// outside its bounding box `[cx - r, cx + r] × [cy - r, cy + r]`.
pub proof fn lemma_circle_bounded(cx: int, cy: int, r: int)
    requires
        r <= LARGE_RADIUS_FALLBACK,
    ensures
        forall|i: int|
            0 <= i < circle_points(cx, cy, r).len() ==> in_circle_box(#[trigger] circle_points(cx, cy, r)[i], cx, cy, r),
        forall|i: int|
            0 <= i < disc_points(cx, cy, r).len() ==> in_circle_box(#[trigger] disc_points(cx, cy, r)[i], cx, cy, r),
{
    if r >= 0 {
        lemma_circle_walk_bounded(cx, cy, r, r, 0);
        lemma_disc_walk_bounded(cx, cy, r, r, 0);
    }
}

/// `(u, v)` is one of the eight offsets `(±x, ±y)`, `(±y, ±x)`.
pub open spec fn octant_has(x: int, y: int, u: int, v: int) -> bool {
    ||| (u == x || u == -x) && (v == y || v == -y)
    ||| (u == y || u == -y) && (v == x || v == -x)
}

/// The points of one step of the walk are exactly the eight reflections of
/// `(x, y)` about the centre.
proof fn lemma_octant_points(cx: int, cy: int, x: int, y: int, u: int, v: int)
    ensures
        octant_points(cx, cy, x, y).contains((cx + u, cy + v)) <==> octant_has(x, y, u, v),
{
    let a = octant_points(cx, cy, x, y);
    let p = (cx + u, cy + v);
    if a.contains(p) {
        let k = choose|k: int| 0 <= k < a.len() && a[k] == p;
        assert(0 <= k < 8);
    }
    if octant_has(x, y, u, v) {
        if u == x && v == y {
            assert(a[0] == p);
        } else if u == -x && v == y {
            assert(a[1] == p);
        } else if u == x && v == -y {
            assert(a[2] == p);
        } else if u == -x && v == -y {
            assert(a[3] == p);
        } else if u == y && v == x {
            assert(a[4] == p);
        } else if u == -y && v == x {
            assert(a[5] == p);
        } else if u == y && v == -x {
            assert(a[6] == p);
        } else {
            assert(a[7] == p);
        }
    }
}

/// The walk from `(x, y)` is closed under the reflections about the centre.
proof fn lemma_circle_walk_symmetric(cx: int, cy: int, r: int, x: int, y: int, u: int, v: int)
    requires
        circle_walk(cx, cy, r, x, y).contains((cx + u, cy + v)),
    ensures
        circle_walk(cx, cy, r, x, y).contains((cx - u, cy + v)),
        circle_walk(cx, cy, r, x, y).contains((cx + u, cy - v)),
        circle_walk(cx, cy, r, x, y).contains((cx + v, cy + u)),
    decreases x - y + 2,
{
    if x >= y {
        let (nx, ny) = circle_next(r, x, y);
        let a = octant_points(cx, cy, x, y);
        let b = circle_walk(cx, cy, r, nx, ny);
        assert(circle_walk(cx, cy, r, x, y) == a + b);
        lemma_contains_append(a, b, (cx + u, cy + v));
        lemma_contains_append(a, b, (cx - u, cy + v));
        lemma_contains_append(a, b, (cx + u, cy - v));
        lemma_contains_append(a, b, (cx + v, cy + u));
        if a.contains((cx + u, cy + v)) {
            lemma_octant_points(cx, cy, x, y, u, v);
            lemma_octant_points(cx, cy, x, y, -u, v);
            lemma_octant_points(cx, cy, x, y, u, -v);
            lemma_octant_points(cx, cy, x, y, v, u);
        } else {
            lemma_circle_walk_symmetric(cx, cy, r, nx, ny, u, v);
        }
    }
}

/// A circle of ordinary radius is symmetric about its centre: whenever
/// [`draw_circle`] lights `(cx + u, cy + v)`, it also lights the seven other
/// reflections `(cx ± u, cy ± v)` and `(cx ± v, cy ± u)`.
pub proof fn lemma_circle_symmetric(cx: int, cy: int, r: int, u: int, v: int)
    requires
        r <= LARGE_RADIUS_FALLBACK,
        circle_points(cx, cy, r).contains((cx + u, cy + v)),
    ensures
        circle_points(cx, cy, r).contains((cx - u, cy + v)),
        circle_points(cx, cy, r).contains((cx + u, cy - v)),
        circle_points(cx, cy, r).contains((cx - u, cy - v)),
        circle_points(cx, cy, r).contains((cx + v, cy + u)),
        circle_points(cx, cy, r).contains((cx - v, cy + u)),
        circle_points(cx, cy, r).contains((cx + v, cy - u)),
        circle_points(cx, cy, r).contains((cx - v, cy - u)),
{
    let w = circle_walk(cx, cy, r, r, 0);
    lemma_circle_walk_symmetric(cx, cy, r, r, 0, u, v);
    lemma_circle_walk_symmetric(cx, cy, r, r, 0, -u, v);
    lemma_circle_walk_symmetric(cx, cy, r, r, 0, v, u);
    lemma_circle_walk_symmetric(cx, cy, r, r, 0, -v, u);
    lemma_circle_walk_symmetric(cx, cy, r, r, 0, v, -u);
}

/// `(cx + u, cy + v)` lies on the circle of radius `r` about `(cx, cy)` up to
/// rounding: `u² + v²` is within `max(|u|, |v|)` of `r²`.
pub open spec fn near_circle(u: int, v: int, r: int) -> bool {
    let m = max_int(abs(u), abs(v));
    r * r - m <= u * u + v * v <= r * r + m
}

/// Every point of the walk from a state that stays within rounding of the
/// circle is within rounding of the circle.
proof fn lemma_circle_walk_near(cx: int, cy: int, r: int, x: int, y: int, u: int, v: int)
    requires
        0 <= y,
        x >= y ==> -x <= x * x + y * y - r * r <= x,
        circle_walk(cx, cy, r, x, y).contains((cx + u, cy + v)),
    ensures
        near_circle(u, v, r),
    decreases x - y + 2,
{
    if x >= y {
        let (nx, ny) = circle_next(r, x, y);
        let a = octant_points(cx, cy, x, y);
        let b = circle_walk(cx, cy, r, nx, ny);
        assert(circle_walk(cx, cy, r, x, y) == a + b);
        lemma_contains_append(a, b, (cx + u, cy + v));
        if a.contains((cx + u, cy + v)) {
            lemma_octant_points(cx, cy, x, y, u, v);
            assert(u * u + v * v == x * x + y * y && max_int(abs(u), abs(v)) == x) by (nonlinear_arith)
                requires
                    octant_has(x, y, u, v),
                    0 <= y <= x,
            ;
        } else {
            let err = midpoint_err(r, x, y);
            if err < 0 {
                assert(-x <= x * x + (y + 1) * (y + 1) - r * r <= x) by (nonlinear_arith)
                    requires
                        err == x * x - x + (y + 1) * (y + 1) - r * r,
                        err < 0,
                        -x <= x * x + y * y - r * r <= x,
                        0 <= y,
                ;
            } else if x - 1 >= y + 1 {
                assert(-(x - 1) <= (x - 1) * (x - 1) + (y + 1) * (y + 1) - r * r <= x - 1) by (nonlinear_arith)
                    requires
                        err == x * x - x + (y + 1) * (y + 1) - r * r,
                        err >= 0,
                        -x <= x * x + y * y - r * r <= x,
                        0 <= y,
                        x - 1 >= y + 1,
                ;
            }
            lemma_circle_walk_near(cx, cy, r, nx, ny, u, v);
        }
    }
}

/// The outline of a circle of ordinary radius follows the circle: every pixel
/// `(cx + u, cy + v)` [`draw_circle`] lights has `u² + v²` within
/// `max(|u|, |v|)` of `r²`, that is, it lies within about half a pixel of the
/// circle.
pub proof fn lemma_circle_near(cx: int, cy: int, r: int, u: int, v: int)
    requires
        r <= LARGE_RADIUS_FALLBACK,
        circle_points(cx, cy, r).contains((cx + u, cy + v)),
    ensures
        near_circle(u, v, r),
{
    assert(-r <= r * r + 0 * 0 - r * r <= r) by (nonlinear_arith)
        requires
            r >= 0,
    ;
    lemma_circle_walk_near(cx, cy, r, r, 0, u, v);
}

/// The rows filled along the walk cover the outline drawn along it.
proof fn lemma_disc_walk_covers(cx: int, cy: int, r: int, x: int, y: int, q: (int, int))
    requires
        0 <= y,
        on_screen(q.0, q.1),
        circle_walk(cx, cy, r, x, y).contains(q),
    ensures
        disc_walk(cx, cy, r, x, y).contains(q),
    decreases x - y + 2,
{
    if x >= y {
        let (nx, ny) = circle_next(r, x, y);
        let a = octant_points(cx, cy, x, y);
        let b = circle_walk(cx, cy, r, nx, ny);
        let ra = octant_rows(cx, cy, x, y);
        let rb = disc_walk(cx, cy, r, nx, ny);
        assert(circle_walk(cx, cy, r, x, y) == a + b);
        assert(disc_walk(cx, cy, r, x, y) == ra + rb);
        lemma_contains_append(a, b, q);
        lemma_contains_append(ra, rb, q);
        if a.contains(q) {
            let u = q.0 - cx;
            let v = q.1 - cy;
            assert(q == (cx + u, cy + v));
            lemma_octant_points(cx, cy, x, y, u, v);
            let s0 = row_span(cx - x, cx + x, cy + y);
            let s1 = row_span(cx - x, cx + x, cy - y);
            let s2 = row_span(cx - y, cx + y, cy + x);
            let s3 = row_span(cx - y, cx + y, cy - x);
            assert(ra == s0 + s1 + s2 + s3);
            lemma_contains_append(s0, s1, q);
            lemma_contains_append(s0 + s1, s2, q);
            lemma_contains_append(s0 + s1 + s2, s3, q);
            if v == y {
                lemma_row_span_contains(cx - x, cx + x, cy + y, q.0);
            } else if v == -y {
                lemma_row_span_contains(cx - x, cx + x, cy - y, q.0);
            } else if v == x {
                lemma_row_span_contains(cx - y, cx + y, cy + x, q.0);
            } else {
                lemma_row_span_contains(cx - y, cx + y, cy - x, q.0);
            }
        } else {
            lemma_disc_walk_covers(cx, cy, r, nx, ny, q);
        }
    }
}

/// A filled circle covers its outline: every on-screen pixel [`draw_circle`]
/// lights for an ordinary radius is also lit by [`fill_circle`] with the same
/// centre and radius.
pub proof fn lemma_disc_covers_circle(cx: int, cy: int, r: int, q: (int, int))
    requires
        r <= LARGE_RADIUS_FALLBACK,
        on_screen(q.0, q.1),
        circle_points(cx, cy, r).contains(q),
    ensures
        disc_points(cx, cy, r).contains(q),
{
    lemma_disc_walk_covers(cx, cy, r, r, 0, q);
}

// ---------------------------------------------------------------------------
// The per-row scan for huge radii
// ---------------------------------------------------------------------------

/// `s` is the integer square root of `n`, rounded down.
pub open spec fn is_floor_sqrt(n: int, s: int) -> bool {
    0 <= s && s * s <= n < (s + 1) * (s + 1)
}

/// The integer square root of `n`, rounded down.
pub open spec fn floor_sqrt(n: int) -> int {
    choose|s: int| is_floor_sqrt(n, s)
}

/// A number has one integer square root.
pub proof fn lemma_floor_sqrt(n: int, s: int)
    requires
        is_floor_sqrt(n, s),
    ensures
        floor_sqrt(n) == s,
{
    let t = floor_sqrt(n);
    assert(is_floor_sqrt(n, t));
    assert(t == s) by (nonlinear_arith)
        requires
            0 <= s,
            s * s <= n < (s + 1) * (s + 1),
            0 <= t,
            t * t <= n < (t + 1) * (t + 1),
    {
        if t < s {
            assert((t + 1) * (t + 1) <= s * s) by (nonlinear_arith)
                requires
                    0 <= t + 1 <= s,
            ;
        } else if s < t {
            assert((s + 1) * (s + 1) <= t * t) by (nonlinear_arith)
                requires
                    0 <= s + 1 <= t,
            ;
        }
    }
}

/// Half the width of the circle on row `y`, when the row crosses it.
pub open spec fn half_chord(cx: int, cy: int, r: int, y: int) -> int {
    floor_sqrt(r * r - (y - cy) * (y - cy))
}

/// The outline points of the huge circle on row `y`: its left and right ends.
pub open spec fn outline_row(cx: int, cy: int, r: int, y: int) -> Seq<(int, int)> {
    if (y - cy) * (y - cy) > r * r {
        Seq::empty()
    } else {
        let h = half_chord(cx, cy, r, y);
        if h != 0 {
            seq![(cx - h, y), (cx + h, y)]
        } else {
            seq![(cx - h, y)]
        }
    }
}

/// The span of the huge disc on row `y`.
pub open spec fn disc_row(cx: int, cy: int, r: int, y: int) -> Seq<(int, int)> {
    if (y - cy) * (y - cy) > r * r {
        Seq::empty()
    } else {
        let h = half_chord(cx, cy, r, y);
        row_span(cx - h, cx + h, y)
    }
}

/// The outline points of the huge circle on rows `0..n`.
pub open spec fn outline_rows(cx: int, cy: int, r: int, n: int) -> Seq<(int, int)>
    decreases n,
{
    if n <= 0 {
        Seq::empty()
    } else {
        outline_rows(cx, cy, r, n - 1) + outline_row(cx, cy, r, n - 1)
    }
}

/// The spans of the huge disc on rows `0..n`.
pub open spec fn disc_rows(cx: int, cy: int, r: int, n: int) -> Seq<(int, int)>
    decreases n,
{
    if n <= 0 {
        Seq::empty()
    } else {
        disc_rows(cx, cy, r, n - 1) + disc_row(cx, cy, r, n - 1)
    }
}

// ---------------------------------------------------------------------------
// What the public functions light
// ---------------------------------------------------------------------------

/// The points [`draw_circle`] lights.
pub open spec fn circle_points(cx: int, cy: int, r: int) -> Seq<(int, int)> {
    if r < 0 || !circle_on_screen(cx, cy, r) {
        Seq::empty()
    } else if r > LARGE_RADIUS_FALLBACK {
        outline_rows(cx, cy, r, HEIGHT as int)
    } else {
        circle_walk(cx, cy, r, r, 0)
    }
}

/// The points [`fill_circle`] lights.
pub open spec fn disc_points(cx: int, cy: int, r: int) -> Seq<(int, int)> {
    if r < 0 || !circle_on_screen(cx, cy, r) {
        Seq::empty()
    } else if r > LARGE_RADIUS_FALLBACK {
        disc_rows(cx, cy, r, HEIGHT as int)
    } else {
        disc_walk(cx, cy, r, r, 0)
    }
}

// ---------------------------------------------------------------------------
// Executable code
// ---------------------------------------------------------------------------

/// Whether the circle's bounding box meets the screen.
fn circle_intersects_screen(cx: i32, cy: i32, r: i32) -> (b: bool)
    ensures
        b == circle_on_screen(cx as int, cy as int, r as int),
{
    let cx = cx as i64;
    let cy = cy as i64;
    let r = r as i64;
    let left = cx - r;
    let right = cx + r;
    let top = cy - r;
    let bottom = cy + r;
    left < WIDTH as i64 && right >= 0 && top < HEIGHT as i64 && bottom >= 0
}

/// Plots the eight symmetric points of `(x, y)` about `(cx, cy)`.
fn plot8(fb: &mut Framebuffer, cx: i32, cy: i32, x: i32, y: i32)
    requires
        -8192 <= cx <= 8192,
        -8192 <= cy <= 8192,
        -8192 <= x <= 8192,
        -8192 <= y <= 8192,
    ensures
        final(fb).state() == plot_all(old(fb).state(), octant_points(cx as int, cy as int, x as int, y as int), true),
{
    let ghost s0 = fb.state();
    let ghost pts = octant_points(cx as int, cy as int, x as int, y as int);
    proof {
        lemma_plot_all_next(s0, pts, 0, true);
        assert(pts.take(0) =~= Seq::<(int, int)>::empty());
    }
    plot_point(fb, cx + x, cy + y);
    proof {
        lemma_plot_all_next(s0, pts, 1, true);
    }
    plot_point(fb, cx - x, cy + y);
    proof {
        lemma_plot_all_next(s0, pts, 2, true);
    }
    plot_point(fb, cx + x, cy - y);
    proof {
        lemma_plot_all_next(s0, pts, 3, true);
    }
    plot_point(fb, cx - x, cy - y);
    proof {
        lemma_plot_all_next(s0, pts, 4, true);
    }
    plot_point(fb, cx + y, cy + x);
    proof {
        lemma_plot_all_next(s0, pts, 5, true);
    }
    plot_point(fb, cx - y, cy + x);
    proof {
        lemma_plot_all_next(s0, pts, 6, true);
    }
    plot_point(fb, cx + y, cy - x);
    proof {
        lemma_plot_all_next(s0, pts, 7, true);
    }
    plot_point(fb, cx - y, cy - x);
    proof {
        assert(pts.take(8) =~= pts);
    }
}

/// One step of the midpoint walk keeps the decision value in step.
proof fn lemma_midpoint_step(r: int, x: int, y: int, err: int)
    requires
        err == midpoint_err(r, x, y),
    ensures
        err < 0 ==> err + 2 * (y + 1) + 1 == midpoint_err(r, x, y + 1),
        err >= 0 ==> err + 2 * ((y + 1) - (x - 1)) + 1 == midpoint_err(r, x - 1, y + 1),
{
    assert(midpoint_err(r, x, y + 1) == midpoint_err(r, x, y) + 2 * y + 3) by (nonlinear_arith);
    assert(midpoint_err(r, x - 1, y + 1) == midpoint_err(r, x, y) - 2 * x + 2 * y + 5) by (nonlinear_arith);
}

/// Bounds on the decision value along the walk.
proof fn lemma_midpoint_bounds(r: int, x: int, y: int)
    requires
        0 <= r <= 4096,
        -1 <= x <= r,
        0 <= y <= x + 2,
    ensures
        -20_000_000 <= midpoint_err(r, x, y) <= 60_000_000,
{
    assert(-20_000_000 <= midpoint_err(r, x, y) <= 60_000_000) by (nonlinear_arith)
        requires
            0 <= r <= 4096,
            -1 <= x <= r,
            0 <= y <= x + 2,
    ;
}

/// Draws the outline of the circle of radius `r` about `(cx, cy)`.
///
/// Ordinary radii use the midpoint algorithm; a circle far larger than the
/// screen is drawn row by row from its chord on each screen row. A negative
/// radius, or a circle whose bounding box misses the screen, draws nothing.
pub fn draw_circle(fb: &mut Framebuffer, cx: i32, cy: i32, r: i32)
    ensures
        final(fb).state() == plot_all(old(fb).state(), circle_points(cx as int, cy as int, r as int), true),
{
    if r < 0 || !circle_intersects_screen(cx, cy, r) {
        return;
    }
    if r > LARGE_RADIUS_FALLBACK {
        draw_circle_large(fb, cx, cy, r);
        return;
    }
    let mut x = r;
    let mut y: i32 = 0;
    let mut err = 1 - r;
    let ghost target = plot_all(fb.state(), circle_walk(cx as int, cy as int, r as int, r as int, 0), true);
    while x >= y
        invariant
            0 <= r <= 4096,
            circle_on_screen(cx as int, cy as int, r as int),
            -1 <= x <= r,
            0 <= y <= x + 2,
            err == midpoint_err(r as int, x as int, y as int),
            plot_all(fb.state(), circle_walk(cx as int, cy as int, r as int, x as int, y as int), true) == target,
        decreases x - y + 2,
    {
        let ghost s = fb.state();
        let ghost rest = circle_walk(cx as int, cy as int, r as int, x as int, y as int);
        let ghost next = circle_next(r as int, x as int, y as int);
        proof {
            lemma_plot_all_append(
                s,
                octant_points(cx as int, cy as int, x as int, y as int),
                circle_walk(cx as int, cy as int, r as int, next.0, next.1),
                true,
            );
            lemma_midpoint_step(r as int, x as int, y as int, err as int);
            lemma_midpoint_bounds(r as int, x as int, y as int);
        }
        plot8(fb, cx, cy, x, y);
        y = y + 1;
        if err < 0 {
            err = err + 2 * y + 1;
        } else {
            x = x - 1;
            err = err + 2 * (y - x) + 1;
        }
    }
}

/// Fills the disc of radius `r` about `(cx, cy)`.
///
/// Ordinary radii fill the rows met along the midpoint walk; a disc far larger
/// than the screen is filled row by row from its chord on each screen row. A
/// negative radius, or a disc whose bounding box misses the screen, draws
/// nothing.
pub fn fill_circle(fb: &mut Framebuffer, cx: i32, cy: i32, r: i32)
    ensures
        final(fb).state() == plot_all(old(fb).state(), disc_points(cx as int, cy as int, r as int), true),
{
    if r < 0 || !circle_intersects_screen(cx, cy, r) {
        return;
    }
    if r > LARGE_RADIUS_FALLBACK {
        fill_circle_large(fb, cx, cy, r);
        return;
    }
    let mut x = r;
    let mut y: i32 = 0;
    let mut err = 1 - r;
    let ghost target = plot_all(fb.state(), disc_walk(cx as int, cy as int, r as int, r as int, 0), true);
    while x >= y
        invariant
            0 <= r <= 4096,
            circle_on_screen(cx as int, cy as int, r as int),
            -1 <= x <= r,
            0 <= y <= x + 2,
            err == midpoint_err(r as int, x as int, y as int),
            plot_all(fb.state(), disc_walk(cx as int, cy as int, r as int, x as int, y as int), true) == target,
        decreases x - y + 2,
    {
        let ghost s0 = fb.state();
        let ghost next = circle_next(r as int, x as int, y as int);
        let ghost (ci, yi, xi) = (cx as int, cy as int, x as int);
        let ghost yy = y as int;
        let ghost r1 = row_span(ci - xi, ci + xi, yi + yy);
        let ghost r2 = row_span(ci - xi, ci + xi, yi - yy);
        let ghost r3 = row_span(ci - yy, ci + yy, yi + xi);
        let ghost r4 = row_span(ci - yy, ci + yy, yi - xi);
        proof {
            lemma_plot_all_append(s0, octant_rows(ci, yi, xi, yy), disc_walk(ci, yi, r as int, next.0, next.1), true);
            lemma_plot_all_append(s0, r1 + r2 + r3, r4, true);
            lemma_plot_all_append(s0, r1 + r2, r3, true);
            lemma_plot_all_append(s0, r1, r2, true);
            lemma_midpoint_step(r as int, x as int, y as int, err as int);
            lemma_midpoint_bounds(r as int, x as int, y as int);
        }
        fill_row(fb, (cx - x) as i64, (cx + x) as i64, (cy + y) as i64);
        fill_row(fb, (cx - x) as i64, (cx + x) as i64, (cy - y) as i64);
        fill_row(fb, (cx - y) as i64, (cx + y) as i64, (cy + x) as i64);
        fill_row(fb, (cx - y) as i64, (cx + y) as i64, (cy - x) as i64);
        y = y + 1;
        if err < 0 {
            err = err + 2 * y + 1;
        } else {
            x = x - 1;
            err = err + 2 * (y - x) + 1;
        }
    }
}

/// `t` is a non-negative number whose square is at most `n`.
pub open spec fn square_within(t: int, n: int) -> bool {
    0 <= t && t * t <= n
}

/// A Newton step from `x` never falls below a number whose square is at most `n`.
proof fn lemma_newton_step(n: int, x: int, t: int)
    requires
        1 <= x,
        0 <= t,
        t * t <= n,
    ensures
        t <= (x + n / x) / 2,
{
    lemma_fundamental_div_mod(n, x);
    let q = n / x;
    assert(n < x * (q + 1)) by (nonlinear_arith)
        requires
            n == x * q + n % x,
            n % x < x,
    ;
    if x + q < 2 * t {
        assert(false) by (nonlinear_arith)
            requires
                n < x * (q + 1),
                1 <= x,
                q + 1 <= 2 * t - x,
                t * t <= n,
        {
            assert(x * (q + 1) <= x * (2 * t - x)) by (nonlinear_arith)
                requires
                    1 <= x,
                    q + 1 <= 2 * t - x,
            ;
            assert(x * (2 * t - x) == t * t - (t - x) * (t - x)) by (nonlinear_arith);
            assert((t - x) * (t - x) >= 0) by (nonlinear_arith);
        }
    }
}

/// Once a Newton step no longer descends, `x` is at most the square root.
proof fn lemma_newton_stop(n: int, x: int)
    requires
        1 <= x,
        0 <= n,
        (x + n / x) / 2 >= x,
    ensures
        x * x <= n,
{
    lemma_fundamental_div_mod(n, x);
    let q = n / x;
    if x * x > n {
        assert(q < x) by (nonlinear_arith)
            requires
                n == x * q + n % x,
                0 <= n % x,
                n < x * x,
                1 <= x,
        ;
    }
}

/// The integer square root of `n`, rounded down (Newton's method).
fn isqrt(n: u64) -> (s: u64)
    requires
        n <= 0x4000_0000_0000_0000,
    ensures
        is_floor_sqrt(n as int, s as int),
{
    if n == 0 {
        assert(is_floor_sqrt(0, 0)) by (nonlinear_arith);
        return 0;
    }
    let mut x = n;
    let mut y = n / 2 + n % 2;
    proof {
        assert(n / n == 1) by (nonlinear_arith)
            requires
                n >= 1,
        ;
        assert forall|t: int| #[trigger] square_within(t, n as int) implies t <= x && t <= y by {
            assert(t <= n) by (nonlinear_arith)
                requires
                    0 <= t,
                    t * t <= n,
            ;
            lemma_newton_step(n as int, n as int, t);
        }
    }
    while y < x
        invariant
            1 <= n <= 0x4000_0000_0000_0000,
            1 <= x <= n,
            y == (x + n / x) / 2,
            forall|t: int| #[trigger] square_within(t, n as int) ==> t <= x && t <= y,
        decreases x,
    {
        proof {
            assert(n / x >= 1) by (nonlinear_arith)
                requires
                    1 <= x <= n,
            ;
        }
        x = y;
        proof {
            assert(n / x <= n) by (nonlinear_arith)
                requires
                    x >= 1,
                    n >= 0,
            ;
            assert forall|t: int| #[trigger] square_within(t, n as int) implies t <= (x + n / x) / 2 by {
                lemma_newton_step(n as int, x as int, t);
            }
        }
        y = (x + n / x) / 2;
    }
    proof {
        lemma_newton_stop(n as int, x as int);
        if (x + 1) * (x + 1) <= n {
            assert(square_within(x + 1, n as int));
        }
    }
    x
}

/// Bounds on the squares met by the per-row scan.
proof fn lemma_scan_squares(r: int, dy: int)
    requires
        0 <= r <= i32::MAX,
        -(i32::MAX as int) - 64 <= dy <= i32::MAX as int + 64,
    ensures
        0 <= r * r <= 0x4000_0000_0000_0000,
        0 <= dy * dy <= 0x4000_0100_0000_0000,
{
    assert(0 <= r * r <= 0x4000_0000_0000_0000) by (nonlinear_arith)
        requires
            0 <= r <= i32::MAX,
    ;
    assert(0 <= dy * dy <= 0x4000_0100_0000_0000) by (nonlinear_arith)
        requires
            -(i32::MAX as int) - 64 <= dy <= i32::MAX as int + 64,
    ;
}

/// Half the chord of the circle on row `y`, or `None` when the row misses it.
fn chord_half(cx: i64, cy: i64, r: i64, y: i64) -> (h: Option<i64>)
    requires
        0 <= r <= i32::MAX,
        i32::MIN <= cy <= i32::MAX,
        0 <= y < HEIGHT,
    ensures
        match h {
            None => (y - cy) * (y - cy) > r * r,
            Some(h) => (y - cy) * (y - cy) <= r * r && h == half_chord(cx as int, cy as int, r as int, y as int)
                && 0 <= h <= r,
        },
{
    proof {
        lemma_scan_squares(r as int, y - cy);
    }
    let r2 = r * r;
    let dy = y - cy;
    let dy2 = dy * dy;
    if dy2 > r2 {
        return None;
    }
    let rem = r2 - dy2;
    let half = isqrt(rem as u64);
    proof {
        lemma_floor_sqrt(rem as int, half as int);
        if half > r {
            assert(half * half > r * r) by (nonlinear_arith)
                requires
                    half > r >= 0,
            ;
        }
    }
    Some(half as i64)
}

/// The outline of a circle far larger than the screen, row by row.
fn draw_circle_large(fb: &mut Framebuffer, cx: i32, cy: i32, r: i32)
    requires
        0 <= r,
        circle_on_screen(cx as int, cy as int, r as int),
    ensures
        final(fb).state() == plot_all(old(fb).state(), outline_rows(cx as int, cy as int, r as int, HEIGHT as int), true),
{
    let r = r as i64;
    let cx = cx as i64;
    let cy = cy as i64;
    let ghost s0 = fb.state();
    let mut y: i64 = 0;
    while y < HEIGHT as i64
        invariant
            0 <= y <= HEIGHT,
            0 <= r <= i32::MAX,
            i32::MIN <= cx <= i32::MAX,
            i32::MIN <= cy <= i32::MAX,
            fb.state() == plot_all(s0, outline_rows(cx as int, cy as int, r as int, y as int), true),
        decreases HEIGHT - y,
    {
        let ghost s1 = fb.state();
        let ghost row = outline_row(cx as int, cy as int, r as int, y as int);
        proof {
            lemma_plot_all_append(s0, outline_rows(cx as int, cy as int, r as int, y as int), row, true);
        }
        match chord_half(cx, cy, r, y) {
            None => {
                assert(row =~= Seq::<(int, int)>::empty());
            },
            Some(half) => {
                let x_left = cx - half;
                let x_right = cx + half;
                proof {
                    lemma_plot_all_push(s1, Seq::empty(), (x_left as int, y as int), true);
                    assert(Seq::<(int, int)>::empty().push((x_left as int, y as int)) =~= seq![(x_left as int, y as int)]);
                    lemma_plot_all_push(s1, seq![(x_left as int, y as int)], (x_right as int, y as int), true);
                    assert(seq![(x_left as int, y as int)].push((x_right as int, y as int)) =~= seq![
                        (x_left as int, y as int),
                        (x_right as int, y as int),
                    ]);
                }
                plot_point_i64(fb, x_left, y);
                if x_right != x_left {
                    plot_point_i64(fb, x_right, y);
                }
            },
        }
        y = y + 1;
    }
}

/// The disc of a circle far larger than the screen, row by row.
fn fill_circle_large(fb: &mut Framebuffer, cx: i32, cy: i32, r: i32)
    requires
        0 <= r,
        circle_on_screen(cx as int, cy as int, r as int),
    ensures
        final(fb).state() == plot_all(old(fb).state(), disc_rows(cx as int, cy as int, r as int, HEIGHT as int), true),
{
    let r = r as i64;
    let cx = cx as i64;
    let cy = cy as i64;
    let ghost s0 = fb.state();
    let mut y: i64 = 0;
    while y < HEIGHT as i64
        invariant
            0 <= y <= HEIGHT,
            0 <= r <= i32::MAX,
            i32::MIN <= cx <= i32::MAX,
            i32::MIN <= cy <= i32::MAX,
            fb.state() == plot_all(s0, disc_rows(cx as int, cy as int, r as int, y as int), true),
        decreases HEIGHT - y,
    {
        let ghost row = disc_row(cx as int, cy as int, r as int, y as int);
        proof {
            lemma_plot_all_append(s0, disc_rows(cx as int, cy as int, r as int, y as int), row, true);
        }
        match chord_half(cx, cy, r, y) {
            None => {
                assert(row =~= Seq::<(int, int)>::empty());
            },
            Some(half) => {
                fill_row(fb, cx - half, cx + half, y);
            },
        }
        y = y + 1;
    }
}

} // verus!
