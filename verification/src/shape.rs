//! Shapes and their solid fills: rectangles, ellipses (circles included) and triangles.
//! Lines and paths live in `line` and `polygon`; `draw_shape` in `draw`.

use vstd::prelude::*;
use crate::canvas::{Canvas, paints, area, lemma_rows_step, lemma_rows_within_area, lemma_paint_nothing, lemma_paint_step, lemma_paint_same_set};
use crate::geometry::{Color, Point, Rect, max_int, min_int, max_i64, min_i64};
use crate::grid::lemma_mul_le;

verus! {

/// How a shape is painted. Only solid color exists so far.
#[derive(Debug, Clone, Copy, PartialEq, Eq, Structural)]
pub enum Fill {
    Solid(Color),
}

/// The color a fill paints with.
pub open spec fn fill_color(fill: Fill) -> Color {
    match fill {
        Fill::Solid(c) => c,
    }
}

impl Fill {
    /// A solid, uniform color fill.
    pub fn solid(color: Color) -> (f: Self)
        ensures
            f == Fill::Solid(color),
    {
        Fill::Solid(color)
    }

    /// The color this fill paints with.
    pub fn color(&self) -> (c: Color)
        ensures
            c == fill_color(*self),
    {
        match self {
            Fill::Solid(c) => *c,
        }
    }
}

/// A drawable shape. Rectangles, circles, ellipses, triangles and closed paths are filled;
/// lines and open paths are stroked with the fill's color.
#[derive(Debug, Clone, PartialEq)]
pub enum Shape {
    Line { from: Point, to: Point },
    Rect { origin: Point, width: u32, height: u32 },
    Circle { center: Point, radius: u32 },
    Ellipse { center: Point, rx: u32, ry: u32 },
    Triangle { a: Point, b: Point, c: Point },
    /// Points connected in order. An open path is stroked segment by segment; a closed one is
    /// filled with the even-odd rule (concave and self-intersecting outlines included).
    Path { points: Vec<Point>, closed: bool },
}

impl Shape {
    pub fn line(from: Point, to: Point) -> (s: Self)
        ensures
            s == (Shape::Line { from, to }),
    {
        Shape::Line { from, to }
    }

    pub fn rect(origin: Point, width: u32, height: u32) -> (s: Self)
        ensures
            s == (Shape::Rect { origin, width, height }),
    {
        Shape::Rect { origin, width, height }
    }

    pub fn circle(center: Point, radius: u32) -> (s: Self)
        ensures
            s == (Shape::Circle { center, radius }),
    {
        Shape::Circle { center, radius }
    }

    pub fn ellipse(center: Point, rx: u32, ry: u32) -> (s: Self)
        ensures
            s == (Shape::Ellipse { center, rx, ry }),
    {
        Shape::Ellipse { center, rx, ry }
    }

    pub fn triangle(a: Point, b: Point, c: Point) -> (s: Self)
        ensures
            s == (Shape::Triangle { a, b, c }),
    {
        Shape::Triangle { a, b, c }
    }

    pub fn path(points: Vec<Point>, closed: bool) -> (s: Self)
        ensures
            s == (Shape::Path { points, closed }),
    {
        Shape::Path { points, closed }
    }
}

/// Pixel `(x, y)` lies in the rectangle with top-left `origin` and the given size.
pub open spec fn in_rect(origin: Point, width: u32, height: u32, x: int, y: int) -> bool {
    origin.x <= x < origin.x + width && origin.y <= y < origin.y + height
}

/// Pixel `(x, y)` lies in the filled ellipse with the given center and radii:
/// `(dx / rx)^2 + (dy / ry)^2 <= 1`, written without division. Degenerate (zero-radius)
/// ellipses cover nothing.
pub open spec fn in_ellipse(center: Point, rx: u32, ry: u32, x: int, y: int) -> bool {
    let dx = x - center.x;
    let dy = y - center.y;
    &&& rx > 0
    &&& ry > 0
    &&& dx * dx * (ry * ry) + dy * dy * (rx * rx) <= (rx * rx) * (ry * ry)
}

/// The cross product `(p2 - p1) x ((px, py) - p1)`: which side of edge `p1 -> p2` the
/// point lies on.
pub open spec fn edge_sign_spec(px: int, py: int, p1: Point, p2: Point) -> int {
    (p2.x - p1.x) * (py - p1.y) - (p2.y - p1.y) * (px - p1.x)
}

/// The point lies inside or on triangle `a, b, c`: the three edge signs never disagree.
pub open spec fn point_in_triangle_spec(px: int, py: int, a: Point, b: Point, c: Point) -> bool {
    let d1 = edge_sign_spec(px, py, a, b);
    let d2 = edge_sign_spec(px, py, b, c);
    let d3 = edge_sign_spec(px, py, c, a);
    !((d1 < 0 || d2 < 0 || d3 < 0) && (d1 > 0 || d2 > 0 || d3 > 0))
}

/// Reversing an edge negates its sign.
proof fn lemma_edge_sign_reversed(px: int, py: int, p1: Point, p2: Point)
    ensures
        edge_sign_spec(px, py, p2, p1) == -edge_sign_spec(px, py, p1, p2),
{
    let (ax, ay, bx, by) = (p1.x as int, p1.y as int, p2.x as int, p2.y as int);
    assert((ax - bx) * (py - by) - (ay - by) * (px - bx) == -((bx - ax) * (py - ay) - (by - ay) * (px - ax)))
        by (nonlinear_arith);
}

/// The edge-sign test does not depend on which vertex comes first, nor on the triangle's
/// orientation.
pub proof fn law_point_in_triangle_ignores_vertex_order(px: int, py: int, a: Point, b: Point, c: Point)
    ensures
        point_in_triangle_spec(px, py, a, b, c) == point_in_triangle_spec(px, py, b, c, a),
        point_in_triangle_spec(px, py, a, b, c) == point_in_triangle_spec(px, py, b, a, c),
{
    lemma_edge_sign_reversed(px, py, a, b);
    lemma_edge_sign_reversed(px, py, b, c);
    lemma_edge_sign_reversed(px, py, c, a);
}

/// Every vertex of a triangle passes its own edge-sign test.
pub proof fn law_triangle_contains_its_vertices(a: Point, b: Point, c: Point)
    ensures
        point_in_triangle_spec(a.x as int, a.y as int, a, b, c),
        point_in_triangle_spec(b.x as int, b.y as int, a, b, c),
        point_in_triangle_spec(c.x as int, c.y as int, a, b, c),
{
    assert(edge_sign_spec(a.x as int, a.y as int, a, b) == 0) by (nonlinear_arith);
    assert(edge_sign_spec(a.x as int, a.y as int, c, a) == 0) by (nonlinear_arith);
    assert(edge_sign_spec(b.x as int, b.y as int, a, b) == 0) by (nonlinear_arith);
    assert(edge_sign_spec(b.x as int, b.y as int, b, c) == 0) by (nonlinear_arith);
    assert(edge_sign_spec(c.x as int, c.y as int, b, c) == 0) by (nonlinear_arith);
    assert(edge_sign_spec(c.x as int, c.y as int, c, a) == 0) by (nonlinear_arith);
}

/// `n * v == k * d` and `n > 0` with `k, d` of one sign: `v` has that sign too.
proof fn lemma_scaled_sign(n: int, v: int, k: int, d: int)
    requires
        n > 0,
        k >= 0,
        n * v == k * d,
    ensures
        d >= 0 ==> v >= 0,
        d <= 0 ==> v <= 0,
{
    if d >= 0 {
        assert(k * d >= 0) by (nonlinear_arith)
            requires
                k >= 0,
                d >= 0,
        ;
        assert(v >= 0) by (nonlinear_arith)
            requires
                n > 0,
                n * v >= 0,
        ;
    }
    if d <= 0 {
        assert(k * d <= 0) by (nonlinear_arith)
            requires
                k >= 0,
                d <= 0,
        ;
        assert(v <= 0) by (nonlinear_arith)
            requires
                n > 0,
                n * v <= 0,
        ;
    }
}

/// A point `(x, y)` with `n * (x, y) == (n - k) * p + k * q`, `0 <= k <= n`, lies between
/// `p` and `q` in each coordinate.
proof fn lemma_between(n: int, k: int, x: int, p: int, q: int)
    requires
        0 <= k <= n,
        n > 0,
        n * x == (n - k) * p + k * q,
    ensures
        min_int(p, q) <= x <= max_int(p, q),
{
    assert(n * (x - p) == k * (q - p)) by (nonlinear_arith)
        requires
            n * x == (n - k) * p + k * q,
    ;
    assert(n * (q - x) == (n - k) * (q - p)) by (nonlinear_arith)
        requires
            n * x == (n - k) * p + k * q,
    ;
    lemma_scaled_sign(n, x - p, k, q - p);
    lemma_scaled_sign(n, q - x, n - k, q - p);
}

/// `n * (x - o) == (n - k) * (p - o) + k * (q - o)` when `n * x == (n - k) * p + k * q`.
proof fn lemma_offset(n: int, k: int, x: int, p: int, q: int, o: int)
    requires
        n * x == (n - k) * p + k * q,
    ensures
        n * (x - o) == (n - k) * (p - o) + k * (q - o),
{
    assert(n * (x - o) == n * x - n * o) by (nonlinear_arith);
    assert((n - k) * (p - o) + k * (q - o) == (n - k) * p + k * q - n * o) by (nonlinear_arith);
}

/// The cross product with `(P, Q)` of a combination `m * (pu, pv) + k * (qu, qv)` (scaled
/// by `n`) is the same combination of the cross products.
proof fn lemma_cross_of_combination(
    n: int,
    m: int,
    k: int,
    cp: int,
    cq: int,
    u: int,
    v: int,
    pu: int,
    pv: int,
    qu: int,
    qv: int,
)
    requires
        n * u == m * pu + k * qu,
        n * v == m * pv + k * qv,
    ensures
        n * (cp * v - cq * u) == m * (cp * pv - cq * pu) + k * (cp * qv - cq * qu),
{
    assert(n * (cp * v - cq * u) == cp * (n * v) - cq * (n * u)) by (nonlinear_arith);
    assert(cp * (m * pv + k * qv) == m * (cp * pv) + k * (cp * qv)) by (nonlinear_arith);
    assert(cq * (m * pu + k * qu) == m * (cq * pu) + k * (cq * qu)) by (nonlinear_arith);
    assert(m * (cp * pv) + k * (cp * qv) - (m * (cq * pu) + k * (cq * qu)) == m * (cp * pv - cq * pu) + k * (cp
        * qv - cq * qu)) by (nonlinear_arith);
}

/// Every lattice point on an edge of a triangle is filled with it, whatever position that
/// edge takes among the three: a point `(x, y)` on the segment from vertex `a` to vertex `b`
/// (`n * (x, y) == (n - k) * a + k * b` with `0 <= k <= n`, which every lattice point of the
/// segment satisfies for some `n` and `k`) is inside triangle `a, b, c` and its rotations.
pub proof fn law_triangle_contains_its_edges(a: Point, b: Point, c: Point, x: int, y: int, n: int, k: int)
    requires
        n > 0,
        0 <= k <= n,
        n * x == (n - k) * a.x + k * b.x,
        n * y == (n - k) * a.y + k * b.y,
    ensures
        in_triangle(a, b, c, x, y),
        in_triangle(b, c, a, x, y),
        in_triangle(c, a, b, x, y),
{
    let (ax, ay, bx, by, cx, cy) = (a.x as int, a.y as int, b.x as int, b.y as int, c.x as int, c.y as int);
    let m = n - k;
    let t = (cx - bx) * (ay - by) - (cy - by) * (ax - bx);
    let d1 = edge_sign_spec(x, y, a, b);
    let d2 = edge_sign_spec(x, y, b, c);
    let d3 = edge_sign_spec(x, y, c, a);
    // (x, y) relative to each vertex, as the same combination of the vertices' offsets
    lemma_offset(n, k, x, ax, bx, ax);
    lemma_offset(n, k, y, ay, by, ay);
    lemma_offset(n, k, x, ax, bx, bx);
    lemma_offset(n, k, y, ay, by, by);
    lemma_offset(n, k, x, ax, bx, cx);
    lemma_offset(n, k, y, ay, by, cy);
    lemma_cross_of_combination(n, m, k, bx - ax, by - ay, x - ax, y - ay, 0, 0, bx - ax, by - ay);
    lemma_cross_of_combination(n, m, k, cx - bx, cy - by, x - bx, y - by, ax - bx, ay - by, 0, 0);
    lemma_cross_of_combination(n, m, k, ax - cx, ay - cy, x - cx, y - cy, ax - cx, ay - cy, bx - cx, by - cy);
    assert((bx - ax) * 0 - (by - ay) * 0 == 0 && (bx - ax) * (by - ay) - (by - ay) * (bx - ax) == 0) by (nonlinear_arith);
    assert((cx - bx) * 0 - (cy - by) * 0 == 0) by (nonlinear_arith);
    assert((ax - cx) * (ay - cy) - (ay - cy) * (ax - cx) == 0) by (nonlinear_arith);
    assert((ax - cx) * (by - cy) - (ay - cy) * (bx - cx) == t) by (nonlinear_arith)
        requires
            t == (cx - bx) * (ay - by) - (cy - by) * (ax - bx),
    ;
    assert(m * 0 == 0 && k * 0 == 0) by (nonlinear_arith);
    lemma_scaled_sign(n, d1, k, 0);
    lemma_scaled_sign(n, d2, n - k, t);
    lemma_scaled_sign(n, d3, k, t);
    lemma_between(n, k, x, ax, bx);
    lemma_between(n, k, y, ay, by);
}

pub open spec fn min3(a: int, b: int, c: int) -> int {
    min_int(min_int(a, b), c)
}

pub open spec fn max3(a: int, b: int, c: int) -> int {
    max_int(max_int(a, b), c)
}

/// Pixel `(x, y)` is filled by the triangle: it lies in the triangle's bounding box and passes
/// the edge-sign test.
pub open spec fn in_triangle(a: Point, b: Point, c: Point, x: int, y: int) -> bool {
    &&& min3(a.x as int, b.x as int, c.x as int) <= x <= max3(a.x as int, b.x as int, c.x as int)
    &&& min3(a.y as int, b.y as int, c.y as int) <= y <= max3(a.y as int, b.y as int, c.y as int)
    &&& point_in_triangle_spec(x, y, a, b, c)
}

/// The edge sign, computed in `i128` so that no `i64` point and `i32` edge can overflow it.
pub fn edge_sign(px: i64, py: i64, p1: Point, p2: Point) -> (r: i128)
    ensures
        r == edge_sign_spec(px as int, py as int, p1, p2),
{
    let dx_edge = p2.x as i128 - p1.x as i128;
    let dy_edge = p2.y as i128 - p1.y as i128;
    let dx_point = px as i128 - p1.x as i128;
    let dy_point = py as i128 - p1.y as i128;
    proof {
        lemma_edge_product_bounds(dx_edge as int, dy_point as int);
        lemma_edge_product_bounds(dy_edge as int, dx_point as int);
    }
    dx_edge * dy_point - dy_edge * dx_point
}

/// Products of an edge difference (`i32` range) and a point difference (`i64` range) stay far
/// inside `i128`.
proof fn lemma_edge_product_bounds(e: int, p: int)
    requires
        -0x1_0000_0000 <= e <= 0x1_0000_0000,
        -0x1_0000_0000_0000_0000 <= p <= 0x1_0000_0000_0000_0000,
    ensures
        -0x1_0000_0000_0000_0000_0000_0000 <= e * p <= 0x1_0000_0000_0000_0000_0000_0000,
{
    assert(-0x1_0000_0000_0000_0000_0000_0000 <= e * p <= 0x1_0000_0000_0000_0000_0000_0000) by (nonlinear_arith)
        requires
            -0x1_0000_0000 <= e <= 0x1_0000_0000,
            -0x1_0000_0000_0000_0000 <= p <= 0x1_0000_0000_0000_0000,
    ;
}

/// Whether `(px, py)` lies inside or on the triangle `a, b, c`.
pub fn point_in_triangle(px: i64, py: i64, a: Point, b: Point, c: Point) -> (r: bool)
    ensures
        r == point_in_triangle_spec(px as int, py as int, a, b, c),
{
    let d1 = edge_sign(px, py, a, b);
    let d2 = edge_sign(px, py, b, c);
    let d3 = edge_sign(px, py, c, a);
    let has_neg = d1 < 0 || d2 < 0 || d3 < 0;
    let has_pos = d1 > 0 || d2 > 0 || d3 > 0;
    !(has_neg && has_pos)
}

impl Canvas {
    /// Fills `[x_lo, x_hi) x [y_lo, y_hi)` with `color`; the range must already be clipped to
    /// the canvas (an empty range does nothing).
    #[verifier::spinoff_prover]
    pub(crate) fn fill_clipped_rect(&mut self, x_lo: i64, x_hi: i64, y_lo: i64, y_hi: i64, color: Color)
        requires
            old(self).wf(),
            0 <= x_lo,
            0 <= y_lo,
            x_hi <= old(self)@.width,
            y_hi <= old(self)@.height,
        ensures
            final(self).wf(),
            paints(old(self)@, final(self)@, color, |a: int, b: int| x_lo <= a < x_hi && y_lo <= b < y_hi),
            final(self)@.next_version <= old(self)@.next_version + max_int(x_hi - x_lo, 0) * max_int(y_hi - y_lo, 0),
    {
        let ghost c0 = self@;
        let ghost n = max_int(x_hi - x_lo, 0);
        proof {
            lemma_paint_nothing(c0, color);
            lemma_paint_same_set(c0, c0, color, |a: int, b: int| false, |a: int, b: int| x_lo <= a < x_hi && y_lo <= b < y_lo);
        }
        let mut y = y_lo;
        while y < y_hi
            invariant
                c0.wf(),
                self.wf(),
                0 <= x_lo,
                0 <= y_lo <= y,
                y <= y_hi || y == y_lo,
                x_hi <= c0.width,
                y_hi <= c0.height,
                paints(c0, self@, color, |a: int, b: int| x_lo <= a < x_hi && y_lo <= b < y),
                n == max_int(x_hi - x_lo, 0),
                self@.next_version <= c0.next_version + n * (y - y_lo),
            decreases y_hi - y,
        {
            let mut x = x_lo;
            proof {
                lemma_paint_same_set(c0, self@, color, |a: int, b: int| x_lo <= a < x_hi && y_lo <= b < y,
                    |a: int, b: int| (x_lo <= a < x_hi && y_lo <= b < y) || (b == y && x_lo <= a < x));
            }
            while x < x_hi
                invariant
                    c0.wf(),
                    self.wf(),
                    0 <= x_lo <= x,
                    x <= x_hi || x == x_lo,
                    0 <= y_lo <= y < y_hi,
                    x_hi <= c0.width,
                    y_hi <= c0.height,
                    paints(c0, self@, color, |a: int, b: int| (x_lo <= a < x_hi && y_lo <= b < y) || (b == y && x_lo <= a < x)),
                    n == max_int(x_hi - x_lo, 0),
                    self@.next_version <= c0.next_version + n * (y - y_lo) + (x - x_lo),
                decreases x_hi - x,
            {
                let ghost before = self@;
                let ghost prev = |a: int, b: int| (x_lo <= a < x_hi && y_lo <= b < y) || (b == y && x_lo <= a < x);
                self.set_pixel(x as u32, y as u32, color);
                proof {
                    lemma_paint_step(c0, before, self@, color, prev, x as u32, y as u32);
                    lemma_paint_same_set(c0, self@, color, |a: int, b: int| prev(a, b) || (a == x as u32 && b == y as u32),
                        |a: int, b: int| (x_lo <= a < x_hi && y_lo <= b < y) || (b == y && x_lo <= a < x + 1));
                }
                x += 1;
            }
            proof {
                lemma_paint_same_set(c0, self@, color,
                    |a: int, b: int| (x_lo <= a < x_hi && y_lo <= b < y) || (b == y && x_lo <= a < x),
                    |a: int, b: int| x_lo <= a < x_hi && y_lo <= b < y + 1);
                lemma_rows_step(n, y - y_lo);
            }
            y += 1;
        }
        proof {
            lemma_paint_same_set(c0, self@, color, |a: int, b: int| x_lo <= a < x_hi && y_lo <= b < y,
                |a: int, b: int| x_lo <= a < x_hi && y_lo <= b < y_hi);
            assert(y - y_lo == max_int(y_hi - y_lo, 0));
        }
    }

    /// Fills the rectangle with top-left `origin` and the given size, clipped to the canvas.
    pub(crate) fn fill_rect(&mut self, origin: Point, width: u32, height: u32, color: Color)
        requires
            old(self).wf(),
        ensures
            final(self).wf(),
            paints(old(self)@, final(self)@, color, |a: int, b: int| in_rect(origin, width, height, a, b)),
            final(self)@.next_version <= old(self)@.next_version + area(old(self)@),
    {
        let canvas_w = self.width() as i64;
        let canvas_h = self.height() as i64;
        let x0 = origin.x as i64;
        let y0 = origin.y as i64;
        let x_hi = min_i64(x0 + width as i64, canvas_w);
        let y_hi = min_i64(y0 + height as i64, canvas_h);
        let ghost c0 = self@;
        self.fill_clipped_rect(max_i64(x0, 0), x_hi, max_i64(y0, 0), y_hi, color);
        proof {
            lemma_paint_same_set(c0, self@, color,
                |a: int, b: int| max_int(x0 as int, 0) <= a < x_hi && max_int(y0 as int, 0) <= b < y_hi,
                |a: int, b: int| in_rect(origin, width, height, a, b));
            lemma_rows_within_area(c0, max_int(x_hi - max_int(x0 as int, 0), 0), max_int(y_hi - max_int(y0 as int, 0), 0));
        }
    }

    /// Fills the ellipse with the given center and radii (a circle when `rx == ry`), scanning
    /// only its bounding box clipped to the canvas. The inclusion test is exact integer
    /// arithmetic, so no radius up to `u32::MAX` can overflow it.
    pub(crate) fn fill_ellipse(&mut self, center: Point, rx: u32, ry: u32, color: Color)
        requires
            old(self).wf(),
        ensures
            final(self).wf(),
            paints(old(self)@, final(self)@, color, |a: int, b: int| in_ellipse(center, rx, ry, a, b)),
            final(self)@.next_version <= old(self)@.next_version + area(old(self)@),
    {
        let ghost c0 = self@;
        if rx == 0 || ry == 0 {
            proof {
                lemma_paint_nothing(c0, color);
                lemma_paint_same_set(c0, c0, color, |a: int, b: int| false, |a: int, b: int| in_ellipse(center, rx, ry, a, b));
            }
            return;
        }
        let canvas_w = self.width() as i64;
        let canvas_h = self.height() as i64;
        let cx = center.x as i64;
        let cy = center.y as i64;
        let rx64 = rx as i64;
        let ry64 = ry as i64;
        proof {
            lemma_square_le(rx as int, 0xffff_ffff);
            lemma_square_le(ry as int, 0xffff_ffff);
        }
        let rx2 = rx as u128 * rx as u128;
        let ry2 = ry as u128 * ry as u128;
        let y_lo = max_i64(cy - ry64, 0);
        let y_hi = min_i64(cy + ry64, canvas_h - 1);
        let x_lo = max_i64(cx - rx64, 0);
        let x_hi = min_i64(cx + rx64, canvas_w - 1);
        let ghost covered = |a: int, b: int| in_ellipse(center, rx, ry, a, b);
        let ghost n = max_int(x_hi + 1 - x_lo, 0);
        proof {
            lemma_paint_nothing(c0, color);
            lemma_paint_same_set(c0, c0, color, |a: int, b: int| false,
                |a: int, b: int| covered(a, b) && y_lo <= b < y_lo && x_lo <= a <= x_hi);
        }
        let mut y = y_lo;
        while y <= y_hi
            invariant
                c0.wf(),
                self.wf(),
                rx > 0,
                ry > 0,
                cx == center.x,
                cy == center.y,
                rx2 == rx * rx,
                ry2 == ry * ry,
                canvas_w == c0.width,
                canvas_h == c0.height,
                y_lo == max_int(cy - ry, 0),
                y_hi == min_int(cy + ry, canvas_h - 1),
                x_lo == max_int(cx - rx, 0),
                x_hi == min_int(cx + rx, canvas_w - 1),
                y_lo <= y,
                y <= y_hi + 1 || y == y_lo,
                covered == (|a: int, b: int| in_ellipse(center, rx, ry, a, b)),
                paints(c0, self@, color, |a: int, b: int| covered(a, b) && y_lo <= b < y && x_lo <= a <= x_hi),
                n == max_int(x_hi + 1 - x_lo, 0),
                self@.next_version <= c0.next_version + n * (y - y_lo),
            decreases y_hi + 1 - y,
        {
            let dy = y - cy;
            proof {
                lemma_square_le(dy as int, ry as int);
                lemma_square_le(ry as int, 0xffff_ffff);
            }
            let dy2 = (dy as i128 * dy as i128) as u128;
            let ry2_minus_dy2 = ry2 - dy2;
            let mut x = x_lo;
            proof {
                lemma_paint_same_set(c0, self@, color, |a: int, b: int| covered(a, b) && y_lo <= b < y && x_lo <= a <= x_hi,
                    |a: int, b: int| (covered(a, b) && y_lo <= b < y && x_lo <= a <= x_hi) || (covered(a, b) && b == y && x_lo <= a < x));
            }
            while x <= x_hi
                invariant
                    c0.wf(),
                    self.wf(),
                    rx > 0,
                    ry > 0,
                    cx == center.x,
                    cy == center.y,
                    rx2 == rx * rx,
                    ry2 == ry * ry,
                    dy == y - cy,
                    dy2 == dy * dy,
                    ry2_minus_dy2 == ry2 - dy2,
                    canvas_w == c0.width,
                    canvas_h == c0.height,
                    x_lo == max_int(cx - rx, 0),
                    x_hi == min_int(cx + rx, canvas_w - 1),
                    0 <= y_lo <= y <= y_hi,
                    y_hi < canvas_h,
                    x_lo <= x,
                    x <= x_hi + 1 || x == x_lo,
                    covered == (|a: int, b: int| in_ellipse(center, rx, ry, a, b)),
                    paints(c0, self@, color,
                        |a: int, b: int| (covered(a, b) && y_lo <= b < y && x_lo <= a <= x_hi) || (covered(a, b) && b == y && x_lo <= a < x)),
                    n == max_int(x_hi + 1 - x_lo, 0),
                    self@.next_version <= c0.next_version + n * (y - y_lo) + (x - x_lo),
                decreases x_hi + 1 - x,
            {
                let dx = x - cx;
                proof {
                    lemma_square_le(dx as int, rx as int);
                    lemma_square_le(rx as int, 0xffff_ffff);
                }
                let dx2 = (dx as i128 * dx as i128) as u128;
                proof {
                    lemma_mul_le(dx2 as int, ry2 as int, rx2 as int, ry2 as int);
                    lemma_mul_le(rx2 as int, ry2_minus_dy2 as int, rx2 as int, ry2 as int);
                    lemma_square_le(rx as int, 0xffff_ffff);
                    lemma_square_le(ry as int, 0xffff_ffff);
                    lemma_mul_le(rx2 as int, ry2 as int, 0xffff_fffe_0000_0001int, 0xffff_fffe_0000_0001int);
                }
                let inside = dx2 * ry2 <= rx2 * ry2_minus_dy2;
                proof {
                    lemma_ellipse_test(dx as int, dy as int, rx as int, ry as int);
                }
                let ghost before = self@;
                let ghost prev = |a: int, b: int| (covered(a, b) && y_lo <= b < y && x_lo <= a <= x_hi) || (covered(a, b) && b == y && x_lo <= a < x);
                if inside {
                    self.set_pixel(x as u32, y as u32, color);
                    proof {
                        lemma_paint_step(c0, before, self@, color, prev, x as u32, y as u32);
                        lemma_paint_same_set(c0, self@, color, |a: int, b: int| prev(a, b) || (a == x as u32 && b == y as u32),
                            |a: int, b: int| (covered(a, b) && y_lo <= b < y && x_lo <= a <= x_hi) || (covered(a, b) && b == y && x_lo <= a < x + 1));
                    }
                } else {
                    proof {
                        lemma_paint_same_set(c0, self@, color, prev,
                            |a: int, b: int| (covered(a, b) && y_lo <= b < y && x_lo <= a <= x_hi) || (covered(a, b) && b == y && x_lo <= a < x + 1));
                    }
                }
                x += 1;
            }
            proof {
                lemma_paint_same_set(c0, self@, color,
                    |a: int, b: int| (covered(a, b) && y_lo <= b < y && x_lo <= a <= x_hi) || (covered(a, b) && b == y && x_lo <= a < x),
                    |a: int, b: int| covered(a, b) && y_lo <= b < y + 1 && x_lo <= a <= x_hi);
                lemma_rows_step(n, y - y_lo);
            }
            y += 1;
        }
        proof {
            assert forall|a: int, b: int| c0.in_bounds(a, b) implies ((covered(a, b) && y_lo <= b < y && x_lo <= a <= x_hi)
                <==> in_ellipse(center, rx, ry, a, b)) by {
                if in_ellipse(center, rx, ry, a, b) {
                    lemma_ellipse_within_radii(a - cx, b - cy, rx as int, ry as int);
                }
            }
            lemma_paint_same_set(c0, self@, color, |a: int, b: int| covered(a, b) && y_lo <= b < y && x_lo <= a <= x_hi,
                |a: int, b: int| in_ellipse(center, rx, ry, a, b));
            lemma_rows_within_area(c0, n, y - y_lo);
        }
    }

    /// Fills triangle `a, b, c`, scanning only its bounding box clipped to the canvas.
    pub(crate) fn fill_triangle(&mut self, a: Point, b: Point, c: Point, color: Color)
        requires
            old(self).wf(),
        ensures
            final(self).wf(),
            paints(old(self)@, final(self)@, color, |x: int, y: int| in_triangle(a, b, c, x, y)),
            final(self)@.next_version <= old(self)@.next_version + area(old(self)@),
    {
        let ghost c0 = self@;
        let canvas_w = self.width() as i64;
        let canvas_h = self.height() as i64;
        let min_x = max_i64(min_i64(min_i64(a.x as i64, b.x as i64), c.x as i64), 0);
        let max_x = min_i64(max_i64(max_i64(a.x as i64, b.x as i64), c.x as i64), canvas_w - 1);
        let min_y = max_i64(min_i64(min_i64(a.y as i64, b.y as i64), c.y as i64), 0);
        let max_y = min_i64(max_i64(max_i64(a.y as i64, b.y as i64), c.y as i64), canvas_h - 1);
        let ghost covered = |x: int, y: int| in_triangle(a, b, c, x, y);
        let ghost n = max_int(max_x + 1 - min_x, 0);
        proof {
            lemma_paint_nothing(c0, color);
            lemma_paint_same_set(c0, c0, color, |x: int, y: int| false,
                |x: int, y: int| covered(x, y) && min_y <= y < min_y && min_x <= x <= max_x);
        }
        let mut y = min_y;
        while y <= max_y
            invariant
                c0.wf(),
                self.wf(),
                canvas_w == c0.width,
                canvas_h == c0.height,
                min_x == max_int(min3(a.x as int, b.x as int, c.x as int), 0),
                max_x == min_int(max3(a.x as int, b.x as int, c.x as int), canvas_w - 1),
                min_y == max_int(min3(a.y as int, b.y as int, c.y as int), 0),
                max_y == min_int(max3(a.y as int, b.y as int, c.y as int), canvas_h - 1),
                min_y <= y,
                y <= max_y + 1 || y == min_y,
                covered == (|x: int, y: int| in_triangle(a, b, c, x, y)),
                paints(c0, self@, color, |px: int, py: int| covered(px, py) && min_y <= py < y && min_x <= px <= max_x),
                n == max_int(max_x + 1 - min_x, 0),
                self@.next_version <= c0.next_version + n * (y - min_y),
            decreases max_y + 1 - y,
        {
            let mut x = min_x;
            proof {
                lemma_paint_same_set(c0, self@, color, |px: int, py: int| covered(px, py) && min_y <= py < y && min_x <= px <= max_x,
                    |px: int, py: int| (covered(px, py) && min_y <= py < y && min_x <= px <= max_x) || (covered(px, py) && py == y && min_x <= px < x));
            }
            while x <= max_x
                invariant
                    c0.wf(),
                    self.wf(),
                    canvas_w == c0.width,
                    canvas_h == c0.height,
                    min_x == max_int(min3(a.x as int, b.x as int, c.x as int), 0),
                    max_x == min_int(max3(a.x as int, b.x as int, c.x as int), canvas_w - 1),
                    min_y == max_int(min3(a.y as int, b.y as int, c.y as int), 0),
                    max_y == min_int(max3(a.y as int, b.y as int, c.y as int), canvas_h - 1),
                    0 <= min_y <= y <= max_y,
                    max_y < canvas_h,
                    min_x <= x,
                    x <= max_x + 1 || x == min_x,
                    covered == (|x: int, y: int| in_triangle(a, b, c, x, y)),
                    paints(c0, self@, color,
                        |px: int, py: int| (covered(px, py) && min_y <= py < y && min_x <= px <= max_x) || (covered(px, py) && py == y && min_x <= px < x)),
                    n == max_int(max_x + 1 - min_x, 0),
                    self@.next_version <= c0.next_version + n * (y - min_y) + (x - min_x),
                decreases max_x + 1 - x,
            {
                let ghost before = self@;
                let ghost prev = |px: int, py: int| (covered(px, py) && min_y <= py < y && min_x <= px <= max_x) || (covered(px, py) && py == y && min_x <= px < x);
                if point_in_triangle(x, y, a, b, c) {
                    self.set_pixel(x as u32, y as u32, color);
                    proof {
                        lemma_paint_step(c0, before, self@, color, prev, x as u32, y as u32);
                        lemma_paint_same_set(c0, self@, color, |px: int, py: int| prev(px, py) || (px == x as u32 && py == y as u32),
                            |px: int, py: int| (covered(px, py) && min_y <= py < y && min_x <= px <= max_x) || (covered(px, py) && py == y && min_x <= px < x + 1));
                    }
                } else {
                    proof {
                        lemma_paint_same_set(c0, self@, color, prev,
                            |px: int, py: int| (covered(px, py) && min_y <= py < y && min_x <= px <= max_x) || (covered(px, py) && py == y && min_x <= px < x + 1));
                    }
                }
                x += 1;
            }
            proof {
                lemma_paint_same_set(c0, self@, color,
                    |px: int, py: int| (covered(px, py) && min_y <= py < y && min_x <= px <= max_x) || (covered(px, py) && py == y && min_x <= px < x),
                    |px: int, py: int| covered(px, py) && min_y <= py < y + 1 && min_x <= px <= max_x);
                lemma_rows_step(n, y - min_y);
            }
            y += 1;
        }
        proof {
            lemma_paint_same_set(c0, self@, color, |px: int, py: int| covered(px, py) && min_y <= py < y && min_x <= px <= max_x,
                |px: int, py: int| in_triangle(a, b, c, px, py));
            lemma_rows_within_area(c0, n, y - min_y);
        }
    }
}

/// A coordinate difference bounded by a radius has its square bounded by the radius's.
proof fn lemma_square_le(d: int, r: int)
    requires
        -r <= d <= r,
    ensures
        0 <= d * d <= r * r,
{
    assert(0 <= d * d <= r * r) by (nonlinear_arith)
        requires
            -r <= d <= r,
    ;
}

/// The division-free ellipse test, rearranged the way `fill_ellipse` computes it.
proof fn lemma_ellipse_test(dx: int, dy: int, rx: int, ry: int)
    ensures
        (dx * dx * (ry * ry) <= (rx * rx) * (ry * ry - dy * dy)) <==> (dx * dx * (ry * ry) + dy * dy * (rx * rx)
            <= (rx * rx) * (ry * ry)),
{
    assert((rx * rx) * (ry * ry - dy * dy) == (rx * rx) * (ry * ry) - dy * dy * (rx * rx)) by (nonlinear_arith);
}

/// A point of a non-degenerate ellipse lies within its radii of the center.
pub(crate) proof fn lemma_ellipse_within_radii(dx: int, dy: int, rx: int, ry: int)
    requires
        rx > 0,
        ry > 0,
        dx * dx * (ry * ry) + dy * dy * (rx * rx) <= (rx * rx) * (ry * ry),
    ensures
        -rx <= dx <= rx,
        -ry <= dy <= ry,
{
    assert(dx * dx <= rx * rx) by (nonlinear_arith)
        requires
            rx > 0,
            ry > 0,
            dx * dx * (ry * ry) + dy * dy * (rx * rx) <= (rx * rx) * (ry * ry),
    ;
    assert(dy * dy <= ry * ry) by (nonlinear_arith)
        requires
            rx > 0,
            ry > 0,
            dx * dx * (ry * ry) + dy * dy * (rx * rx) <= (rx * rx) * (ry * ry),
    ;
    assert(-rx <= dx <= rx) by (nonlinear_arith)
        requires
            rx > 0,
            dx * dx <= rx * rx,
    ;
    assert(-ry <= dy <= ry) by (nonlinear_arith)
        requires
            ry > 0,
            dy * dy <= ry * ry,
    ;
}

} // verus!
