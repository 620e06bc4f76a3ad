//! `draw_shape`: stamps the shape's bounding region in the version grid, then paints it.

use vstd::prelude::*;
use crate::canvas::{
    Canvas, CanvasView, area, paints, stamps, keeps_tiles_outside, recolors, lemma_stamp_then_paint, lemma_paint_same_set,
};
use crate::geometry::{Point, Rect, max_int, min_int, max_i64, min_i64};
use crate::line::{line_covers, path_covers, lemma_line_within_ends};
use crate::polygon::{
    in_polygon, edge_from, edge_to, edge_crosses, lemma_polygon_within_vertices, lemma_vertical_crossing,
};
use crate::shape::{
    Fill, Shape, fill_color, in_rect, in_ellipse, in_triangle, min3, max3, lemma_ellipse_within_radii,
};

verus! {

/// The pixels `shape` paints on a `w` x `h` canvas.
pub open spec fn shape_covers(shape: Shape, w: int, h: int, x: int, y: int) -> bool {
    match shape {
        Shape::Line { from, to } => line_covers(from, to, w, h, x, y),
        Shape::Rect { origin, width, height } => in_rect(origin, width, height, x, y),
        Shape::Circle { center, radius } => in_ellipse(center, radius, radius, x, y),
        Shape::Ellipse { center, rx, ry } => in_ellipse(center, rx, ry, x, y),
        Shape::Triangle { a, b, c } => in_triangle(a, b, c, x, y),
        Shape::Path { points, closed } => if closed {
            in_polygon(points@, x, y)
        } else {
            path_covers(points@, w, h, x, y)
        },
    }
}

pub open spec fn clamp(v: int, lo: int, hi: int) -> int {
    if v < lo { lo } else if v > hi { hi } else { v }
}

/// The rectangle with the given half-open bounds, clamped to what a `Rect` can hold.
pub open spec fn rect_from_bounds(x_lo: int, y_lo: int, x_hi: int, y_hi: int) -> Rect {
    Rect {
        x: clamp(x_lo, i32::MIN as int, i32::MAX as int) as i32,
        y: clamp(y_lo, i32::MIN as int, i32::MAX as int) as i32,
        width: clamp(x_hi - x_lo, 0, u32::MAX as int) as u32,
        height: clamp(y_hi - y_lo, 0, u32::MAX as int) as u32,
    }
}

/// The bounds `center +/- (rx, ry)`, half-open.
pub open spec fn radial_bounds(center: Point, rx: u32, ry: u32) -> (int, int, int, int) {
    (center.x - rx, center.y - ry, center.x + rx + 1, center.y + ry + 1)
}

/// The smallest and largest coordinates of a non-empty sequence of points.
pub open spec fn min_x(s: Seq<Point>) -> int
    decreases s.len(),
{
    if s.len() <= 1 { s[0].x as int } else { min_int(min_x(s.drop_last()), s.last().x as int) }
}

pub open spec fn max_x(s: Seq<Point>) -> int
    decreases s.len(),
{
    if s.len() <= 1 { s[0].x as int } else { max_int(max_x(s.drop_last()), s.last().x as int) }
}

pub open spec fn min_y(s: Seq<Point>) -> int
    decreases s.len(),
{
    if s.len() <= 1 { s[0].y as int } else { min_int(min_y(s.drop_last()), s.last().y as int) }
}

pub open spec fn max_y(s: Seq<Point>) -> int
    decreases s.len(),
{
    if s.len() <= 1 { s[0].y as int } else { max_int(max_y(s.drop_last()), s.last().y as int) }
}

/// The half-open bounds of everything `shape` can paint (before clipping to a canvas).
pub open spec fn shape_bounds(shape: Shape) -> (int, int, int, int) {
    match shape {
        Shape::Line { from, to } => (
            min_int(from.x as int, to.x as int),
            min_int(from.y as int, to.y as int),
            max_int(from.x as int, to.x as int) + 1,
            max_int(from.y as int, to.y as int) + 1,
        ),
        Shape::Rect { origin, width, height } => (
            origin.x as int,
            origin.y as int,
            origin.x + width,
            origin.y + height,
        ),
        Shape::Circle { center, radius } => radial_bounds(center, radius, radius),
        Shape::Ellipse { center, rx, ry } => radial_bounds(center, rx, ry),
        Shape::Triangle { a, b, c } => (
            min3(a.x as int, b.x as int, c.x as int),
            min3(a.y as int, b.y as int, c.y as int),
            max3(a.x as int, b.x as int, c.x as int) + 1,
            max3(a.y as int, b.y as int, c.y as int) + 1,
        ),
        Shape::Path { points, .. } => if points@.len() == 0 {
            (0, 0, 0, 0)
        } else {
            (min_x(points@), min_y(points@), max_x(points@) + 1, max_y(points@) + 1)
        },
    }
}

/// Every point of a non-empty sequence lies within its extent.
pub proof fn lemma_extent_bounds(s: Seq<Point>, i: int)
    requires
        0 <= i < s.len(),
    ensures
        min_x(s) <= s[i].x <= max_x(s),
        min_y(s) <= s[i].y <= max_y(s),
    decreases s.len(),
{
    if s.len() > 1 && i < s.len() - 1 {
        lemma_extent_bounds(s.drop_last(), i);
    }
}

/// A pixel of a canvas no wider and no taller than `i32::MAX` that lies within half-open
/// bounds lies in the rectangle `rect_from_bounds` makes of them, clamping and all.
pub proof fn lemma_rect_from_bounds_contains(x_lo: int, y_lo: int, x_hi: int, y_hi: int, x: int, y: int)
    requires
        x_lo <= x < x_hi,
        y_lo <= y < y_hi,
        0 <= x < i32::MAX,
        0 <= y < i32::MAX,
    ensures
        rect_from_bounds(x_lo, y_lo, x_hi, y_hi).contains(x, y),
{
}

/// Everything `draw_shape` paints on a canvas no wider and no taller than `i32::MAX` lies
/// inside the region it stamps: the stamped box contains every pixel the shape can touch.
pub proof fn law_shape_within_its_box(shape: Shape, w: int, h: int, x: int, y: int)
    requires
        0 <= x < w <= i32::MAX,
        0 <= y < h <= i32::MAX,
        shape_covers(shape, w, h, x, y),
    ensures
        shape_bbox_spec(shape).contains(x, y),
{
    match shape {
        Shape::Line { from, to } => {
            lemma_line_within_ends(from, to, w, h, x, y);
        },
        Shape::Circle { center, radius } => {
            lemma_ellipse_within_radii(x - center.x, y - center.y, radius as int, radius as int);
        },
        Shape::Ellipse { center, rx, ry } => {
            lemma_ellipse_within_radii(x - center.x, y - center.y, rx as int, ry as int);
        },
        Shape::Path { points, closed } => {
            let s = points@;
            if closed {
                lemma_polygon_within_vertices(s, x, y);
                let i = choose|i: int| 0 <= i < s.len() && #[trigger] s[i].x <= x;
                let j = choose|j: int| 0 <= j < s.len() && x < #[trigger] s[j].x;
                let k = choose|k: int| 0 <= k < s.len() && #[trigger] s[k].y <= y;
                let l = choose|l: int| 0 <= l < s.len() && y < #[trigger] s[l].y;
                lemma_extent_bounds(s, i);
                lemma_extent_bounds(s, j);
                lemma_extent_bounds(s, k);
                lemma_extent_bounds(s, l);
            } else {
                let k = choose|k: int| 0 <= k < s.len() - 1 && #[trigger] line_covers(s[k], s[k + 1], w, h, x, y);
                lemma_line_within_ends(s[k], s[k + 1], w, h, x, y);
                lemma_extent_bounds(s, k);
                lemma_extent_bounds(s, k + 1);
            }
        },
        _ => {},
    }
    let (x_lo, y_lo, x_hi, y_hi) = shape_bounds(shape);
    lemma_rect_from_bounds_contains(x_lo, y_lo, x_hi, y_hi, x, y);
}

/// The closed path around the corners of the rectangle with top-left `origin` and the given
/// size: top-left, top-right, bottom-right, bottom-left.
pub open spec fn corner_path(origin: Point, width: u32, height: u32) -> Seq<Point> {
    let x2 = (origin.x + width) as i32;
    let y2 = (origin.y + height) as i32;
    seq![origin, Point { x: x2, y: origin.y }, Point { x: x2, y: y2 }, Point { x: origin.x, y: y2 }]
}

/// A rectangle fills exactly the pixels that the closed path around its corners fills: the
/// even-odd rule, sampling pixel centers, puts each edge of the path between two pixels.
pub proof fn law_rect_is_its_corner_path(origin: Point, width: u32, height: u32, x: int, y: int)
    requires
        origin.x + width <= i32::MAX,
        origin.y + height <= i32::MAX,
    ensures
        in_rect(origin, width, height, x, y) == in_polygon(corner_path(origin, width, height), x, y),
{
    let p = corner_path(origin, width, height);
    reveal_with_fuel(crate::polygon::crossings_left, 5);
    assert(p.len() == 4);
    assert(edge_from(p, 0) == p[0] && edge_to(p, 0) == p[1]);
    assert(edge_from(p, 1) == p[1] && edge_to(p, 1) == p[2]);
    assert(edge_from(p, 2) == p[2] && edge_to(p, 2) == p[3]);
    assert(edge_from(p, 3) == p[3] && edge_to(p, 3) == p[0]);
    if edge_crosses(p[1], p[2], y) {
        lemma_vertical_crossing(p[1], p[2], y, x);
    }
    if edge_crosses(p[3], p[0], y) {
        lemma_vertical_crossing(p[3], p[0], y, x);
    }
}

/// The most versions the painting of `shape` on canvas `v` uses, beyond the stamp of its
/// bounding region: one per pixel written.
pub open spec fn shape_version_bound(shape: Shape, v: CanvasView) -> int {
    match shape {
        Shape::Line { .. } => v.width + v.height,
        Shape::Path { points, closed } => if closed {
            points@.len() * area(v)
        } else {
            points@.len() * (v.width + v.height)
        },
        _ => area(v),
    }
}

/// The region `draw_shape` stamps in the version grid for `shape`.
pub open spec fn shape_bbox_spec(shape: Shape) -> Rect {
    let (x_lo, y_lo, x_hi, y_hi) = shape_bounds(shape);
    rect_from_bounds(x_lo, y_lo, x_hi, y_hi)
}

fn clamp_i64(v: i64, lo: i64, hi: i64) -> (r: i64)
    requires
        lo <= hi,
    ensures
        r == clamp(v as int, lo as int, hi as int),
{
    if v < lo { lo } else if v > hi { hi } else { v }
}

impl Canvas {
    /// The bounds of a circle or ellipse: `center +/- (rx, ry)`.
    pub(crate) fn radial_bbox(center: Point, rx: u32, ry: u32) -> (r: (i64, i64, i64, i64))
        ensures
            (r.0 as int, r.1 as int, r.2 as int, r.3 as int) == radial_bounds(center, rx, ry),
    {
        (
            center.x as i64 - rx as i64,
            center.y as i64 - ry as i64,
            center.x as i64 + rx as i64 + 1,
            center.y as i64 + ry as i64 + 1,
        )
    }

    /// A `Rect` from half-open `i64` bounds, clamping position and size to what a `Rect` can
    /// hold.
    pub(crate) fn rect_from_i64_bounds(x_lo: i64, y_lo: i64, x_hi: i64, y_hi: i64) -> (r: Rect)
        requires
            i64::MIN <= x_hi - x_lo <= i64::MAX,
            i64::MIN <= y_hi - y_lo <= i64::MAX,
        ensures
            r == rect_from_bounds(x_lo as int, y_lo as int, x_hi as int, y_hi as int),
    {
        let x = clamp_i64(x_lo, i32::MIN as i64, i32::MAX as i64) as i32;
        let y = clamp_i64(y_lo, i32::MIN as i64, i32::MAX as i64) as i32;
        let width = clamp_i64(x_hi - x_lo, 0, u32::MAX as i64) as u32;
        let height = clamp_i64(y_hi - y_lo, 0, u32::MAX as i64) as u32;
        Rect::new(x, y, width, height)
    }

    /// The region stamped for `shape`: every pixel the shape's own drawing can touch, up to
    /// the clamping of `rect_from_i64_bounds`.
    pub(crate) fn shape_bbox(shape: &Shape) -> (r: Rect)
        ensures
            r == shape_bbox_spec(*shape),
    {
        match shape {
            Shape::Line { from, to } => Self::rect_from_i64_bounds(
                min_i64(from.x as i64, to.x as i64),
                min_i64(from.y as i64, to.y as i64),
                max_i64(from.x as i64, to.x as i64) + 1,
                max_i64(from.y as i64, to.y as i64) + 1,
            ),
            Shape::Rect { origin, width, height } => Self::rect_from_i64_bounds(
                origin.x as i64,
                origin.y as i64,
                origin.x as i64 + *width as i64,
                origin.y as i64 + *height as i64,
            ),
            Shape::Circle { center, radius } => {
                let (a, b, c, d) = Self::radial_bbox(*center, *radius, *radius);
                Self::rect_from_i64_bounds(a, b, c, d)
            },
            Shape::Ellipse { center, rx, ry } => {
                let (a, b, c, d) = Self::radial_bbox(*center, *rx, *ry);
                Self::rect_from_i64_bounds(a, b, c, d)
            },
            Shape::Triangle { a, b, c } => Self::rect_from_i64_bounds(
                min_i64(min_i64(a.x as i64, b.x as i64), c.x as i64),
                min_i64(min_i64(a.y as i64, b.y as i64), c.y as i64),
                max_i64(max_i64(a.x as i64, b.x as i64), c.x as i64) + 1,
                max_i64(max_i64(a.y as i64, b.y as i64), c.y as i64) + 1,
            ),
            Shape::Path { points, .. } => {
                if points.len() == 0 {
                    Self::rect_from_i64_bounds(0, 0, 0, 0)
                } else {
                    let (lx, ly, hx, hy) = point_extent(points);
                    Self::rect_from_i64_bounds(lx, ly, hx + 1, hy + 1)
                }
            },
        }
    }

    /// Draws `shape` with `fill`: rectangles, circles, ellipses, triangles and closed paths
    /// are filled, lines and open paths stroked. The shape's bounding region is stamped in
    /// the version grid first, so a sprite footprint it overlaps becomes stale; every tile
    /// outside that region keeps its version (on a canvas whose sides fit in `i32`), so a
    /// footprint sharing no tile with it stays restorable.
    pub fn draw_shape(&mut self, shape: &Shape, fill: Fill)
        requires
            old(self).wf(),
        ensures
            final(self).wf(),
            recolors(old(self)@, final(self)@, fill_color(fill),
                |x: int, y: int| shape_covers(*shape, old(self)@.width as int, old(self)@.height as int, x, y)),
            old(self)@.next_version < u64::MAX ==> stamps(old(self)@, shape_bbox_spec(*shape), final(self)@),
            old(self)@.width <= i32::MAX && old(self)@.height <= i32::MAX ==> keeps_tiles_outside(old(self)@,
                shape_bbox_spec(*shape), final(self)@),
            final(self)@.next_version <= old(self)@.next_version + 1 + shape_version_bound(*shape, old(self)@),
    {
        let ghost c0 = self@;
        let ghost w = c0.width as int;
        let ghost h = c0.height as int;
        let color = fill.color();
        let bbox = Self::shape_bbox(shape);
        self.touch_region(bbox);
        let ghost c1 = self@;
        let ghost covered = |x: int, y: int| shape_covers(*shape, w, h, x, y);
        match shape {
            Shape::Line { from, to } => {
                self.stroke_line(*from, *to, color);
                proof {
                    lemma_paint_same_set(c1, self@, color, |px: int, py: int| line_covers(*from, *to, w, h, px, py), covered);
                }
            },
            Shape::Rect { origin, width, height } => {
                self.fill_rect(*origin, *width, *height, color);
                proof {
                    lemma_paint_same_set(c1, self@, color, |a: int, b: int| in_rect(*origin, *width, *height, a, b), covered);
                }
            },
            Shape::Circle { center, radius } => {
                self.fill_ellipse(*center, *radius, *radius, color);
                proof {
                    lemma_paint_same_set(c1, self@, color, |a: int, b: int| in_ellipse(*center, *radius, *radius, a, b), covered);
                }
            },
            Shape::Ellipse { center, rx, ry } => {
                self.fill_ellipse(*center, *rx, *ry, color);
                proof {
                    lemma_paint_same_set(c1, self@, color, |a: int, b: int| in_ellipse(*center, *rx, *ry, a, b), covered);
                }
            },
            Shape::Triangle { a, b, c } => {
                self.fill_triangle(*a, *b, *c, color);
                proof {
                    lemma_paint_same_set(c1, self@, color, |x: int, y: int| in_triangle(*a, *b, *c, x, y), covered);
                }
            },
            Shape::Path { points, closed } => {
                if *closed {
                    self.fill_polygon_even_odd(points.as_slice(), color);
                    proof {
                        lemma_paint_same_set(c1, self@, color, |px: int, py: int| in_polygon(points@, px, py), covered);
                    }
                } else {
                    self.stroke_path(points.as_slice(), color);
                    proof {
                        lemma_paint_same_set(c1, self@, color, |px: int, py: int| path_covers(points@, w, h, px, py), covered);
                    }
                }
            },
        }
        proof {
            if w <= i32::MAX && h <= i32::MAX {
                assert forall|x: int, y: int| #[trigger] covered(x, y) && c0.in_bounds(x, y) implies bbox.contains(x, y) by {
                    law_shape_within_its_box(*shape, w, h, x, y);
                }
            }
            lemma_stamp_then_paint(c0, c1, self@, bbox, color, covered);
        }
    }
}

/// The smallest and largest `x` and `y` among a non-empty slice of points.
fn point_extent(points: &Vec<Point>) -> (r: (i64, i64, i64, i64))
    requires
        points@.len() > 0,
    ensures
        r.0 == min_x(points@),
        r.1 == min_y(points@),
        r.2 == max_x(points@),
        r.3 == max_y(points@),
        -0x8000_0000 <= r.0 <= 0x7fff_ffff,
        -0x8000_0000 <= r.1 <= 0x7fff_ffff,
        -0x8000_0000 <= r.2 <= 0x7fff_ffff,
        -0x8000_0000 <= r.3 <= 0x7fff_ffff,
{
    let n = points.len();
    let mut lx = points[0].x as i64;
    let mut ly = points[0].y as i64;
    let mut hx = points[0].x as i64;
    let mut hy = points[0].y as i64;
    let mut i: usize = 1;
    while i < n
        invariant
            n == points@.len(),
            1 <= i <= n,
            lx == min_x(points@.take(i as int)),
            ly == min_y(points@.take(i as int)),
            hx == max_x(points@.take(i as int)),
            hy == max_y(points@.take(i as int)),
            -0x8000_0000 <= lx <= 0x7fff_ffff,
            -0x8000_0000 <= ly <= 0x7fff_ffff,
            -0x8000_0000 <= hx <= 0x7fff_ffff,
            -0x8000_0000 <= hy <= 0x7fff_ffff,
        decreases n - i,
    {
        let p = points[i];
        proof {
            let t = points@.take(i + 1);
            assert(t.drop_last() =~= points@.take(i as int));
            assert(t.last() == p);
        }
        lx = min_i64(lx, p.x as i64);
        ly = min_i64(ly, p.y as i64);
        hx = max_i64(hx, p.x as i64);
        hy = max_i64(hy, p.y as i64);
        i += 1;
    }
    proof {
        assert(points@.take(n as int) =~= points@);
    }
    (lx, ly, hx, hy)
}

} // verus!
