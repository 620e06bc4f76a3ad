//! Canvas, text and shape scenarios.

use guiltty::{Canvas, Color, Fill, Point, Rect, Shape, TextStyle};

#[test]
fn color_rgb_defaults_to_opaque() {
    let c = Color::rgb(10, 20, 30);
    assert_eq!(c, Color::rgba(10, 20, 30, 255));
}

#[test]
fn point_new_sets_coordinates() {
    let p = Point::new(3, 4);
    assert_eq!(p, Point { x: 3, y: 4 });
}

#[test]
fn rect_new_sets_fields() {
    let r = Rect::new(1, 2, 100, 50);
    assert_eq!(
        r,
        Rect {
            x: 1,
            y: 2,
            width: 100,
            height: 50
        }
    );
}

#[test]
fn canvas_new_is_fully_transparent() {
    let c = Canvas::new(4, 3);
    assert_eq!(c.width(), 4);
    assert_eq!(c.height(), 3);
    for y in 0..3 {
        for x in 0..4 {
            assert_eq!(c.pixel(x, y), Some(Color::default()));
        }
    }
}

#[test]
fn canvas_pixel_out_of_bounds_is_none() {
    let c = Canvas::new(2, 2);
    assert_eq!(c.pixel(2, 0), None);
    assert_eq!(c.pixel(0, 2), None);
}

#[test]
fn canvas_set_pixel_roundtrips() {
    let mut c = Canvas::new(2, 2);
    c.set_pixel(1, 1, Color::rgb(1, 2, 3));
    assert_eq!(c.pixel(1, 1), Some(Color::rgb(1, 2, 3)));
    assert_eq!(c.pixel(0, 0), Some(Color::default()));
}

#[test]
fn canvas_set_pixel_out_of_bounds_is_noop() {
    let mut c = Canvas::new(2, 2);
    c.set_pixel(5, 5, Color::rgb(1, 2, 3)); // must not panic
    assert_eq!(c.pixel(0, 0), Some(Color::default()));
}

#[test]
fn draw_text_renders_known_glyph() {
    let mut c = Canvas::new(3, 5);
    let style = TextStyle {
        color: Color::rgb(255, 0, 0),
        scale: 1,
    };
    c.draw_text("I", Point::new(0, 0), &style);
    // 'I' is ["###", ".#.", ".#.", ".#.", "###"]
    assert_eq!(c.pixel(0, 0), Some(style.color));
    assert_eq!(c.pixel(1, 0), Some(style.color));
    assert_eq!(c.pixel(2, 0), Some(style.color));
    assert_eq!(c.pixel(0, 1), Some(Color::default()));
    assert_eq!(c.pixel(1, 1), Some(style.color));
    assert_eq!(c.pixel(2, 1), Some(Color::default()));
    assert_eq!(c.pixel(1, 4), Some(style.color));
}

#[test]
fn draw_text_skips_unsupported_chars_but_still_advances() {
    let mut c = Canvas::new(8, 5);
    let style = TextStyle::default();
    c.draw_text("aI", Point::new(0, 0), &style); // 'a' unsupported, skipped
    for y in 0..5 {
        for x in 0..4 {
            assert_eq!(c.pixel(x, y), Some(Color::default()), "at ({x},{y})");
        }
    }
    // 'I' should render shifted by one glyph advance (GLYPH_WIDTH + 1 = 4)
    assert_eq!(c.pixel(4, 0), Some(style.color));
}

#[test]
fn draw_shape_line_is_bresenham_horizontal() {
    let mut c = Canvas::new(4, 5);
    let color = Color::rgb(1, 2, 3);
    c.draw_shape(
        &Shape::line(Point::new(0, 2), Point::new(3, 2)),
        Fill::solid(color),
    );
    for x in 0..4 {
        assert_eq!(c.pixel(x, 2), Some(color), "at x={x}");
    }
    assert_eq!(c.pixel(0, 0), Some(Color::default()));
    assert_eq!(c.pixel(0, 4), Some(Color::default()));
}

#[test]
fn draw_shape_rect_fills_solid() {
    let mut c = Canvas::new(4, 4);
    let color = Color::rgb(9, 9, 9);
    c.draw_shape(&Shape::rect(Point::new(1, 1), 2, 2), Fill::solid(color));
    for y in 1..3 {
        for x in 1..3 {
            assert_eq!(c.pixel(x, y), Some(color), "at ({x},{y})");
        }
    }
    assert_eq!(c.pixel(0, 0), Some(Color::default()));
    assert_eq!(c.pixel(3, 3), Some(Color::default()));
}

#[test]
fn draw_shape_circle_fills_center_not_corners() {
    let mut c = Canvas::new(5, 5);
    let color = Color::rgb(4, 5, 6);
    c.draw_shape(&Shape::circle(Point::new(2, 2), 2), Fill::solid(color));
    assert_eq!(c.pixel(2, 2), Some(color)); // center always inside
    assert_eq!(c.pixel(0, 0), Some(Color::default())); // corner outside radius 2
}

#[test]
fn draw_shape_ellipse_respects_independent_radii() {
    let mut c = Canvas::new(9, 5);
    let color = Color::rgb(7, 8, 9);
    // wide, short ellipse: rx=4, ry=1 centered at (4,2)
    c.draw_shape(&Shape::ellipse(Point::new(4, 2), 4, 1), Fill::solid(color));
    assert_eq!(c.pixel(4, 2), Some(color)); // center
    assert_eq!(c.pixel(0, 2), Some(color)); // far left edge, within rx
    assert_eq!(c.pixel(4, 0), Some(Color::default())); // above ry, outside
}

#[test]
fn draw_shape_triangle_fills_interior_not_exterior() {
    let mut c = Canvas::new(6, 6);
    let color = Color::rgb(1, 1, 1);
    c.draw_shape(
        &Shape::triangle(Point::new(0, 0), Point::new(5, 0), Point::new(0, 5)),
        Fill::solid(color),
    );
    assert_eq!(c.pixel(1, 1), Some(color)); // well inside the right triangle
    assert_eq!(c.pixel(5, 5), Some(Color::default())); // outside (opposite corner)
}

#[test]
fn draw_shape_path_strokes_open_segments_only() {
    let mut c = Canvas::new(4, 4);
    let color = Color::rgb(2, 2, 2);
    c.draw_shape(
        &Shape::path(
            vec![Point::new(0, 0), Point::new(3, 0), Point::new(3, 3)],
            false,
        ),
        Fill::solid(color),
    );
    assert_eq!(c.pixel(0, 0), Some(color));
    assert_eq!(c.pixel(3, 0), Some(color));
    assert_eq!(c.pixel(3, 3), Some(color));
    // open path: no segment connects (3,3) back to (0,0); (1,1) sits on where the
    // closing segment would pass, so it's the meaningful pixel to check stays blank
    assert_eq!(c.pixel(1, 1), Some(Color::default()));
}

#[test]
fn draw_shape_path_closed_convex_fills_interior_not_exterior() {
    // A 6x6 square, convex.
    let mut c = Canvas::new(8, 8);
    let color = Color::rgb(3, 3, 3);
    c.draw_shape(
        &Shape::path(
            vec![
                Point::new(1, 1),
                Point::new(6, 1),
                Point::new(6, 6),
                Point::new(1, 6),
            ],
            true,
        ),
        Fill::solid(color),
    );
    assert_eq!(c.pixel(3, 3), Some(color)); // well inside the square
    assert_eq!(c.pixel(0, 0), Some(Color::default())); // outside
    assert_eq!(c.pixel(7, 7), Some(Color::default())); // outside
}

#[test]
fn draw_shape_path_closed_concave_fills_interior_not_the_notch() {
    // An "L"/notch shape: concave at (3,3), a triangular notch cut into the
    // top-left corner. `closed` connects the last point (3,3) back to the first
    // (1,1) automatically -- no need to repeat (1,1) at the end of `points`.
    let mut c = Canvas::new(8, 8);
    let color = Color::rgb(4, 4, 4);
    c.draw_shape(
        &Shape::path(
            vec![
                Point::new(1, 1),
                Point::new(6, 1),
                Point::new(6, 6),
                Point::new(1, 6),
                Point::new(1, 3),
                Point::new(3, 3), // concave vertex, notch apex
            ],
            true,
        ),
        Fill::solid(color),
    );
    assert_eq!(c.pixel(4, 4), Some(color)); // inside the main body
    assert_eq!(c.pixel(0, 0), Some(Color::default())); // outside entirely
    // Inside the carved-out notch near its corner: still outside the polygon.
    assert_eq!(c.pixel(1, 2), Some(Color::default()));
}

#[test]
fn draw_shape_path_closed_self_intersecting_uses_even_odd_rule() {
    // A "bowtie": edges (1,1)-(6,6) and (6,1)-(1,6) cross near the shape's center,
    // forming a self-intersecting quadrilateral (two triangular lobes pinched at the
    // crossing point). Even-odd rule fills each lobe, with the two lobes merging
    // into one solid span only on the scanline through the pinch point.
    let mut c = Canvas::new(8, 8);
    let color = Color::rgb(5, 5, 5);
    c.draw_shape(
        &Shape::path(
            vec![
                Point::new(1, 1),
                Point::new(6, 6),
                Point::new(6, 1),
                Point::new(1, 6),
            ],
            true,
        ),
        Fill::solid(color),
    );
    assert_eq!(c.pixel(3, 3), Some(color)); // the pinch row: filled edge-to-edge
    assert_eq!(c.pixel(1, 2), Some(color)); // left lobe
    assert_eq!(c.pixel(5, 2), Some(color)); // right lobe
    assert_eq!(c.pixel(3, 1), Some(Color::default())); // gap between the two lobes
    assert_eq!(c.pixel(0, 0), Some(Color::default())); // outside entirely
}

#[test]
fn draw_text_huge_scale_does_not_overflow_or_panic() {
    let mut c = Canvas::new(3, 3);
    let style = TextStyle {
        color: Color::rgb(1, 1, 1),
        scale: u32::MAX,
    };
    // Advance and pixel coordinates at this scale exceed u32/i32; the glyph block is
    // enormous and clipped to the canvas, so it fills it.
    c.draw_text("I", Point::new(0, 0), &style);
    for y in 0..3 {
        for x in 0..3 {
            assert_eq!(c.pixel(x, y), Some(style.color), "at ({x},{y})");
        }
    }
}

#[test]
fn draw_shape_large_ellipse_radius_does_not_overflow_or_panic() {
    let mut c = Canvas::new(4, 4);
    let color = Color::rgb(1, 1, 1);
    // rx * rx * ry * ry alone (60_000^4) already exceeds i64::MAX.
    c.draw_shape(&Shape::circle(Point::new(2, 2), 60_000), Fill::solid(color));
    // The canvas is tiny relative to the radius, so it's entirely inside the circle.
    for y in 0..4 {
        for x in 0..4 {
            assert_eq!(c.pixel(x, y), Some(color), "at ({x},{y})");
        }
    }
}

#[test]
fn draw_shape_max_radius_ellipse_does_not_overflow_or_panic() {
    let mut c = Canvas::new(4, 4);
    let color = Color::rgb(5, 5, 5);
    // The largest possible radius: the inclusion test's products are at their largest.
    c.draw_shape(
        &Shape::circle(Point::new(2, 2), u32::MAX),
        Fill::solid(color),
    );
    for y in 0..4 {
        for x in 0..4 {
            assert_eq!(c.pixel(x, y), Some(color), "at ({x},{y})");
        }
    }
}

#[test]
fn draw_shape_line_extreme_endpoint_does_not_hang() {
    let mut c = Canvas::new(4, 1);
    let color = Color::rgb(6, 6, 6);
    // Without clipping to canvas bounds first, Bresenham would walk roughly
    // i32::MAX steps to reach the (invisible) far endpoint.
    c.draw_shape(
        &Shape::line(Point::new(0, 0), Point::new(i32::MAX, 0)),
        Fill::solid(color),
    );
    for x in 0..4 {
        assert_eq!(c.pixel(x, 0), Some(color), "at x={x}");
    }
}

#[test]
fn draw_shape_triangle_extreme_coordinates_does_not_overflow_or_panic() {
    let mut c = Canvas::new(4, 4);
    let color = Color::rgb(2, 2, 2);
    // Cross-product terms for points this far apart do not fit in i64.
    c.draw_shape(
        &Shape::triangle(
            Point::new(i32::MAX, i32::MAX),
            Point::new(i32::MIN, i32::MAX),
            Point::new(i32::MAX, i32::MIN),
        ),
        Fill::solid(color),
    );
    // All three vertices sit at the extremes of the i32 domain, so edge_sign's
    // cross-product terms are evaluated near their largest possible magnitude. The
    // hypotenuse is the line x + y = -1
    // (i32::MIN + i32::MAX); this canvas's corner sits on the same side as (MAX, MAX),
    // comfortably inside.
    for y in 0..4 {
        for x in 0..4 {
            assert_eq!(c.pixel(x, y), Some(color), "at ({x},{y})");
        }
    }
}
