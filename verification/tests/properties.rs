//! Concrete instances of the library's laws, edge cases, and the outside-crate calls.

use guiltty::{glyph, Backend, Bitmap, KittyBackend, Canvas, Color, Error, Fill, Point, Rect, Shape, Sprite, StaleFootprint, TextStyle};

fn encode_png(img: image::DynamicImage) -> Vec<u8> {
    let mut out = std::io::Cursor::new(Vec::new());
    img.write_to(&mut out, image::ImageFormat::Png).expect("encoding a PNG in memory succeeds");
    out.into_inner()
}

fn patterned_canvas(width: u32, height: u32) -> Canvas {
    let mut c = Canvas::new(width, height);
    for y in 0..height {
        for x in 0..width {
            c.set_pixel(x, y, Color::rgb(x as u8, y as u8, 7));
        }
    }
    c
}

#[test]
fn fresh_canvas_region_versions_are_zero() {
    let c = Canvas::new(70, 40);
    assert_eq!(c.region_version(Rect::new(0, 0, 70, 40)), 0);
    assert_eq!(c.region_version(Rect::new(-5, -5, 3, 3)), 0);
    assert_eq!(c.region_version(Rect::new(100, 100, 10, 10)), 0);
}

#[test]
fn write_inside_a_region_raises_its_version_and_versions_never_drop() {
    let mut c = Canvas::new(70, 40);
    let region = Rect::new(30, 0, 10, 10);
    let v0 = c.region_version(region);
    c.set_pixel(35, 5, Color::rgb(1, 2, 3));
    let v1 = c.region_version(region);
    assert!(v0 < v1);
    c.set_pixel(0, 39, Color::rgb(1, 2, 3));
    let v2 = c.region_version(region);
    assert!(v1 <= v2);
}

#[test]
fn write_in_another_tile_leaves_a_region_version_alone() {
    let mut c = Canvas::new(100, 100);
    let region = Rect::new(0, 0, 10, 10);
    c.set_pixel(5, 5, Color::rgb(1, 1, 1));
    let before = c.region_version(region);
    c.set_pixel(90, 90, Color::rgb(2, 2, 2));
    assert_eq!(c.region_version(region), before);
}

#[test]
fn off_canvas_writes_change_nothing() {
    let mut c = Canvas::new(3, 3);
    c.set_pixel(3, 0, Color::rgb(1, 1, 1));
    c.set_pixel(0, 3, Color::rgb(1, 1, 1));
    assert_eq!(c.region_version(Rect::new(0, 0, 3, 3)), 0);
    for y in 0..3 {
        for x in 0..3 {
            assert_eq!(c.pixel(x, y), Some(Color::default()));
        }
    }
}

#[test]
fn drawing_a_shape_or_text_over_a_region_raises_its_version() {
    let mut c = Canvas::new(64, 64);
    let region = Rect::new(40, 40, 4, 4);
    let v0 = c.region_version(region);
    c.draw_shape(&Shape::rect(Point::new(41, 41), 1, 1), Fill::solid(Color::rgb(1, 1, 1)));
    let v1 = c.region_version(region);
    assert!(v0 < v1);
    c.draw_text("1", Point::new(42, 42), &TextStyle::default());
    assert!(v1 < c.region_version(region));
}

#[test]
fn rgba8_bytes_lists_each_pixel_in_row_major_order() {
    let mut c = Canvas::new(2, 1);
    c.set_pixel(0, 0, Color::rgba(1, 2, 3, 4));
    c.set_pixel(1, 0, Color::rgba(5, 6, 7, 8));
    assert_eq!(c.rgba8_bytes(), vec![1, 2, 3, 4, 5, 6, 7, 8]);
}

#[test]
fn canvas_clone_copies_pixels_with_a_fresh_identity_and_history() {
    let mut c = Canvas::new(4, 4);
    c.set_pixel(2, 2, Color::rgb(9, 8, 7));
    let d = c.clone();
    assert_ne!(c.id(), d.id());
    assert_eq!(d.pixel(2, 2), Some(Color::rgb(9, 8, 7)));
    assert_eq!(d.region_version(Rect::new(0, 0, 4, 4)), 0);
    assert!(c.region_version(Rect::new(0, 0, 4, 4)) > 0);
}

#[test]
fn glyph_table_covers_space_digits_and_capitals_only() {
    assert_eq!(glyph('I'), Some(["###", ".#.", ".#.", ".#.", "###"]));
    assert_eq!(glyph('7'), Some(["###", "..#", "..#", "..#", "..#"]));
    assert_eq!(glyph(' '), Some(["...", "...", "...", "...", "..."]));
    assert_eq!(glyph('a'), None);
    assert_eq!(glyph('!'), None);
}

#[test]
fn draw_text_scale_zero_draws_like_scale_one() {
    let mut a = Canvas::new(8, 5);
    let mut b = Canvas::new(8, 5);
    let color = Color::rgb(3, 4, 5);
    a.draw_text("7A", Point::new(0, 0), &TextStyle { color, scale: 0 });
    b.draw_text("7A", Point::new(0, 0), &TextStyle { color, scale: 1 });
    assert_eq!(a.rgba8_bytes(), b.rgba8_bytes());
}

#[test]
fn draw_text_scales_each_font_pixel_to_a_block() {
    let mut c = Canvas::new(6, 10);
    let color = Color::rgb(10, 20, 30);
    c.draw_text("I", Point::new(0, 0), &TextStyle { color, scale: 2 });
    // row 0 is "###": the top two canvas rows are filled across all six columns
    for x in 0..6 {
        assert_eq!(c.pixel(x, 0), Some(color));
        assert_eq!(c.pixel(x, 1), Some(color));
    }
    // row 1 is ".#.": only the middle block is lit
    assert_eq!(c.pixel(1, 2), Some(Color::default()));
    assert_eq!(c.pixel(2, 2), Some(color));
    assert_eq!(c.pixel(3, 3), Some(color));
    assert_eq!(c.pixel(4, 3), Some(Color::default()));
}

#[test]
fn draw_text_clips_at_negative_origins() {
    let mut c = Canvas::new(3, 3);
    let color = Color::rgb(1, 1, 1);
    // "L" is ["#..", "#..", "#..", "#..", "###"]; shifted up by 2 and left by 1, the canvas
    // shows rows 2..5 and columns 1..3 of it.
    c.draw_text("L", Point::new(-1, -2), &TextStyle { color, scale: 1 });
    assert_eq!(c.pixel(0, 0), Some(Color::default()));
    assert_eq!(c.pixel(0, 1), Some(Color::default()));
    assert_eq!(c.pixel(0, 2), Some(color));
    assert_eq!(c.pixel(1, 2), Some(color));
    assert_eq!(c.pixel(2, 2), Some(Color::default()));
}

#[test]
fn draw_text_second_glyph_starts_one_advance_later() {
    let mut c = Canvas::new(12, 5);
    let color = Color::rgb(5, 5, 5);
    c.draw_text("1 1", Point::new(0, 0), &TextStyle { color, scale: 1 });
    // "1" has its top-row middle pixel lit; the space in between leaves columns 4..8 blank
    assert_eq!(c.pixel(1, 0), Some(color));
    for x in 3..8 {
        assert_eq!(c.pixel(x, 0), Some(Color::default()));
    }
    assert_eq!(c.pixel(9, 0), Some(color));
}

#[test]
fn drawing_text_over_a_footprint_makes_it_stale() {
    let mut c = Canvas::new(8, 8);
    let mut sprite = Sprite::new(Bitmap::solid(2, 2, Color::rgb(9, 9, 9)), Point::new(4, 4));
    sprite.place(&mut c);
    c.draw_text("I", Point::new(3, 3), &TextStyle::default());
    assert_eq!(sprite.clear_footprint(&mut c), Err(StaleFootprint));
}

#[test]
fn stale_footprints_stay_stale_after_more_drawing() {
    let mut c = Canvas::new(4, 4);
    let mut sprite = Sprite::new(Bitmap::solid(1, 1, Color::rgb(9, 9, 9)), Point::new(1, 1));
    sprite.place(&mut c);
    c.set_pixel(1, 1, Color::rgb(3, 3, 3));
    c.draw_shape(&Shape::rect(Point::new(0, 0), 4, 4), Fill::solid(Color::rgb(4, 4, 4)));
    assert_eq!(sprite.clear_footprint(&mut c), Err(StaleFootprint));
    assert_eq!(c.pixel(1, 1), Some(Color::rgb(4, 4, 4)));
}

#[test]
fn moving_and_redrawing_leaves_only_background_and_sprite() {
    let mut c = patterned_canvas(6, 4);
    let background = c.clone();
    let red = Color::rgb(200, 0, 0);
    let bitmap = Bitmap::new(2, 1, vec![red, Color::rgba(0, 0, 0, 0)]);
    let mut sprite = Sprite::new(bitmap, Point::new(0, 0));
    sprite.draw_on(&mut c).expect("first draw always succeeds");
    for (x, y) in [(3, 1), (-1, 2), (5, 3), (2, 2)] {
        sprite.move_to(Point::new(x, y));
        sprite.draw_on(&mut c).expect("nothing else drew in between");
    }
    for y in 0..4 {
        for x in 0..6 {
            let expected = if (x, y) == (2, 2) { Some(red) } else { background.pixel(x, y) };
            assert_eq!(c.pixel(x, y), expected, "at ({x},{y})");
        }
    }
}

#[test]
fn redrawing_in_place_changes_no_pixel() {
    let mut c = patterned_canvas(5, 5);
    let mut sprite = Sprite::new(Bitmap::solid(2, 3, Color::rgb(1, 2, 3)), Point::new(2, 1));
    sprite.draw_on(&mut c).expect("first draw always succeeds");
    let after_first = c.rgba8_bytes();
    sprite.draw_on(&mut c).expect("redraw without moving");
    assert_eq!(c.rgba8_bytes(), after_first);
}

#[test]
fn discard_footprint_then_clear_is_a_noop() {
    let mut c = Canvas::new(3, 3);
    let mut sprite = Sprite::new(Bitmap::solid(1, 1, Color::rgb(9, 9, 9)), Point::new(0, 0));
    sprite.place(&mut c);
    sprite.discard_footprint();
    assert_eq!(sprite.clear_footprint(&mut c), Ok(()));
    assert_eq!(c.pixel(0, 0), Some(Color::rgb(9, 9, 9)));
}

#[test]
fn bitmap_from_rgba8_reads_four_bytes_per_pixel() {
    let b = Bitmap::from_rgba8(2, 1, &[1, 2, 3, 4, 5, 6, 7, 8, 99]);
    assert_eq!((b.width(), b.height()), (2, 1));
    assert_eq!(b.pixel(0, 0), Some(Color::rgba(1, 2, 3, 4)));
    assert_eq!(b.pixel(1, 0), Some(Color::rgba(5, 6, 7, 8)));
    assert_eq!(b.pixel(0, 1), None);
}

#[test]
fn bitmap_from_encoded_decodes_rgba_png() {
    let raw = vec![255, 0, 0, 255, 0, 255, 0, 128, 0, 0, 255, 255, 255, 255, 0, 0];
    let img = image::RgbaImage::from_raw(2, 2, raw).unwrap();
    let png = encode_png(image::DynamicImage::ImageRgba8(img));
    let b = Bitmap::from_encoded(&png, "png").expect("a valid PNG decodes");
    assert_eq!((b.width(), b.height()), (2, 2));
    assert_eq!(b.pixel(0, 0), Some(Color::rgba(255, 0, 0, 255)));
    assert_eq!(b.pixel(1, 0), Some(Color::rgba(0, 255, 0, 128)));
    assert_eq!(b.pixel(0, 1), Some(Color::rgba(0, 0, 255, 255)));
    assert_eq!(b.pixel(1, 1), Some(Color::rgba(255, 255, 0, 0)));
}

#[test]
fn bitmap_from_encoded_gives_rgb_sources_opaque_alpha() {
    let raw = vec![10, 20, 30, 40, 50, 60, 70, 80, 90, 100, 110, 120];
    let img = image::RgbImage::from_raw(2, 2, raw).unwrap();
    let png = encode_png(image::DynamicImage::ImageRgb8(img));
    let b = Bitmap::from_encoded(&png, "png").expect("a valid PNG decodes");
    assert_eq!(b.pixel(0, 0), Some(Color::rgba(10, 20, 30, 255)));
    assert_eq!(b.pixel(1, 0), Some(Color::rgba(40, 50, 60, 255)));
    assert_eq!(b.pixel(0, 1), Some(Color::rgba(70, 80, 90, 255)));
    assert_eq!(b.pixel(1, 1), Some(Color::rgba(100, 110, 120, 255)));
}

#[test]
fn bitmap_from_encoded_spreads_grayscale_over_all_channels() {
    let img = image::GrayImage::from_raw(2, 2, vec![0, 85, 170, 255]).unwrap();
    let png = encode_png(image::DynamicImage::ImageLuma8(img));
    let b = Bitmap::from_encoded(&png, "png").expect("a valid PNG decodes");
    assert_eq!(b.pixel(0, 0), Some(Color::rgba(0, 0, 0, 255)));
    assert_eq!(b.pixel(1, 0), Some(Color::rgba(85, 85, 85, 255)));
    assert_eq!(b.pixel(0, 1), Some(Color::rgba(170, 170, 170, 255)));
    assert_eq!(b.pixel(1, 1), Some(Color::rgba(255, 255, 255, 255)));
}

#[test]
fn bitmap_from_encoded_rejects_malformed_data() {
    let result = Bitmap::from_encoded(b"\x89PNG\r\n\x1a\nthis is not a png", "png");
    match result {
        Err(Error::ImageLoad(msg)) => assert!(!msg.is_empty()),
        _ => panic!("malformed data must give an image load error"),
    }
    assert!(matches!(Bitmap::from_encoded(&[], "png"), Err(Error::ImageLoad(_))));
}

#[test]
fn error_messages_name_the_kind_then_the_detail() {
    assert_eq!(Error::Backend("pipe closed".to_string()).message(), "backend error: pipe closed");
    assert_eq!(Error::ImageLoad("bad header".to_string()).message(), "image load error: bad header");
    assert_eq!(
        StaleFootprint.message(),
        "sprite footprint is stale: canvas changed since it was captured"
    );
}

#[test]
fn text_style_default_is_white_at_native_size() {
    let s = TextStyle::default();
    assert_eq!(s.color, Color::rgb(255, 255, 255));
    assert_eq!(s.scale, 1);
}

#[test]
fn line_is_clipped_and_exact_along_a_diagonal() {
    let mut c = Canvas::new(4, 4);
    let color = Color::rgb(8, 8, 8);
    c.draw_shape(&Shape::line(Point::new(-2, -2), Point::new(10, 10)), Fill::solid(color));
    for y in 0..4 {
        for x in 0..4 {
            let expected = if x == y { color } else { Color::default() };
            assert_eq!(c.pixel(x, y), Some(expected), "at ({x},{y})");
        }
    }
}

#[test]
fn zero_radius_circle_paints_nothing() {
    let mut c = Canvas::new(3, 3);
    c.draw_shape(&Shape::circle(Point::new(1, 1), 0), Fill::solid(Color::rgb(1, 1, 1)));
    assert_eq!(c.pixel(1, 1), Some(Color::default()));
}

#[test]
fn closed_path_with_fewer_than_three_points_fills_nothing() {
    let mut c = Canvas::new(4, 4);
    c.draw_shape(
        &Shape::path(vec![Point::new(0, 0), Point::new(3, 3)], true),
        Fill::solid(Color::rgb(1, 1, 1)),
    );
    for y in 0..4 {
        for x in 0..4 {
            assert_eq!(c.pixel(x, y), Some(Color::default()));
        }
    }
}

#[test]
fn another_sprite_drawn_over_a_footprint_makes_it_stale() {
    let mut c = Canvas::new(6, 6);
    let mut a = Sprite::new(Bitmap::solid(2, 2, Color::rgb(1, 1, 1)), Point::new(1, 1));
    let mut b = Sprite::new(Bitmap::solid(2, 2, Color::rgb(2, 2, 2)), Point::new(2, 2));
    a.draw_on(&mut c).expect("first draw always succeeds");
    b.draw_on(&mut c).expect("first draw always succeeds");
    assert_eq!(a.clear_footprint(&mut c), Err(StaleFootprint));
    assert_eq!(c.pixel(2, 2), Some(Color::rgb(2, 2, 2)));
}

#[test]
fn a_fully_transparent_sprite_writes_nothing_and_stamps_nothing() {
    let mut c = Canvas::new(4, 4);
    let mut a = Sprite::new(Bitmap::solid(2, 2, Color::rgb(1, 1, 1)), Point::new(0, 0));
    let mut invisible = Sprite::new(Bitmap::solid(2, 2, Color::rgba(5, 5, 5, 0)), Point::new(1, 1));
    a.place(&mut c);
    invisible.place(&mut c);
    assert_eq!(a.clear_footprint(&mut c), Ok(()));
    assert_eq!(c.pixel(0, 0), Some(Color::default()));
}

#[test]
fn an_unsupported_character_draws_like_a_space() {
    let mut a = Canvas::new(16, 6);
    let mut b = Canvas::new(16, 6);
    let style = TextStyle::default();
    a.draw_text("XaY", Point::new(1, 1), &style);
    b.draw_text("X Y", Point::new(1, 1), &style);
    assert_eq!(a.rgba8_bytes(), b.rgba8_bytes());
}

#[test]
fn a_rect_fills_exactly_what_its_closed_corner_path_fills() {
    let mut a = Canvas::new(10, 8);
    let mut b = Canvas::new(10, 8);
    let fill = Fill::solid(Color::rgb(7, 7, 7));
    let o = Point::new(2, 1);
    a.draw_shape(&Shape::rect(o, 5, 4), fill);
    b.draw_shape(
        &Shape::path(vec![o, Point::new(7, 1), Point::new(7, 5), Point::new(2, 5)], true),
        fill,
    );
    assert_eq!(a.rgba8_bytes(), b.rgba8_bytes());
}

#[test]
fn point_in_triangle_ignores_vertex_order_and_holds_at_vertices() {
    let (a, b, c) = (Point::new(0, 0), Point::new(6, 1), Point::new(2, 5));
    for (px, py) in [(0i64, 0i64), (6, 1), (2, 5), (3, 2), (9, 9), (-1, 0)] {
        let r = guiltty::shape::point_in_triangle(px, py, a, b, c);
        assert_eq!(r, guiltty::shape::point_in_triangle(px, py, b, c, a));
        assert_eq!(r, guiltty::shape::point_in_triangle(px, py, b, a, c));
    }
    assert!(guiltty::shape::point_in_triangle(0, 0, a, b, c));
    assert!(guiltty::shape::point_in_triangle(6, 1, a, b, c));
    assert!(guiltty::shape::point_in_triangle(2, 5, a, b, c));
}

#[test]
fn shapes_paint_only_inside_the_region_they_stamp() {
    // A write anywhere outside the sprite's footprint tiles would not make it stale; an
    // ellipse whose pixels reach the footprint does.
    let mut c = Canvas::new(64, 64);
    let mut sprite = Sprite::new(Bitmap::solid(2, 2, Color::rgb(9, 9, 9)), Point::new(40, 40));
    sprite.place(&mut c);
    c.draw_shape(&Shape::ellipse(Point::new(36, 41), 5, 2), Fill::solid(Color::rgb(1, 1, 1)));
    assert_eq!(c.pixel(40, 41), Some(Color::rgb(1, 1, 1)));
    assert_eq!(sprite.clear_footprint(&mut c), Err(StaleFootprint));
}

#[test]
fn present_into_a_buffer_always_succeeds() {
    let mut backend = KittyBackend::with_writer(Vec::new());
    assert!(backend.present(&Canvas::new(3, 3)).is_ok());
    assert!(backend.present(&Canvas::new(0, 3)).is_ok());
    assert!(!backend.into_writer().is_empty());
}

#[test]
fn bitmap_from_encoded_takes_the_format_from_the_extension() {
    let img = image::RgbaImage::from_raw(1, 1, vec![1, 2, 3, 4]).unwrap();
    let png = encode_png(image::DynamicImage::ImageRgba8(img));
    let upper = Bitmap::from_encoded(&png, "PNG").expect("extensions are case-insensitive");
    assert_eq!(upper.pixel(0, 0), Some(Color::rgba(1, 2, 3, 4)));
    assert!(matches!(Bitmap::from_encoded(&png, "jpg"), Err(Error::ImageLoad(_))));
    assert!(matches!(Bitmap::from_encoded(&png, ""), Err(Error::ImageLoad(_))));
    assert!(matches!(Bitmap::from_encoded(&png, "txt"), Err(Error::ImageLoad(_))));
}

#[test]
fn drawing_away_from_a_footprint_leaves_it_restorable() {
    let mut c = Canvas::new(200, 200);
    let mut s = Sprite::new(Bitmap::solid(2, 2, Color::rgb(9, 9, 9)), Point::new(1, 1));
    s.place(&mut c);
    c.draw_shape(&Shape::rect(Point::new(190, 190), 1, 1), Fill::solid(Color::rgb(1, 1, 1)));
    c.draw_text("1", Point::new(150, 150), &TextStyle::default());
    let mut other = Sprite::new(Bitmap::solid(2, 2, Color::rgb(5, 5, 5)), Point::new(100, 100));
    other.place(&mut c);
    assert_eq!(other.clear_footprint(&mut c), Ok(()));
    assert_eq!(s.clear_footprint(&mut c), Ok(()));
    assert_eq!(c.pixel(1, 1), Some(Color::default()));
    assert_eq!(c.pixel(190, 190), Some(Color::rgb(1, 1, 1)));
}

#[test]
fn region_version_only_grows_over_a_history_of_calls() {
    let mut c = Canvas::new(100, 100);
    let region = Rect::new(0, 0, 10, 10);
    let v0 = c.region_version(region);
    c.set_pixel(90, 90, Color::rgb(1, 2, 3));
    let v1 = c.region_version(region);
    assert_eq!(v0, v1);
    let _ = c.pixel(5, 5);
    let _ = c.rgba8_bytes();
    assert_eq!(c.region_version(region), v1);
    c.draw_shape(&Shape::rect(Point::new(60, 60), 3, 3), Fill::solid(Color::rgb(4, 4, 4)));
    let v2 = c.region_version(region);
    assert!(v1 <= v2);
    c.draw_text("1", Point::new(2, 2), &TextStyle::default());
    let v3 = c.region_version(region);
    assert!(v2 < v3);
    c.set_pixel(70, 70, Color::rgb(9, 9, 9));
    assert!(v0 < c.region_version(region));
}

#[test]
fn a_line_inside_the_canvas_keeps_both_endpoints() {
    let mut c = Canvas::new(10, 10);
    let color = Color::rgb(3, 3, 3);
    c.draw_shape(&Shape::line(Point::new(1, 1), Point::new(6, 3)), Fill::solid(color));
    assert_eq!(c.pixel(1, 1), Some(color));
    assert_eq!(c.pixel(6, 3), Some(color));
    assert_eq!(c.pixel(0, 0), Some(Color::default()));
    assert_eq!(c.pixel(7, 3), Some(Color::default()));
}

#[test]
fn restoring_a_footprint_counts_as_a_write() {
    let mut c = Canvas::new(8, 8);
    let mut a = Sprite::new(Bitmap::solid(2, 2, Color::rgb(9, 9, 9)), Point::new(0, 0));
    a.place(&mut c);
    let mut b = Sprite::new(Bitmap::solid(2, 2, Color::rgba(0, 0, 0, 0)), Point::new(1, 1));
    b.place(&mut c);
    assert_eq!(b.clear_footprint(&mut c), Ok(()));
    assert_eq!(a.clear_footprint(&mut c), Err(StaleFootprint));
    assert_eq!(c.pixel(0, 0), Some(Color::rgb(9, 9, 9)));
}
