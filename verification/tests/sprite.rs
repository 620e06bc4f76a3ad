//! Bitmap and sprite scenarios.

use guiltty::{Bitmap, Canvas, Color, Fill, Point, Shape, Sprite, StaleFootprint};

#[test]
fn bitmap_new_and_pixel_roundtrip() {
    let b = Bitmap::new(
        2,
        2,
        vec![
            Color::rgb(1, 0, 0),
            Color::rgb(2, 0, 0),
            Color::rgb(3, 0, 0),
            Color::rgb(4, 0, 0),
        ],
    );
    assert_eq!(b.width(), 2);
    assert_eq!(b.height(), 2);
    assert_eq!(b.pixel(0, 0), Some(Color::rgb(1, 0, 0)));
    assert_eq!(b.pixel(1, 1), Some(Color::rgb(4, 0, 0)));
    assert_eq!(b.pixel(2, 0), None);
}

#[test]
fn bitmap_solid_fills_every_pixel() {
    let b = Bitmap::solid(3, 2, Color::rgb(9, 9, 9));
    for y in 0..2 {
        for x in 0..3 {
            assert_eq!(b.pixel(x, y), Some(Color::rgb(9, 9, 9)));
        }
    }
}

#[test]
fn sprite_move_to_updates_position() {
    let mut s = Sprite::new(Bitmap::solid(1, 1, Color::rgb(1, 1, 1)), Point::new(0, 0));
    assert_eq!(s.position(), Point::new(0, 0));
    s.move_to(Point::new(5, 7));
    assert_eq!(s.position(), Point::new(5, 7));
}

#[test]
fn draw_on_opaque_pixels_overwrite_background() {
    let mut c = Canvas::new(4, 4);
    c.set_pixel(1, 1, Color::rgb(50, 50, 50)); // pre-existing background content
    let mut sprite = Sprite::new(Bitmap::solid(2, 2, Color::rgb(9, 9, 9)), Point::new(1, 1));
    sprite.draw_on(&mut c).expect("first draw always succeeds");
    for y in 1..3 {
        for x in 1..3 {
            assert_eq!(c.pixel(x, y), Some(Color::rgb(9, 9, 9)), "at ({x},{y})");
        }
    }
}

#[test]
fn draw_on_transparent_pixels_preserve_background() {
    let mut c = Canvas::new(3, 3);
    c.set_pixel(1, 1, Color::rgb(50, 50, 50)); // background under the transparent sprite pixel
    let bitmap = Bitmap::new(
        1,
        1,
        vec![Color::rgba(9, 9, 9, 0)], // fully transparent
    );
    let mut sprite = Sprite::new(bitmap, Point::new(1, 1));
    sprite.draw_on(&mut c).expect("first draw always succeeds");
    // The transparent sprite pixel must not have overwritten the background beneath it.
    assert_eq!(c.pixel(1, 1), Some(Color::rgb(50, 50, 50)));
}

#[test]
fn draw_on_clips_to_canvas_bounds_without_panic() {
    let mut c = Canvas::new(2, 2);
    // Sprite mostly off-canvas to the bottom-right; only its top-left pixel is visible.
    let mut sprite = Sprite::new(Bitmap::solid(4, 4, Color::rgb(1, 2, 3)), Point::new(1, 1));
    sprite.draw_on(&mut c).expect("first draw always succeeds");
    assert_eq!(c.pixel(1, 1), Some(Color::rgb(1, 2, 3)));
    assert_eq!(c.pixel(0, 0), Some(Color::default()));
}

#[test]
fn draw_on_negative_position_does_not_panic() {
    let mut c = Canvas::new(2, 2);
    // Sprite anchored off-canvas to the top-left; only its bottom-right pixel is visible.
    let mut sprite = Sprite::new(Bitmap::solid(2, 2, Color::rgb(4, 5, 6)), Point::new(-1, -1));
    sprite.draw_on(&mut c).expect("first draw always succeeds");
    assert_eq!(c.pixel(0, 0), Some(Color::rgb(4, 5, 6)));
    assert_eq!(c.pixel(1, 1), Some(Color::default()));
}

#[test]
fn draw_on_move_and_redraw_restores_old_footprint() {
    let mut c = Canvas::new(5, 1);
    c.set_pixel(0, 0, Color::rgb(50, 50, 50)); // pre-existing background at the sprite's start
    let mut sprite = Sprite::new(Bitmap::solid(1, 1, Color::rgb(9, 9, 9)), Point::new(0, 0));
    sprite.draw_on(&mut c).expect("first draw always succeeds");
    assert_eq!(c.pixel(0, 0), Some(Color::rgb(9, 9, 9)));

    sprite.move_to(Point::new(4, 0));
    sprite
        .draw_on(&mut c)
        .expect("nothing else wrote into the footprint in between");
    // Old position must be restored to what it was before the sprite was ever drawn
    // there -- not left painted with the sprite's color.
    assert_eq!(c.pixel(0, 0), Some(Color::rgb(50, 50, 50)));
    // New position now shows the sprite.
    assert_eq!(c.pixel(4, 0), Some(Color::rgb(9, 9, 9)));
}

#[test]
fn draw_on_redraw_at_same_position_is_a_noop_change() {
    let mut c = Canvas::new(3, 1);
    let mut sprite = Sprite::new(Bitmap::solid(1, 1, Color::rgb(7, 7, 7)), Point::new(1, 0));
    sprite.draw_on(&mut c).expect("first draw always succeeds");
    sprite.draw_on(&mut c).expect("redraw without moving"); // redraw without moving
    assert_eq!(c.pixel(1, 0), Some(Color::rgb(7, 7, 7)));
}

#[test]
fn draw_on_clone_has_no_drawing_history() {
    let mut c = Canvas::new(3, 1);
    let mut original = Sprite::new(Bitmap::solid(1, 1, Color::rgb(1, 1, 1)), Point::new(0, 0));
    original
        .draw_on(&mut c)
        .expect("first draw always succeeds");

    // Cloning after drawing must not carry over last_draw -- otherwise drawing the
    // clone elsewhere would "restore" the original's footprint out from under it.
    let mut clone = original.clone();
    clone.move_to(Point::new(2, 0));
    clone
        .draw_on(&mut c)
        .expect("clone starts with no footprint to restore");

    // The original sprite's pixel must be untouched by the clone's draw.
    assert_eq!(c.pixel(0, 0), Some(Color::rgb(1, 1, 1)));
    assert_eq!(c.pixel(2, 0), Some(Color::rgb(1, 1, 1)));
}

#[test]
fn draw_on_wrong_canvas_is_a_noop_not_a_panic() {
    let mut canvas_a = Canvas::new(2, 1);
    let mut sprite = Sprite::new(Bitmap::solid(1, 1, Color::rgb(9, 9, 9)), Point::new(0, 0));
    sprite
        .draw_on(&mut canvas_a)
        .expect("first draw always succeeds"); // captures canvas_a's background into last_draw

    let mut canvas_b = Canvas::new(2, 1);
    canvas_b.set_pixel(0, 0, Color::rgb(2, 2, 2)); // canvas_b's own distinct background
    sprite.move_to(Point::new(1, 0));
    sprite
        .draw_on(&mut canvas_b)
        .expect("a footprint from a different canvas is dropped, not an error");

    // The stale footprint captured from canvas_a must not have been restored onto
    // canvas_b's position (0,0); canvas_b's own background must be untouched.
    assert_eq!(canvas_b.pixel(0, 0), Some(Color::rgb(2, 2, 2)));
    assert_eq!(canvas_b.pixel(1, 0), Some(Color::rgb(9, 9, 9)));
}

#[test]
fn clear_footprint_immediately_after_place_succeeds() {
    // Guards against stamping the footprint's version before place's own blit --
    // that would make the blit self-invalidate the footprint it just created.
    let mut c = Canvas::new(3, 3);
    c.set_pixel(1, 1, Color::rgb(50, 50, 50));
    let mut sprite = Sprite::new(Bitmap::solid(1, 1, Color::rgb(9, 9, 9)), Point::new(1, 1));
    sprite.place(&mut c);
    assert_eq!(c.pixel(1, 1), Some(Color::rgb(9, 9, 9)));

    sprite
        .clear_footprint(&mut c)
        .expect("no intervening write since place");
    assert_eq!(c.pixel(1, 1), Some(Color::rgb(50, 50, 50)));
}

#[test]
fn clear_footprint_after_successful_restore_is_a_safe_noop() {
    let mut c = Canvas::new(3, 1);
    let mut sprite = Sprite::new(Bitmap::solid(1, 1, Color::rgb(7, 7, 7)), Point::new(1, 0));
    sprite.place(&mut c);
    sprite
        .clear_footprint(&mut c)
        .expect("first clear restores successfully");
    // last_draw is now None: a second call has nothing to restore, so it's a safe
    // no-op -- not an error, and it must not touch the canvas again.
    sprite
        .clear_footprint(&mut c)
        .expect("clearing an already-cleared sprite is a no-op, not an error");
}

#[test]
fn clear_footprint_returns_stale_after_intervening_write() {
    let mut c = Canvas::new(4, 4);
    let mut sprite = Sprite::new(Bitmap::solid(1, 1, Color::rgb(9, 9, 9)), Point::new(1, 1));
    sprite.place(&mut c);

    // Something else writes into the same region before this sprite clears --
    // standing in for another sprite's trail crossing this one's footprint.
    c.set_pixel(1, 1, Color::rgb(3, 3, 3));

    let result = sprite.clear_footprint(&mut c);
    assert_eq!(result, Err(StaleFootprint));
    // The canvas must be left exactly as the intervening write left it -- no partial
    // restore of the stale background.
    assert_eq!(c.pixel(1, 1), Some(Color::rgb(3, 3, 3)));
}

#[test]
fn draw_on_propagates_stale_error_without_drawing() {
    let mut c = Canvas::new(4, 4);
    let mut sprite = Sprite::new(Bitmap::solid(1, 1, Color::rgb(9, 9, 9)), Point::new(1, 1));
    sprite.place(&mut c);
    c.set_pixel(1, 1, Color::rgb(3, 3, 3)); // intervening write

    sprite.move_to(Point::new(2, 2));
    let result = sprite.draw_on(&mut c);
    assert_eq!(result, Err(StaleFootprint));
    // draw_on must not have called place() after clear_footprint failed: the new
    // position must show no sprite pixels, and the old position's intervening write
    // must be untouched.
    assert_eq!(c.pixel(1, 1), Some(Color::rgb(3, 3, 3)));
    assert_eq!(c.pixel(2, 2), Some(Color::default()));
}

#[test]
fn disjoint_write_does_not_invalidate_footprint() {
    let mut c = Canvas::new(200, 200);
    let mut sprite = Sprite::new(Bitmap::solid(1, 1, Color::rgb(9, 9, 9)), Point::new(1, 1));
    sprite.place(&mut c);

    // Write far away -- a different tile in the region-version grid -- standing in
    // for a second, independent sprite/turtle moving elsewhere on a shared canvas.
    c.set_pixel(190, 190, Color::rgb(3, 3, 3));

    sprite
        .clear_footprint(&mut c)
        .expect("a disjoint write must not invalidate this footprint");
}

#[test]
fn discard_footprint_recovers_after_stale() {
    let mut c = Canvas::new(4, 4);
    let mut sprite = Sprite::new(Bitmap::solid(1, 1, Color::rgb(9, 9, 9)), Point::new(1, 1));
    sprite.place(&mut c);
    c.set_pixel(1, 1, Color::rgb(3, 3, 3)); // makes the footprint permanently stale

    assert_eq!(sprite.clear_footprint(&mut c), Err(StaleFootprint));
    sprite.discard_footprint();
    // The sprite is drawable again -- place() no longer has a footprint to consult.
    sprite.move_to(Point::new(2, 2));
    sprite.place(&mut c);
    assert_eq!(c.pixel(2, 2), Some(Color::rgb(9, 9, 9)));
}

#[test]
fn draw_shape_touching_a_sprites_footprint_makes_it_stale() {
    // Not just set_pixel: any pixel-mutating Canvas call (draw_shape here) must
    // participate in the same region-version tracking.
    let mut c = Canvas::new(4, 4);
    let mut sprite = Sprite::new(Bitmap::solid(2, 2, Color::rgb(9, 9, 9)), Point::new(0, 0));
    sprite.place(&mut c);

    c.draw_shape(
        &Shape::line(Point::new(0, 0), Point::new(3, 0)),
        Fill::solid(Color::rgb(3, 3, 3)),
    );

    assert_eq!(sprite.clear_footprint(&mut c), Err(StaleFootprint));
}
