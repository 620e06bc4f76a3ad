//! Movable sprites: a bitmap drawn over a canvas with save/restore-under, so moving and
//! redrawing a sprite leaves no trail of its previous position.
//!
//! `place` saves the canvas pixels it is about to cover (its footprint), tagged with the
//! canvas's identity and the region's write-version; `clear_footprint` restores them, unless
//! the canvas is a different one (the footprint is dropped) or something wrote into the region
//! since (the footprint is stale and nothing is restored).

use vstd::prelude::*;
use vstd::string::StringExecFns;
use crate::bitmap::{Bitmap, BitmapView};
use crate::canvas::{
    Canvas, CanvasView, region_version_spec, set_pixel_post, tile_in_region, law_set_pixel_then_read,
    lemma_set_pixel_advances, lemma_advance_trans, law_region_version_monotone,
    law_write_inside_region_is_seen, law_write_outside_region_is_unseen, stamps, law_stamp_is_seen,
    lemma_set_pixel_stamps_its_tile, lemma_newer_tile_is_seen, area, lemma_rows_step, lemma_rows_within_area,
    keeps_tiles_outside, lemma_set_pixel_inside_keeps_outside, law_disjoint_regions_keep_versions,
};
use crate::geometry::{Color, Point, Rect, max_int, min_int};
use crate::grid::lemma_grid_index_bounds;

verus! {

/// The entry of a row-major grid of width `w` whose top-left cell is `(x0, y0)`, at `(x, y)`.
pub open spec fn grid_get(s: Seq<Color>, w: int, x0: int, y0: int, x: int, y: int) -> Color {
    s[(y - y0) * w + (x - x0)]
}

/// The model of the canvas pixels a sprite last drew over.
pub struct FootprintView {
    /// Identity of the canvas the pixels were saved from.
    pub canvas_id: u64,
    /// The saved area, always inside that canvas.
    pub rect: Rect,
    /// `region_version` of `rect` right after the sprite was drawn.
    pub version: u64,
    /// The saved pixels, row-major over `rect`.
    pub pixels: Seq<Color>,
}

impl FootprintView {
    pub open spec fn wf(self) -> bool {
        self.pixels.len() == self.rect.width * self.rect.height
    }

    /// The saved color of canvas pixel `(x, y)`, for `(x, y)` inside `rect`.
    pub open spec fn saved(self, x: int, y: int) -> Color {
        grid_get(self.pixels, self.rect.width as int, self.rect.x as int, self.rect.y as int, x, y)
    }
}

/// The model of a sprite.
pub struct SpriteView {
    pub bitmap: BitmapView,
    pub position: Point,
    pub last_draw: Option<FootprintView>,
}

impl SpriteView {
    pub open spec fn wf(self) -> bool {
        &&& self.bitmap.wf()
        &&& self.last_draw matches Some(fp) ==> fp.wf()
    }

    /// This sprite with no saved footprint.
    pub open spec fn without_footprint(self) -> SpriteView {
        SpriteView { last_draw: None, ..self }
    }
}

/// The area of canvas `c` that sprite `s` covers at its current position: the bitmap's
/// rectangle clipped to the canvas.
pub open spec fn capture_rect(s: SpriteView, c: CanvasView) -> Rect {
    let px = s.position.x as int;
    let py = s.position.y as int;
    let x_lo = max_int(px, 0);
    let x_hi = min_int(px + s.bitmap.width, c.width as int);
    let y_lo = max_int(py, 0);
    let y_hi = min_int(py + s.bitmap.height, c.height as int);
    Rect {
        x: x_lo as i32,
        y: y_lo as i32,
        width: max_int(x_hi - x_lo, 0) as u32,
        height: max_int(y_hi - y_lo, 0) as u32,
    }
}

/// Drawing sprite `s` over canvas `c` writes pixel `(x, y)`: the sprite covers it there, and
/// its bitmap pixel is not fully transparent.
pub open spec fn place_writes(s: SpriteView, c: CanvasView, x: int, y: int) -> bool {
    capture_rect(s, c).contains(x, y) && s.bitmap.at(x - s.position.x, y - s.position.y).a != 0
}

/// The color of canvas pixel `(x, y)` after drawing sprite `s` over canvas `c`: the bitmap's
/// pixel where the sprite writes, the canvas's own otherwise.
pub open spec fn blit_at(s: SpriteView, c: CanvasView, x: int, y: int) -> Color {
    if place_writes(s, c, x, y) {
        s.bitmap.at(x - s.position.x, y - s.position.y)
    } else {
        c.at(x, y)
    }
}

/// Footprint `fp` holds exactly the pixels of canvas `c` under its rectangle.
pub open spec fn captures(fp: FootprintView, c: CanvasView) -> bool {
    &&& fp.wf()
    &&& forall|x: int, y: int| #[trigger] fp.rect.contains(x, y) ==> fp.saved(x, y) == c.at(x, y)
}

/// `s2`, `c2` are sprite `s` and canvas `c` after `s.place(c)`.
pub open spec fn place_post(s: SpriteView, c: CanvasView, s2: SpriteView, c2: CanvasView) -> bool {
    &&& c2.same_frame(c)
    &&& c.versions_advance_to(c2)
    &&& forall|x: int, y: int| #[trigger] c.in_bounds(x, y) ==> c2.at(x, y) == blit_at(s, c, x, y)
    &&& c.next_version < u64::MAX ==> forall|x: int, y: int|
        #[trigger] place_writes(s, c, x, y) && x <= i32::MAX && y <= i32::MAX ==> c.next_version < c2.tile(x / 32, y / 32)
    &&& c2.next_version <= c.next_version + area(c)
    &&& keeps_tiles_outside(c, capture_rect(s, c), c2)
    &&& s2.bitmap == s.bitmap
    &&& s2.position == s.position
    &&& s2.last_draw matches Some(fp) && {
        &&& fp.canvas_id == c.id
        &&& fp.rect == capture_rect(s, c)
        &&& fp.version == region_version_spec(c2, fp.rect)
        &&& captures(fp, c)
    }
}

/// How many of the `k` consecutive coordinates from `start` lie in `[0, limit)`.
pub open spec fn on_canvas_count(start: int, k: int, limit: int) -> int {
    max_int(min_int(start + k, limit) - max_int(start, 0), 0)
}

/// `c2` is canvas `c` with the pixels saved in footprint `fp` written back.
pub open spec fn restore_post(c: CanvasView, fp: FootprintView, c2: CanvasView) -> bool {
    &&& c2.same_frame(c)
    &&& c.versions_advance_to(c2)
    &&& c2.next_version <= c.next_version + area(c)
    &&& keeps_tiles_outside(c, fp.rect, c2)
    &&& c.next_version < u64::MAX ==> forall|x: int, y: int| #[trigger]
        fp.rect.contains(x, y) && c.in_bounds(x, y) && x <= i32::MAX && y <= i32::MAX
            ==> c.next_version < c2.tile(x / 32, y / 32)
    &&& forall|x: int, y: int| #[trigger] c.in_bounds(x, y) ==> c2.at(x, y) == (if fp.rect.contains(x, y) {
        fp.saved(x, y)
    } else {
        c.at(x, y)
    })
}

/// Whether footprint `fp` can no longer be restored onto canvas `c`: it was saved from this
/// very canvas, and the canvas changed within its rectangle since.
pub open spec fn is_stale(fp: FootprintView, c: CanvasView) -> bool {
    fp.canvas_id == c.id && region_version_spec(c, fp.rect) != fp.version
}

/// `r`, `s2`, `c2` are the result, sprite and canvas after `s.clear_footprint(c)`.
pub open spec fn clear_post(
    s: SpriteView,
    c: CanvasView,
    r: Result<(), StaleFootprint>,
    s2: SpriteView,
    c2: CanvasView,
) -> bool {
    match s.last_draw {
        None => r is Ok && s2 == s && c2 == c,
        Some(fp) => if fp.canvas_id != c.id {
            r is Ok && s2 == s.without_footprint() && c2 == c
        } else if is_stale(fp, c) {
            r == Err::<(), StaleFootprint>(StaleFootprint) && s2 == s && c2 == c
        } else {
            r is Ok && s2 == s.without_footprint() && restore_post(c, fp, c2)
        },
    }
}

/// `r`, `s2`, `c2` are the result, sprite and canvas after `s.draw_on(c)`: a failed clear
/// leaves both untouched, otherwise the sprite is placed over the cleared canvas.
pub open spec fn draw_on_post(
    s: SpriteView,
    c: CanvasView,
    r: Result<(), StaleFootprint>,
    s2: SpriteView,
    c2: CanvasView,
) -> bool {
    match r {
        Err(_) => clear_post(s, c, r, s2, c2),
        Ok(()) => exists|s_mid: SpriteView, c_mid: CanvasView| #[trigger]
            clear_post(s, c, Ok(()), s_mid, c_mid) && place_post(s_mid, c_mid, s2, c2),
    }
}

/// The footprint `place` saves lies inside the canvas.
pub proof fn lemma_capture_rect_in_canvas(s: SpriteView, c: CanvasView, x: int, y: int)
    requires
        capture_rect(s, c).contains(x, y),
    ensures
        c.in_bounds(x, y),
{
}

/// What `place` draws: a canvas pixel under the sprite's bitmap takes the bitmap's pixel
/// exactly when that pixel is not fully transparent (alpha `0`); fully transparent bitmap
/// pixels, and every pixel the sprite does not cover, keep the canvas's color. Semi-transparent
/// pixels replace the canvas pixel outright (no blending).
pub proof fn law_place_draws_every_visible_pixel(
    s: SpriteView,
    c: CanvasView,
    s2: SpriteView,
    c2: CanvasView,
    x: int,
    y: int,
)
    requires
        place_post(s, c, s2, c2),
        0 <= x < c.width,
        0 <= y < c.height,
    ensures
        ({
            let bx = x - s.position.x;
            let by = y - s.position.y;
            let under = 0 <= bx < s.bitmap.width && 0 <= by < s.bitmap.height;
            c2.at(x, y) == if under && s.bitmap.pixels[by * s.bitmap.width + bx].a != 0 {
                s.bitmap.pixels[by * s.bitmap.width + bx]
            } else {
                c.at(x, y)
            }
        }),
{
    assert(c.in_bounds(x, y));
}

/// A failed clear changes nothing: when `clear_footprint` returns an error, sprite and canvas
/// are left exactly as they were, so the sprite keeps its stale footprint and clearing it
/// again fails again, until the footprint is discarded.
pub proof fn law_failed_clear_keeps_failing(
    s: SpriteView,
    c: CanvasView,
    r: Result<(), StaleFootprint>,
    s2: SpriteView,
    c2: CanvasView,
    r3: Result<(), StaleFootprint>,
    s3: SpriteView,
    c3: CanvasView,
)
    requires
        clear_post(s, c, r, s2, c2),
        r is Err,
        clear_post(s2, c2, r3, s3, c3),
    ensures
        s2 == s,
        c2 == c,
        s2.last_draw is Some,
        r3 is Err,
        s3 == s,
        c3 == c,
{
}

/// Save/restore round trip: placing a sprite and then clearing its footprint, with no other
/// write in between, succeeds and gives back exactly the canvas pixels from before the place.
pub proof fn law_place_then_clear_restores(
    s0: SpriteView,
    c0: CanvasView,
    s1: SpriteView,
    c1: CanvasView,
    r: Result<(), StaleFootprint>,
    s2: SpriteView,
    c2: CanvasView,
)
    requires
        place_post(s0, c0, s1, c1),
        clear_post(s1, c1, r, s2, c2),
    ensures
        r is Ok,
        s2.last_draw is None,
        c2.same_frame(c0),
        c2.same_pixels(c0),
{
    let fp = s1.last_draw.unwrap();
    assert forall|x: int, y: int| #[trigger] c2.in_bounds(x, y) implies c2.at(x, y) == c0.at(x, y) by {
        assert(c1.in_bounds(x, y));
        assert(c0.in_bounds(x, y));
        if fp.rect.contains(x, y) {
            assert(fp.saved(x, y) == c0.at(x, y));
        }
    }
}

/// Any write into a sprite's footprint after it was placed makes the footprint stale, so
/// clearing it fails instead of overwriting that write (for pixels whose coordinates fit in
/// `i32`, and while the canvas's version counter has not saturated).
pub proof fn law_write_into_footprint_makes_it_stale(
    s0: SpriteView,
    c0: CanvasView,
    s1: SpriteView,
    c1: CanvasView,
    x: u32,
    y: u32,
    color: Color,
    c2: CanvasView,
)
    requires
        c1.wf(),
        place_post(s0, c0, s1, c1),
        set_pixel_post(c1, x, y, color, c2),
        s1.last_draw.unwrap().rect.contains(x as int, y as int),
        x <= i32::MAX,
        y <= i32::MAX,
        c1.next_version < u64::MAX,
    ensures
        is_stale(s1.last_draw.unwrap(), c2),
{
    let fp = s1.last_draw.unwrap();
    assert(c0.in_bounds(x as int, y as int));
    law_write_inside_region_is_seen(c1, x, y, color, c2, fp.rect);
}

/// A write whose tile the footprint does not overlap leaves the footprint restorable.
pub proof fn law_disjoint_write_keeps_footprint(
    s0: SpriteView,
    c0: CanvasView,
    s1: SpriteView,
    c1: CanvasView,
    x: u32,
    y: u32,
    color: Color,
    c2: CanvasView,
)
    requires
        c1.wf(),
        place_post(s0, c0, s1, c1),
        set_pixel_post(c1, x, y, color, c2),
        !tile_in_region(c1, s1.last_draw.unwrap().rect, x as int / 32, y as int / 32),
    ensures
        !is_stale(s1.last_draw.unwrap(), c2),
{
    law_write_outside_region_is_unseen(c1, x, y, color, c2, s1.last_draw.unwrap().rect);
}

/// Drawing that changes tiles only inside `region` (as `draw_shape`, `draw_text`, `place` and
/// the restore of a footprint do for the region each stamps or covers) leaves a sprite's
/// footprint restorable when `region` shares no tile with it.
pub proof fn law_disjoint_drawing_keeps_footprint(
    s0: SpriteView,
    c0: CanvasView,
    s1: SpriteView,
    c1: CanvasView,
    region: Rect,
    c2: CanvasView,
)
    requires
        c1.wf(),
        place_post(s0, c0, s1, c1),
        c2.same_frame(c1),
        keeps_tiles_outside(c1, region, c2),
        forall|tx: int, ty: int| #[trigger]
            tile_in_region(c1, s1.last_draw.unwrap().rect, tx, ty) ==> !tile_in_region(c1, region, tx, ty),
    ensures
        !is_stale(s1.last_draw.unwrap(), c2),
{
    law_disjoint_regions_keep_versions(c1, c2, region, s1.last_draw.unwrap().rect);
}

/// Once a footprint is stale it stays stale, whatever is drawn afterwards: canvas versions
/// only move forward.
pub proof fn law_stale_stays_stale(
    s0: SpriteView,
    c0: CanvasView,
    s1: SpriteView,
    c1: CanvasView,
    c2: CanvasView,
    c3: CanvasView,
)
    requires
        c1.wf(),
        c2.wf(),
        place_post(s0, c0, s1, c1),
        c2.same_frame(c1),
        c1.versions_advance_to(c2),
        c3.same_frame(c2),
        c2.versions_advance_to(c3),
        is_stale(s1.last_draw.unwrap(), c2),
    ensures
        is_stale(s1.last_draw.unwrap(), c3),
{
    let fp = s1.last_draw.unwrap();
    law_region_version_monotone(c1, c2, fp.rect);
    law_region_version_monotone(c2, c3, fp.rect);
}

/// Drawing over a sprite's footprint after it was placed (any drawing that stamps a region
/// sharing a pixel with the footprint, as `draw_shape` and `draw_text` do) makes the footprint
/// stale, so clearing it fails instead of overwriting that drawing.
pub proof fn law_stamp_over_footprint_makes_it_stale(
    s0: SpriteView,
    c0: CanvasView,
    s1: SpriteView,
    c1: CanvasView,
    c2: CanvasView,
    stamped: Rect,
    x: int,
    y: int,
)
    requires
        c1.wf(),
        place_post(s0, c0, s1, c1),
        c2.same_frame(c1),
        stamps(c1, stamped, c2),
        stamped.contains(x, y),
        s1.last_draw.unwrap().rect.contains(x, y),
    ensures
        is_stale(s1.last_draw.unwrap(), c2),
{
    let fp = s1.last_draw.unwrap();
    lemma_capture_rect_in_canvas(s0, c0, x, y);
    law_stamp_is_seen(c1, c2, stamped, fp.rect, x, y);
}

/// Another sprite (or this one at another position) drawn so that it writes a pixel inside a
/// footprint makes that footprint stale: one sprite's trail crossing another's footprint is
/// detected (for pixels whose coordinates fit in `i32`, and while the canvas's version
/// counter has not saturated).
pub proof fn law_place_over_footprint_makes_it_stale(
    s0: SpriteView,
    c0: CanvasView,
    s1: SpriteView,
    c1: CanvasView,
    t0: SpriteView,
    t1: SpriteView,
    c2: CanvasView,
    x: int,
    y: int,
)
    requires
        c1.wf(),
        place_post(s0, c0, s1, c1),
        place_post(t0, c1, t1, c2),
        place_writes(t0, c1, x, y),
        s1.last_draw.unwrap().rect.contains(x, y),
        x <= i32::MAX,
        y <= i32::MAX,
        c1.next_version < u64::MAX,
    ensures
        is_stale(s1.last_draw.unwrap(), c2),
{
    let fp = s1.last_draw.unwrap();
    lemma_capture_rect_in_canvas(s0, c0, x, y);
    lemma_newer_tile_is_seen(c1, c2, fp.rect, x, y);
}

/// Restoring a footprint counts as a write: a successful `clear_footprint` of one sprite that
/// writes back a pixel inside another sprite's footprint makes that footprint stale (for
/// pixels whose coordinates fit in `i32`, and while the canvas's version counter has not
/// saturated).
pub proof fn law_restore_over_footprint_makes_it_stale(
    s0: SpriteView,
    c0: CanvasView,
    s1: SpriteView,
    c1: CanvasView,
    t1: SpriteView,
    t2: SpriteView,
    c2: CanvasView,
    x: int,
    y: int,
)
    requires
        c1.wf(),
        place_post(s0, c0, s1, c1),
        clear_post(t1, c1, Ok(()), t2, c2),
        t1.last_draw matches Some(fp) && fp.canvas_id == c1.id && fp.rect.contains(x, y),
        s1.last_draw.unwrap().rect.contains(x, y),
        x <= i32::MAX,
        y <= i32::MAX,
        c1.next_version < u64::MAX,
    ensures
        is_stale(s1.last_draw.unwrap(), c2),
{
    let fp = s1.last_draw.unwrap();
    lemma_capture_rect_in_canvas(s0, c0, x, y);
    assert(c1.in_bounds(x, y));
    lemma_newer_tile_is_seen(c1, c2, fp.rect, x, y);
}

/// Sprite `s` shows over background `bg` on canvas `c`: the canvas holds the background
/// with the sprite drawn at its current position, and the sprite's footprint holds the
/// background under it and is current as of `c`.
pub open spec fn shows_over(s: SpriteView, bg: CanvasView, c: CanvasView) -> bool {
    &&& c.same_frame(bg)
    &&& forall|x: int, y: int| #[trigger] bg.in_bounds(x, y) ==> c.at(x, y) == blit_at(s, bg, x, y)
    &&& s.last_draw matches Some(fp) && {
        &&& fp.canvas_id == c.id
        &&& fp.rect == capture_rect(s, bg)
        &&& fp.version == region_version_spec(c, fp.rect)
        &&& captures(fp, bg)
    }
}

/// Drawing a sprite that was never drawn succeeds and shows it over the canvas as it was.
pub proof fn law_first_draw_shows_over(
    s0: SpriteView,
    c0: CanvasView,
    r: Result<(), StaleFootprint>,
    s1: SpriteView,
    c1: CanvasView,
)
    requires
        c0.wf(),
        s0.last_draw is None,
        draw_on_post(s0, c0, r, s1, c1),
    ensures
        r is Ok,
        shows_over(s1, c0, c1),
{
    let (s_mid, c_mid) = choose|s_mid: SpriteView, c_mid: CanvasView|
        #[trigger] clear_post(s0, c0, Ok(()), s_mid, c_mid) && place_post(s_mid, c_mid, s1, c1);
    assert(s_mid == s0 && c_mid == c0);
    assert forall|x: int, y: int| #[trigger] c0.in_bounds(x, y) implies c1.at(x, y) == blit_at(s1, c0, x, y) by {
        assert(blit_at(s1, c0, x, y) == blit_at(s0, c0, x, y));
    }
}

/// Moving a sprite that shows over a background to any position and drawing it again
/// succeeds, and leaves no trail: afterwards it shows over the same background at its new
/// position. Every further move-and-draw keeps this, however many follow.
pub proof fn law_move_and_redraw_shows_over(
    s: SpriteView,
    bg: CanvasView,
    c: CanvasView,
    position: Point,
    r: Result<(), StaleFootprint>,
    s2: SpriteView,
    c2: CanvasView,
)
    requires
        shows_over(s, bg, c),
        draw_on_post(SpriteView { position, ..s }, c, r, s2, c2),
    ensures
        r is Ok,
        shows_over(s2, bg, c2),
{
    let moved = SpriteView { position, ..s };
    let fp = s.last_draw.unwrap();
    if r is Err {
        assert(clear_post(moved, c, r, s2, c2));
        assert(!is_stale(fp, c));
    }
    let (s_mid, c_mid) = choose|s_mid: SpriteView, c_mid: CanvasView|
        #[trigger] clear_post(moved, c, Ok(()), s_mid, c_mid) && place_post(s_mid, c_mid, s2, c2);
    assert(restore_post(c, fp, c_mid));
    assert forall|x: int, y: int| #[trigger] bg.in_bounds(x, y) implies c_mid.at(x, y) == bg.at(x, y) by {
        assert(c.in_bounds(x, y));
        if fp.rect.contains(x, y) {
            assert(fp.saved(x, y) == bg.at(x, y));
        } else {
            assert(c.at(x, y) == blit_at(s, bg, x, y));
        }
    }
    assert(capture_rect(s_mid, c_mid) == capture_rect(s2, bg));
    assert forall|x: int, y: int| #[trigger] bg.in_bounds(x, y) implies c2.at(x, y) == blit_at(s2, bg, x, y) by {
        assert(c_mid.in_bounds(x, y));
        assert(c_mid.at(x, y) == bg.at(x, y));
    }
    let fp2 = s2.last_draw.unwrap();
    assert forall|x: int, y: int| #[trigger] fp2.rect.contains(x, y) implies fp2.saved(x, y) == bg.at(x, y) by {
        lemma_capture_rect_in_canvas(s_mid, c_mid, x, y);
        assert(bg.in_bounds(x, y));
        assert(c_mid.at(x, y) == bg.at(x, y));
    }
}

/// Drawing a sprite again without moving it, with nothing else drawn in between, succeeds
/// and changes no pixel.
pub proof fn law_redraw_in_place_keeps_pixels(
    s: SpriteView,
    bg: CanvasView,
    c: CanvasView,
    r: Result<(), StaleFootprint>,
    s2: SpriteView,
    c2: CanvasView,
)
    requires
        shows_over(s, bg, c),
        draw_on_post(s, c, r, s2, c2),
    ensures
        r is Ok,
        c2.same_pixels(c),
{
    assert(SpriteView { position: s.position, ..s } == s);
    law_move_and_redraw_shows_over(s, bg, c, s.position, r, s2, c2);
    let (s_mid, c_mid) = choose|s_mid: SpriteView, c_mid: CanvasView|
        #[trigger] clear_post(s, c, Ok(()), s_mid, c_mid) && place_post(s_mid, c_mid, s2, c2);
    assert forall|x: int, y: int| #[trigger] c2.in_bounds(x, y) implies c2.at(x, y) == c.at(x, y) by {
        assert(bg.in_bounds(x, y));
        assert(blit_at(s2, bg, x, y) == blit_at(s, bg, x, y));
    }
}

/// The canvas pixels a sprite last drew over, saved for restoring.
#[derive(Debug)]
struct DrawnFootprint {
    canvas_id: u64,
    rect: Rect,
    version: u64,
    pixels: Vec<Color>,
}

impl View for DrawnFootprint {
    type V = FootprintView;

    closed spec fn view(&self) -> FootprintView {
        FootprintView {
            canvas_id: self.canvas_id,
            rect: self.rect,
            version: self.version,
            pixels: self.pixels@,
        }
    }
}

/// Returned when a sprite's footprint is stale: the canvas changed within it since it was
/// saved. The canvas is left untouched.
#[derive(Debug, Clone, Copy, PartialEq, Eq, Structural)]
pub struct StaleFootprint;

impl StaleFootprint {
    /// The human-readable description of this error, as `Display` shows it.
    pub fn message(&self) -> (m: String)
        ensures
            m@ == "sprite footprint is stale: canvas changed since it was captured"@,
    {
        String::from_str("sprite footprint is stale: canvas changed since it was captured")
    }
}

/// A movable bitmap positioned over a canvas.
#[derive(Debug)]
pub struct Sprite {
    bitmap: Bitmap,
    position: Point,
    last_draw: Option<DrawnFootprint>,
}

impl View for Sprite {
    type V = SpriteView;

    closed spec fn view(&self) -> SpriteView {
        SpriteView {
            bitmap: self.bitmap@,
            position: self.position,
            last_draw: match self.last_draw {
                Some(fp) => Some(fp@),
                None => None,
            },
        }
    }
}

impl Clone for Sprite {
    /// The same bitmap and position, with no drawing history: a clone has never been drawn.
    fn clone(&self) -> (c: Self)
        ensures
            c@ == self@.without_footprint(),
    {
        Sprite { bitmap: self.bitmap.clone(), position: self.position, last_draw: None }
    }
}

impl Sprite {
    /// Internal consistency: the bitmap is well formed, and a saved footprint holds one
    /// pixel per cell of its rectangle.
    pub open spec fn wf(&self) -> bool {
        &&& self@.wf()
        &&& self@.bitmap.pixels.len() <= usize::MAX
    }

    /// A sprite showing `bitmap` with its top-left corner at `position`, never drawn yet.
    pub fn new(bitmap: Bitmap, position: Point) -> (s: Self)
        requires
            bitmap.wf(),
        ensures
            s.wf(),
            s@ == (SpriteView { bitmap: bitmap@, position, last_draw: None }),
    {
        Sprite { bitmap, position, last_draw: None }
    }

    /// The sprite's current position.
    pub fn position(&self) -> (p: Point)
        ensures
            p == self@.position,
    {
        self.position
    }

    /// Moves the sprite; takes effect on the next draw.
    pub fn move_to(&mut self, position: Point)
        ensures
            final(self)@ == (SpriteView { position, ..old(self)@ }),
    {
        self.position = position;
    }

    /// The sprite's bitmap.
    pub fn bitmap(&self) -> (b: &Bitmap)
        requires
            self.wf(),
        ensures
            b@ == self@.bitmap,
            b.wf(),
    {
        &self.bitmap
    }

    /// Drops the saved footprint without restoring it: the way out of a stale footprint.
    pub fn discard_footprint(&mut self)
        ensures
            final(self)@ == old(self)@.without_footprint(),
    {
        self.last_draw = None;
    }

    /// Restores the saved pixels of `footprint`, clipped to the canvas.
    fn restore_footprint(canvas: &mut Canvas, footprint: &DrawnFootprint)
        requires
            old(canvas).wf(),
            footprint@.wf(),
        ensures
            final(canvas).wf(),
            restore_post(old(canvas)@, footprint@, final(canvas)@),
    {
        let ghost c0 = canvas@;
        let ghost fp = footprint@;
        let canvas_w = canvas.width() as i64;
        let canvas_h = canvas.height() as i64;
        let n = footprint.pixels.len();
        let row_len = footprint.rect.width as usize;
        let rx = footprint.rect.x as i64;
        let ry = footprint.rect.y as i64;
        let rw = footprint.rect.width as i64;
        let rh = footprint.rect.height as i64;
        let mut dy: i64 = 0;
        while dy < rh
            invariant
                c0.wf(),
                canvas.wf(),
                canvas@.same_frame(c0),
                c0.versions_advance_to(canvas@),
                fp == footprint@,
                fp.wf(),
                n == fp.pixels.len(),
                canvas_w == c0.width,
                canvas_h == c0.height,
                row_len == fp.rect.width,
                rx == fp.rect.x,
                ry == fp.rect.y,
                rw == fp.rect.width,
                rh == fp.rect.height,
                0 <= dy <= rh,
                canvas@.next_version <= c0.next_version + canvas_w * on_canvas_count(ry as int, dy as int, canvas_h as int),
                keeps_tiles_outside(c0, fp.rect, canvas@),
                c0.next_version < u64::MAX ==> forall|a: int, b: int| #[trigger]
                    fp.rect.contains(a, b) && c0.in_bounds(a, b) && a <= i32::MAX && b <= i32::MAX && b < ry + dy
                        ==> c0.next_version < canvas@.tile(a / 32, b / 32),
                forall|a: int, b: int| #[trigger]
                    c0.in_bounds(a, b) ==> canvas@.at(a, b) == (if fp.rect.contains(a, b) && b < ry + dy {
                        fp.saved(a, b)
                    } else {
                        c0.at(a, b)
                    }),
            decreases rh - dy,
        {
            let y = ry + dy;
            if y >= 0 && y < canvas_h {
                let mut dx: i64 = 0;
                while dx < rw
                    invariant
                        c0.wf(),
                        canvas.wf(),
                        canvas@.same_frame(c0),
                        c0.versions_advance_to(canvas@),
                        fp == footprint@,
                        fp.wf(),
                        n == fp.pixels.len(),
                        canvas_w == c0.width,
                        canvas_h == c0.height,
                        row_len == fp.rect.width,
                        rx == fp.rect.x,
                        ry == fp.rect.y,
                        rw == fp.rect.width,
                        rh == fp.rect.height,
                        0 <= dy < rh,
                        y == ry + dy,
                        0 <= y < canvas_h,
                        0 <= dx <= rw,
                        canvas@.next_version <= c0.next_version + canvas_w * on_canvas_count(ry as int, dy as int, canvas_h as int)
                            + on_canvas_count(rx as int, dx as int, canvas_w as int),
                        keeps_tiles_outside(c0, fp.rect, canvas@),
                        c0.next_version < u64::MAX ==> forall|a: int, b: int| #[trigger]
                            fp.rect.contains(a, b) && c0.in_bounds(a, b) && a <= i32::MAX && b <= i32::MAX && (b < y
                                || (b == y && a < rx + dx)) ==> c0.next_version < canvas@.tile(a / 32, b / 32),
                        forall|a: int, b: int| #[trigger]
                            c0.in_bounds(a, b) ==> canvas@.at(a, b) == (if fp.rect.contains(a, b) && (b < y || (b == y
                                && a < rx + dx)) {
                                fp.saved(a, b)
                            } else {
                                c0.at(a, b)
                            }),
                    decreases rw - dx,
                {
                    let x = rx + dx;
                    if x >= 0 && x < canvas_w {
                        proof {
                            lemma_grid_index_bounds(rw as int, rh as int, dx as int, dy as int);
                        }
                        let k = dy as usize * row_len + dx as usize;
                        let ghost before = canvas@;
                        canvas.set_pixel(x as u32, y as u32, footprint.pixels[k]);
                        proof {
                            law_set_pixel_then_read(before, x as u32, y as u32, footprint.pixels@[k as int], canvas@);
                            lemma_set_pixel_advances(before, x as u32, y as u32, footprint.pixels@[k as int], canvas@);
                            lemma_advance_trans(c0, before, canvas@);
                            lemma_set_pixel_inside_keeps_outside(c0, fp.rect, before, x as u32, y as u32,
                                footprint.pixels@[k as int], canvas@);
                            if c0.next_version < u64::MAX {
                                if x <= i32::MAX && y <= i32::MAX {
                                    lemma_set_pixel_stamps_its_tile(before, x as u32, y as u32, footprint.pixels@[k as int],
                                        canvas@);
                                }
                                assert forall|a: int, b: int| #[trigger]
                                    fp.rect.contains(a, b) && c0.in_bounds(a, b) && a <= i32::MAX && b <= i32::MAX && (b < y
                                        || (b == y && a < rx + dx + 1)) implies c0.next_version < canvas@.tile(a / 32, b / 32) by {
                                    assert(before.in_grid(a / 32, b / 32));
                                }
                            }
                            assert forall|a: int, b: int| #[trigger] c0.in_bounds(a, b) && (a != x || b != y) implies canvas@.at(
                                a,
                                b,
                            ) == before.at(a, b) by {
                                assert(before.in_bounds(a, b));
                            }
                            assert(fp.saved(x as int, y as int) == footprint.pixels@[k as int]);
                        }
                    }
                    dx += 1;
                }
                proof {
                    lemma_rows_step(canvas_w as int, on_canvas_count(ry as int, dy as int, canvas_h as int));
                }
            }
            dy += 1;
        }
        proof {
            lemma_rows_within_area(c0, canvas_w as int, on_canvas_count(ry as int, rh as int, canvas_h as int));
        }
    }

    /// Restores the canvas pixels this sprite's last `place` covered and forgets them.
    ///
    /// Does nothing when the sprite was never drawn; drops the footprint without restoring
    /// when it was saved from a different canvas; returns `Err(StaleFootprint)`, leaving
    /// sprite and canvas untouched, when the canvas changed within the footprint since.
    /// Canvases are told apart by their random ids (see `Canvas`), so two distinct canvases
    /// are taken for one only in the overwhelmingly unlikely case that their ids collide.
    pub fn clear_footprint(&mut self, canvas: &mut Canvas) -> (r: Result<(), StaleFootprint>)
        requires
            old(self).wf(),
            old(canvas).wf(),
        ensures
            final(self).wf(),
            final(canvas).wf(),
            clear_post(old(self)@, old(canvas)@, r, final(self)@, final(canvas)@),
    {
        match &self.last_draw {
            None => {
                return Ok(());
            },
            Some(footprint) => {
                if footprint.canvas_id == canvas.id() {
                    if canvas.region_version(footprint.rect) != footprint.version {
                        return Err(StaleFootprint);
                    }
                    Self::restore_footprint(canvas, footprint);
                }
            },
        }
        self.last_draw = None;
        Ok(())
    }

    /// Draws the sprite at its current position: `clear_footprint`, then `place`. On
    /// `Err(StaleFootprint)` nothing is drawn and sprite and canvas are left untouched.
    pub fn draw_on(&mut self, canvas: &mut Canvas) -> (r: Result<(), StaleFootprint>)
        requires
            old(self).wf(),
            old(canvas).wf(),
        ensures
            final(self).wf(),
            final(canvas).wf(),
            draw_on_post(old(self)@, old(canvas)@, r, final(self)@, final(canvas)@),
    {
        let ghost s0 = self@;
        let ghost c0 = canvas@;
        match self.clear_footprint(canvas) {
            Err(e) => {
                return Err(e);
            },
            Ok(()) => {},
        }
        let ghost s_mid = self@;
        let ghost c_mid = canvas@;
        self.place(canvas);
        assert(clear_post(s0, c0, Ok(()), s_mid, c_mid));
        Ok(())
    }

    /// Saves the canvas pixels under the sprite's current position, then draws the bitmap
    /// over them: fully transparent bitmap pixels are skipped, all others replace the
    /// canvas's. Does not restore any earlier footprint first.
    #[verifier::spinoff_prover]
    #[verifier::rlimit(40)]
    pub fn place(&mut self, canvas: &mut Canvas)
        requires
            old(self).wf(),
            old(canvas).wf(),
        ensures
            final(self).wf(),
            final(canvas).wf(),
            place_post(old(self)@, old(canvas)@, final(self)@, final(canvas)@),
    {
        let ghost s0 = self@;
        let ghost c0 = canvas@;
        let px = self.position.x as i64;
        let py = self.position.y as i64;
        let bmp_w = self.bitmap.width() as i64;
        let bmp_h = self.bitmap.height() as i64;
        let canvas_w = canvas.width() as i64;
        let canvas_h = canvas.height() as i64;
        let x_lo = if px > 0 { px } else { 0 };
        let x_hi = if px + bmp_w < canvas_w { px + bmp_w } else { canvas_w };
        let y_lo = if py > 0 { py } else { 0 };
        let y_hi = if py + bmp_h < canvas_h { py + bmp_h } else { canvas_h };
        let cap_w: u32 = if x_hi > x_lo { (x_hi - x_lo) as u32 } else { 0 };
        let cap_h: u32 = if y_hi > y_lo { (y_hi - y_lo) as u32 } else { 0 };
        let ghost rect_spec = capture_rect(s0, c0);
        assert(rect_spec.x == x_lo && rect_spec.y == y_lo && rect_spec.width == cap_w
            && rect_spec.height == cap_h);
        let mut saved: Vec<Color> = Vec::new();
        let mut y = y_lo;
        while y < y_hi
            invariant
                self@ == s0,
                self.wf(),
                c0.wf(),
                canvas.wf(),
                canvas@.same_frame(c0),
                c0.versions_advance_to(canvas@),
                px == s0.position.x,
                py == s0.position.y,
                bmp_w == s0.bitmap.width,
                bmp_h == s0.bitmap.height,
                canvas_w == c0.width,
                canvas_h == c0.height,
                x_lo == max_int(px as int, 0),
                x_hi == min_int(px + bmp_w, canvas_w as int),
                y_lo == max_int(py as int, 0),
                y_hi == min_int(py + bmp_h, canvas_h as int),
                cap_w == max_int(x_hi - x_lo, 0),
                rect_spec == capture_rect(s0, c0),
                rect_spec.x == x_lo && rect_spec.y == y_lo && rect_spec.width == cap_w,
                rect_spec.height == max_int(y_hi - y_lo, 0),
                y_lo <= y,
                y <= y_hi || y == y_lo,
                saved@.len() == (y - y_lo) * cap_w,
                canvas@.next_version <= c0.next_version + cap_w * (y - y_lo),
                keeps_tiles_outside(c0, rect_spec, canvas@),
                forall|a: int, b: int|
                    y_lo <= b < y && x_lo <= a < x_hi ==> #[trigger] grid_get(saved@, cap_w as int, x_lo as int, y_lo as int, a, b)
                        == c0.at(a, b),
                forall|a: int, b: int| #[trigger]
                    c0.in_bounds(a, b) ==> canvas@.at(a, b) == (if y_lo <= b < y && x_lo <= a < x_hi {
                        blit_at(s0, c0, a, b)
                    } else {
                        c0.at(a, b)
                    }),
                c0.next_version < u64::MAX ==> forall|a: int, b: int| #[trigger]
                    place_writes(s0, c0, a, b) && a <= i32::MAX && b <= i32::MAX && y_lo <= b < y
                        ==> c0.next_version < canvas@.tile(a / 32, b / 32),
            decreases y_hi - y,
        {
            let mut x = x_lo;
            while x < x_hi
                invariant
                    self@ == s0,
                    self.wf(),
                    c0.wf(),
                    canvas.wf(),
                    canvas@.same_frame(c0),
                    c0.versions_advance_to(canvas@),
                    px == s0.position.x,
                    py == s0.position.y,
                    bmp_w == s0.bitmap.width,
                    bmp_h == s0.bitmap.height,
                    canvas_w == c0.width,
                    canvas_h == c0.height,
                    x_lo == max_int(px as int, 0),
                    x_hi == min_int(px + bmp_w, canvas_w as int),
                    y_lo == max_int(py as int, 0),
                    y_hi == min_int(py + bmp_h, canvas_h as int),
                    cap_w == max_int(x_hi - x_lo, 0),
                    rect_spec == capture_rect(s0, c0),
                    rect_spec.x == x_lo && rect_spec.y == y_lo && rect_spec.width == cap_w,
                    y_lo <= y < y_hi,
                    x_lo <= x,
                    x <= x_hi || x == x_lo,
                    rect_spec.height == max_int(y_hi - y_lo, 0),
                    saved@.len() == (y - y_lo) * cap_w + (x - x_lo),
                    canvas@.next_version <= c0.next_version + cap_w * (y - y_lo) + (x - x_lo),
                    keeps_tiles_outside(c0, rect_spec, canvas@),
                    forall|a: int, b: int|
                        ((y_lo <= b < y && x_lo <= a < x_hi) || (b == y && x_lo <= a < x)) ==> #[trigger] grid_get(
                            saved@,
                            cap_w as int,
                            x_lo as int,
                            y_lo as int,
                            a,
                            b,
                        ) == c0.at(a, b),
                    forall|a: int, b: int| #[trigger]
                        c0.in_bounds(a, b) ==> canvas@.at(a, b) == (if (y_lo <= b < y && x_lo <= a < x_hi) || (b == y
                            && x_lo <= a < x) {
                            blit_at(s0, c0, a, b)
                        } else {
                            c0.at(a, b)
                        }),
                    c0.next_version < u64::MAX ==> forall|a: int, b: int| #[trigger]
                        place_writes(s0, c0, a, b) && a <= i32::MAX && b <= i32::MAX && (y_lo <= b < y || (b == y
                            && a < x)) ==> c0.next_version < canvas@.tile(a / 32, b / 32),
                decreases x_hi - x,
            {
                let cx = x as u32;
                let cy = y as u32;
                let under = match canvas.pixel(cx, cy) {
                    Some(c) => c,
                    None => Color::default(),
                };
                let ghost saved_before = saved@;
                proof {
                    assert(c0.in_bounds(x as int, y as int));
                }
                saved.push(under);
                let bx = (x - px) as u32;
                let by = (y - py) as u32;
                assert(bx == x - px && by == y - py);
                assert(rect_spec.contains(x as int, y as int));
                let ghost before = canvas@;
                match self.bitmap.pixel(bx, by) {
                    Some(color) => {
                        if color.a != 0 {
                            canvas.set_pixel(cx, cy, color);
                            proof {
                                law_set_pixel_then_read(before, cx, cy, color, canvas@);
                                lemma_set_pixel_advances(before, cx, cy, color, canvas@);
                                lemma_advance_trans(c0, before, canvas@);
                                lemma_set_pixel_inside_keeps_outside(c0, rect_spec, before, cx, cy, color, canvas@);
                                if cx <= i32::MAX && cy <= i32::MAX {
                                    lemma_set_pixel_stamps_its_tile(before, cx, cy, color, canvas@);
                                }
                            }
                        }
                    },
                    None => {},
                }
                assert(canvas@.at(x as int, y as int) == blit_at(s0, c0, x as int, y as int));
                proof {
                    assert forall|a: int, b: int| #[trigger] c0.in_bounds(a, b) && (a != x || b != y) implies canvas@.at(a, b)
                        == before.at(a, b) by {
                        assert(before.in_bounds(a, b));
                    }
                    if c0.next_version < u64::MAX {
                        assert forall|a: int, b: int| #[trigger]
                            place_writes(s0, c0, a, b) && a <= i32::MAX && b <= i32::MAX && (y_lo <= b < y || (b == y
                                && a < x + 1)) implies c0.next_version < canvas@.tile(a / 32, b / 32) by {
                            lemma_capture_rect_in_canvas(s0, c0, a, b);
                            assert(before.in_grid(a / 32, b / 32));
                            if a == x && b == y {
                                assert(bx == a - s0.position.x && by == b - s0.position.y);
                            }
                        }
                    }
                    assert forall|a: int, b: int|
                        ((y_lo <= b < y && x_lo <= a < x_hi) || (b == y && x_lo <= a < x + 1)) implies #[trigger] grid_get(
                        saved@,
                        cap_w as int,
                        x_lo as int,
                        y_lo as int,
                        a,
                        b,
                    ) == c0.at(a, b) by {
                        if !(b == y && a == x) {
                            if b < y {
                                lemma_grid_index_bounds(cap_w as int, (y - y_lo) as int, a - x_lo, b - y_lo);
                            }
                            assert(grid_get(saved_before, cap_w as int, x_lo as int, y_lo as int, a, b) == c0.at(a, b));
                        }
                    }
                }
                x += 1;
            }
            proof {
                assert((y + 1 - y_lo) * cap_w == (y - y_lo) * cap_w + cap_w) by (nonlinear_arith);
                lemma_rows_step(cap_w as int, y - y_lo);
            }
            y += 1;
        }
        let rect = Rect::new(x_lo as i32, y_lo as i32, cap_w, cap_h);
        let version = canvas.region_version(rect);
        proof {
            if y_hi <= y_lo {
                assert(y == y_lo);
                assert((y - y_lo) * cap_w == 0) by (nonlinear_arith)
                    requires
                        y == y_lo,
                ;
            } else {
                assert(y == y_hi);
                assert((y - y_lo) * cap_w == cap_w * cap_h) by (nonlinear_arith)
                    requires
                        y - y_lo == cap_h,
                ;
            }
            assert(rect == rect_spec);
            lemma_rows_within_area(c0, cap_w as int, y - y_lo);
            assert forall|a: int, b: int| #[trigger] c0.in_bounds(a, b) implies canvas@.at(a, b) == blit_at(s0, c0, a, b) by {
            }
            assert forall|a: int, b: int| #[trigger] rect.contains(a, b) implies grid_get(
                saved@,
                cap_w as int,
                x_lo as int,
                y_lo as int,
                a,
                b,
            ) == c0.at(a, b) by {
            }
        }
        self.last_draw = Some(DrawnFootprint { canvas_id: canvas.id(), rect, version, pixels: saved });
    }
}

} // verus!
